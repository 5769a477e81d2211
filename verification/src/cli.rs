//! The configuration of one translation job, and how the command line's
//! arguments become one.
use vstd::prelude::*;
use vstd::string::StringExecFns;

verus! {

/// The system prompt of a job that names none.
pub const DEFAULT_SYSTEM_PROMPT: &'static str =
    "You are an expert translator. Please translate {{ source_language }} into {{ target_language }}. The user will submit sentences or paragraphs with some contexts; please only translate the intended text into {{ target_language }}.

- If there are symbols {{ special_tokens | join(\" , \") }}, keep the symbol intact on the result text in the correct position.
- Do not give any alternative translation or including any previous context, notes or discussion.";

/// The user prompt of a job that names none.
pub const DEFAULT_USER_PROMPT: &'static str = "
{%- set previous_chunks = previous_chunks[-8:] -%}
{%- if previous_chunks -%}
Given the previous context:

{{ previous_chunks | join(\"\\n\\n\") }}

Only translate the following text:

{% endif -%}
{{ source_text }}";

/// Where the chat-completion service is reached when nothing else is said.
pub const DEFAULT_API_BASE: &'static str = "https://api.openai.com/v1";

/// The chat-completion service and the model asked of it.
#[derive(Debug, Clone, PartialEq, Eq)]
pub struct LLM {
    pub url: String,
    pub api_key: Option<String>,
    pub model: String,
}

/// What the command line says of one job. Paths are held as text.
#[derive(Debug, Clone, PartialEq, Eq)]
pub struct JobCLIArgs {
    /// Source language.
    pub src: String,
    /// Target language.
    pub tar: String,
    /// Input file.
    pub input: String,
    /// Intermediate sheet for inspecting the translation.
    pub inter_sheet: Option<String>,
    /// Output file.
    pub output: Option<String>,
    /// Model name.
    pub model: String,
    /// System prompt template.
    pub system: Option<String>,
    /// User prompt template.
    pub user: Option<String>,
    /// Maximum number of requests in flight.
    pub parallel: usize,
}

/// One translation job, every choice made.
#[derive(Debug, Clone, PartialEq, Eq)]
pub struct Job {
    pub src: String,
    pub tar: String,
    pub input: String,
    pub inter_sheet: String,
    pub output: String,
    pub llm: LLM,
    pub system: String,
    pub user: String,
    pub parallel: usize,
}

/// What `Path::parent` gives for a path: the path without its final
/// component, where it has one.
pub uninterp spec fn parent_of(path: Seq<char>) -> Option<Seq<char>>;

/// What `Path::file_name` gives for a path: its final component, where it
/// has one.
pub uninterp spec fn file_name_of(path: Seq<char>) -> Option<Seq<char>>;

/// What `Path::file_stem` gives for a path: the file name without its
/// extension, where there is a file name.
pub uninterp spec fn file_stem_of(path: Seq<char>) -> Option<Seq<char>>;

/// What `Path::extension` gives for a path: the extension of the file
/// name, where it has one.
pub uninterp spec fn extension_of(path: Seq<char>) -> Option<Seq<char>>;

/// What `Path::join` gives for a directory and a name: the path of the name
/// below the directory.
pub uninterp spec fn joined_path(parent: Seq<char>, name: Seq<char>) -> Seq<char>;

/// The text of `value`, where there is one.
pub open spec fn option_text(value: Option<String>) -> Option<Seq<char>> {
    match value {
        Some(text) => Some(text@),
        None => None,
    }
}

/// Calls `Path::parent`. Taken on trust: the result is read off the text
/// of the path and nothing else, so the same path has the same parent. How a
/// path divides is the matter of the platform that the library is built for,
/// and nothing is claimed of it.
#[verifier::external_body]
fn path_parent(path: &str) -> (parent: Option<String>)
    ensures
        option_text(parent) == parent_of(path@),
{
    match std::path::Path::new(path).parent() {
        Some(parent) => Some(parent.to_string_lossy().into_owned()),
        None => None,
    }
}

/// Calls `Path::file_name`. Taken on trust: the result is read off the
/// text of the path and nothing else.
#[verifier::external_body]
fn path_file_name(path: &str) -> (name: Option<String>)
    ensures
        option_text(name) == file_name_of(path@),
{
    match std::path::Path::new(path).file_name() {
        Some(name) => Some(name.to_string_lossy().into_owned()),
        None => None,
    }
}

/// Calls `Path::file_stem`. Taken on trust: the result is read off the
/// text of the path and nothing else.
#[verifier::external_body]
fn path_file_stem(path: &str) -> (stem: Option<String>)
    ensures
        option_text(stem) == file_stem_of(path@),
{
    match std::path::Path::new(path).file_stem() {
        Some(stem) => Some(stem.to_string_lossy().into_owned()),
        None => None,
    }
}

/// Calls `Path::extension`. Taken on trust: the result is read off the
/// text of the path and nothing else.
#[verifier::external_body]
fn path_extension(path: &str) -> (extension: Option<String>)
    ensures
        option_text(extension) == extension_of(path@),
{
    match std::path::Path::new(path).extension() {
        Some(extension) => Some(extension.to_string_lossy().into_owned()),
        None => None,
    }
}

/// Calls `Path::join`. Taken on trust: the result is read off the two
/// texts and nothing else.
#[verifier::external_body]
fn path_join(parent: &str, name: &str) -> (path: String)
    ensures
        path@ == joined_path(parent@, name@),
{
    std::path::Path::new(parent).join(name).to_string_lossy().into_owned()
}

/// The text, or the empty text where there is none.
pub open spec fn text_or_empty(value: Option<Seq<char>>) -> Seq<char> {
    match value {
        Some(text) => text,
        None => Seq::empty(),
    }
}

/// The extension that a derived name gets: the one asked for, else the
/// file's own.
pub open spec fn chosen_extension(overwritten: Option<Seq<char>>, own: Option<Seq<char>>) -> Option<
    Seq<char>,
> {
    match overwritten {
        Some(extension) => Some(extension),
        None => own,
    }
}

/// The name derived from a file's stem: the stem, the suffix, and a dot
/// with the extension where there is one.
pub open spec fn suffixed(stem: Seq<char>, suffix: Seq<char>, extension: Option<Seq<char>>) -> Seq<
    char,
> {
    match extension {
        Some(extension) => (stem + suffix).push('.') + extension,
        None => stem + suffix,
    }
}

/// Builds the file name that stands in for a path the user did not give:
/// the template's stem, then `suffix`, then the extension, which is
/// `overwritten_extension` where that is given and the template's own
/// otherwise.
pub fn suffixed_name(
    stem: Option<String>,
    extension: Option<String>,
    suffix: &str,
    overwritten_extension: Option<String>,
) -> (name: String)
    ensures
        name@ == suffixed(
            text_or_empty(option_text(stem)),
            suffix@,
            chosen_extension(option_text(overwritten_extension), option_text(extension)),
        ),
{
    let mut name = match stem {
        Some(stem) => stem,
        None => String::new(),
    };
    name.append(suffix);
    let chosen = match overwritten_extension {
        Some(extension) => Some(extension),
        None => extension,
    };
    if let Some(extension) = chosen {
        name.push('.');
        name.append(extension.as_str());
    }
    name
}

/// The path that stands beside `template` under a derived name: the
/// directory is the template's; the name is made of the stem of the
/// template's file name, `suffix`, and the extension, which is `overwritten`
/// where that is given and that of the template's file name otherwise. A
/// template without directory or file name counts as having an empty one.
pub open spec fn derived_path(
    template: Seq<char>,
    suffix: Seq<char>,
    overwritten: Option<Seq<char>>,
) -> Seq<char> {
    let file_name = text_or_empty(file_name_of(template));
    joined_path(
        text_or_empty(parent_of(template)),
        suffixed(
            text_or_empty(file_stem_of(file_name)),
            suffix,
            chosen_extension(overwritten, extension_of(file_name)),
        ),
    )
}

/// The path `src` where it is given; else the path derived from `template`
/// by [`suffixed_name`], in the template's directory.
pub fn suffix_fallback(
    src: &Option<String>,
    template: &String,
    suffix: String,
    overwritten_extension: Option<String>,
) -> (path: String)
    ensures
        path@ == (match src {
            Some(given) => given@,
            None => derived_path(template@, suffix@, option_text(overwritten_extension)),
        }),
{
    match src {
        Some(given) => given.clone(),
        None => {
            let parent = match path_parent(template.as_str()) {
                Some(parent) => parent,
                None => String::new(),
            };
            let file_name = match path_file_name(template.as_str()) {
                Some(name) => name,
                None => String::new(),
            };
            let stem = path_file_stem(file_name.as_str());
            let extension = path_extension(file_name.as_str());
            let name = suffixed_name(stem, extension, suffix.as_str(), overwritten_extension);
            path_join(parent.as_str(), name.as_str())
        },
    }
}

/// The path of `src` with `suffix` put between its stem and its
/// extension: in the directory of `src`, the file whose name is the stem of
/// the file name of `src`, then `suffix`, then a dot and the extension of
/// `src` where it has one.
pub fn add_suffix(src: &String, suffix: String) -> (path: String)
    ensures
        path@ == derived_path(src@, suffix@, None),
{
    suffix_fallback(&None, src, suffix, None)
}

/// Makes the job that the command line asks for. `api_base` and `api_key`
/// are what the environment says of the service, if anything.
pub fn transform_job_cli(job_cli: JobCLIArgs, api_base: Option<String>, api_key: Option<String>) -> (job:
    Job)
    ensures
        job.src == job_cli.src,
        job.tar == job_cli.tar,
        job.input == job_cli.input,
        job.parallel == job_cli.parallel,
        job.llm.model == job_cli.model,
        job.llm.api_key == api_key,
        job.llm.url@ == (match api_base {
            Some(url) => url@,
            None => DEFAULT_API_BASE@,
        }),
        job.system@ == (match job_cli.system {
            Some(system) => system@,
            None => DEFAULT_SYSTEM_PROMPT@,
        }),
        job.user@ == (match job_cli.user {
            Some(user) => user@,
            None => DEFAULT_USER_PROMPT@,
        }),
        job.inter_sheet@ == (match job_cli.inter_sheet {
            Some(path) => path@,
            None => derived_path(job_cli.input@, "-inter"@, Some("csv"@)),
        }),
        job.output@ == (match job_cli.output {
            Some(path) => path@,
            None => derived_path(job_cli.input@, "-translated"@, None),
        }),
{
    let inter_sheet = suffix_fallback(
        &job_cli.inter_sheet,
        &job_cli.input,
        String::from_str("-inter"),
        Some(String::from_str("csv")),
    );
    let output = suffix_fallback(
        &job_cli.output,
        &job_cli.input,
        String::from_str("-translated"),
        None,
    );
    let system = match job_cli.system {
        Some(system) => system,
        None => String::from_str(DEFAULT_SYSTEM_PROMPT),
    };
    let user = match job_cli.user {
        Some(user) => user,
        None => String::from_str(DEFAULT_USER_PROMPT),
    };
    let url = match api_base {
        Some(url) => url,
        None => String::from_str(DEFAULT_API_BASE),
    };
    Job {
        src: job_cli.src,
        tar: job_cli.tar,
        input: job_cli.input,
        inter_sheet,
        output,
        llm: LLM { url, api_key, model: job_cli.model },
        system,
        user,
        parallel: job_cli.parallel,
    }
}

} // verus!
