//! Translating a queue of chunks: what is asked of the chat-completion
//! service for each unit, which answers are accepted, and how the answers
//! come back in the order of the queue.
use vstd::prelude::*;
use vstd::string::StringExecFns;
use crate::chunk::{TOK_SEP, TaskType};
use crate::chunk::fragment::{count_separators, separators, text_pairs, texts};
use crate::cli::Job;
use crate::translate::template::template_accepted;

pub mod batch;
pub mod template;

verus! {

/// How many of the units before it a unit of the main queue is shown as
/// context.
pub const BACK_CHUNKS: usize = 32;

/// The mark by which the prompts speak of the separator: the separator
/// itself, as a text.
pub const SPECIAL_TOKEN: &'static str = "\u{10459}";

/// Why a batch of units was not translated.
#[derive(Debug, Clone, PartialEq, Eq)]
pub enum TranslateError {
    /// A prompt template could not be rendered; the text says why.
    Template(String),
    /// The service answered without a single choice.
    NoChoices,
    /// The first choice of the answer holds no text.
    NoContent,
    /// The call to the service failed; the text is what the caller was told.
    Transport(String),
    /// Units of the batch are still waiting or in flight.
    Unfinished,
}

/// What is asked of the service for one unit. One answer is asked for.
#[derive(Debug, Clone, PartialEq, Eq)]
pub struct Request {
    pub model: String,
    pub system: String,
    pub user: String,
}

/// The character has the Unicode property White_Space: it is one of the
/// twenty-five characters that the Unicode Character Database lists under
/// that name.
pub open spec fn white_space(c: char) -> bool {
    let code = c as u32;
    ||| 0x0009 <= code <= 0x000D
    ||| code == 0x0020
    ||| code == 0x0085
    ||| code == 0x00A0
    ||| code == 0x1680
    ||| 0x2000 <= code <= 0x200A
    ||| code == 0x2028
    ||| code == 0x2029
    ||| code == 0x202F
    ||| code == 0x205F
    ||| code == 0x3000
}

/// Taken on trust of `char::is_whitespace`: it tells whether the
/// character has the Unicode property White_Space.
pub assume_specification[ char::is_whitespace ](c: char) -> (b: bool)
    ensures
        b == white_space(c),
;

/// The rendering of a template by a fresh `minijinja::Environment`, with a
/// context that binds each name of `scalars` to a text and each name of
/// `lists` to a list of texts; `None` where rendering fails.
pub uninterp spec fn rendered(
    template: Seq<char>,
    scalars: Seq<(Seq<char>, Seq<char>)>,
    lists: Seq<(Seq<char>, Seq<Seq<char>>)>,
) -> Option<Seq<char>>;

/// `minijinja::Error`: why a template was not rendered. Nothing inside it
/// is known here.
#[verifier::external_type_specification]
#[verifier::external_body]
pub struct ExTemplateError(minijinja::Error);

/// The names and lists of texts of `lists`.
pub open spec fn lists_view(lists: Seq<(String, Vec<String>)>) -> Seq<(Seq<char>, Seq<Seq<char>>)> {
    lists.map_values(|pair: (String, Vec<String>)| (pair.0@, texts(pair.1@)))
}

/// Calls `minijinja::Environment::render_str` on a fresh environment,
/// which parses `template` and renders it with the given names bound; a
/// later binding of a name replaces an earlier one. Taken on trust: on a
/// template that is taken the call returns, and whether rendering succeeds,
/// and the text it gives, depend on the template and the bindings alone.
/// Other templates are left out: the engine can stop the program on some
/// of them, as on a slice that steps backwards or a remainder by zero.
#[verifier::external_body]
fn render_template(
    template: &str,
    scalars: &Vec<(String, String)>,
    lists: &Vec<(String, Vec<String>)>,
) -> (r: Result<String, minijinja::Error>)
    requires
        template_accepted(template@),
    ensures
        match rendered(template@, text_pairs(scalars@), lists_view(lists@)) {
            Some(text) => r is Ok && r->Ok_0@ == text,
            None => r is Err,
        },
{
    let mut context = std::collections::BTreeMap::new();
    for (name, text) in scalars.iter() {
        context.insert(name.as_str(), minijinja::Value::from_serialize(text));
    }
    for (name, list) in lists.iter() {
        context.insert(name.as_str(), minijinja::Value::from_serialize(list));
    }
    minijinja::Environment::new().render_str(template, context)
}

/// Calls `to_string` on a `minijinja::Error`. Nothing is claimed of the
/// text.
#[verifier::external_body]
fn template_error_text(error: &minijinja::Error) -> String {
    error.to_string()
}

/// Every character of `text` is white space.
pub open spec fn blank(text: Seq<char>) -> bool {
    forall|i: int| 0 <= i < text.len() ==> white_space(#[trigger] text[i])
}

/// Tells whether `payload` is empty once trimmed. Such a unit needs no
/// translation.
pub fn is_blank(payload: &str) -> (b: bool)
    ensures
        b == blank(payload@),
{
    for c in it: payload.chars()
        invariant
            it.seq() == payload@,
            blank(payload@.take(it.index() as int)),
    {
        if !c.is_whitespace() {
            assert(!white_space(payload@[it.index() as int]));
            return false;
        }
        assert forall|i: int| 0 <= i < it.index() + 1 implies white_space(
            #[trigger] payload@.take(it.index() + 1)[i],
        ) by {
            if i < it.index() {
                assert(payload@.take(it.index() as int)[i] == payload@[i]);
            }
        }
    }
    assert(payload@.take(payload@.len() as int) =~= payload@);
    true
}

/// The answer has as many separators as the unit it answers.
pub open spec fn intact(unit: Seq<char>, answer: Seq<char>) -> bool {
    separators(unit) == separators(answer)
}

/// The integrity check: compares the separators of the unit with those of
/// the answer.
pub fn is_intact(unit: &str, answer: &str) -> (b: bool)
    ensures
        b == intact(unit@, answer@),
{
    count_separators(unit) == count_separators(answer)
}

/// The text of an answer: that of its first choice. `contents` holds, for
/// each choice of the answer, its text if it has one.
pub fn first_answer(contents: Vec<Option<String>>) -> (r: Result<String, TranslateError>)
    ensures
        contents@.len() == 0 ==> r == Err::<String, TranslateError>(TranslateError::NoChoices),
        contents@.len() > 0 && contents@[0] is None ==> r == Err::<String, TranslateError>(
            TranslateError::NoContent,
        ),
        contents@.len() > 0 && contents@[0] is Some ==> r is Ok && r->Ok_0@
            == contents@[0]->Some_0@,
{
    if contents.len() == 0 {
        return Err(TranslateError::NoChoices);
    }
    match &contents[0] {
        Some(text) => Ok(text.clone()),
        None => Err(TranslateError::NoContent),
    }
}

/// How many earlier units a unit of the queue `role` is shown.
pub open spec fn back_chunks(role: TaskType) -> int {
    match role {
        TaskType::Main => BACK_CHUNKS as int,
        TaskType::Side => 0,
    }
}

/// The context of unit `index`: the units before it, as they were
/// extracted, at most [`BACK_CHUNKS`] of them for the main queue and none for
/// the side queue.
pub open spec fn context_window(queue: Seq<Seq<char>>, index: int, role: TaskType) -> Seq<
    Seq<char>,
> {
    let first = if index >= back_chunks(role) {
        index - back_chunks(role)
    } else {
        0
    };
    queue.subrange(first, index)
}

/// The units that the prompt for unit `index` shows as previous context.
pub fn previous_chunks(queue: &Vec<String>, index: usize, role: TaskType) -> (window: Vec<String>)
    requires
        index <= queue@.len(),
    ensures
        texts(window@) == context_window(texts(queue@), index as int, role),
{
    let back: usize = match role {
        TaskType::Main => BACK_CHUNKS,
        TaskType::Side => 0,
    };
    let first: usize = if index >= back {
        index - back
    } else {
        0
    };
    let mut window: Vec<String> = Vec::new();
    let mut i: usize = first;
    while i < index
        invariant
            first <= i <= index <= queue@.len(),
            texts(window@) == texts(queue@).subrange(first as int, i as int),
        decreases index - i,
    {
        let ghost before = texts(window@);
        window.push(queue[i].clone());
        assert(texts(window@) =~= before.push(queue@[i as int]@));
        assert(texts(queue@)[i as int] == queue@[i as int]@);
        assert(before.push(queue@[i as int]@) =~= texts(queue@).subrange(first as int, i + 1));
        i = i + 1;
    }
    window
}

/// The special token is the separator and nothing else.
pub proof fn lemma_special_token()
    ensures
        SPECIAL_TOKEN@ == seq![TOK_SEP],
{
    reveal_strlit("\u{10459}");
    assert(SPECIAL_TOKEN@ =~= seq![TOK_SEP]);
}

/// The bindings of the system prompt: the two languages and the list of
/// special tokens.
pub open spec fn system_scalars(job: Job) -> Seq<(Seq<char>, Seq<char>)> {
    seq![("source_language"@, job.src@), ("target_language"@, job.tar@)]
}

pub open spec fn system_lists() -> Seq<(Seq<char>, Seq<Seq<char>>)> {
    seq![("special_tokens"@, seq![seq![TOK_SEP]])]
}

/// The bindings of the user prompt: the unit itself and its context.
pub open spec fn user_scalars(unit: Seq<char>) -> Seq<(Seq<char>, Seq<char>)> {
    seq![("source_text"@, unit)]
}

pub open spec fn user_lists(window: Seq<Seq<char>>) -> Seq<(Seq<char>, Seq<Seq<char>>)> {
    seq![("previous_chunks"@, window)]
}

/// The system prompt of a job, rendered.
pub open spec fn system_prompt(job: Job) -> Option<Seq<char>> {
    rendered(job.system@, system_scalars(job), system_lists())
}

/// The user prompt for unit `index` of `queue`, rendered.
pub open spec fn user_prompt(job: Job, queue: Seq<Seq<char>>, index: int, role: TaskType) -> Option<
    Seq<char>,
> {
    rendered(
        job.user@,
        user_scalars(queue[index]),
        user_lists(context_window(queue, index, role)),
    )
}

/// Builds what is asked of the service for unit `index` of `queue`: the
/// job's two templates rendered, the system prompt with the languages and the
/// special token, the user prompt with the unit and its context. Both
/// templates have to be taken: [`template::is_accepted`] tells.
pub fn unit_request(job: &Job, queue: &Vec<String>, index: usize, role: TaskType) -> (r: Result<
    Request,
    TranslateError,
>)
    requires
        index < queue@.len(),
        template_accepted(job.system@),
        template_accepted(job.user@),
    ensures
        match (system_prompt(*job), user_prompt(*job, texts(queue@), index as int, role)) {
            (Some(system), Some(user)) => {
                &&& r is Ok
                &&& r->Ok_0.model@ == job.llm.model@
                &&& r->Ok_0.system@ == system
                &&& r->Ok_0.user@ == user
            },
            _ => r matches Err(TranslateError::Template(_)),
        },
{
    let mut scalars: Vec<(String, String)> = Vec::new();
    scalars.push((String::from_str("source_language"), job.src.clone()));
    scalars.push((String::from_str("target_language"), job.tar.clone()));
    let mut tokens: Vec<String> = Vec::new();
    proof {
        lemma_special_token();
    }
    tokens.push(String::from_str(SPECIAL_TOKEN));
    let mut lists: Vec<(String, Vec<String>)> = Vec::new();
    lists.push((String::from_str("special_tokens"), tokens));
    assert(text_pairs(scalars@) =~= system_scalars(*job));
    assert(texts(tokens@) =~= seq![seq![TOK_SEP]]);
    assert(lists_view(lists@) =~= system_lists());
    let system = match render_template(job.system.as_str(), &scalars, &lists) {
        Ok(text) => text,
        Err(error) => {
            return Err(TranslateError::Template(template_error_text(&error)));
        },
    };
    let window = previous_chunks(queue, index, role);
    let mut scalars: Vec<(String, String)> = Vec::new();
    scalars.push((String::from_str("source_text"), queue[index].clone()));
    let mut lists: Vec<(String, Vec<String>)> = Vec::new();
    lists.push((String::from_str("previous_chunks"), window));
    assert(text_pairs(scalars@) =~= user_scalars(texts(queue@)[index as int]));
    assert(lists_view(lists@) =~= user_lists(
        context_window(texts(queue@), index as int, role),
    ));
    let user = match render_template(job.user.as_str(), &scalars, &lists) {
        Ok(text) => text,
        Err(error) => {
            return Err(TranslateError::Template(template_error_text(&error)));
        },
    };
    Ok(Request { model: job.llm.model.clone(), system, user })
}

} // verus!
