use tren::cli::{
    add_suffix, suffix_fallback, suffixed_name, transform_job_cli, JobCLIArgs, DEFAULT_API_BASE,
    DEFAULT_SYSTEM_PROMPT, DEFAULT_USER_PROMPT,
};

fn args() -> JobCLIArgs {
    JobCLIArgs {
        src: "zh".to_string(),
        tar: "en".to_string(),
        input: "docs/book.md".to_string(),
        inter_sheet: None,
        output: None,
        model: "openai/gpt-oss-20b".to_string(),
        system: None,
        user: None,
        parallel: 4,
    }
}

#[test]
fn a_name_is_stem_suffix_and_extension() {
    assert_eq!(suffixed_name(Some("book".into()), Some("md".into()), "-translated", None), "book-translated.md");
    assert_eq!(suffixed_name(Some("book".into()), Some("md".into()), "-inter", Some("csv".into())), "book-inter.csv");
    assert_eq!(suffixed_name(Some("book".into()), None, "-inter", Some("csv".into())), "book-inter.csv");
    assert_eq!(suffixed_name(Some("book".into()), None, "-translated", None), "book-translated");
    assert_eq!(suffixed_name(None, None, "-x", None), "-x");
}

#[test]
fn a_given_path_is_kept() {
    let given = Some("elsewhere/out.txt".to_string());
    assert_eq!(
        suffix_fallback(&given, &"docs/book.md".to_string(), "-translated".to_string(), None),
        "elsewhere/out.txt"
    );
}

#[test]
fn a_missing_path_is_derived_from_the_input() {
    let input = "docs/book.md".to_string();
    assert_eq!(suffix_fallback(&None, &input, "-translated".to_string(), None), "docs/book-translated.md");
    assert_eq!(
        suffix_fallback(&None, &input, "-inter".to_string(), Some("csv".to_string())),
        "docs/book-inter.csv"
    );
    assert_eq!(suffix_fallback(&None, &"plain".to_string(), "-t".to_string(), None), "plain-t");
    assert_eq!(add_suffix(&"./assets/chinese-text.md".to_string(), "-translate".to_string()), "./assets/chinese-text-translate.md");
    assert_eq!(add_suffix(&"archive.tar.gz".to_string(), "-v2".to_string()), "archive.tar-v2.gz");
}

#[test]
fn defaults_fill_what_the_command_line_leaves_open() {
    let job = transform_job_cli(args(), None, None);
    assert_eq!(job.src, "zh");
    assert_eq!(job.tar, "en");
    assert_eq!(job.input, "docs/book.md");
    assert_eq!(job.inter_sheet, "docs/book-inter.csv");
    assert_eq!(job.output, "docs/book-translated.md");
    assert_eq!(job.system, DEFAULT_SYSTEM_PROMPT);
    assert_eq!(job.user, DEFAULT_USER_PROMPT);
    assert_eq!(job.llm.url, DEFAULT_API_BASE);
    assert_eq!(job.llm.url, "https://api.openai.com/v1");
    assert_eq!(job.llm.api_key, None);
    assert_eq!(job.llm.model, "openai/gpt-oss-20b");
    assert_eq!(job.parallel, 4);
}

#[test]
fn what_is_given_wins_over_the_defaults() {
    let mut given = args();
    given.inter_sheet = Some("sheet.csv".to_string());
    given.output = Some("out.md".to_string());
    given.system = Some("be brief".to_string());
    given.user = Some("{{ source_text }}".to_string());
    let job = transform_job_cli(given, Some("http://localhost:8000/v1".to_string()), Some("key".to_string()));
    assert_eq!(job.inter_sheet, "sheet.csv");
    assert_eq!(job.output, "out.md");
    assert_eq!(job.system, "be brief");
    assert_eq!(job.user, "{{ source_text }}");
    assert_eq!(job.llm.url, "http://localhost:8000/v1");
    assert_eq!(job.llm.api_key, Some("key".to_string()));
}

#[test]
fn a_suffix_goes_between_stem_and_extension() {
    assert_eq!(add_suffix(&"docs/book.md".to_string(), "-translated".to_string()), "docs/book-translated.md");
    assert_eq!(add_suffix(&"notes".to_string(), "-x".to_string()), "notes-x");
    assert_eq!(add_suffix(&"dir.d/file".to_string(), "-x".to_string()), "dir.d/file-x");
    assert_eq!(add_suffix(&".bashrc".to_string(), "-x".to_string()), ".bashrc-x");
    assert_eq!(add_suffix(&"a/b/c.tar.gz".to_string(), "".to_string()), "a/b/c.tar.gz");
    assert_eq!(add_suffix(&"".to_string(), "-x".to_string()), "-x");
}
