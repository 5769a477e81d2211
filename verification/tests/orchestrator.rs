use tren::chunk::{TaskType, TOK_SEP};
use tren::cli::{Job, LLM};
use tren::translate::batch::{restore_order, Batch, Step, Verdict};
use tren::translate::template::is_accepted;
use tren::translate::{
    first_answer, is_blank, is_intact, previous_chunks, unit_request, TranslateError, BACK_CHUNKS,
    SPECIAL_TOKEN,
};

fn job_with(system: &str, user: &str) -> Job {
    Job {
        src: "Chinese".to_string(),
        tar: "English".to_string(),
        input: "in.md".to_string(),
        inter_sheet: "in-inter.csv".to_string(),
        output: "in-translated.md".to_string(),
        llm: LLM { url: "http://localhost".to_string(), api_key: None, model: "m".to_string() },
        system: system.to_string(),
        user: user.to_string(),
        parallel: 3,
    }
}

fn units(n: usize) -> Vec<String> {
    (0..n).map(|i| format!("u{}", i)).collect()
}

#[test]
fn blank_units_are_recognised() {
    assert!(is_blank(""));
    assert!(is_blank(" \t\n\u{3000}"));
    assert!(!is_blank("  x "));
    assert!(!is_blank(&TOK_SEP.to_string()));
}

#[test]
fn integrity_compares_separator_counts() {
    let two = format!("a{}b{}c", TOK_SEP, TOK_SEP);
    let also_two = format!("{}x{}", TOK_SEP, TOK_SEP);
    let one = format!("a{}bc", TOK_SEP);
    assert!(is_intact(&two, &also_two));
    assert!(!is_intact(&two, &one));
    assert!(is_intact("plain", "translated"));
}

#[test]
fn the_first_choice_is_the_answer() {
    assert_eq!(first_answer(vec![]), Err(TranslateError::NoChoices));
    assert_eq!(first_answer(vec![None, Some("x".to_string())]), Err(TranslateError::NoContent));
    assert_eq!(
        first_answer(vec![Some("first".to_string()), Some("second".to_string())]),
        Ok("first".to_string())
    );
    assert_eq!(first_answer(vec![Some(String::new())]), Ok(String::new()));
}

#[test]
fn main_units_see_a_bounded_window_and_side_units_none() {
    let queue = units(40);
    assert_eq!(BACK_CHUNKS, 32);
    assert!(previous_chunks(&queue, 0, TaskType::Main).is_empty());
    assert_eq!(previous_chunks(&queue, 3, TaskType::Main), units(3));
    assert_eq!(previous_chunks(&queue, 32, TaskType::Main), units(32));
    assert_eq!(previous_chunks(&queue, 35, TaskType::Main), queue[3..35].to_vec());
    assert_eq!(previous_chunks(&queue, 40, TaskType::Main), queue[8..40].to_vec());
    assert!(previous_chunks(&queue, 35, TaskType::Side).is_empty());
}

#[test]
fn prompts_are_rendered_from_the_templates() {
    let job = job_with(
        "{{ source_language }}>{{ target_language }} keep {{ special_tokens | join(\", \") }}",
        "[{{ previous_chunks | join(\" \") }}]{{ source_text }}",
    );
    let queue = units(3);
    let request = unit_request(&job, &queue, 2, TaskType::Main).unwrap();
    assert_eq!(request.model, "m");
    assert_eq!(request.system, format!("Chinese>English keep {}", SPECIAL_TOKEN));
    assert_eq!(request.user, "[u0 u1]u2");
    let request = unit_request(&job, &queue, 2, TaskType::Side).unwrap();
    assert_eq!(request.user, "[]u2");
}

#[test]
fn default_templates_render() {
    let job = job_with(tren::cli::DEFAULT_SYSTEM_PROMPT, tren::cli::DEFAULT_USER_PROMPT);
    let queue = units(12);
    let first = unit_request(&job, &queue, 0, TaskType::Main).unwrap();
    assert_eq!(first.user, "u0");
    assert!(first.system.starts_with("You are an expert translator. Please translate Chinese into English."));
    assert!(first.system.contains(&format!("If there are symbols {}, keep", SPECIAL_TOKEN)));
    let later = unit_request(&job, &queue, 11, TaskType::Main).unwrap();
    assert_eq!(
        later.user,
        "Given the previous context:\n\nu3\n\nu4\n\nu5\n\nu6\n\nu7\n\nu8\n\nu9\n\nu10\n\nOnly translate the following text:\n\nu11"
    );
}

#[test]
fn a_broken_template_is_an_error() {
    let job = job_with("{% if previous_chunks %}never closed", "{{ source_text }}");
    assert!(is_accepted(&job.system));
    assert!(matches!(
        unit_request(&job, &units(1), 0, TaskType::Main),
        Err(TranslateError::Template(_))
    ));
    let job = job_with("fine", "{% endif %}");
    assert!(is_accepted(&job.user));
    assert!(matches!(
        unit_request(&job, &units(1), 0, TaskType::Main),
        Err(TranslateError::Template(_))
    ));
}

#[test]
fn answers_tagged_in_any_order_come_out_in_queue_order() {
    let tagged = vec![
        (4, "t4".to_string()),
        (3, "t3".to_string()),
        (2, "t2".to_string()),
        (1, "t1".to_string()),
        (0, "t0".to_string()),
    ];
    assert_eq!(restore_order(tagged, 5), vec!["t0", "t1", "t2", "t3", "t4"]);
    assert_eq!(restore_order(vec![(1, "b".to_string()), (7, "x".to_string())], 3), vec!["", "b", ""]);
}

#[test]
fn five_units_three_at_a_time_answered_in_reverse() {
    let mut batch = Batch::new(units(5), TaskType::Main, 3);
    assert_eq!(batch.next(), Step::Dispatch(0));
    assert_eq!(batch.next(), Step::Dispatch(1));
    assert_eq!(batch.next(), Step::Dispatch(2));
    assert_eq!(batch.next(), Step::Wait);
    assert_eq!(batch.complete(2, Ok("t2".to_string())), Verdict::Accepted);
    assert_eq!(batch.complete(1, Ok("t1".to_string())), Verdict::Accepted);
    assert_eq!(batch.next(), Step::Dispatch(3));
    assert_eq!(batch.next(), Step::Dispatch(4));
    assert_eq!(batch.next(), Step::Wait);
    assert_eq!(batch.complete(4, Ok("t4".to_string())), Verdict::Accepted);
    assert_eq!(batch.complete(3, Ok("t3".to_string())), Verdict::Accepted);
    assert_eq!(batch.next(), Step::Wait);
    assert_eq!(batch.complete(0, Ok("t0".to_string())), Verdict::Accepted);
    assert_eq!(batch.next(), Step::Finished);
    assert_eq!(batch.finish(), Ok(vec!["t0".to_string(), "t1".into(), "t2".into(), "t3".into(), "t4".into()]));
}

#[test]
fn an_answer_that_echoes_the_unit_is_accepted_at_once() {
    let unit = format!("a{}b{}c", TOK_SEP, TOK_SEP);
    let mut batch = Batch::new(vec![unit.clone()], TaskType::Side, 1);
    assert_eq!(batch.next(), Step::Dispatch(0));
    assert_eq!(batch.complete(0, Ok(unit.clone())), Verdict::Accepted);
    assert_eq!(batch.attempts(0), 1);
    assert_eq!(batch.finish(), Ok(vec![unit]));
}

#[test]
fn an_answer_that_drops_a_separator_is_asked_for_again() {
    let unit = format!("a{}b{}c", TOK_SEP, TOK_SEP);
    let dropped = format!("A{}BC", TOK_SEP);
    let good = format!("A{}B{}C", TOK_SEP, TOK_SEP);
    let mut batch = Batch::new(vec![unit, "second".to_string()], TaskType::Main, 1);
    assert_eq!(batch.next(), Step::Dispatch(0));
    assert_eq!(batch.complete(0, Ok(dropped.clone())), Verdict::Retry);
    assert_eq!(batch.next(), Step::Dispatch(0));
    assert_eq!(batch.complete(0, Ok(dropped)), Verdict::Retry);
    assert_eq!(batch.next(), Step::Dispatch(0));
    assert_eq!(batch.attempts(0), 3);
    assert_eq!(batch.complete(0, Ok(good.clone())), Verdict::Accepted);
    assert_eq!(batch.next(), Step::Dispatch(1));
    assert_eq!(batch.complete(1, Ok("zweite".to_string())), Verdict::Accepted);
    assert_eq!(batch.next(), Step::Finished);
    assert_eq!(batch.finish(), Ok(vec![good, "zweite".to_string()]));
}

#[test]
fn a_retrying_unit_keeps_its_place_in_flight() {
    let unit = format!("x{}y", TOK_SEP);
    let mut batch = Batch::new(vec![unit, "b".to_string(), "c".to_string()], TaskType::Main, 2);
    assert_eq!(batch.next(), Step::Dispatch(0));
    assert_eq!(batch.next(), Step::Dispatch(1));
    assert_eq!(batch.complete(0, Ok("no separator".to_string())), Verdict::Retry);
    assert_eq!(batch.next(), Step::Dispatch(0));
    assert_eq!(batch.next(), Step::Wait);
    assert_eq!(batch.complete(1, Ok("B".to_string())), Verdict::Accepted);
    assert_eq!(batch.next(), Step::Dispatch(2));
}

#[test]
fn blank_units_are_never_sent() {
    let queue = vec!["  ".to_string(), "text".to_string(), String::new(), "\n\t".to_string()];
    let mut batch = Batch::new(queue, TaskType::Main, 4);
    assert_eq!(batch.next(), Step::Dispatch(1));
    assert_eq!(batch.next(), Step::Wait);
    assert_eq!(batch.complete(0, Ok("stray".to_string())), Verdict::Ignored);
    assert_eq!(batch.complete(1, Ok("Text".to_string())), Verdict::Accepted);
    assert_eq!(batch.next(), Step::Finished);
    assert_eq!(batch.attempts(0), 0);
    assert_eq!(batch.attempts(1), 1);
    assert_eq!(
        batch.finish(),
        Ok(vec!["  ".to_string(), "Text".to_string(), String::new(), "\n\t".to_string()])
    );
    let mut only_blank = Batch::new(vec![" ".to_string()], TaskType::Side, 1);
    assert_eq!(only_blank.next(), Step::Finished);
    assert_eq!(only_blank.finish(), Ok(vec![" ".to_string()]));
}

#[test]
fn a_failure_ends_the_batch() {
    let mut batch = Batch::new(units(3), TaskType::Main, 2);
    assert_eq!(batch.next(), Step::Dispatch(0));
    assert_eq!(batch.next(), Step::Dispatch(1));
    let failure = TranslateError::Transport("connection reset".to_string());
    assert_eq!(batch.complete(1, Err(failure.clone())), Verdict::Failed);
    assert_eq!(batch.next(), Step::Finished);
    assert_eq!(batch.complete(0, Err(TranslateError::NoChoices)), Verdict::Failed);
    assert_eq!(batch.complete(0, Ok("late".to_string())), Verdict::Ignored);
    assert_eq!(batch.finish(), Err(failure));
}

#[test]
fn replies_that_nothing_waits_for_are_ignored() {
    let mut batch = Batch::new(units(2), TaskType::Main, 1);
    assert_eq!(batch.complete(0, Ok("early".to_string())), Verdict::Ignored);
    assert_eq!(batch.complete(9, Ok("nowhere".to_string())), Verdict::Ignored);
    assert_eq!(batch.next(), Step::Dispatch(0));
    assert_eq!(batch.complete(0, Ok("t0".to_string())), Verdict::Accepted);
    assert_eq!(batch.complete(0, Ok("again".to_string())), Verdict::Ignored);
    assert_eq!(batch.len(), 2);
    assert_eq!(batch.unit(1), "u1");
    assert_eq!(batch.finish(), Err(TranslateError::Unfinished));
}

#[test]
fn a_batch_renders_the_request_of_a_unit() {
    let job = job_with("sys", "{{ previous_chunks | join(\" \") }}:{{ source_text }}");
    let batch = Batch::new(units(3), TaskType::Main, 1);
    let request = batch.request(&job, 2).unwrap();
    assert_eq!(request.system, "sys");
    assert_eq!(request.user, "u0 u1:u2");
}

#[test]
fn the_special_token_is_the_separator() {
    assert_eq!(SPECIAL_TOKEN, TOK_SEP.to_string());
    assert_eq!(SPECIAL_TOKEN.chars().collect::<Vec<char>>(), vec!['\u{10459}']);
}

#[test]
fn the_system_prompt_names_the_separator_of_the_units() {
    let job = job_with("keep {{ special_tokens | join(\" \") }}", "{{ source_text }}");
    let unit = format!("a{}b", TOK_SEP);
    let request = unit_request(&job, &vec![unit.clone()], 0, TaskType::Main).unwrap();
    assert_eq!(request.system, format!("keep {}", TOK_SEP));
    assert_eq!(request.user, unit);
    assert!(is_intact(&request.user, &format!("x{}y", request.system.trim_start_matches("keep "))));
}

#[test]
fn white_space_is_what_the_standard_library_says() {
    let listed = |c: char| {
        let code = c as u32;
        (0x0009..=0x000D).contains(&code)
            || code == 0x0020
            || code == 0x0085
            || code == 0x00A0
            || code == 0x1680
            || (0x2000..=0x200A).contains(&code)
            || code == 0x2028
            || code == 0x2029
            || code == 0x202F
            || code == 0x205F
            || code == 0x3000
    };
    let mut count = 0;
    for code in 0..=0x10FFFFu32 {
        if let Some(c) = char::from_u32(code) {
            assert_eq!(c.is_whitespace(), listed(c), "U+{:04X}", code);
            if listed(c) {
                count += 1;
                assert!(is_blank(&c.to_string()), "U+{:04X}", code);
            }
        }
    }
    assert_eq!(count, 25);
    assert!(!is_blank("\u{200B}"));
    assert!(!is_blank("\u{180E}"));
    assert!(!is_blank("\u{1F}"));
    assert!(!is_blank("\u{FEFF}"));
}

#[test]
fn the_default_prompts_are_taken() {
    assert!(is_accepted(tren::cli::DEFAULT_SYSTEM_PROMPT));
    assert!(is_accepted(tren::cli::DEFAULT_USER_PROMPT));
}

#[test]
fn text_with_the_recognized_substitutions_is_taken() {
    assert!(is_accepted(""));
    assert!(is_accepted("Translate {{ source_language }} into {{target_language}}: {{- source_text -}}"));
    assert!(is_accepted("a lone { brace, a pair } and {x} are text; so is a last {"));
    assert!(is_accepted("{% if previous_chunks %}{{ previous_chunks | join(\"\\n\") }}{% else %}-{% endif %}"));
    assert!(is_accepted("keep {{ special_tokens }} and {{ special_tokens | join(\" , \") }}"));
}

#[test]
fn a_template_that_runs_anything_else_is_not_taken() {
    assert!(!is_accepted("{{ source_text[1:4:-1] }}"));
    assert!(!is_accepted("{{ \"abcdef\"[1:4:-1] }}"));
    assert!(!is_accepted("{{ 4 is divisibleby(0) }}"));
    assert!(!is_accepted("{% for c in previous_chunks %}{{ c }}{% endfor %}"));
    assert!(!is_accepted("{{ previous_chunks | batch(99999999999999) }}"));
    assert!(!is_accepted("{# a comment #}"));
    assert!(!is_accepted("{{{ source_text }}"));
    assert!(!is_accepted("{{  source_text  }}"));
    assert!(!is_accepted("{{ unknown }}"));
    assert!(!is_accepted("text {{ source_text }} then {{"));
    assert!(!is_accepted("{%"));
}
