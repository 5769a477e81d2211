use tren::chunk::fragment::{count_separators, join, split};
use tren::chunk::TOK_SEP;

#[test]
fn join_puts_one_separator_between_neighbours() {
    let chunk = join(&vec!["a".to_string(), "b".to_string(), "".to_string()]);
    assert_eq!(chunk, format!("a{}b{}", TOK_SEP, TOK_SEP));
    assert_eq!(count_separators(&chunk), 2);
}

#[test]
fn split_gives_the_fragments_back() {
    let chunk = format!("one{}two{}{}three", TOK_SEP, TOK_SEP, TOK_SEP);
    assert_eq!(split(&chunk), vec!["one", "two", "", "three"]);
    assert_eq!(split(""), vec![""]);
    assert_eq!(join(&Vec::new()), "");
}
