use peter_grep::common::{merge_overlapping_match_ranges, str_to_tokens};
use peter_grep::evaluator::{EvalMatchResult, Evaluator};
use peter_grep::output::{exit_code, highlight_line, matched_text};
use peter_grep::parser::Parser;

fn found(pattern: &str, subject: &str) -> Vec<(usize, usize)> {
    let ast = Parser::parse_regex_str(pattern).unwrap();
    let evaluator = Evaluator::new(ast.generate());
    match evaluator.is_match(&str_to_tokens(subject)[..]) {
        EvalMatchResult::Match { matches } => matches,
        EvalMatchResult::NoMatch => vec![],
    }
}

#[test]
fn exit_codes() {
    assert_eq!(exit_code(true), 0);
    assert_eq!(exit_code(false), 1);
}

#[test]
fn matched_text_is_the_part_between_the_sentinels() {
    assert_eq!(matched_text("hello", (2, 4)), "el");
    assert_eq!(matched_text("hello", (0, 3)), "he");
    assert_eq!(matched_text("hello", (0, 7)), "hello");
    assert_eq!(matched_text("hello", (1, 6)), "hello");
    assert_eq!(matched_text("hello", (6, 7)), "");
    assert_eq!(matched_text("hello", (0, 0)), "");
    assert_eq!(matched_text("hello", (3, 3)), "");
    assert_eq!(matched_text("héllo", (2, 4)), "él");
    assert_eq!(matched_text("", (0, 2)), "");
    assert_eq!(matched_text("hello", (9, 12)), "");
}

#[test]
fn matched_text_of_found_ranges() {
    let texts: Vec<String> =
        found("[0-9]+", "a12b345").into_iter().map(|r| matched_text("a12b345", r)).collect();
    assert_eq!(texts, vec!["12".to_string(), "345".to_string()]);
    let texts: Vec<String> = found("^ab", "abab").into_iter().map(|r| matched_text("abab", r)).collect();
    assert_eq!(texts, vec!["ab".to_string()]);
    let texts: Vec<String> = found("ab$", "abab").into_iter().map(|r| matched_text("abab", r)).collect();
    assert_eq!(texts, vec!["ab".to_string()]);
}

#[test]
fn highlighting_sets_the_matched_parts_between_marks() {
    let on = "\x1B[01;31m";
    let off = "\x1B[m";
    assert_eq!(highlight_line("hello", &vec![]), "hello");
    assert_eq!(highlight_line("hello", &vec![(2, 4)]), format!("h{on}el{off}lo"));
    assert_eq!(
        highlight_line("a12b345", &merge_overlapping_match_ranges(&found("[0-9]+", "a12b345"))),
        format!("a{on}12{off}b{on}345{off}")
    );
    assert_eq!(highlight_line("abc", &vec![(0, 5)]), format!("{on}abc{off}"));
    assert_eq!(highlight_line("abc", &vec![(1, 2), (3, 4)]), format!("{on}a{off}b{on}c{off}"));
    assert_eq!(highlight_line("", &vec![(0, 0)]), format!("{on}{off}"));
}
