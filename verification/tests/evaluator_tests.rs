use peter_grep::common::str_to_tokens;
use peter_grep::evaluator::{EvalMatchResult, Evaluator};
use peter_grep::parser::Parser;

fn eval_match(pattern: &str, subject: &str) -> bool {
    let ast = Parser::parse_regex_str(pattern).unwrap();
    let e = Evaluator::new(ast.generate());
    e.is_match(&str_to_tokens(subject)[..]).is_match()
}

fn ranges(pattern: &str, subject: &str) -> Vec<(usize, usize)> {
    let ast = Parser::parse_regex_str(pattern).unwrap();
    let e = Evaluator::new(ast.generate());
    match e.is_match(&str_to_tokens(subject)[..]) {
        EvalMatchResult::Match { matches } => matches,
        EvalMatchResult::NoMatch => vec![],
    }
}

#[test]
fn test_match() {
    assert!(eval_match("a", "abba"));
    assert!(eval_match("a", "vva"));

    assert!(eval_match("ab", "abba"));
    assert!(eval_match("ab", "basab"));

    assert!(eval_match("ab{3}a", "abbba"));
    assert!(!eval_match("ab{4}a", "abbba"));

    assert!(eval_match("(aab|aa)[cb]{2,}", "aabb"));
    assert!(eval_match("(aab|aa)[cb]{2,}", "aabc"));
    assert!(!eval_match("(aab|aa)[cb]{2,}", "aab"));

    assert!(eval_match("(aa|bb)(cc|dd|ee)", "aaee"));
    assert!(!eval_match("(aa|bb)(cc|dd|ee)", "aaed"));

    assert!(eval_match("[0-9]+", "a5342ee"));
    assert!(eval_match("[0-9]+", "a9ee"));
    assert!(!eval_match("[0-9]+", "ewe"));

    assert!(eval_match("^[0-9]+", "5342ee"));
    assert!(!eval_match("^[0-9]+", "d5342ee"));
    assert!(eval_match("^[0-9]+$", "5"));
    assert!(!eval_match("^[0-9]+$", "5f"));

    assert!(eval_match("^\\d+$", "5"));
    assert!(eval_match("^\\w+$", "f"));
    assert!(eval_match("^\\w+$", "5cved"));

    assert!(eval_match("^x{2}$", "xx"));
    assert!(!eval_match("^x{2}$", "x"));
    assert!(!eval_match("^x{2}$", "xxx"));
    assert!(eval_match("^x{2,4}$", "xxx"));
}

#[test]
fn exact_repeat_counts() {
    assert!(eval_match("ab{3}a", "abbba"));
    assert!(!eval_match("ab{4}a", "abbba"));
}

#[test]
fn alternation_then_class_repeat() {
    assert!(eval_match("(aab|aa)[cb]{2,}", "aabb"));
    assert!(!eval_match("(aab|aa)[cb]{2,}", "aab"));
}

#[test]
fn anchored_digits() {
    assert!(eval_match("^[0-9]+$", "5"));
    assert!(!eval_match("^[0-9]+$", "5f"));
}

#[test]
fn anchored_word_characters() {
    assert!(eval_match("^\\w+$", "5cved"));
    assert!(!eval_match("^\\w+$", ""));
}

#[test]
fn anchored_bounded_repeat() {
    assert!(eval_match("^x{2,4}$", "xxx"));
    assert!(!eval_match("^x{2}$", "xxx"));
}

#[test]
fn backreference_repeats_the_captured_text() {
    assert!(eval_match("(cat|dog) and \\1", "cat and cat"));
    assert!(!eval_match("(cat|dog) and \\1", "cat and dog"));
    assert!(eval_match("(cat|dog) and \\1", "dog and dog"));
}

#[test]
fn ranges_are_token_indices() {
    assert_eq!(ranges("a", "abba"), vec![(1, 2), (4, 5)]);
    assert_eq!(ranges("ab", "basab"), vec![(4, 6)]);
    assert_eq!(ranges("^a", "aa"), vec![(0, 2)]);
    assert_eq!(ranges("a$", "aa"), vec![(2, 4)]);
}

#[test]
fn zero_repeat_matches_empty_everywhere() {
    assert_eq!(ranges("x{0}", "ab"), vec![(0, 0), (1, 1), (2, 2), (3, 3)]);
    assert_eq!(ranges("x{0}", ""), vec![(0, 0), (1, 1)]);
}
