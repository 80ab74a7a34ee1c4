use peter_grep::ast::AstNode;
use peter_grep::common::str_to_tokens;
use peter_grep::cond::Literal;
use peter_grep::evaluator::EvalMatchResult;
use peter_grep::parser::Parser;
use peter_grep::searchable::evaluate;

fn parse(pattern: &str) -> AstNode {
    Parser::parse_regex_str(pattern).unwrap()
}

fn a() -> AstNode {
    AstNode::Char(Literal::Char('a'))
}

fn repeat(min: Option<u64>, max: Option<u64>, node: AstNode) -> AstNode {
    AstNode::Repeat { min, max, node: Box::new(node) }
}

fn group(id: u64, options: Vec<AstNode>) -> AstNode {
    AstNode::Alt { options, id }
}

#[test]
fn parsed_repetitions_are_in_order() {
    for pattern in ["a*", "a?", "a+", "a{2}", "a{2,}", "a{2,5}", "a{0}", "(a|b*)+c{1,2}", ""] {
        assert!(parse(pattern).repeats_are_in_order(), "{}", pattern);
    }
}

#[test]
fn repetition_with_maximum_below_minimum_is_out_of_order() {
    assert!(!repeat(Some(3), Some(2), a()).repeats_are_in_order());
    assert!(repeat(Some(3), Some(0), a()).repeats_are_in_order());
    assert!(repeat(Some(3), Some(3), a()).repeats_are_in_order());
    assert!(repeat(None, Some(1), a()).repeats_are_in_order());
    assert!(repeat(Some(7), None, a()).repeats_are_in_order());
    let nested = AstNode::Root(Box::new(AstNode::Sequence(vec![
        a(),
        group(1, vec![a(), repeat(Some(2), Some(1), a())]),
    ])));
    assert!(!nested.repeats_are_in_order());
    // The child of a repetition of at most zero times is dropped.
    assert!(repeat(None, Some(0), repeat(Some(2), Some(1), a())).repeats_are_in_order());
}

fn nullable(pattern: &str) -> bool {
    let tree = parse(pattern);
    tree.is_nullable(&tree.loose_groups())
}

fn productive(pattern: &str) -> bool {
    let tree = parse(pattern);
    tree.is_productive(&tree.loose_groups())
}

#[test]
fn nullable_patterns() {
    for pattern in ["", "a*", "a?", "()", "(a|)", "a{0}", "a{0,3}", "(a*)(b?)", "()\\1", "(a?)\\1"] {
        assert!(nullable(pattern), "{}", pattern);
    }
    for pattern in
        ["a", "a+", "a*b", "(a|b)", "^", "$", ".", "[ab]", "a{1,}", "(a?b)+", "(a)\\1", "\\1"]
    {
        assert!(!nullable(pattern), "{}", pattern);
    }
    // Taken for loose, every backreference may consume nothing.
    assert!(AstNode::CaptureRef(1).is_nullable(&vec![1]));
    assert!(!AstNode::CaptureRef(1).is_nullable(&vec![2]));
}

#[test]
fn loose_groups_are_those_whose_text_may_be_empty() {
    let none: Vec<u64> = vec![];
    for pattern in ["(a)\\1", "(a|b)x\\1*", "(a+)\\1+", "((a)|b)\\2", "\\1", "(a(b?))\\1", "(.)(.)\\2\\1"] {
        assert_eq!(parse(pattern).loose_groups(), none, "{}", pattern);
    }
    assert_eq!(parse("()\\1").loose_groups(), vec![1]);
    assert_eq!(parse("(a*)\\1").loose_groups(), vec![1]);
    assert_eq!(parse("(a|)\\1").loose_groups(), vec![1]);
    assert_eq!(parse("(^)\\1").loose_groups(), vec![1]);
    assert_eq!(parse("(a(b?))\\2").loose_groups(), vec![2]);
    // Inside its own group the text may still be empty.
    assert_eq!(parse("(\\1a)").loose_groups(), vec![1]);
    assert_eq!(parse("(a\\1)").loose_groups(), none);
    // A group of a repetition counts as possibly empty where it can be crossed without
    // a character.
    assert_eq!(parse("(a)+\\1").loose_groups(), none);
    assert_eq!(parse("((a)b)*\\2").loose_groups(), none);
    assert_eq!(parse("(a?)+\\1").loose_groups(), vec![1]);
    assert_eq!(parse("(a|($))+\\2").loose_groups(), vec![2]);
    assert_eq!(parse("(a)\\1(b*)\\2\\1").loose_groups(), vec![2]);
}

#[test]
fn repeated_backreference_to_a_filled_group_is_searched() {
    let pattern = parse("(a)\\1+");
    assert!(pattern.is_searchable());
    for (subject, expected) in [("aaa", true), ("aa", true), ("a", false), ("ba", false), ("xaaay", true)] {
        let found = evaluate(&pattern, &str_to_tokens(subject)[..]).unwrap();
        assert_eq!(found.is_match(), expected, "{}", subject);
    }
    match evaluate(&parse("^(ab|c)\\1*$"), &str_to_tokens("ababab")[..]) {
        Some(EvalMatchResult::Match { matches }) => assert_eq!(matches, vec![(0, 8)]),
        _ => panic!("no match"),
    }
    assert!(parse("(a|b)\\1*").is_searchable());
    assert!(parse("(a)+\\1+").is_searchable());
    assert!(evaluate(&parse("^(a)+\\1+$"), &str_to_tokens("aaa")[..]).unwrap().is_match());
    assert!(!evaluate(&parse("^(a)+\\1+$"), &str_to_tokens("a")[..]).unwrap().is_match());
    assert!(!parse("()\\1+").is_searchable());
    assert!(!parse("(a*)\\1+").is_searchable());
    assert!(!parse("(a?)\\1*").is_searchable());
    assert!(evaluate(&parse("(a*)\\1+"), &str_to_tokens("aa")[..]).is_none());
}

#[test]
fn productive_patterns() {
    for pattern in ["a*", "a+", "(ab|c)*", "(a?b)+", "(a*)?", "(a*){2,3}", "a{2,}", "(a|b*c)+", "x{0}"]
    {
        assert!(productive(pattern), "{}", pattern);
    }
    for pattern in ["(a*)*", "(a?)+", "()*", "(a|)*", "(a*b*)+", "(\\1)*", "(a{0})*", "((a*)*b)"] {
        assert!(!productive(pattern), "{}", pattern);
    }
    // The child of a repetition of at most zero times is dropped.
    assert!(repeat(None, Some(0), repeat(None, None, repeat(None, None, a()))).is_productive(&vec![]));
}

#[test]
fn groups_nest_where_no_group_stands_in_one_of_its_id() {
    let mut open = vec![];
    assert!(parse("(a(b)(c(d)))(e)").groups_nest_in(&mut open));
    assert!(open.is_empty());
    assert!(group(1, vec![a(), group(2, vec![a()])]).groups_nest_in(&mut open));
    assert!(!group(1, vec![a(), group(1, vec![a()])]).groups_nest_in(&mut open));
    assert!(!group(1, vec![group(2, vec![group(1, vec![])])]).groups_nest_in(&mut open));
    assert!(open.is_empty());
    // Side by side the same id may stand twice.
    assert!(AstNode::Sequence(vec![group(1, vec![a()]), group(1, vec![a()])])
        .groups_nest_in(&mut open));
    let mut inside = vec![4, 7];
    assert!(!group(7, vec![a()]).groups_nest_in(&mut inside));
    assert!(group(5, vec![a()]).groups_nest_in(&mut inside));
    assert_eq!(inside, vec![4, 7]);
}

#[test]
fn state_counts() {
    assert_eq!(parse("").checked_state_count(), Some(0));
    assert_eq!(parse("abc").checked_state_count(), Some(2));
    assert_eq!(parse("(a|bc)").checked_state_count(), Some(3));
    assert_eq!(parse("a*").checked_state_count(), Some(2));
    assert_eq!(parse("a{0}").checked_state_count(), Some(0));
    assert_eq!(parse("a{3}").checked_state_count(), Some(4));
    assert_eq!(parse("(x{3,6}|y){2,4}").checked_state_count(), Some(15));
    assert_eq!(
        parse("a{18446744073709551614}").checked_state_count(),
        Some(18446744073709551615)
    );
    assert_eq!(parse("a{18446744073709551615}").checked_state_count(), None);
    assert_eq!(parse("(a){18446744073709551615}").checked_state_count(), None);
    assert_eq!(parse("ab{18446744073709551615}").checked_state_count(), None);
}

#[test]
fn generated_graph_has_the_counted_states() {
    for pattern in ["abc", "(a|bc)", "a{3}", "(x{3,6}|y){2,4}", "^(a+|b?c)*$"] {
        let ast = parse(pattern);
        let count = ast.checked_state_count().unwrap();
        let fresh = ast
            .generate()
            .iter()
            .flat_map(|t| [t.from_state, t.to_state])
            .filter(|s| *s >= 2)
            .max()
            .map(|s| s - 1)
            .unwrap_or(0);
        assert_eq!(fresh, count, "{}", pattern);
    }
}

#[test]
fn try_generate_refuses_what_generate_cannot_take() {
    assert_eq!(parse("a{3}").try_generate().unwrap().len(), 6);
    assert!(repeat(Some(3), Some(2), a()).try_generate().is_none());
    assert!(parse("a{18446744073709551615}").try_generate().is_none());
    assert!(parse("(a*)*").try_generate().is_some());
}

#[test]
fn searchable_patterns() {
    for pattern in ["", "a", "ab{3}a", "(aab|aa)[cb]{2,}", "^\\w+$", "(cat|dog) and \\1", "(a*)?"] {
        assert!(parse(pattern).is_searchable(), "{}", pattern);
    }
    for pattern in ["(a*)*", "(a?)+", "()*", "a{18446744073709551615}"] {
        assert!(!parse(pattern).is_searchable(), "{}", pattern);
    }
    assert!(!repeat(Some(3), Some(2), a()).is_searchable());
    assert!(!group(1, vec![group(1, vec![a()])]).is_searchable());
}

#[test]
fn evaluate_scans_with_searchable_patterns_only() {
    let tokens = str_to_tokens("xaay");
    match evaluate(&parse("a+"), &tokens[..]) {
        Some(EvalMatchResult::Match { matches }) => assert_eq!(matches, vec![(2, 4)]),
        other => panic!("no match reported: {:?}", other),
    }
    assert!(matches!(evaluate(&parse("b"), &tokens[..]), Some(EvalMatchResult::NoMatch)));
    assert!(evaluate(&parse("(a*)*"), &tokens[..]).is_none());
    assert!(evaluate(&repeat(Some(3), Some(2), a()), &tokens[..]).is_none());
    assert!(matches!(evaluate(&parse("a"), &[]), Some(EvalMatchResult::NoMatch)));
}

#[test]
fn anchored_pattern_matches_the_whole_subject_or_nothing() {
    for (pattern, subject) in [("^a+$", "aaa"), ("^x{2,4}$", "xxx"), ("^(ab|c)*$", "abcab"), ("^$", "")] {
        let tokens = str_to_tokens(subject);
        match evaluate(&parse(pattern), &tokens[..]) {
            Some(EvalMatchResult::Match { matches }) => {
                assert_eq!(matches, vec![(0, tokens.len())], "{} {}", pattern, subject)
            }
            other => panic!("no match reported: {:?}", other),
        }
    }
    for (pattern, subject) in [("^a+$", "aab"), ("^a+$", "baa"), ("^x{2}$", "xxx")] {
        let tokens = str_to_tokens(subject);
        assert!(matches!(
            evaluate(&parse(pattern), &tokens[..]),
            Some(EvalMatchResult::NoMatch)
        ));
    }
}

#[test]
fn start_anchor_only_matches_at_the_start() {
    let tokens = str_to_tokens("abab");
    match evaluate(&parse("^ab"), &tokens[..]) {
        Some(EvalMatchResult::Match { matches }) => assert_eq!(matches, vec![(0, 3)]),
        other => panic!("no match reported: {:?}", other),
    }
    match evaluate(&parse("ab$"), &tokens[..]) {
        Some(EvalMatchResult::Match { matches }) => assert_eq!(matches, vec![(3, 6)]),
        other => panic!("no match reported: {:?}", other),
    }
}

#[test]
fn nested_bounded_repetition_shares_its_counter() {
    // The cap on a loop counts per state and search, not per walk: what the first
    // branch used up is gone for the second.
    let tokens = str_to_tokens("acccd");
    assert!(matches!(
        evaluate(&parse("^(a|ac)c{1,2}d$"), &tokens[..]),
        Some(EvalMatchResult::NoMatch)
    ));
    let tokens = str_to_tokens("accd");
    assert!(matches!(
        evaluate(&parse("^(a|ac)c{1,2}d$"), &tokens[..]),
        Some(EvalMatchResult::Match { .. })
    ));
}

#[test]
fn repeated_alternatives_spend_the_laps_of_a_search_once() {
    // `aba` is `ab` and then `a`; the lap that the branch through `a` used up is gone
    // when the branch through `ab` asks for it.
    let tokens = str_to_tokens("aba");
    assert!(matches!(
        evaluate(&parse("^(a|ab){1,2}$"), &tokens[..]),
        Some(EvalMatchResult::NoMatch)
    ));
    assert!(matches!(
        evaluate(&parse("^(ab|a){1,2}$"), &tokens[..]),
        Some(EvalMatchResult::Match { .. })
    ));
}

#[test]
fn repeated_character_between_anchors_counts_the_characters() {
    for min in 0..5usize {
        for max in min..6usize {
            for len in 0..8usize {
                let subject = "x".repeat(len);
                let tokens = str_to_tokens(&subject);
                let pattern = format!("^x{{{},{}}}$", min, max);
                let found = evaluate(&parse(&pattern), &tokens[..]).unwrap();
                if min <= len && len <= max {
                    match found {
                        EvalMatchResult::Match { matches } => {
                            assert_eq!(matches, vec![(0, len + 2)], "{} {}", pattern, subject)
                        }
                        EvalMatchResult::NoMatch => panic!("{} on {}", pattern, subject),
                    }
                } else {
                    assert!(matches!(found, EvalMatchResult::NoMatch), "{} on {}", pattern, subject);
                }
            }
        }
    }
}

#[test]
fn repeated_class_between_anchors_takes_only_its_characters() {
    let pattern = parse("^[a-c]{2,3}$");
    for (subject, expected) in
        [("ab", true), ("abc", true), ("cab", true), ("a", false), ("abca", false), ("abd", false), ("", false)]
    {
        let tokens = str_to_tokens(subject);
        let found = evaluate(&pattern, &tokens[..]).unwrap();
        assert_eq!(found.is_match(), expected, "{}", subject);
    }
    let any = parse("^.{1,2}$");
    for (subject, expected) in [("é", true), ("ab", true), ("", false), ("abc", false)] {
        let tokens = str_to_tokens(subject);
        assert_eq!(evaluate(&any, &tokens[..]).unwrap().is_match(), expected, "{}", subject);
    }
}

#[test]
fn maximum_of_zero_below_the_minimum_matches_empty_everywhere() {
    let pattern = parse("x{3,0}");
    assert!(pattern.repeats_are_in_order());
    assert!(pattern.is_searchable());
    match evaluate(&pattern, &str_to_tokens("ab")[..]) {
        Some(EvalMatchResult::Match { matches }) => {
            assert_eq!(matches, vec![(0, 0), (1, 1), (2, 2), (3, 3)])
        }
        _ => panic!("x{{3,0}} on ab"),
    }
}

#[test]
fn maximum_below_the_minimum_is_not_compiled() {
    let pattern = parse("a{3,2}");
    assert!(!pattern.repeats_are_in_order());
    assert!(!pattern.is_searchable());
    assert!(pattern.try_generate().is_none());
    assert!(evaluate(&pattern, &str_to_tokens("aaa")[..]).is_none());
}

#[test]
fn hollow_nodes_may_be_crossed_without_a_character() {
    for pattern in ["", "^", "$", "a*", "(a|)", "\\1", "(^)", "a{0}", "(a?)(b*)"] {
        assert!(parse(pattern).is_hollow(), "{}", pattern);
    }
    for pattern in ["a", ".", "[ab]", "(a|b)", "a+", "^a", "(a)\\1"] {
        assert!(!parse(pattern).is_hollow(), "{}", pattern);
    }
    let mut into = vec![9];
    parse("(a)(b?)((c)|(^))").collect_hollow_groups(&mut into);
    assert_eq!(into, vec![9, 2, 3, 5]);
}
