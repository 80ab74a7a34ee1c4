use peter_grep::common::Incrementer;
use peter_grep::grammar::{ParseError, ParseErrorKind};
use peter_grep::parser::Parser;
use peter_grep::reader::Reader;

fn shape(pattern: &str) -> String {
    format!("{:?}", Parser::parse_regex_str(pattern).unwrap())
}

fn error(pattern: &str) -> ParseError {
    Parser::parse_regex_str(pattern).unwrap_err()
}

#[test]
fn test_parsing() {
    println!("{:?}", Parser::parse_regex_str("^a?.*[^a-f]{1,}$").unwrap());
    println!("{:?}", Parser::parse_regex_str("x(a|bc|([0-3]|.*))").unwrap());
    println!("{:?}", Parser::parse_regex_str("\\d+").unwrap());
}

#[test]
fn parses_anchors_modifiers_and_classes() {
    assert_eq!(
        shape("^a?.*[^a-f]{1,}$"),
        "Root(Sequence([Start, \
         Repeat { min: None, max: Some(1), node: Char(Char('a')) }, \
         Repeat { min: None, max: None, node: AnyChar }, \
         Repeat { min: Some(1), max: None, node: CharGroup { is_negated: true, chars: [Range { start: 'a', end: 'f' }] } }, \
         End]))"
    );
}

#[test]
fn parses_nested_groups_with_ids_in_source_order() {
    assert_eq!(
        shape("x(a|bc|([0-3]|.*))"),
        "Root(Sequence([Char(Char('x')), Alt { options: [\
         Sequence([Char(Char('a'))]), \
         Sequence([Char(Char('b')), Char(Char('c'))]), \
         Sequence([Alt { options: [\
         Sequence([CharGroup { is_negated: false, chars: [Range { start: '0', end: '3' }] }]), \
         Sequence([Repeat { min: None, max: None, node: AnyChar }])], id: 2 }])], id: 1 }]))"
    );
}

#[test]
fn parses_escapes() {
    assert_eq!(shape("\\d+"), "Root(Sequence([Repeat { min: Some(1), max: None, node: Char(Numeric) }]))");
    assert_eq!(shape("\\w"), "Root(Sequence([Char(Alphanumeric)]))");
    assert_eq!(shape("\\."), "Root(Sequence([Char(Char('.'))]))");
    assert_eq!(shape("\\12a"), "Root(Sequence([CaptureRef(12), Char(Char('a'))]))");
    assert_eq!(shape("\\9"), "Root(Sequence([CaptureRef(9)]))");
    assert_eq!(shape("\\0"), "Root(Sequence([Char(Char('0'))]))");
}

#[test]
fn parses_quantifier_forms() {
    assert_eq!(shape("a{3}"), "Root(Sequence([Repeat { min: Some(3), max: Some(3), node: Char(Char('a')) }]))");
    assert_eq!(shape("a{3,}"), "Root(Sequence([Repeat { min: Some(3), max: None, node: Char(Char('a')) }]))");
    assert_eq!(shape("a{3,12}"), "Root(Sequence([Repeat { min: Some(3), max: Some(12), node: Char(Char('a')) }]))");
    assert_eq!(shape("a{0}"), "Root(Sequence([Repeat { min: Some(0), max: Some(0), node: Char(Char('a')) }]))");
}

#[test]
fn class_keeps_each_literal_once() {
    assert_eq!(
        shape("[aba-ca-c]"),
        "Root(Sequence([CharGroup { is_negated: false, chars: [Char('a'), Char('b'), Range { start: 'a', end: 'c' }] }]))"
    );
    assert_eq!(shape("[]"), "Root(Sequence([CharGroup { is_negated: false, chars: [] }]))");
}

#[test]
fn empty_pattern_is_an_empty_sequence() {
    assert_eq!(shape(""), "Root(Sequence([]))");
    assert_eq!(shape("()"), "Root(Sequence([Alt { options: [Sequence([])], id: 1 }]))");
}

#[test]
fn rejects_malformed_patterns() {
    assert_eq!(error("(ab"), ParseError { kind: ParseErrorKind::UnclosedGroup, position: 3 });
    assert_eq!(error("(a|"), ParseError { kind: ParseErrorKind::UnclosedGroup, position: 3 });
    assert_eq!(error("[ab"), ParseError { kind: ParseErrorKind::UnclosedClass, position: 3 });
    assert_eq!(error("[a-"), ParseError { kind: ParseErrorKind::UnclosedClass, position: 3 });
    assert_eq!(error("a{"), ParseError { kind: ParseErrorKind::UnclosedQuantifier, position: 2 });
    assert_eq!(error("a{2"), ParseError { kind: ParseErrorKind::UnclosedQuantifier, position: 3 });
    assert_eq!(error("a{2,"), ParseError { kind: ParseErrorKind::UnclosedQuantifier, position: 4 });
    assert_eq!(error("a{2,3"), ParseError { kind: ParseErrorKind::UnclosedQuantifier, position: 5 });
    assert_eq!(error("a{x}"), ParseError { kind: ParseErrorKind::MissingNumber, position: 2 });
    assert_eq!(error("a{2,x}"), ParseError { kind: ParseErrorKind::MissingNumber, position: 4 });
    assert_eq!(error("a{2x}"), ParseError { kind: ParseErrorKind::UnexpectedChar, position: 3 });
    assert_eq!(error("a{2,3x}"), ParseError { kind: ParseErrorKind::UnexpectedChar, position: 5 });
    assert_eq!(
        error("a{99999999999999999999}"),
        ParseError { kind: ParseErrorKind::InvalidNumber, position: 2 }
    );
    assert_eq!(
        error("\\99999999999999999999"),
        ParseError { kind: ParseErrorKind::InvalidNumber, position: 1 }
    );
    assert_eq!(error("ab\\"), ParseError { kind: ParseErrorKind::TruncatedEscape, position: 3 });
}

#[test]
fn bounds_of_a_quantifier_are_read_in_any_order() {
    assert_eq!(
        shape("a{3,2}"),
        "Root(Sequence([Repeat { min: Some(3), max: Some(2), node: Char(Char('a')) }]))"
    );
    assert_eq!(
        shape("x{3,0}"),
        "Root(Sequence([Repeat { min: Some(3), max: Some(0), node: Char(Char('x')) }]))"
    );
}

#[test]
fn cursor_stays_where_a_number_is_missing() {
    let chars: Vec<char> = "x12".chars().collect();
    let mut reader = Reader::new(&chars[..]);
    assert_eq!(
        Parser::parse_number(&mut reader),
        Err(ParseError { kind: ParseErrorKind::MissingNumber, position: 0 })
    );
    assert_eq!(reader.offset(), 0);
    assert_eq!(reader.peek(), Some(&'x'));

    let chars: Vec<char> = "12}".chars().collect();
    let mut reader = Reader::new(&chars[..]);
    assert_eq!(Parser::parse_number(&mut reader), Ok(12));
    assert_eq!(reader.peek(), Some(&'}'));

    let chars: Vec<char> = "99999999999999999999}".chars().collect();
    let mut reader = Reader::new(&chars[..]);
    assert_eq!(
        Parser::parse_number(&mut reader),
        Err(ParseError { kind: ParseErrorKind::InvalidNumber, position: 0 })
    );
    assert_eq!(reader.offset(), 20);

    let chars: Vec<char> = "a{2,x}".chars().collect();
    let mut reader = Reader::new(&chars[..]);
    assert_eq!(
        Parser::parse(&mut reader).unwrap_err(),
        ParseError { kind: ParseErrorKind::MissingNumber, position: 4 }
    );
    assert_eq!(reader.offset(), 4);
}

#[test]
fn largest_number_is_accepted() {
    assert_eq!(
        shape("a{18446744073709551615,}"),
        "Root(Sequence([Repeat { min: Some(18446744073709551615), max: None, node: Char(Char('a')) }]))"
    );
    assert_eq!(
        error("a{18446744073709551616,}"),
        ParseError { kind: ParseErrorKind::InvalidNumber, position: 2 }
    );
}

#[test]
fn unit_parser_reports_the_end_and_the_last_group_id() {
    let empty: Vec<char> = vec![];
    let mut reader = Reader::new(&empty[..]);
    let mut ids = Incrementer::new_from(1);
    assert_eq!(
        Parser::parse_unit(&mut reader, &mut ids).unwrap_err(),
        ParseError { kind: ParseErrorKind::UnexpectedEnd, position: 0 }
    );

    let group: Vec<char> = "x(a)".chars().collect();
    let mut reader = Reader::new(&group[..]);
    let mut ids = Incrementer::new_from(u64::MAX);
    assert_eq!(
        format!("{:?}", Parser::parse_unit(&mut reader, &mut ids).unwrap()),
        "Char(Char('x'))"
    );
    assert_eq!(
        Parser::parse_unit(&mut reader, &mut ids).unwrap_err(),
        ParseError { kind: ParseErrorKind::TooManyGroups, position: 1 }
    );

    let mut reader = Reader::new(&group[..]);
    let mut ids = Incrementer::new_from(u64::MAX - 1);
    reader.pop();
    assert_eq!(
        format!("{:?}", Parser::parse_unit(&mut reader, &mut ids).unwrap()),
        "Alt { options: [Sequence([Char(Char('a'))])], id: 18446744073709551614 }"
    );
    assert_eq!(ids.peek(), u64::MAX);
}

#[test]
fn parser_parts_read_from_the_cursor() {
    let text: Vec<char> = "12,ab|c)*".chars().collect();
    let mut reader = Reader::new(&text[..]);
    assert_eq!(Parser::parse_number(&mut reader), Ok(12));
    assert_eq!(reader.offset(), 2);
    assert_eq!(
        Parser::parse_number(&mut reader),
        Err(ParseError { kind: ParseErrorKind::MissingNumber, position: 2 })
    );
    reader.pop();
    let mut ids = Incrementer::new_from(5);
    let sequence = Parser::parse_sequence(&mut reader, &mut ids, true).unwrap();
    assert_eq!(format!("{:?}", sequence), "Sequence([Char(Char('a')), Char(Char('b'))])");
    assert_eq!(reader.offset(), 5);
    reader.pop();
    let rest = Parser::parse_sequence(&mut reader, &mut ids, false).unwrap();
    assert_eq!(
        format!("{:?}", rest),
        "Sequence([Char(Char('c')), Repeat { min: None, max: None, node: Char(Char(')')) }])"
    );
    assert_eq!(reader.peek(), None);

    let modifier: Vec<char> = "{2,5}x".chars().collect();
    let mut reader = Reader::new(&modifier[..]);
    let node = Parser::check_modifier(&mut reader, Parser::parse_regex_str("").unwrap()).unwrap();
    assert_eq!(
        format!("{:?}", node),
        "Repeat { min: Some(2), max: Some(5), node: Root(Sequence([])) }"
    );
    assert_eq!(reader.offset(), 5);
    let mut whole = Reader::new(&text[..3]);
    assert_eq!(format!("{:?}", Parser::parse(&mut whole).unwrap()),
        "Root(Sequence([Char(Char('1')), Char(Char('2')), Char(Char(','))]))");
}
