use peter_grep::capturer::Capturer;
use peter_grep::cond::{Cond, Literal, MatchResult};
use peter_grep::reader::{Reader, UnexpectedToken};
use peter_grep::token::Token;
use std::collections::HashMap;

#[test]
fn literal_predicates() {
    let c = Token::Char('5');
    assert_eq!(Literal::Numeric.is_match(Some(&c)), MatchResult::Match(1));
    assert_eq!(Literal::Numeric.is_match(Some(&Token::Char('a'))), MatchResult::NoMatch);
    assert_eq!(Literal::Numeric.is_match(Some(&Token::Char('٣'))), MatchResult::NoMatch);
    assert_eq!(Literal::Alphanumeric.is_match(Some(&Token::Char('_'))), MatchResult::Match(1));
    assert_eq!(Literal::Alphanumeric.is_match(Some(&Token::Char('Z'))), MatchResult::Match(1));
    assert_eq!(Literal::Alphanumeric.is_match(Some(&Token::Char('-'))), MatchResult::NoMatch);
    assert_eq!(Literal::Alphanumeric.is_match(Some(&Token::Char('é'))), MatchResult::NoMatch);
    assert_eq!(Literal::Char('x').is_match(Some(&Token::Char('x'))), MatchResult::Match(1));
    assert_eq!(Literal::Char('x').is_match(Some(&Token::Char('y'))), MatchResult::NoMatch);
    let range = Literal::Range { start: 'b', end: 'd' };
    assert_eq!(range.is_match(Some(&Token::Char('b'))), MatchResult::Match(1));
    assert_eq!(range.is_match(Some(&Token::Char('d'))), MatchResult::Match(1));
    assert_eq!(range.is_match(Some(&Token::Char('a'))), MatchResult::NoMatch);
    assert_eq!(range.is_match(Some(&Token::Char('e'))), MatchResult::NoMatch);
    assert_eq!(range.is_match(Some(&Token::Start)), MatchResult::NoMatch);
    assert_eq!(range.is_match(None), MatchResult::NoMatch);
    assert!(MatchResult::Match(0).is_success());
    assert!(!MatchResult::NoMatch.is_success());
}

#[test]
fn conditions_on_the_head_of_a_stream() {
    let none: HashMap<u64, String> = HashMap::new();
    let ab = [Token::Char('a'), Token::Char('b'), Token::End];
    assert_eq!(Cond::Epsilon.is_match(&ab, &none), MatchResult::Match(0));
    assert_eq!(Cond::Epsilon.is_match(&[], &none), MatchResult::Match(0));
    assert_eq!(Cond::AnyChar.is_match(&ab, &none), MatchResult::Match(1));
    assert_eq!(Cond::AnyChar.is_match(&[Token::End], &none), MatchResult::NoMatch);
    assert_eq!(Cond::AnyChar.is_match(&[], &none), MatchResult::NoMatch);
    assert_eq!(Cond::Start.is_match(&[Token::Start], &none), MatchResult::Match(1));
    assert_eq!(Cond::Start.is_match(&ab, &none), MatchResult::NoMatch);
    assert_eq!(Cond::End.is_match(&[Token::End], &none), MatchResult::Match(1));
    assert_eq!(Cond::End.is_match(&ab, &none), MatchResult::NoMatch);
    assert_eq!(Cond::Char(Literal::Char('a')).is_match(&ab, &none), MatchResult::Match(1));
    assert_eq!(Cond::Char(Literal::Char('b')).is_match(&ab, &none), MatchResult::NoMatch);

    let class = vec![Literal::Char('x'), Literal::Range { start: 'a', end: 'c' }];
    let inside = Cond::CharGroup { chars: class.clone(), is_negated: false };
    let outside = Cond::CharGroup { chars: class, is_negated: true };
    assert_eq!(inside.is_match(&ab, &none), MatchResult::Match(1));
    assert_eq!(outside.is_match(&ab, &none), MatchResult::NoMatch);
    let z = [Token::Char('z')];
    assert_eq!(inside.is_match(&z, &none), MatchResult::NoMatch);
    assert_eq!(outside.is_match(&z, &none), MatchResult::Match(1));
    assert_eq!(outside.is_match(&[Token::End], &none), MatchResult::NoMatch);
    assert_eq!(outside.is_match(&[], &none), MatchResult::NoMatch);
}

#[test]
fn backreference_consumes_the_captured_text() {
    let mut captures: HashMap<u64, String> = HashMap::new();
    captures.insert(1, "ab".to_string());
    captures.insert(2, String::new());
    captures.insert(3, "é".to_string());
    let stream = [Token::Char('a'), Token::Char('b'), Token::Char('c'), Token::End];
    assert_eq!(Cond::CaptureRef(1).is_match(&stream, &captures), MatchResult::Match(2));
    assert_eq!(Cond::CaptureRef(1).is_match(&stream[1..], &captures), MatchResult::NoMatch);
    assert_eq!(Cond::CaptureRef(1).is_match(&stream[..1], &captures), MatchResult::NoMatch);
    assert_eq!(Cond::CaptureRef(2).is_match(&stream, &captures), MatchResult::Match(0));
    assert_eq!(Cond::CaptureRef(2).is_match(&[], &captures), MatchResult::Match(0));
    assert_eq!(Cond::CaptureRef(9).is_match(&stream, &captures), MatchResult::NoMatch);
    // One character of several bytes is one token.
    let accent = [Token::Char('é'), Token::End];
    assert_eq!(Cond::CaptureRef(3).is_match(&accent, &captures), MatchResult::Match(1));
}

#[test]
fn capturer_feeds_every_open_group() {
    let mut capturer = Capturer::new();
    capturer.start_capture(1);
    capturer.push(&[Token::Start, Token::Char('a')]);
    capturer.start_capture(2);
    capturer.push(&[Token::Char('b'), Token::Char('c')]);
    capturer.end_capture(2);
    capturer.push(&[Token::Char('d'), Token::End]);
    assert_eq!(capturer.captures.get(&1), Some(&"abcd".to_string()));
    assert_eq!(capturer.captures.get(&2), Some(&"bc".to_string()));
    assert_eq!(capturer.currents, vec![1]);
    let copy = capturer.duplicate();
    capturer.end_capture(1);
    capturer.push(&[Token::Char('e')]);
    assert!(capturer.currents.is_empty());
    assert_eq!(capturer.captures.get(&1), Some(&"abcd".to_string()));
    assert_eq!(copy.currents, vec![1]);
    // Opening a group again starts its text over.
    capturer.start_capture(2);
    assert_eq!(capturer.captures.get(&2), Some(&String::new()));
}

#[test]
fn reader_moves_over_its_sequence() {
    let data = ['1', '2', 'a', 'b'];
    let mut reader = Reader::new(&data[..]);
    assert_eq!(reader.peek(), Some(&'1'));
    assert_eq!(reader.offset(), 0);
    let digits = reader.parse_while(|c: &char| c.is_ascii_digit());
    assert_eq!(digits, &['1', '2'][..]);
    assert_eq!(reader.offset(), 2);
    let none = reader.parse_while(|c: &char| c.is_ascii_digit());
    assert!(none.is_empty());
    assert_eq!(reader.pop(), &'a');
    assert_eq!(reader.assert_pop('b'), Ok(&'b'));
    assert_eq!(reader.peek(), None);
    assert_eq!(reader.offset(), 4);

    let mut other = Reader::new(&data[..]);
    assert_eq!(other.assert_pop('x'), Err(UnexpectedToken { position: 0 }));
    assert_eq!(other.offset(), 1);
    let rest = other.parse_while(|_c: &char| true);
    assert_eq!(rest.len(), 3);
    assert_eq!(other.peek(), None);
}

#[test]
fn assert_pop_char_decides_by_the_character() {
    let data = ['(', 'a', ')'];
    let mut reader = Reader::new(&data[..]);
    assert_eq!(reader.assert_pop_char('('), Ok(&'('));
    assert_eq!(reader.offset(), 1);
    assert_eq!(reader.assert_pop_char(')'), Err(UnexpectedToken { position: 1 }));
    assert_eq!(reader.offset(), 2);
    assert_eq!(reader.assert_pop_char(')'), Ok(&')'));
    assert_eq!(reader.peek(), None);
}
