//! The parser of patterns.
use vstd::prelude::*;
use crate::ast::{AstModel, AstNode, models_of};
use crate::common::Incrementer;
use crate::cond::{Literal, is_ascii_digit};
use crate::grammar::{
    ParseError,
    ParseErrorKind,
    Parsed,
    class_items_at,
    decimal_value,
    cursor_behind,
    digits_end,
    error_at,
    modified,
    modifier_at,
    number_at,
    options_at,
    parse_pattern,
    sequence_at,
    sequence_ends,
    unit_at,
    with_literal,
};
use crate::reader::Reader;
use crate::text::chars_of_str;

verus! {

/// The result of parsing a list with the items `acc` in front of it.
pub open spec fn prepend<T>(acc: Seq<T>, rest: Result<Parsed<Seq<T>>, ParseError>) -> Result<
    Parsed<Seq<T>>,
    ParseError,
> {
    match rest {
        Err(e) => Err(e),
        Ok(p) => Ok(Parsed { value: acc + p.value, pos: p.pos, next_group: p.next_group }),
    }
}

/// The values of a list of nodes with one more behind it.
pub proof fn lemma_models_of_push(nodes: Seq<AstNode>, node: AstNode)
    ensures
        models_of(nodes.push(node)) == models_of(nodes).push(node@),
{
    assert(models_of(nodes.push(node)) =~= models_of(nodes).push(node@));
}

/// A run of digits ends where `digits_end` says.
pub proof fn lemma_digits_end(s: Seq<char>, pos: int, end: int)
    requires
        0 <= pos <= end <= s.len(),
        forall|i: int| pos <= i < end ==> is_ascii_digit(#[trigger] s[i]),
        end < s.len() ==> !is_ascii_digit(s[end]),
    ensures
        digits_end(s, pos) == end,
    decreases end - pos,
{
    if pos < end {
        lemma_digits_end(s, pos + 1, end);
    }
}

/// A run of digits writes no smaller number than any run it starts with.
pub proof fn lemma_decimal_value_grows(digits: Seq<char>, n: int)
    requires
        0 <= n <= digits.len(),
        forall|i: int| 0 <= i < digits.len() ==> is_ascii_digit(#[trigger] digits[i]),
    ensures
        decimal_value(digits.subrange(0, n)) <= decimal_value(digits),
    decreases digits.len() - n,
{
    if n < digits.len() {
        lemma_decimal_value_grows(digits, n + 1);
        assert(digits.subrange(0, n + 1).drop_last() =~= digits.subrange(0, n));
    } else {
        assert(digits.subrange(0, n) =~= digits);
    }
}

/// The error of a kind at a position.
fn fail<T>(kind: ParseErrorKind, position: usize) -> (r: Result<T, ParseError>)
    ensures
        r == Err::<T, ParseError>(error_at(kind, position as int)),
{
    Err(ParseError { kind, position })
}

/// Adds a literal to a class that does not hold it yet.
fn insert_literal(chars: &mut Vec<Literal>, l: Literal)
    ensures
        final(chars)@ == with_literal(old(chars)@, l),
{
    let mut i: usize = 0;
    while i < chars.len()
        invariant
            i <= chars.len(),
            chars@ == old(chars)@,
            forall|j: int| 0 <= j < i ==> chars@[j] != l,
        decreases chars.len() - i,
    {
        if chars[i] == l {
            return ;
        }
        i += 1;
    }
    chars.push(l);
}

/// Whether `c` is an ASCII digit.
fn is_digit(c: &char) -> (b: bool)
    ensures
        b == is_ascii_digit(*c),
{
    *c >= '0' && *c <= '9'
}

/// The digit that `c` writes.
fn digit_of(c: char) -> (d: u64)
    requires
        is_ascii_digit(c),
    ensures
        d == c as nat - '0' as nat,
        d <= 9,
{
    (c as u32 - '0' as u32) as u64
}

/// Turns patterns into trees.
pub struct Parser;

impl Parser {
    /// Reads a number: the longest run of digits at the cursor.
    pub fn parse_number(reader: &mut Reader<'_, char>) -> (r: Result<u64, ParseError>)
        requires
            old(reader).wf(),
        ensures
            final(reader).wf(),
            final(reader).source() == old(reader).source(),
            match number_at(old(reader).source(), old(reader).position()) {
                Ok((value, end)) => r == Ok::<u64, ParseError>(value) && final(reader).position()
                    == end && old(reader).position() < end,
                Err(e) => r == Err::<u64, ParseError>(e) && final(reader).position()
                    == cursor_behind(old(reader).source(), e),
            },
    {
        let ghost s = reader.source();
        let at = reader.offset();
        let raw = reader.parse_while(is_digit);
        let ghost end = reader.position();
        proof {
            lemma_digits_end(s, at as int, end);
        }
        if raw.len() == 0 {
            return fail(ParseErrorKind::MissingNumber, at);
        }
        let mut value: u64 = 0;
        let mut i: usize = 0;
        assert(raw@.subrange(0, 0) =~= Seq::empty());
        while i < raw.len()
            invariant
                i <= raw.len(),
                reader.wf(),
                reader.source() == s,
                reader.position() == end,
                old(reader).source() == s,
                old(reader).position() == at,
                at < end <= s.len(),
                end == digits_end(s, at as int),
                raw@ == s.subrange(at as int, end),
                forall|j: int| 0 <= j < raw@.len() ==> is_ascii_digit(#[trigger] raw@[j]),
                value == decimal_value(raw@.subrange(0, i as int)),
                number_at(s, at as int) == if decimal_value(raw@) > u64::MAX {
                    Err::<(u64, int), ParseError>(error_at(ParseErrorKind::InvalidNumber, at as int))
                } else {
                    Ok((decimal_value(raw@) as u64, end))
                },
            decreases raw.len() - i,
        {
            let d = digit_of(raw[i]);
            proof {
                assert(raw@.subrange(0, i + 1).drop_last() =~= raw@.subrange(0, i as int));
                lemma_decimal_value_grows(raw@, i + 1);
            }
            let scaled = match value.checked_mul(10) {
                Some(v) => v,
                None => {
                    return fail(ParseErrorKind::InvalidNumber, at);
                },
            };
            value = match scaled.checked_add(d) {
                Some(v) => v,
                None => {
                    return fail(ParseErrorKind::InvalidNumber, at);
                },
            };
            i += 1;
        }
        assert(raw@.subrange(0, i as int) =~= raw@);
        Ok(value)
    }

    /// Wraps `node` in the repetition that the modifier at the cursor asks for, if
    /// there is one.
    pub fn check_modifier(reader: &mut Reader<'_, char>, node: AstNode) -> (r: Result<
        AstNode,
        ParseError,
    >)
        requires
            old(reader).wf(),
        ensures
            final(reader).wf(),
            final(reader).source() == old(reader).source(),
            match modifier_at(old(reader).source(), old(reader).position(), node@) {
                Ok((value, end)) => r is Ok && r->Ok_0@ == value && final(reader).position() == end
                    && old(reader).position() <= end,
                Err(e) => r == Err::<AstNode, ParseError>(e) && final(reader).position()
                    == cursor_behind(old(reader).source(), e),
            },
    {
        let ghost s = reader.source();
        let ghost pos = reader.position();
        let c: char = match reader.peek() {
            Some(c) => *c,
            None => {
                return Ok(node);
            },
        };
        if c == '*' {
            reader.pop();
            Ok(AstNode::Repeat { min: None, max: None, node: Box::new(node) })
        } else if c == '?' {
            reader.pop();
            Ok(AstNode::Repeat { min: None, max: Some(1), node: Box::new(node) })
        } else if c == '+' {
            reader.pop();
            Ok(AstNode::Repeat { min: Some(1), max: None, node: Box::new(node) })
        } else if c == '{' {
            reader.pop();
            if reader.peek().is_none() {
                return fail(ParseErrorKind::UnclosedQuantifier, reader.offset());
            }
            let low = match Self::parse_number(reader) {
                Ok(v) => v,
                Err(e) => {
                    return Err(e);
                },
            };
            let c1: char = match reader.peek() {
                Some(c) => *c,
                None => {
                    return fail(ParseErrorKind::UnclosedQuantifier, reader.offset());
                },
            };
            if c1 == '}' {
                reader.pop();
                Ok(AstNode::Repeat { min: Some(low), max: Some(low), node: Box::new(node) })
            } else if c1 == ',' {
                reader.pop();
                let c2: char = match reader.peek() {
                    Some(c) => *c,
                    None => {
                        return fail(ParseErrorKind::UnclosedQuantifier, reader.offset());
                    },
                };
                if c2 == '}' {
                    reader.pop();
                    Ok(AstNode::Repeat { min: Some(low), max: None, node: Box::new(node) })
                } else {
                    let high = match Self::parse_number(reader) {
                        Ok(v) => v,
                        Err(e) => {
                            return Err(e);
                        },
                    };
                    let c3: char = match reader.peek() {
                        Some(c) => *c,
                        None => {
                            return fail(ParseErrorKind::UnclosedQuantifier, reader.offset());
                        },
                    };
                    if c3 != '}' {
                        return fail(ParseErrorKind::UnexpectedChar, reader.offset());
                    }
                    reader.pop();
                    Ok(AstNode::Repeat { min: Some(low), max: Some(high), node: Box::new(node) })
                }
            } else {
                fail(ParseErrorKind::UnexpectedChar, reader.offset())
            }
        } else {
            Ok(node)
        }
    }

    /// Reads one unit: an atom with its modifier, if it has one.
    pub fn parse_unit(reader: &mut Reader<'_, char>, capture_id_provider: &mut Incrementer) -> (r:
        Result<AstNode, ParseError>)
        requires
            old(reader).wf(),
        ensures
            final(reader).wf(),
            final(reader).source() == old(reader).source(),
            match unit_at(
                old(reader).source(),
                old(reader).position(),
                old(capture_id_provider).next_value(),
            ) {
                Ok(unit) => r is Ok && r->Ok_0@ == unit.value && final(reader).position()
                    == unit.pos && final(capture_id_provider).next_value() == unit.next_group
                    && old(reader).position() < unit.pos,
                Err(e) => r == Err::<AstNode, ParseError>(e) && final(reader).position()
                    == cursor_behind(old(reader).source(), e),
            },
        decreases old(reader).source().len() - old(reader).position(), 0nat,
    {
        let ghost s = reader.source();
        let ghost pos = reader.position();
        let ghost group0 = capture_id_provider.next_value();
        let c: char = match reader.peek() {
            Some(c) => *c,
            None => {
                return fail(ParseErrorKind::UnexpectedEnd, reader.offset());
            },
        };
        if c == '(' {
            if capture_id_provider.peek() == u64::MAX {
                return fail(ParseErrorKind::TooManyGroups, reader.offset());
            }
            let capture_id = capture_id_provider.get();
            reader.pop();
            let mut options: Vec<AstNode> = Vec::new();
            let ghost total = options_at(s, pos + 1, (group0 + 1) as u64);
            assert(models_of(options@) =~= Seq::empty());
            loop
                invariant
                    reader.wf(),
                    reader.source() == s,
                    s == old(reader).source(),
                    pos == old(reader).position(),
                    pos < reader.position(),
                    pos < s.len(),
                    s[pos] == '(',
                    group0 == old(capture_id_provider).next_value(),
                    capture_id == group0,
                    group0 < u64::MAX,
                    total == prepend(
                        models_of(options@),
                        options_at(s, reader.position(), capture_id_provider.next_value()),
                    ),
                    total == options_at(s, pos + 1, (group0 + 1) as u64),
                    unit_at(s, pos, group0) == match total {
                        Err(e) => Err::<Parsed<AstModel>, ParseError>(e),
                        Ok(inner) => modified(
                            s,
                            inner.pos,
                            AstModel::Alt { options: inner.value, id: capture_id },
                            inner.next_group,
                        ),
                    },
                decreases s.len() - reader.position(),
            {
                let ghost here = reader.position();
                let ghost group_here = capture_id_provider.next_value();
                let alt = match Self::parse_sequence(reader, capture_id_provider, true) {
                    Ok(alt) => alt,
                    Err(e) => {
                        return Err(e);
                    },
                };
                let ghost before = options@;
                options.push(alt);
                proof {
                    lemma_models_of_push(before, alt);
                }
                let c1: char = match reader.peek() {
                    Some(c) => *c,
                    None => {
                        return fail(ParseErrorKind::UnclosedGroup, reader.offset());
                    },
                };
                if c1 == ')' {
                    reader.pop();
                    proof {
                        let first = sequence_at(s, here, group_here, true)->Ok_0;
                        assert(models_of(before) + seq![AstModel::Sequence(first.value)]
                            =~= models_of(options@));
                    }
                    return Self::check_modifier(
                        reader,
                        AstNode::Alt { options, id: capture_id },
                    );
                }
                reader.pop();
                proof {
                    let first = sequence_at(s, here, group_here, true)->Ok_0;
                    let rest = options_at(s, reader.position(), capture_id_provider.next_value());
                    if rest is Ok {
                        assert(models_of(before) + (seq![AstModel::Sequence(first.value)]
                            + rest->Ok_0.value) =~= models_of(options@) + rest->Ok_0.value);
                    }
                }
            }
        } else if c == '[' {
            reader.pop();
            let is_negated = match reader.peek() {
                Some(c) => *c == '^',
                None => false,
            };
            if is_negated {
                reader.pop();
            }
            let mut chars: Vec<Literal> = Vec::new();
            let ghost first = reader.position();
            loop
                invariant
                    reader.wf(),
                    reader.source() == s,
                    s == old(reader).source(),
                    pos == old(reader).position(),
                    pos < reader.position(),
                    pos < s.len(),
                    group0 == old(capture_id_provider).next_value(),
                    capture_id_provider.next_value() == group0,
                    class_items_at(s, first, Seq::empty()) == class_items_at(
                        s,
                        reader.position(),
                        chars@,
                    ),
                    unit_at(s, pos, group0) == match class_items_at(s, first, Seq::empty()) {
                        Err(e) => Err::<Parsed<AstModel>, ParseError>(e),
                        Ok((chars, close)) => modified(
                            s,
                            close + 1,
                            AstModel::CharGroup { is_negated, chars },
                            group0,
                        ),
                    },
                decreases s.len() - reader.position(),
            {
                let group_char: char = match reader.peek() {
                    Some(c) => *c,
                    None => {
                        return fail(ParseErrorKind::UnclosedClass, reader.offset());
                    },
                };
                if group_char == ']' {
                    reader.pop();
                    return Self::check_modifier(reader, AstNode::CharGroup { is_negated, chars });
                }
                reader.pop();
                let is_range = match reader.peek() {
                    Some(c) => *c == '-',
                    None => false,
                };
                if is_range {
                    reader.pop();
                    let until_char: char = match reader.peek() {
                        Some(c) => *c,
                        None => {
                            return fail(ParseErrorKind::UnclosedClass, reader.offset());
                        },
                    };
                    reader.pop();
                    insert_literal(&mut chars, Literal::of_range(group_char, until_char));
                } else {
                    insert_literal(&mut chars, Literal::of_char(group_char));
                }
            }
        } else if c == '^' {
            reader.pop();
            Self::check_modifier(reader, AstNode::Start)
        } else if c == '$' {
            reader.pop();
            Self::check_modifier(reader, AstNode::End)
        } else if c == '.' {
            reader.pop();
            Self::check_modifier(reader, AstNode::AnyChar)
        } else if c == '\\' {
            reader.pop();
            let escaped: char = match reader.peek() {
                Some(c) => *c,
                None => {
                    return fail(ParseErrorKind::TruncatedEscape, reader.offset());
                },
            };
            if escaped == 'd' {
                reader.pop();
                Self::check_modifier(reader, AstNode::Char(Literal::Numeric))
            } else if escaped == 'w' {
                reader.pop();
                Self::check_modifier(reader, AstNode::Char(Literal::Alphanumeric))
            } else if escaped >= '1' && escaped <= '9' {
                let id = match Self::parse_number(reader) {
                    Ok(v) => v,
                    Err(e) => {
                        return Err(e);
                    },
                };
                Self::check_modifier(reader, AstNode::CaptureRef(id))
            } else {
                reader.pop();
                Self::check_modifier(reader, AstNode::Char(Literal::of_char(escaped)))
            }
        } else {
            reader.pop();
            Self::check_modifier(reader, AstNode::Char(Literal::of_char(c)))
        }
    }

    /// Reads units up to the end of the sequence: the end of the pattern, and inside a
    /// group also a `)` or a `|`.
    pub fn parse_sequence(
        reader: &mut Reader<'_, char>,
        capture_group_id: &mut Incrementer,
        in_group: bool,
    ) -> (r: Result<AstNode, ParseError>)
        requires
            old(reader).wf(),
        ensures
            final(reader).wf(),
            final(reader).source() == old(reader).source(),
            match sequence_at(
                old(reader).source(),
                old(reader).position(),
                old(capture_group_id).next_value(),
                in_group,
            ) {
                Ok(seq) => r is Ok && r->Ok_0@ == AstModel::Sequence(seq.value)
                    && final(reader).position() == seq.pos
                    && final(capture_group_id).next_value() == seq.next_group
                    && old(reader).position() <= seq.pos && sequence_ends(
                    old(reader).source(),
                    seq.pos,
                    in_group,
                ),
                Err(e) => r == Err::<AstNode, ParseError>(e) && final(reader).position()
                    == cursor_behind(old(reader).source(), e),
            },
        decreases old(reader).source().len() - old(reader).position(), 1nat,
    {
        let ghost s = reader.source();
        let ghost pos = reader.position();
        let ghost total = sequence_at(s, pos, capture_group_id.next_value(), in_group);
        let mut items: Vec<AstNode> = Vec::new();
        assert(models_of(items@) =~= Seq::empty());
        loop
            invariant
                reader.wf(),
                reader.source() == s,
                s == old(reader).source(),
                pos == old(reader).position(),
                pos <= reader.position(),
                total == sequence_at(s, pos, old(capture_group_id).next_value(), in_group),
                total == prepend(
                    models_of(items@),
                    sequence_at(s, reader.position(), capture_group_id.next_value(), in_group),
                ),
            decreases s.len() - reader.position(),
        {
            let stop = match reader.peek() {
                Some(c) => in_group && (*c == ')' || *c == '|'),
                None => true,
            };
            if stop {
                assert(models_of(items@) + Seq::<AstModel>::empty() =~= models_of(items@));
                return Ok(AstNode::Sequence(items));
            }
            let ghost here = reader.position();
            let ghost group_here = capture_group_id.next_value();
            let unit = match Self::parse_unit(reader, capture_group_id) {
                Ok(unit) => unit,
                Err(e) => {
                    return Err(e);
                },
            };
            let ghost before = items@;
            items.push(unit);
            proof {
                lemma_models_of_push(before, unit);
                let rest = sequence_at(
                    s,
                    reader.position(),
                    capture_group_id.next_value(),
                    in_group,
                );
                if rest is Ok {
                    assert(models_of(before) + (seq![unit@] + rest->Ok_0.value) =~= models_of(
                        items@,
                    ) + rest->Ok_0.value);
                }
            }
        }
    }

    /// Reads a whole pattern from the cursor on.
    pub fn parse(reader: &mut Reader<'_, char>) -> (r: Result<AstNode, ParseError>)
        requires
            old(reader).wf(),
        ensures
            final(reader).wf(),
            final(reader).source() == old(reader).source(),
            match sequence_at(old(reader).source(), old(reader).position(), 1, false) {
                Ok(top) => r is Ok && r->Ok_0@ == AstModel::Root(
                    Box::new(AstModel::Sequence(top.value)),
                ) && final(reader).position() == top.pos,
                Err(e) => r == Err::<AstNode, ParseError>(e) && final(reader).position()
                    == cursor_behind(old(reader).source(), e),
            },
    {
        let mut capture_group_id = Incrementer::new_from(1);
        match Self::parse_sequence(reader, &mut capture_group_id, false) {
            Ok(seq_node) => Ok(AstNode::Root(Box::new(seq_node))),
            Err(e) => Err(e),
        }
    }

    /// Parses a pattern.
    pub fn parse_regex_str(s: &str) -> (r: Result<AstNode, ParseError>)
        ensures
            match parse_pattern(s@) {
                Ok(tree) => r is Ok && r->Ok_0@ == tree,
                Err(e) => r == Err::<AstNode, ParseError>(e),
            },
    {
        let chars = chars_of_str(s);
        let mut reader = Reader::new(chars.as_slice());
        Self::parse(&mut reader)
    }
}

} // verus!
