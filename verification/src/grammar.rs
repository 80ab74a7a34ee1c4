//! The grammar of patterns, as functions from the characters of a pattern to its tree.
use vstd::prelude::*;
use crate::ast::AstModel;
use crate::cond::{Literal, is_ascii_digit};

verus! {

/// Why a pattern was rejected.
#[derive(Debug, Clone, Copy, PartialEq, Eq, Structural)]
pub enum ParseErrorKind {
    /// A `(` without its `)`.
    UnclosedGroup,
    /// A `[` without its `]`.
    UnclosedClass,
    /// A `{` without its `}`.
    UnclosedQuantifier,
    /// No digit where a quantifier needs a number.
    MissingNumber,
    /// A number that does not fit in 64 bits.
    InvalidNumber,
    /// Something else than `,` or `}` behind a number of a quantifier.
    UnexpectedChar,
    /// A `\` at the end of the pattern.
    TruncatedEscape,
    /// More groups than there are group ids.
    TooManyGroups,
    /// A unit was asked for at the end of the pattern.
    UnexpectedEnd,
}

/// A rejected pattern: why, and where the cursor stood.
#[derive(Debug, Clone, Copy, PartialEq, Eq, Structural)]
pub struct ParseError {
    pub kind: ParseErrorKind,
    pub position: usize,
}

/// The error of a kind at a position.
pub open spec fn error_at(kind: ParseErrorKind, position: int) -> ParseError {
    ParseError { kind, position: position as usize }
}

/// A piece that was parsed, the position behind it, and the next free group id.
pub struct Parsed<T> {
    pub value: T,
    pub pos: int,
    pub next_group: u64,
}

/// The position behind the run of digits that starts at `pos`.
pub open spec fn digits_end(s: Seq<char>, pos: int) -> int
    decreases s.len() - pos,
{
    if 0 <= pos < s.len() && is_ascii_digit(s[pos]) {
        digits_end(s, pos + 1)
    } else {
        pos
    }
}

/// The number that a run of decimal digits writes.
pub open spec fn decimal_value(digits: Seq<char>) -> nat
    decreases digits.len(),
{
    if digits.len() == 0 {
        0
    } else {
        decimal_value(digits.drop_last()) * 10 + (digits.last() as nat - '0' as nat) as nat
    }
}

/// The number written at `pos`, and the position behind it.
pub open spec fn number_at(s: Seq<char>, pos: int) -> Result<(u64, int), ParseError> {
    let end = digits_end(s, pos);
    if end <= pos {
        Err(error_at(ParseErrorKind::MissingNumber, pos))
    } else if decimal_value(s.subrange(pos, end)) > u64::MAX {
        Err(error_at(ParseErrorKind::InvalidNumber, pos))
    } else {
        Ok((decimal_value(s.subrange(pos, end)) as u64, end))
    }
}

/// Where the cursor stands behind a rejected pattern: at the position of the error, and
/// where a number does not fit, behind the digits of that number.
pub open spec fn cursor_behind(s: Seq<char>, e: ParseError) -> int {
    if e.kind is InvalidNumber {
        digits_end(s, e.position as int)
    } else {
        e.position as int
    }
}

/// The bounds of a quantifier, read from behind its `{`, and the position behind its `}`.
/// The two numbers may stand in any order.
pub open spec fn bounds_at(s: Seq<char>, pos: int) -> Result<
    (Option<u64>, Option<u64>, int),
    ParseError,
> {
    if pos >= s.len() {
        Err(error_at(ParseErrorKind::UnclosedQuantifier, pos))
    } else {
        match number_at(s, pos) {
            Err(e) => Err(e),
            Ok((low, at_low)) => if at_low >= s.len() {
                Err(error_at(ParseErrorKind::UnclosedQuantifier, at_low))
            } else if s[at_low] == '}' {
                Ok((Some(low), Some(low), at_low + 1))
            } else if s[at_low] == ',' {
                let at_high = at_low + 1;
                if at_high >= s.len() {
                    Err(error_at(ParseErrorKind::UnclosedQuantifier, at_high))
                } else if s[at_high] == '}' {
                    Ok((Some(low), None, at_high + 1))
                } else {
                    match number_at(s, at_high) {
                        Err(e) => Err(e),
                        Ok((high, at_close)) => if at_close >= s.len() {
                            Err(error_at(ParseErrorKind::UnclosedQuantifier, at_close))
                        } else if s[at_close] != '}' {
                            Err(error_at(ParseErrorKind::UnexpectedChar, at_close))
                        } else {
                            Ok((Some(low), Some(high), at_close + 1))
                        },
                    }
                }
            } else {
                Err(error_at(ParseErrorKind::UnexpectedChar, at_low))
            },
        }
    }
}

/// The node that stands for `node` with the modifier at `pos`, if there is one, and the
/// position behind it.
pub open spec fn modifier_at(s: Seq<char>, pos: int, node: AstModel) -> Result<
    (AstModel, int),
    ParseError,
> {
    if pos < 0 || pos >= s.len() {
        Ok((node, pos))
    } else if s[pos] == '*' {
        Ok((AstModel::Repeat { min: None, max: None, node: Box::new(node) }, pos + 1))
    } else if s[pos] == '?' {
        Ok((AstModel::Repeat { min: None, max: Some(1), node: Box::new(node) }, pos + 1))
    } else if s[pos] == '+' {
        Ok((AstModel::Repeat { min: Some(1), max: None, node: Box::new(node) }, pos + 1))
    } else if s[pos] == '{' {
        match bounds_at(s, pos + 1) {
            Err(e) => Err(e),
            Ok((min, max, end)) => Ok((AstModel::Repeat { min, max, node: Box::new(node) }, end)),
        }
    } else {
        Ok((node, pos))
    }
}

/// A class with one more literal, unless it holds the literal already.
pub open spec fn with_literal(chars: Seq<Literal>, l: Literal) -> Seq<Literal> {
    if chars.contains(l) {
        chars
    } else {
        chars.push(l)
    }
}

/// The literals of a class, read from `pos` up to its `]`, behind the literals `chars`
/// that were read before; and the position of the `]`.
pub open spec fn class_items_at(s: Seq<char>, pos: int, chars: Seq<Literal>) -> Result<
    (Seq<Literal>, int),
    ParseError,
>
    decreases s.len() - pos,
{
    if pos < 0 || pos >= s.len() {
        Err(error_at(ParseErrorKind::UnclosedClass, pos))
    } else if s[pos] == ']' {
        Ok((chars, pos))
    } else if pos + 1 < s.len() && s[pos + 1] == '-' {
        if pos + 2 >= s.len() {
            Err(error_at(ParseErrorKind::UnclosedClass, pos + 2))
        } else {
            class_items_at(
                s,
                pos + 3,
                with_literal(chars, Literal::Range { start: s[pos], end: s[pos + 2] }),
            )
        }
    } else {
        class_items_at(s, pos + 1, with_literal(chars, Literal::Char(s[pos])))
    }
}

/// Wraps what `modifier_at` returns for a unit that ends at `pos`.
pub open spec fn modified(s: Seq<char>, pos: int, node: AstModel, next_group: u64) -> Result<
    Parsed<AstModel>,
    ParseError,
> {
    match modifier_at(s, pos, node) {
        Err(e) => Err(e),
        Ok((value, end)) => Ok(Parsed { value, pos: end, next_group }),
    }
}

/// The unit at `pos`: an atom with its modifier, if it has one.
pub open spec fn unit_at(s: Seq<char>, pos: int, next_group: u64) -> Result<
    Parsed<AstModel>,
    ParseError,
>
    decreases s.len() - pos, 0nat,
{
    if pos < 0 || pos >= s.len() {
        Err(error_at(ParseErrorKind::UnexpectedEnd, pos))
    } else if s[pos] == '(' {
        if next_group == u64::MAX {
            Err(error_at(ParseErrorKind::TooManyGroups, pos))
        } else {
            match options_at(s, pos + 1, (next_group + 1) as u64) {
                Err(e) => Err(e),
                Ok(inner) => modified(
                    s,
                    inner.pos,
                    AstModel::Alt { options: inner.value, id: next_group },
                    inner.next_group,
                ),
            }
        }
    } else if s[pos] == '[' {
        let is_negated = pos + 1 < s.len() && s[pos + 1] == '^';
        let first = if is_negated {
            pos + 2
        } else {
            pos + 1
        };
        match class_items_at(s, first, Seq::empty()) {
            Err(e) => Err(e),
            Ok((chars, close)) => modified(
                s,
                close + 1,
                AstModel::CharGroup { is_negated, chars },
                next_group,
            ),
        }
    } else if s[pos] == '^' {
        modified(s, pos + 1, AstModel::Start, next_group)
    } else if s[pos] == '$' {
        modified(s, pos + 1, AstModel::End, next_group)
    } else if s[pos] == '.' {
        modified(s, pos + 1, AstModel::AnyChar, next_group)
    } else if s[pos] == '\\' {
        if pos + 1 >= s.len() {
            Err(error_at(ParseErrorKind::TruncatedEscape, pos + 1))
        } else if s[pos + 1] == 'd' {
            modified(s, pos + 2, AstModel::Char(Literal::Numeric), next_group)
        } else if s[pos + 1] == 'w' {
            modified(s, pos + 2, AstModel::Char(Literal::Alphanumeric), next_group)
        } else if '1' <= s[pos + 1] && s[pos + 1] <= '9' {
            match number_at(s, pos + 1) {
                Err(e) => Err(e),
                Ok((id, end)) => modified(s, end, AstModel::CaptureRef(id), next_group),
            }
        } else {
            modified(s, pos + 2, AstModel::Char(Literal::Char(s[pos + 1])), next_group)
        }
    } else {
        modified(s, pos + 1, AstModel::Char(Literal::Char(s[pos])), next_group)
    }
}

/// Whether a sequence ends at `pos`: at the end of the pattern, and inside a group
/// also in front of `)` and `|`.
pub open spec fn sequence_ends(s: Seq<char>, pos: int, in_group: bool) -> bool {
    pos < 0 || pos >= s.len() || (in_group && (s[pos] == ')' || s[pos] == '|'))
}

/// The units from `pos` up to the end of the sequence.
pub open spec fn sequence_at(s: Seq<char>, pos: int, next_group: u64, in_group: bool) -> Result<
    Parsed<Seq<AstModel>>,
    ParseError,
>
    decreases s.len() - pos, 1nat,
{
    if sequence_ends(s, pos, in_group) {
        Ok(Parsed { value: Seq::empty(), pos, next_group })
    } else {
        match unit_at(s, pos, next_group) {
            Err(e) => Err(e),
            Ok(unit) => if unit.pos <= pos || unit.pos > s.len() {
                Err(error_at(ParseErrorKind::UnexpectedEnd, pos))
            } else {
                match sequence_at(s, unit.pos, unit.next_group, in_group) {
                    Err(e) => Err(e),
                    Ok(rest) => Ok(
                        Parsed {
                            value: seq![unit.value] + rest.value,
                            pos: rest.pos,
                            next_group: rest.next_group,
                        },
                    ),
                }
            },
        }
    }
}

/// The options of a group, read from behind its `(` or behind a `|`, and the position
/// behind its `)`.
pub open spec fn options_at(s: Seq<char>, pos: int, next_group: u64) -> Result<
    Parsed<Seq<AstModel>>,
    ParseError,
>
    decreases s.len() - pos, 2nat,
{
    match sequence_at(s, pos, next_group, true) {
        Err(e) => Err(e),
        Ok(first) => if first.pos < pos || first.pos >= s.len() {
            Err(error_at(ParseErrorKind::UnclosedGroup, first.pos))
        } else if s[first.pos] == ')' {
            Ok(
                Parsed {
                    value: seq![AstModel::Sequence(first.value)],
                    pos: first.pos + 1,
                    next_group: first.next_group,
                },
            )
        } else {
            match options_at(s, first.pos + 1, first.next_group) {
                Err(e) => Err(e),
                Ok(rest) => Ok(
                    Parsed {
                        value: seq![AstModel::Sequence(first.value)] + rest.value,
                        pos: rest.pos,
                        next_group: rest.next_group,
                    },
                ),
            }
        },
    }
}

/// The tree of a pattern, or why the pattern is rejected.
pub open spec fn parse_pattern(s: Seq<char>) -> Result<AstModel, ParseError> {
    match sequence_at(s, 0, 1, false) {
        Err(e) => Err(e),
        Ok(top) => Ok(AstModel::Root(Box::new(AstModel::Sequence(top.value)))),
    }
}

} // verus!
