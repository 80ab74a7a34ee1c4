//! The conditions of transitions: predicates on one character, anchors, the empty
//! condition and backreferences.
use vstd::prelude::*;
use vstd::std_specs::iter::IteratorSpec;
use vstd::string::StringExecFns;
use std::collections::HashMap;
use crate::text::{decimal_digits, push_decimal, string_push};
use crate::token::Token;

verus! {

/// Outcome of testing one condition at the head of a token stream.
#[derive(Debug, Clone, Copy, PartialEq, Eq, Structural)]
pub enum MatchResult {
    /// The condition holds and consumes that many tokens.
    Match(usize),
    /// The condition does not hold.
    NoMatch,
}

impl MatchResult {
    /// Whether the condition held.
    pub fn is_success(&self) -> (r: bool)
        ensures
            r == (*self is Match),
    {
        match self {
            Self::Match(_) => true,
            Self::NoMatch => false,
        }
    }
}

/// A primitive predicate on one character.
#[derive(Debug, Clone, Copy, Hash, PartialEq, Eq, Structural)]
pub enum Literal {
    /// That character and no other.
    Char(char),
    /// Every character from `start` to `end`, both included.
    Range { start: char, end: char },
    /// An ASCII digit.
    Numeric,
    /// An ASCII letter, an ASCII digit or the underscore.
    Alphanumeric,
}

/// Whether `c` is one of the ASCII digits.
pub open spec fn is_ascii_digit(c: char) -> bool {
    '0' <= c && c <= '9'
}

/// Whether `c` is an ASCII letter, an ASCII digit or the underscore.
pub open spec fn is_word_char(c: char) -> bool {
    ('a' <= c && c <= 'z') || ('A' <= c && c <= 'Z') || is_ascii_digit(c) || c == '_'
}

/// How a literal is written in a label.
pub open spec fn literal_label(l: Literal) -> Seq<char> {
    match l {
        Literal::Alphanumeric => "\\w"@,
        Literal::Char(c) => seq![c],
        Literal::Range { start, end } => seq![start, '-', end],
        Literal::Numeric => "\\d"@,
    }
}

/// How the literals of a class are written in a label: one behind the other.
pub open spec fn class_label(chars: Seq<Literal>) -> Seq<char>
    decreases chars.len(),
{
    if chars.len() == 0 {
        Seq::empty()
    } else {
        class_label(chars.drop_last()) + literal_label(chars.last())
    }
}

/// How a condition is written in a label.
pub open spec fn cond_label(cond: CondModel) -> Seq<char> {
    match cond {
        CondModel::Char(l) => literal_label(l),
        CondModel::CharGroup { chars, is_negated } => "["@ + (if is_negated {
            "^"@
        } else {
            Seq::empty()
        }) + class_label(chars) + "]"@,
        CondModel::Epsilon => "-"@,
        CondModel::Start => "^"@,
        CondModel::End => "$"@,
        CondModel::AnyChar => "."@,
        CondModel::CaptureRef(id) => "ref"@ + decimal_digits(id as nat),
    }
}

impl Literal {
    /// How this literal is written in a label.
    pub fn to_label(&self) -> (r: String)
        ensures
            r@ == literal_label(*self),
    {
        broadcast use vstd::string::group_string_axioms;

        match self {
            Self::Alphanumeric => "\\w".to_string(),
            Self::Char(c) => {
                let mut out = String::new();
                string_push(&mut out, *c);
                out
            },
            Self::Range { start, end } => {
                let mut out = String::new();
                string_push(&mut out, *start);
                string_push(&mut out, '-');
                string_push(&mut out, *end);
                assert(out@ =~= seq![*start, '-', *end]);
                out
            },
            Self::Numeric => "\\d".to_string(),
        }
    }

    /// The set of characters of this predicate, as a test on one character.
    pub open spec fn accepts(&self, c: char) -> bool {
        match *self {
            Literal::Char(x) => c == x,
            Literal::Range { start, end } => start <= c && c <= end,
            Literal::Numeric => is_ascii_digit(c),
            Literal::Alphanumeric => is_word_char(c),
        }
    }

    /// What `is_match` returns: one token consumed where the token is a
    /// character of this predicate, no match on a sentinel or at the end.
    pub open spec fn match_token(&self, token: Option<Token>) -> MatchResult {
        match token {
            Some(Token::Char(c)) => if self.accepts(c) {
                MatchResult::Match(1)
            } else {
                MatchResult::NoMatch
            },
            _ => MatchResult::NoMatch,
        }
    }

    /// The literal of the one character `c`.
    pub fn of_char(c: char) -> (l: Literal)
        ensures
            l == Literal::Char(c),
    {
        Literal::Char(c)
    }

    /// The literal of the characters from `start` to `end`, both included.
    pub fn of_range(start: char, end: char) -> (l: Literal)
        ensures
            l == (Literal::Range { start, end }),
    {
        Literal::Range { start, end }
    }

    /// Whether the character `c` belongs to this predicate.
    pub fn accepts_char(&self, c: char) -> (r: bool)
        ensures
            r == self.accepts(c),
    {
        match self {
            Self::Alphanumeric => (c >= 'a' && c <= 'z') || (c >= 'A' && c <= 'Z') || (c >= '0'
                && c <= '9') || c == '_',
            Self::Char(x) => c == *x,
            Self::Numeric => c >= '0' && c <= '9',
            Self::Range { start, end } => c >= *start && c <= *end,
        }
    }

    /// Tests the token at the head of a stream, `None` standing for its end.
    pub fn is_match(&self, token: Option<&Token>) -> (r: MatchResult)
        ensures
            r == self.match_token(
                match token {
                    Some(t) => Some(*t),
                    None => None,
                },
            ),
    {
        match token {
            Some(Token::Char(c)) => {
                if self.accepts_char(*c) {
                    MatchResult::Match(1)
                } else {
                    MatchResult::NoMatch
                }
            },
            _ => MatchResult::NoMatch,
        }
    }
}

/// What a transition tests before it is taken.
#[derive(Debug)]
pub enum Cond {
    /// One character of the literal.
    Char(Literal),
    /// Any one character.
    AnyChar,
    /// One character that belongs to some literal of the class, or to none where negated.
    CharGroup { chars: Vec<Literal>, is_negated: bool },
    /// The sentinel at the start of the stream.
    Start,
    /// The sentinel at the end of the stream.
    End,
    /// The empty condition: always holds and consumes nothing.
    Epsilon,
    /// The text that the capture group of that id holds.
    CaptureRef(u64),
}

/// The mathematical value of a `Cond`.
pub enum CondModel {
    Char(Literal),
    AnyChar,
    CharGroup { chars: Seq<Literal>, is_negated: bool },
    Start,
    End,
    Epsilon,
    CaptureRef(u64),
}

impl View for Cond {
    type V = CondModel;

    open spec fn view(&self) -> CondModel {
        match *self {
            Cond::Char(l) => CondModel::Char(l),
            Cond::AnyChar => CondModel::AnyChar,
            Cond::CharGroup { chars, is_negated } => CondModel::CharGroup {
                chars: chars@,
                is_negated,
            },
            Cond::Start => CondModel::Start,
            Cond::End => CondModel::End,
            Cond::Epsilon => CondModel::Epsilon,
            Cond::CaptureRef(id) => CondModel::CaptureRef(id),
        }
    }
}

/// The texts that a capture map holds, by group id.
pub open spec fn capture_texts(captures: Map<u64, String>) -> Map<u64, Seq<char>> {
    Map::new(|id: u64| captures.contains_key(id), |id: u64| captures[id]@)
}

/// Whether some literal of the class accepts `c`.
pub open spec fn class_accepts(chars: Seq<Literal>, c: char) -> bool {
    exists|i: int| 0 <= i < chars.len() && (#[trigger] chars[i]).accepts(c)
}

/// Whether the stream starts with exactly the characters of `text`.
pub open spec fn starts_with_text(tokens: Seq<Token>, text: Seq<char>) -> bool {
    &&& text.len() <= tokens.len()
    &&& forall|i: int| 0 <= i < text.len() ==> #[trigger] tokens[i] == Token::Char(text[i])
}

/// The meaning of each condition at the head of `tokens`, given the texts captured so far.
pub open spec fn cond_match(cond: CondModel, tokens: Seq<Token>, texts: Map<u64, Seq<char>>)
    -> MatchResult {
    let head = if tokens.len() > 0 {
        Some(tokens[0])
    } else {
        None
    };
    match cond {
        CondModel::Char(l) => l.match_token(head),
        CondModel::AnyChar => match head {
            Some(Token::Char(_)) => MatchResult::Match(1),
            _ => MatchResult::NoMatch,
        },
        CondModel::CharGroup { chars, is_negated } => match head {
            Some(Token::Char(c)) => if class_accepts(chars, c) != is_negated {
                MatchResult::Match(1)
            } else {
                MatchResult::NoMatch
            },
            _ => MatchResult::NoMatch,
        },
        CondModel::Start => if head == Some(Token::Start) {
            MatchResult::Match(1)
        } else {
            MatchResult::NoMatch
        },
        CondModel::End => if head == Some(Token::End) {
            MatchResult::Match(1)
        } else {
            MatchResult::NoMatch
        },
        CondModel::Epsilon => MatchResult::Match(0),
        CondModel::CaptureRef(id) => if texts.contains_key(id) && starts_with_text(
            tokens,
            texts[id],
        ) {
            MatchResult::Match(texts[id].len() as usize)
        } else {
            MatchResult::NoMatch
        },
    }
}

/// A condition never consumes more than the stream holds.
pub proof fn lemma_cond_match_in_bounds(
    cond: CondModel,
    tokens: Seq<Token>,
    texts: Map<u64, Seq<char>>,
)
    ensures
        cond_match(cond, tokens, texts) matches MatchResult::Match(step) ==> step <= tokens.len(),
{
}

/// Whether some literal of the class accepts `c`.
pub fn class_accepts_char(chars: &Vec<Literal>, c: char) -> (r: bool)
    ensures
        r == class_accepts(chars@, c),
{
    let mut i: usize = 0;
    while i < chars.len()
        invariant
            i <= chars.len(),
            forall|j: int| 0 <= j < i ==> !(#[trigger] chars@[j]).accepts(c),
        decreases chars.len() - i,
    {
        if chars[i].accepts_char(c) {
            return true;
        }
        i += 1;
    }
    false
}

/// Whether the stream starts with exactly the characters of `text`.
pub fn starts_with(tokens: &[Token], text: &str) -> (r: bool)
    ensures
        r == starts_with_text(tokens@, text@),
{
    broadcast use vstd::string::group_string_axioms;

    let mut it = text.chars();
    let mut i: usize = 0;
    loop
        invariant
            i <= text@.len(),
            i <= tokens@.len(),
            it.remaining() == text@.subrange(i as int, text@.len() as int),
            forall|j: int| 0 <= j < i ==> #[trigger] tokens@[j] == Token::Char(text@[j]),
        decreases text@.len() - i,
    {
        let next = it.next();
        if next.is_none() {
            return true;
        }
        let c = next.unwrap();
        if i >= tokens.len() {
            return false;
        }
        let expected = Token::from_char(c);
        if tokens[i] != expected {
            return false;
        }
        proof {
            assert(text@.subrange(i as int, text@.len() as int).drop_first() =~= text@.subrange(
                i + 1,
                text@.len() as int,
            ));
        }
        i += 1;
    }
}

impl Cond {
    /// How this condition is written in a label.
    pub fn to_label(&self) -> (r: String)
        ensures
            r@ == cond_label(self@),
    {
        broadcast use vstd::string::group_string_axioms;

        match self {
            Self::Char(t) => t.to_label(),
            Self::CharGroup { chars, is_negated } => {
                let mut out = "[".to_string();
                if *is_negated {
                    out.append("^");
                }
                let ghost head = out@;
                let mut i: usize = 0;
                assert(chars@.subrange(0, 0) =~= Seq::empty());
                while i < chars.len()
                    invariant
                        i <= chars.len(),
                        out@ == head + class_label(chars@.subrange(0, i as int)),
                    decreases chars.len() - i,
                {
                    let part = chars[i].to_label();
                    out.append(part.as_str());
                    proof {
                        assert(chars@.subrange(0, i + 1).drop_last() =~= chars@.subrange(
                            0,
                            i as int,
                        ));
                        assert(out@ =~= head + class_label(chars@.subrange(0, i + 1)));
                    }
                    i += 1;
                }
                assert(chars@.subrange(0, i as int) =~= chars@);
                out.append("]");
                assert(out@ =~= cond_label(self@));
                out
            },
            Self::Epsilon => "-".to_string(),
            Self::Start => "^".to_string(),
            Self::End => "$".to_string(),
            Self::AnyChar => ".".to_string(),
            Self::CaptureRef(id) => {
                let mut out = "ref".to_string();
                push_decimal(&mut out, *id);
                out
            },
        }
    }

    /// Tests this condition at the head of `tokens`, given what the capture groups hold.
    pub fn is_match(&self, tokens: &[Token], captures: &HashMap<u64, String>) -> (r: MatchResult)
        ensures
            r == cond_match(self@, tokens@, capture_texts(captures@)),
    {
        broadcast use vstd::std_specs::hash::group_hash_axioms;

        match self {
            Self::Char(t) => {
                if tokens.len() > 0 {
                    t.is_match(Some(&tokens[0]))
                } else {
                    t.is_match(None)
                }
            },
            Self::Epsilon => MatchResult::Match(0),
            Self::CharGroup { chars, is_negated } => {
                if tokens.len() > 0 {
                    match tokens[0] {
                        Token::Char(c) => {
                            if class_accepts_char(chars, c) != *is_negated {
                                MatchResult::Match(1)
                            } else {
                                MatchResult::NoMatch
                            }
                        },
                        _ => MatchResult::NoMatch,
                    }
                } else {
                    MatchResult::NoMatch
                }
            },
            Self::Start => {
                if tokens.len() > 0 && tokens[0] == Token::Start {
                    MatchResult::Match(1)
                } else {
                    MatchResult::NoMatch
                }
            },
            Self::End => {
                if tokens.len() > 0 && tokens[0] == Token::End {
                    MatchResult::Match(1)
                } else {
                    MatchResult::NoMatch
                }
            },
            Self::AnyChar => {
                if tokens.len() > 0 {
                    match tokens[0] {
                        Token::Char(_) => MatchResult::Match(1),
                        _ => MatchResult::NoMatch,
                    }
                } else {
                    MatchResult::NoMatch
                }
            },
            Self::CaptureRef(id) => {
                match captures.get(id) {
                    Some(capture) => {
                        if starts_with(tokens, capture.as_str()) {
                            let n = capture.as_str().unicode_len();
                            MatchResult::Match(n)
                        } else {
                            MatchResult::NoMatch
                        }
                    },
                    None => MatchResult::NoMatch,
                }
            },
        }
    }
}

} // verus!
