//! The tokens of a subject.
use vstd::prelude::*;

verus! {

/// One element of the stream that patterns are matched against.
///
/// A subject is flanked by the two sentinels, so that anchors are ordinary
/// conditions on ordinary tokens.
#[derive(Debug, Clone, Copy, PartialEq, Eq, Structural)]
pub enum Token {
    /// Sentinel in front of the first character of the subject.
    Start,
    /// Sentinel behind the last character of the subject.
    End,
    /// One character of the subject.
    Char(char),
}

impl Token {
    /// The token that carries the character `c`.
    pub fn from_char(c: char) -> (t: Token)
        ensures
            t == Token::Char(c),
    {
        Token::Char(c)
    }
}

/// The token at index `i` of the token stream of the subject `s`.
pub open spec fn token_at(s: Seq<char>, i: int) -> Token {
    if i <= 0 {
        Token::Start
    } else if i > s.len() {
        Token::End
    } else {
        Token::Char(s[i - 1])
    }
}

/// The token stream of a subject: `Start`, one `Char` per character, `End`.
pub open spec fn tokens_of(s: Seq<char>) -> Seq<Token> {
    Seq::new(s.len() + 2, |i: int| token_at(s, i))
}

/// The characters that a run of tokens carries; sentinels carry none.
pub open spec fn chars_of(tokens: Seq<Token>) -> Seq<char>
    decreases tokens.len(),
{
    if tokens.len() == 0 {
        Seq::empty()
    } else {
        match tokens.last() {
            Token::Char(c) => chars_of(tokens.drop_last()).push(c),
            _ => chars_of(tokens.drop_last()),
        }
    }
}

/// In the token stream of a subject the sentinels stand at the two ends and nowhere else.
pub proof fn lemma_sentinels_only_at_ends(s: Seq<char>, i: int)
    requires
        0 <= i < tokens_of(s).len(),
    ensures
        tokens_of(s).len() == s.len() + 2,
        tokens_of(s)[i] == Token::Start <==> i == 0,
        tokens_of(s)[i] == Token::End <==> i == s.len() + 1,
        0 < i <= s.len() ==> tokens_of(s)[i] == Token::Char(s[i - 1]),
{
}

} // verus!
