//! A pattern as a chain of states, each with the state that follows it.
use vstd::prelude::*;

verus! {

/// What one state of a pattern chain matches.
pub enum Pattern {
    /// That character.
    Char(char),
    /// The states one after the other.
    Sequence(Vec<State>),
    /// One of the states.
    Alt(Vec<State>),
    /// The start of the subject.
    Start,
    /// The end of the subject.
    End,
}

/// A pattern and the state that follows it, if one does.
pub struct State {
    pub pattern: Pattern,
    pub next: Option<Box<State>>,
}

} // verus!
