//! What a search path has captured: the texts of the capture groups and the stack of
//! the open ones.
use vstd::prelude::*;
use vstd::string::StringExecFns;
use std::collections::HashMap;
use crate::cond::capture_texts;
use crate::text::string_push;
use crate::token::{Token, chars_of};

verus! {

/// What one search path has captured so far: the text of every capture group
/// that was opened, and the stack of the groups that are still open.
#[derive(Debug)]
pub struct Capturer {
    pub captures: HashMap<u64, String>,
    pub currents: Vec<u64>,
}

/// The mathematical value of a `Capturer`.
pub struct CapturerModel {
    /// The text captured so far, by group id.
    pub captures: Map<u64, Seq<char>>,
    /// The open groups, the innermost last.
    pub currents: Seq<u64>,
}

impl CapturerModel {
    /// A capturer that holds nothing.
    pub open spec fn empty() -> CapturerModel {
        CapturerModel { captures: Map::empty(), currents: Seq::empty() }
    }

    /// No group is open twice, and every open group has a text.
    pub open spec fn wf(self) -> bool {
        &&& self.currents.no_duplicates()
        &&& forall|i: int|
            0 <= i < self.currents.len() ==> self.captures.contains_key(#[trigger] self.currents[i])
    }

    /// Whether `start_capture(id)` is allowed: the group is not open.
    pub open spec fn can_start(self, id: u64) -> bool {
        !self.currents.contains(id)
    }

    /// The group `id` opened, with an empty text.
    pub open spec fn start(self, id: u64) -> CapturerModel {
        CapturerModel {
            captures: self.captures.insert(id, Seq::empty()),
            currents: self.currents.push(id),
        }
    }

    /// Whether `end_capture(id)` is allowed: the group is the innermost open one.
    pub open spec fn can_end(self, id: u64) -> bool {
        self.currents.len() > 0 && self.currents.last() == id
    }

    /// The innermost open group closed; its text stays.
    pub open spec fn end(self) -> CapturerModel {
        CapturerModel { captures: self.captures, currents: self.currents.drop_last() }
    }

    /// The characters of `tokens` appended to the text of every open group.
    pub open spec fn push(self, tokens: Seq<Token>) -> CapturerModel {
        CapturerModel {
            captures: Map::new(
                |id: u64| self.captures.contains_key(id),
                |id: u64|
                    if self.currents.contains(id) {
                        self.captures[id] + chars_of(tokens)
                    } else {
                        self.captures[id]
                    },
            ),
            currents: self.currents,
        }
    }
}

impl View for Capturer {
    type V = CapturerModel;

    open spec fn view(&self) -> CapturerModel {
        CapturerModel { captures: capture_texts(self.captures@), currents: self.currents@ }
    }
}

/// The characters that `tokens` carry, as a string.
pub fn token_text(tokens: &[Token]) -> (text: String)
    ensures
        text@ == chars_of(tokens@),
{
    let mut text = String::new();
    let mut i: usize = 0;
    while i < tokens.len()
        invariant
            i <= tokens.len(),
            text@ == chars_of(tokens@.subrange(0, i as int)),
        decreases tokens.len() - i,
    {
        proof {
            assert(tokens@.subrange(0, i + 1).drop_last() =~= tokens@.subrange(0, i as int));
        }
        match tokens[i] {
            Token::Char(c) => {
                string_push(&mut text, c);
            },
            _ => {},
        }
        i += 1;
    }
    proof {
        assert(tokens@.subrange(0, i as int) =~= tokens@);
    }
    text
}

impl Capturer {
    /// A capturer that holds nothing.
    pub fn new() -> (r: Self)
        ensures
            r@ == CapturerModel::empty(),
            r@.wf(),
    {
        let r = Self { captures: HashMap::new(), currents: Vec::new() };
        assert(r@.captures =~= Map::empty());
        r
    }

    /// A copy that shares nothing with this capturer.
    pub fn duplicate(&self) -> (r: Self)
        ensures
            r@ == self@,
    {
        let r = Self { captures: self.captures.clone(), currents: self.currents.clone() };
        assert(r.currents@ =~= self.currents@);
        r
    }

    /// Opens the group `id` with an empty text.
    pub fn start_capture(&mut self, id: u64)
        requires
            old(self)@.wf(),
            old(self)@.can_start(id),
        ensures
            final(self)@ == old(self)@.start(id),
            final(self)@.wf(),
    {
        broadcast use vstd::std_specs::hash::group_hash_axioms;

        self.currents.push(id);
        self.captures.insert(id, String::new());
        assert(self@.captures =~= old(self)@.start(id).captures);
        assert forall|i: int, j: int|
            0 <= i < self@.currents.len() && 0 <= j < self@.currents.len() && i != j implies self@.currents[i]
            != self@.currents[j] by {
            if i == old(self)@.currents.len() {
                assert(old(self)@.currents[j] != id);
            } else if j == old(self)@.currents.len() {
                assert(old(self)@.currents[i] != id);
            }
        }
    }

    /// Closes the group `id`, which is the innermost open one.
    pub fn end_capture(&mut self, id: u64)
        requires
            old(self)@.wf(),
            old(self)@.can_end(id),
        ensures
            final(self)@ == old(self)@.end(),
            final(self)@.wf(),
    {
        let last = self.currents.pop();
        assert(self@.currents =~= old(self)@.currents.drop_last());
    }

    /// Appends the characters of `tokens` to the text of every open group.
    pub fn push(&mut self, tokens: &[Token])
        requires
            old(self)@.wf(),
        ensures
            final(self)@ == old(self)@.push(tokens@),
            final(self)@.wf(),
    {
        broadcast use vstd::std_specs::hash::group_hash_axioms;

        let text = token_text(tokens);
        let mut i: usize = 0;
        while i < self.currents.len()
            invariant
                i <= self.currents.len(),
                self.currents@ == old(self).currents@,
                old(self)@.wf(),
                text@ == chars_of(tokens@),
                self.captures@.dom() == old(self).captures@.dom(),
                forall|j: int|
                    0 <= j < i ==> (#[trigger] self.captures@[self.currents@[j]])@ == old(
                        self,
                    ).captures@[self.currents@[j]]@ + text@,
                forall|id: u64|
                    self.captures@.contains_key(id) && !self.currents@.subrange(
                        0,
                        i as int,
                    ).contains(id) ==> #[trigger] self.captures@[id] == old(self).captures@[id],
            decreases self.currents.len() - i,
        {
            let id = self.currents[i];
            assert(old(self)@.captures.contains_key(old(self)@.currents[i as int]));
            assert(!self.currents@.subrange(0, i as int).contains(id));
            let taken = self.captures.remove(&id);
            let mut s = taken.unwrap();
            s.append(text.as_str());
            self.captures.insert(id, s);
            proof {
                assert(self.captures@.dom() =~= old(self).captures@.dom());
                assert forall|k: u64|
                    self.captures@.contains_key(k) && !self.currents@.subrange(
                        0,
                        i + 1,
                    ).contains(k) implies #[trigger] self.captures@[k] == old(self).captures@[k] by {
                    if self.currents@.subrange(0, i as int).contains(k) {
                        let w = choose|w: int|
                            0 <= w < i && self.currents@.subrange(0, i as int)[w] == k;
                        assert(self.currents@.subrange(0, i + 1)[w] == k);
                    }
                    assert(self.currents@.subrange(0, i + 1)[i as int] == id);
                }
            }
            i += 1;
        }
        proof {
            assert(self.currents@.subrange(0, i as int) =~= self.currents@);
            assert forall|id: u64| self@.captures.contains_key(id) implies self@.captures[id]
                == old(self)@.push(tokens@).captures[id] by {
                if self.currents@.contains(id) {
                    let w = choose|w: int| 0 <= w < self.currents@.len() && self.currents@[w] == id;
                    assert((self.captures@[self.currents@[w]])@ == old(
                        self,
                    ).captures@[self.currents@[w]]@ + text@);
                }
            }
            assert(self@.captures =~= old(self)@.push(tokens@).captures);
        }
    }
}

} // verus!
