//! A cursor over a slice.
use vstd::prelude::*;
use vstd::std_specs::cmp::PartialEqSpec;

verus! {

/// What `assert_pop` and `assert_pop_char` report where the element it took is not the expected one.
#[derive(Debug, Clone, Copy, PartialEq, Eq, Structural)]
pub struct UnexpectedToken {
    /// Index of the element that was taken.
    pub position: usize,
}

/// A cursor over a sequence of elements.
pub struct Reader<'a, T> {
    stream: &'a [T],
    pos: usize,
}

impl<'a, T> Reader<'a, T> {
    /// The whole sequence that the cursor moves over.
    pub closed spec fn source(&self) -> Seq<T> {
        self.stream@
    }

    /// How many elements the cursor has passed.
    pub closed spec fn position(&self) -> int {
        self.pos as int
    }

    /// The cursor stands inside its sequence, or at its end.
    pub open spec fn wf(&self) -> bool {
        0 <= self.position() <= self.source().len()
    }

    /// The elements that the cursor has not passed yet.
    pub open spec fn remaining(&self) -> Seq<T> {
        self.source().subrange(self.position(), self.source().len() as int)
    }

    /// A cursor in front of the first element of `stream`.
    pub fn new(stream: &'a [T]) -> (r: Self)
        ensures
            r.wf(),
            r.source() == stream@,
            r.position() == 0,
    {
        Self { stream, pos: 0 }
    }

    /// How many elements the cursor has passed.
    pub fn offset(&self) -> (r: usize)
        requires
            self.wf(),
        ensures
            r == self.position(),
            r <= self.source().len(),
    {
        self.pos
    }

    /// The next element, if there is one; the cursor stays.
    pub fn peek(&self) -> (r: Option<&'a T>)
        requires
            self.wf(),
        ensures
            match r {
                Some(t) => self.position() < self.source().len() && *t
                    == self.source()[self.position()],
                None => self.position() == self.source().len(),
            },
    {
        if self.pos < self.stream.len() {
            Some(&self.stream[self.pos])
        } else {
            None
        }
    }

    /// Takes the next element.
    pub fn pop(&mut self) -> (r: &'a T)
        requires
            old(self).wf(),
            old(self).position() < old(self).source().len(),
        ensures
            final(self).wf(),
            final(self).source() == old(self).source(),
            final(self).position() == old(self).position() + 1,
            *r == old(self).source()[old(self).position()],
    {
        let out = &self.stream[self.pos];
        self.pos = self.pos + 1;
        out
    }

    /// Takes the longest run of elements for which `pred` holds.
    pub fn parse_while<F>(&mut self, pred: F) -> (r: &'a [T]) where F: Fn(&T) -> bool
        requires
            old(self).wf(),
            forall|t: &T| pred.requires((t,)),
        ensures
            final(self).wf(),
            final(self).source() == old(self).source(),
            old(self).position() <= final(self).position(),
            r@ == old(self).source().subrange(old(self).position(), final(self).position()),
            forall|i: int|
                old(self).position() <= i < final(self).position() ==> pred.ensures(
                    (&#[trigger] old(self).source()[i],),
                    true,
                ),
            final(self).position() < final(self).source().len() ==> pred.ensures(
                (&final(self).source()[final(self).position()],),
                false,
            ),
    {
        let start = self.pos;
        let mut end = self.pos;
        while end < self.stream.len()
            invariant
                start <= end <= self.stream@.len(),
                self.stream == old(self).stream,
                self.pos == start,
                start == old(self).pos,
                forall|t: &T| pred.requires((t,)),
                forall|i: int|
                    start <= i < end ==> pred.ensures((&#[trigger] self.stream@[i],), true),
            ensures
                start <= end <= self.stream@.len(),
                self.stream == old(self).stream,
                self.pos == start,
                forall|i: int|
                    start <= i < end ==> pred.ensures((&#[trigger] self.stream@[i],), true),
                end < self.stream@.len() ==> pred.ensures((&self.stream@[end as int],), false),
            decreases self.stream@.len() - end,
        {
            if !pred(&self.stream[end]) {
                break;
            }
            end += 1;
        }
        let out = &self.stream[start..end];
        self.pos = end;
        out
    }

    /// Takes the next element and reports whether it is the expected one.
    pub fn assert_pop(&mut self, expected: T) -> (r: Result<&'a T, UnexpectedToken>) where
        T: PartialEq,

        requires
            old(self).wf(),
            old(self).position() < old(self).source().len(),
        ensures
            final(self).wf(),
            final(self).source() == old(self).source(),
            final(self).position() == old(self).position() + 1,
            match r {
                Ok(t) => *t == old(self).source()[old(self).position()],
                Err(e) => e.position == old(self).position(),
            },
            T::obeys_eq_spec() ==> (r is Ok <==> old(self).source()[old(self).position()].eq_spec(
                &expected,
            )),
    {
        let at = self.pos;
        let out = &self.stream[self.pos];
        self.pos = self.pos + 1;
        if *out == expected {
            Ok(out)
        } else {
            Err(UnexpectedToken { position: at })
        }
    }
}

impl<'a> Reader<'a, char> {
    /// Takes the next character and reports whether it is the expected one: `Ok` with
    /// the character exactly where it is, else the position it was taken from.
    pub fn assert_pop_char(&mut self, expected: char) -> (r: Result<&'a char, UnexpectedToken>)
        requires
            old(self).wf(),
            old(self).position() < old(self).source().len(),
        ensures
            final(self).wf(),
            final(self).source() == old(self).source(),
            final(self).position() == old(self).position() + 1,
            r is Ok <==> old(self).source()[old(self).position()] == expected,
            match r {
                Ok(t) => *t == expected,
                Err(e) => e.position == old(self).position(),
            },
    {
        let at = self.pos;
        let out = &self.stream[self.pos];
        self.pos = self.pos + 1;
        if *out == expected {
            Ok(out)
        } else {
            Err(UnexpectedToken { position: at })
        }
    }
}

} // verus!
