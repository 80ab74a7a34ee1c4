//! State ids, token streams, a source of fresh ids, and the ranges that a scan reports.
use vstd::prelude::*;
use vstd::relations::sorted_by;
use vstd::seq_lib::lemma_sorted_unique;
use vstd::std_specs::iter::IteratorSpec;
use crate::ranges::{
    absorb,
    fold_ranges,
    lemma_merged_sorted_and_separated,
    lemma_range_leq_total,
    merged_ranges,
    range_leq,
    separated,
    sorted_ranges,
};
use crate::token::{Token, tokens_of};

verus! {

/// Exit code of a run that printed at least one matching line.
pub const EXIT_CODE_SUCCESS: i32 = 0;

/// Exit code of a run without any matching line.
pub const EXIT_CODE_NO_MATCH: i32 = 1;

/// Identifier of the entry state of every transition graph.
pub const START_STATE: u64 = 0;

/// Identifier of the accepting state of every transition graph.
pub const END_STATE: u64 = 1;

/// Turns a subject into its token stream, sentinels included.
pub fn str_to_tokens(s: &str) -> (out: Vec<Token>)
    ensures
        out@ == tokens_of(s@),
{
    broadcast use {vstd::group_vstd_default, vstd::string::group_string_axioms};

    let mut out: Vec<Token> = Vec::new();
    out.push(Token::Start);
    let mut it = s.chars();
    let ghost mut i: int = 0;
    loop
        invariant
            0 <= i <= s@.len(),
            it.remaining() == s@.subrange(i, s@.len() as int),
            out@.len() == i + 1,
            out@[0] == Token::Start,
            forall|j: int| 0 <= j < i ==> out@[j + 1] == Token::Char(s@[j]),
        ensures
            i == s@.len(),
            out@.len() == i + 1,
            out@[0] == Token::Start,
            forall|j: int| 0 <= j < i ==> out@[j + 1] == Token::Char(s@[j]),
        decreases s@.len() - i,
    {
        let next = it.next();
        if next.is_none() {
            break;
        }
        let c = next.unwrap();
        out.push(Token::from_char(c));
        proof {
            assert(s@.subrange(i, s@.len() as int).drop_first() =~= s@.subrange(
                i + 1,
                s@.len() as int,
            ));
            i = i + 1;
        }
    }
    out.push(Token::End);
    assert(out@ =~= tokens_of(s@));
    out
}

/// A monotone source of fresh identifiers.
pub struct Incrementer {
    v: u64,
}

impl Incrementer {
    /// The identifier that the next call of `get` hands out.
    pub closed spec fn next_value(&self) -> u64 {
        self.v
    }

    /// A source whose first identifier is 0.
    pub fn new() -> (r: Self)
        ensures
            r.next_value() == 0,
    {
        Self { v: 0 }
    }

    /// A source whose first identifier is `v`.
    pub fn new_from(v: u64) -> (r: Self)
        ensures
            r.next_value() == v,
    {
        Self { v }
    }

    /// The identifier that the next call of `get` hands out, without taking it.
    pub fn peek(&self) -> (r: u64)
        ensures
            r == self.next_value(),
    {
        self.v
    }

    /// The identifier behind `v`; behind the largest one the count starts over at 0.
    pub open spec fn cyclic_successor(v: u64) -> u64 {
        if v == u64::MAX {
            0
        } else {
            (v + 1) as u64
        }
    }

    /// Hands out the next identifier and moves on by one, starting over at 0 behind
    /// the largest identifier. For identifiers that only tell recent ones apart.
    pub fn get_cyclic(&mut self) -> (r: u64)
        ensures
            r == old(self).next_value(),
            final(self).next_value() == Self::cyclic_successor(old(self).next_value()),
    {
        let r = self.v;
        self.v = if r == u64::MAX {
            0
        } else {
            r + 1
        };
        r
    }

    /// Hands out the next identifier and moves on by one.
    pub fn get(&mut self) -> (r: u64)
        requires
            old(self).next_value() < u64::MAX,
        ensures
            r == old(self).next_value(),
            final(self).next_value() == old(self).next_value() + 1,
    {
        self.v += 1;
        self.v - 1
    }
}

/// Start of a reported range as a position in the subject: the leading sentinel is stripped.
pub fn range_start_adjust(start: usize) -> (r: usize)
    ensures
        r == if start > 0 { start - 1 } else { 0 },
{
    if start == 0 {
        0
    } else {
        start - 1
    }
}

/// End of a reported range as a position in a subject of length `len`:
/// both sentinels are stripped.
pub fn range_end_adjust(end: usize, len: usize) -> (r: usize)
    ensures
        r == if end >= 1 { if end - 1 <= len { end - 1 } else { len as int } } else { end as int },
{
    if end > len {
        len
    } else if end >= 1 {
        end - 1
    } else {
        end
    }
}

/// `<[T]>::sort` on pairs of integers: the pairs afterwards are the pairs before, in
/// ascending order, a pair standing before another where its first number is smaller,
/// or the first numbers are equal and its second number is not larger.
#[verifier::external_body]
fn sort_pairs(pairs: &mut Vec<(usize, usize)>)
    ensures
        final(pairs)@.to_multiset() == old(pairs)@.to_multiset(),
        sorted_by(final(pairs)@, range_leq()),
{
    pairs.sort();
}

/// The ranges sorted by start and end, and those that touch or overlap merged into
/// one that reaches to the latest end.
pub fn merge_overlapping_match_ranges(ranges: &Vec<(usize, usize)>) -> (out: Vec<(usize, usize)>)
    ensures
        out@ == merged_ranges(ranges@),
        sorted_by(out@, range_leq()),
        separated(out@),
{
    let mut sorted: Vec<(usize, usize)> = Vec::new();
    let mut i: usize = 0;
    while i < ranges.len()
        invariant
            i <= ranges.len(),
            sorted@ == ranges@.subrange(0, i as int),
        decreases ranges.len() - i,
    {
        sorted.push(ranges[i]);
        assert(sorted@ =~= ranges@.subrange(0, i + 1));
        i += 1;
    }
    assert(ranges@.subrange(0, i as int) =~= ranges@);
    sort_pairs(&mut sorted);
    proof {
        lemma_range_leq_total();
        ranges@.lemma_sort_by_ensures(range_leq());
        lemma_sorted_unique(sorted@, sorted_ranges(ranges@), range_leq());
        lemma_merged_sorted_and_separated(ranges@);
    }

    let mut out: Vec<(usize, usize)> = Vec::new();
    let mut i: usize = 0;
    assert(sorted@.subrange(0, 0) =~= Seq::empty());
    while i < sorted.len()
        invariant
            i <= sorted.len(),
            out@ == fold_ranges(sorted@.subrange(0, i as int)),
        decreases sorted.len() - i,
    {
        let (start, end) = sorted[i];
        proof {
            assert(sorted@.subrange(0, i + 1).drop_last() =~= sorted@.subrange(0, i as int));
        }
        let n = out.len();
        if n == 0 || out[n - 1].1 < start {
            out.push((start, end));
        } else {
            let last = out[n - 1];
            let reach = if end > last.1 {
                end
            } else {
                last.1
            };
            out[n - 1] = (last.0, reach);
        }
        assert(out@ =~= absorb(fold_ranges(sorted@.subrange(0, i as int)), sorted@[i as int]));
        i += 1;
    }
    assert(sorted@.subrange(0, i as int) =~= sorted@);
    out
}

} // verus!
