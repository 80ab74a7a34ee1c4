//! What the line scanner prints of a matching line.
use vstd::prelude::*;
use vstd::string::StringExecFns;
use crate::common::{EXIT_CODE_NO_MATCH, EXIT_CODE_SUCCESS, range_end_adjust, range_start_adjust};
use crate::text::{chars_of_str, string_push};

verus! {

/// The exit code of a run: success where some line matched.
pub fn exit_code(has_match: bool) -> (code: i32)
    ensures
        code == if has_match {
            EXIT_CODE_SUCCESS
        } else {
            EXIT_CODE_NO_MATCH
        },
{
    if has_match {
        EXIT_CODE_SUCCESS
    } else {
        EXIT_CODE_NO_MATCH
    }
}

/// Where a reported range starts in the line: the leading sentinel is stripped.
pub open spec fn start_in_line(start: usize) -> int {
    if start > 0 {
        start - 1
    } else {
        0
    }
}

/// Where a reported range ends in a line of `len` characters: both sentinels are
/// stripped.
pub open spec fn end_in_line(end: usize, len: int) -> int {
    if end >= 1 {
        if end - 1 <= len {
            end - 1
        } else {
            len
        }
    } else {
        0
    }
}

/// The characters of the line from `from` up to `to`, both clamped to the line, and
/// none where `to` lies before `from`.
pub open spec fn part_of(line: Seq<char>, from: int, to: int) -> Seq<char> {
    let first = if from < 0 {
        0
    } else if from > line.len() {
        line.len() as int
    } else {
        from
    };
    let behind = if to < first {
        first
    } else if to > line.len() {
        line.len() as int
    } else {
        to
    };
    line.subrange(first, behind)
}

/// The part of the line that a reported range covers.
pub open spec fn matched_part(line: Seq<char>, range: (usize, usize)) -> Seq<char> {
    part_of(line, start_in_line(range.0), end_in_line(range.1, line.len() as int))
}

/// The line from `cursor` on, with the parts that the ranges from index `k` on cover
/// set between the two marks.
pub open spec fn highlighted_from(
    line: Seq<char>,
    ranges: Seq<(usize, usize)>,
    k: int,
    cursor: int,
    on: Seq<char>,
    off: Seq<char>,
) -> Seq<char>
    decreases ranges.len() - k,
{
    if 0 <= k < ranges.len() {
        part_of(line, cursor, start_in_line(ranges[k].0)) + on + matched_part(line, ranges[k]) + off
            + highlighted_from(
            line,
            ranges,
            k + 1,
            end_in_line(ranges[k].1, line.len() as int),
            on,
            off,
        )
    } else {
        part_of(line, cursor, line.len() as int)
    }
}

/// The mark that switches highlighting on.
pub open spec fn highlight_on() -> Seq<char> {
    "\x1B[01;31m"@
}

/// The mark that switches highlighting off.
pub open spec fn highlight_off() -> Seq<char> {
    "\x1B[m"@
}

/// The line with the parts that the ranges cover highlighted.
pub open spec fn highlighted(line: Seq<char>, ranges: Seq<(usize, usize)>) -> Seq<char> {
    highlighted_from(line, ranges, 0, 0, highlight_on(), highlight_off())
}

/// Appends the characters of the line from `from` up to `to`, both clamped to the line.
fn push_part(out: &mut String, line: &Vec<char>, from: usize, to: usize)
    ensures
        final(out)@ == old(out)@ + part_of(line@, from as int, to as int),
{
    let first = if from > line.len() {
        line.len()
    } else {
        from
    };
    let behind = if to < first {
        first
    } else if to > line.len() {
        line.len()
    } else {
        to
    };
    let mut i = first;
    assert(line@.subrange(first as int, first as int) =~= Seq::<char>::empty());
    assert(out@ + Seq::<char>::empty() =~= out@);
    while i < behind
        invariant
            first <= i <= behind <= line.len(),
            out@ == old(out)@ + line@.subrange(first as int, i as int),
        decreases behind - i,
    {
        string_push(out, line[i]);
        assert(out@ =~= old(out)@ + line@.subrange(first as int, i + 1));
        i += 1;
    }
}

/// The part of the line that a reported range covers.
pub fn matched_text(line: &str, range: (usize, usize)) -> (text: String)
    ensures
        text@ == matched_part(line@, range),
{
    let chars = chars_of_str(line);
    let mut out = String::new();
    let from = range_start_adjust(range.0);
    let to = range_end_adjust(range.1, chars.len());
    push_part(&mut out, &chars, from, to);
    assert(out@ =~= matched_part(line@, range));
    out
}

/// The line with the parts that the ranges cover highlighted.
pub fn highlight_line(line: &str, ranges: &Vec<(usize, usize)>) -> (text: String)
    ensures
        text@ == highlighted(line@, ranges@),
{
    broadcast use vstd::string::group_string_axioms;

    let chars = chars_of_str(line);
    let mut out = String::new();
    let mut cursor: usize = 0;
    let mut k: usize = 0;
    let ghost on = highlight_on();
    let ghost off = highlight_off();
    let ghost mut done: Seq<char> = Seq::empty();
    assert(out@ =~= done);
    while k < ranges.len()
        invariant
            k <= ranges.len(),
            chars@ == line@,
            on == highlight_on(),
            off == highlight_off(),
            out@ == done,
            highlighted(line@, ranges@) == done + highlighted_from(
                line@,
                ranges@,
                k as int,
                cursor as int,
                on,
                off,
            ),
        decreases ranges.len() - k,
    {
        let range = ranges[k];
        let from = range_start_adjust(range.0);
        let to = range_end_adjust(range.1, chars.len());
        push_part(&mut out, &chars, cursor, from);
        out.append("\x1B[01;31m");
        push_part(&mut out, &chars, from, to);
        out.append("\x1B[m");
        proof {
            let piece = part_of(line@, cursor as int, start_in_line(range.0)) + on + matched_part(
                line@,
                range,
            ) + off;
            assert(out@ =~= done + piece);
            assert(done + highlighted_from(line@, ranges@, k as int, cursor as int, on, off) =~= (
            done + piece) + highlighted_from(line@, ranges@, k + 1, to as int, on, off));
            done = done + piece;
        }
        cursor = to;
        k += 1;
    }
    push_part(&mut out, &chars, cursor, chars.len());
    out
}

} // verus!
