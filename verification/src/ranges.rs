//! Sorting and merging of ranges, and what holds of merged ranges.
use vstd::prelude::*;
use vstd::relations::{sorted_by, total_ordering};
use vstd::seq_lib::lemma_sorted_unique;

verus! {

/// The order of ranges: by start, and by end where the starts are equal.
pub open spec fn range_leq() -> spec_fn((usize, usize), (usize, usize)) -> bool {
    |a: (usize, usize), b: (usize, usize)| a.0 < b.0 || (a.0 == b.0 && a.1 <= b.1)
}

/// The ranges in ascending order.
pub open spec fn sorted_ranges(ranges: Seq<(usize, usize)>) -> Seq<(usize, usize)> {
    ranges.sort_by(range_leq())
}

/// The merged ranges `acc` with one more range: a range of its own where it starts
/// behind the end of the last one, else the last one, stretched to the later end.
pub open spec fn absorb(acc: Seq<(usize, usize)>, r: (usize, usize)) -> Seq<(usize, usize)> {
    if acc.len() == 0 || acc.last().1 < r.0 {
        acc.push(r)
    } else {
        acc.update(
            acc.len() - 1,
            (
                acc.last().0,
                if r.1 > acc.last().1 {
                    r.1
                } else {
                    acc.last().1
                },
            ),
        )
    }
}

/// The ranges folded from the left, each absorbed into those before it.
pub open spec fn fold_ranges(ranges: Seq<(usize, usize)>) -> Seq<(usize, usize)>
    decreases ranges.len(),
{
    if ranges.len() == 0 {
        Seq::empty()
    } else {
        absorb(fold_ranges(ranges.drop_last()), ranges.last())
    }
}

/// The ranges sorted, and those that touch or overlap merged.
pub open spec fn merged_ranges(ranges: Seq<(usize, usize)>) -> Seq<(usize, usize)> {
    fold_ranges(sorted_ranges(ranges))
}

/// Each range ends before the next one starts.
pub open spec fn separated(ranges: Seq<(usize, usize)>) -> bool {
    forall|i: int| 0 <= i < ranges.len() - 1 ==> (#[trigger] ranges[i]).1 < ranges[i + 1].0
}

/// No range ends before it starts.
pub open spec fn all_forward(ranges: Seq<(usize, usize)>) -> bool {
    forall|i: int| 0 <= i < ranges.len() ==> (#[trigger] ranges[i]).0 <= ranges[i].1
}

/// The order of ranges is a total order.
pub proof fn lemma_range_leq_total()
    ensures
        total_ordering(range_leq()),
{
    let leq = range_leq();
    assert forall|x: (usize, usize), y: (usize, usize)| #[trigger]
        leq(x, y) && #[trigger] leq(y, x) implies x == y by {}
}

/// A sequence in ascending order is its own sorting.
pub proof fn lemma_sorted_is_fixed(ranges: Seq<(usize, usize)>)
    requires
        sorted_by(ranges, range_leq()),
    ensures
        sorted_ranges(ranges) == ranges,
{
    lemma_range_leq_total();
    ranges.lemma_sort_by_ensures(range_leq());
    lemma_sorted_unique(sorted_ranges(ranges), ranges, range_leq());
}

/// Whether the last of the merged ranges `acc` stems from a range that stands in
/// `ranges`: it has the start of that range, and its end too unless it was stretched,
/// in which case it does not end before it starts.
pub open spec fn last_stems_from(acc: Seq<(usize, usize)>, ranges: Seq<(usize, usize)>) -> bool {
    acc.len() > 0 ==> exists|m: int|
        0 <= m < ranges.len() && acc.last().0 == (#[trigger] ranges[m]).0 && (acc.last().1
            == ranges[m].1 || acc.last().0 <= acc.last().1)
}

/// What folding keeps of ranges in ascending order: the result is in ascending order
/// and separated, it is empty only where the input is, and its last range stems from
/// the input.
pub proof fn lemma_fold_sorted(ranges: Seq<(usize, usize)>)
    requires
        sorted_by(ranges, range_leq()),
    ensures
        sorted_by(fold_ranges(ranges), range_leq()),
        separated(fold_ranges(ranges)),
        last_stems_from(fold_ranges(ranges), ranges),
        ranges.len() > 0 ==> fold_ranges(ranges).len() > 0,
        all_forward(ranges) ==> all_forward(fold_ranges(ranges)),
    decreases ranges.len(),
{
    let leq = range_leq();
    if ranges.len() > 0 {
        let front = ranges.drop_last();
        let r = ranges.last();
        let acc = fold_ranges(front);
        let out = absorb(acc, r);
        assert forall|i: int, j: int| 0 <= i < j < front.len() implies #[trigger] leq(
            front[i],
            front[j],
        ) by {
            assert(leq(ranges[i], ranges[j]));
        }
        lemma_fold_sorted(front);
        if all_forward(ranges) {
            assert forall|i: int| 0 <= i < front.len() implies (#[trigger] front[i]).0
                <= front[i].1 by {
                assert(front[i] == ranges[i]);
            }
        }
        if acc.len() == 0 {
            assert(out[0] == ranges[ranges.len() - 1]);
        } else {
            let m = choose|m: int|
                0 <= m < front.len() && acc.last().0 == (#[trigger] front[m]).0 && (acc.last().1
                    == front[m].1 || acc.last().0 <= acc.last().1);
            assert(leq(ranges[m], ranges[ranges.len() - 1]));
            if acc.last().1 < r.0 {
                assert(leq(acc.last(), r));
                assert forall|i: int, j: int| 0 <= i < j < out.len() implies #[trigger] leq(
                    out[i],
                    out[j],
                ) by {
                    if j == out.len() - 1 {
                        if i < acc.len() - 1 {
                            assert(leq(acc[i], acc[acc.len() - 1]));
                        }
                    } else {
                        assert(leq(acc[i], acc[j]));
                    }
                }
                assert(out.last() == ranges[ranges.len() - 1]);
            } else {
                assert forall|i: int, j: int| 0 <= i < j < out.len() implies #[trigger] leq(
                    out[i],
                    out[j],
                ) by {
                    assert(leq(acc[i], acc[j]));
                }
                assert forall|i: int| 0 <= i < out.len() - 1 implies (#[trigger] out[i]).1 < out[i
                    + 1].0 by {
                    assert(acc[i].1 < acc[i + 1].0);
                }
                assert(out.last().0 == ranges[m].0);
            }
        }
    }
}

/// Folding leaves separated ranges as they are.
pub proof fn lemma_fold_separated_is_fixed(ranges: Seq<(usize, usize)>)
    requires
        separated(ranges),
    ensures
        fold_ranges(ranges) == ranges,
    decreases ranges.len(),
{
    if ranges.len() > 0 {
        let front = ranges.drop_last();
        assert forall|i: int| 0 <= i < front.len() - 1 implies (#[trigger] front[i]).1 < front[i
            + 1].0 by {
            assert(ranges[i].1 < ranges[i + 1].0);
        }
        lemma_fold_separated_is_fixed(front);
        if front.len() > 0 {
            assert(ranges[front.len() - 1].1 < ranges[front.len() - 1 + 1].0);
        }
        assert(absorb(front, ranges.last()) =~= ranges);
    }
}

/// Merged ranges are in ascending order, and each ends before the next one starts.
pub proof fn lemma_merged_sorted_and_separated(ranges: Seq<(usize, usize)>)
    ensures
        sorted_by(merged_ranges(ranges), range_leq()),
        separated(merged_ranges(ranges)),
{
    lemma_range_leq_total();
    ranges.lemma_sort_by_ensures(range_leq());
    lemma_fold_sorted(sorted_ranges(ranges));
}

/// Merging is idempotent: merged ranges merge into themselves.
pub proof fn lemma_merge_idempotent(ranges: Seq<(usize, usize)>)
    ensures
        merged_ranges(merged_ranges(ranges)) == merged_ranges(ranges),
{
    lemma_merged_sorted_and_separated(ranges);
    lemma_sorted_is_fixed(merged_ranges(ranges));
    lemma_fold_separated_is_fixed(merged_ranges(ranges));
}

/// Where no range ends before it starts, the merged ranges are pairwise disjoint:
/// each ends before every later one starts.
pub proof fn lemma_merged_disjoint(ranges: Seq<(usize, usize)>, i: int, j: int)
    requires
        all_forward(ranges),
        0 <= i < j < merged_ranges(ranges).len(),
    ensures
        all_forward(merged_ranges(ranges)),
        merged_ranges(ranges)[i].1 < merged_ranges(ranges)[j].0,
    decreases j - i,
{
    broadcast use vstd::seq_lib::group_to_multiset_ensures;

    lemma_range_leq_total();
    ranges.lemma_sort_by_ensures(range_leq());
    let sorted = sorted_ranges(ranges);
    assert forall|k: int| 0 <= k < sorted.len() implies (#[trigger] sorted[k]).0
        <= sorted[k].1 by {
        assert(sorted.to_multiset().count(sorted[k]) > 0);
        assert(ranges.to_multiset().count(sorted[k]) > 0);
        assert(ranges.contains(sorted[k]));
        let w = choose|w: int| 0 <= w < ranges.len() && ranges[w] == sorted[k];
        assert(ranges[w].0 <= ranges[w].1);
    }
    lemma_fold_sorted(sorted);
    let out = merged_ranges(ranges);
    if j == i + 1 {
        assert(out[i].1 < out[i + 1].0);
    } else {
        lemma_merged_disjoint(ranges, i, j - 1);
        assert(out[j - 1].1 < out[j - 1 + 1].0);
        assert(out[j - 1].0 <= out[j - 1].1);
    }
}

} // verus!
