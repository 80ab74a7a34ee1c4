//! Ranks for the states of the graph of a pattern whose repetitions without a maximum
//! repeat something that consumes a token. A backreference counts as consuming a token
//! unless its group is one of the loose ones, whose text may be empty.
use vstd::prelude::*;
use crate::ast::{
    AstModel,
    chain_between,
    chain_state_count,
    graph_between,
    graph_of_pattern,
    lemma_chain_next,
    lemma_graph_next,
    lemma_options_next,
    lemma_unrolled_next,
    options_between,
    options_state_count,
    required_copies,
    state_count,
    unrolled_between,
};
use crate::common::{END_STATE, START_STATE};
use crate::cond::CondModel;
use crate::shape::{
    edges_within_from_two,
    lemma_chain_within,
    lemma_graph_within,
    lemma_options_within,
    lemma_unrolled_within,
};
use crate::transition::TransitionModel;

verus! {

/// Whether the graph of `node` can be crossed without consuming a token, where the
/// backreferences to the groups `loose`, and no others, may consume nothing.
pub open spec fn nullable(loose: Seq<u64>, node: AstModel) -> bool
    decreases node,
{
    match node {
        AstModel::Root(inner) => nullable(loose, *inner),
        AstModel::Sequence(items) => forall|i: int|
            0 <= i < items.len() ==> nullable(loose, #[trigger] items[i]),
        AstModel::Alt { options, id } => exists|i: int|
            0 <= i < options.len() && nullable(loose, #[trigger] options[i]),
        AstModel::Repeat { min, max, node } => max == Some(0u64) || min is None || min == Some(
            0u64,
        ) || nullable(loose, *node),
        AstModel::CaptureRef(id) => loose.contains(id),
        _ => false,
    }
}

/// Whether every repetition without a maximum repeats something that consumes a token,
/// where the backreferences to the groups `loose` may consume nothing; a repetition of
/// at most zero times aside, whose child is dropped.
pub open spec fn productive(loose: Seq<u64>, node: AstModel) -> bool
    decreases node,
{
    match node {
        AstModel::Root(inner) => productive(loose, *inner),
        AstModel::Sequence(items) => forall|i: int|
            0 <= i < items.len() ==> productive(loose, #[trigger] items[i]),
        AstModel::Alt { options, id } => forall|i: int|
            0 <= i < options.len() ==> productive(loose, #[trigger] options[i]),
        AstModel::Repeat { min, max, node } => max == Some(0u64) || (productive(loose, *node) && (
        max is None ==> !nullable(loose, *node))),
        _ => true,
    }
}

/// The larger of two numbers.
pub open spec fn larger(a: nat, b: nat) -> nat {
    if a >= b {
        a
    } else {
        b
    }
}

/// The rank of the state that the loop of a repetition is left from, where `exit` is
/// the rank of the state behind the repetition: above `exit`, and where the loop has no
/// cap also above the rank of the state that the loop body starts in.
pub open spec fn loop_end_rank(loose: Seq<u64>, node: AstModel, max: Option<u64>, exit: nat) -> nat {
    if max is None {
        larger(exit, entry_rank(loose, node, 0)) + 1
    } else {
        exit + 1
    }
}

/// The least rank for the state in front of the graph of `node`, where `exit` is the
/// rank of the state behind it.
pub open spec fn entry_rank(loose: Seq<u64>, node: AstModel, exit: nat) -> nat
    decreases node, 0nat,
{
    match node {
        AstModel::Root(inner) => entry_rank(loose, *inner, exit),
        AstModel::Sequence(items) => if items.len() == 0 {
            exit + 1
        } else {
            chain_entry_rank(loose, items, 0, exit)
        },
        AstModel::Alt { options, id } => options_entry_rank(loose, options, 0, exit + 1) + 1,
        AstModel::Repeat { min, max, node } => if max == Some(0u64) {
            exit + 1
        } else {
            let loop_end = if max is None {
                larger(exit, entry_rank(loose, *node, 0)) + 1
            } else {
                exit + 1
            };
            let entry = unrolled_entry_rank(
                loose,
                *node,
                required_copies(min, max),
                entry_rank(loose, *node, loop_end),
            ) + 1;
            if min is None || min == Some(0u64) {
                larger(entry, exit + 1)
            } else {
                entry
            }
        },
        AstModel::CaptureRef(id) => if loose.contains(id) {
            exit + 1
        } else {
            0
        },
        _ => 0,
    }
}

/// The least rank for the state in front of the chain of `items[i..]`.
pub open spec fn chain_entry_rank(loose: Seq<u64>, items: Seq<AstModel>, i: int, exit: nat) -> nat
    decreases items, items.len() - i,
{
    if 0 <= i < items.len() {
        entry_rank(
            loose,
            items[i],
            if i + 1 == items.len() {
                exit
            } else {
                chain_entry_rank(loose, items, i + 1, exit)
            },
        )
    } else {
        exit
    }
}

/// The least rank for the state in front of the graphs of `options[i..]`.
pub open spec fn options_entry_rank(loose: Seq<u64>, options: Seq<AstModel>, i: int, exit: nat) -> nat
    decreases options, options.len() - i,
{
    if 0 <= i < options.len() {
        larger(entry_rank(loose, options[i], exit), options_entry_rank(loose, options, i + 1, exit))
    } else {
        0
    }
}

/// The least rank for the state in front of `count` copies of the graph of `node`.
pub open spec fn unrolled_entry_rank(loose: Seq<u64>, node: AstModel, count: nat, exit: nat) -> nat
    decreases node, count + 1,
{
    if count == 0 {
        exit
    } else {
        entry_rank(loose, node, unrolled_entry_rank(loose, node, (count - 1) as nat, exit))
    }
}

/// The rank of the fresh state `state` of the graph of `node`, whose fresh states are
/// numbered from `next`, where `exit` is the rank of the state behind the graph.
pub open spec fn rank_at(loose: Seq<u64>, node: AstModel, next: int, exit: nat, state: int) -> nat
    decreases node, 0nat,
{
    match node {
        AstModel::Root(inner) => rank_at(loose, *inner, next, exit, state),
        AstModel::Sequence(items) => chain_rank_at(loose, items, 0, next, exit, state),
        AstModel::Alt { options, id } => if state == next {
            options_entry_rank(loose, options, 0, exit + 1)
        } else if state == next + 1 {
            exit + 1
        } else {
            options_rank_at(loose, options, 0, next + 2, exit + 1, state)
        },
        AstModel::Repeat { min, max, node } => {
            let count = required_copies(min, max);
            let loop_end = if max is None {
                larger(exit, entry_rank(loose, *node, 0)) + 1
            } else {
                exit + 1
            };
            let loop_start = entry_rank(loose, *node, loop_end);
            let body = next + 2 + count * (state_count(*node) + 1);
            if max == Some(0u64) {
                0
            } else if state == next {
                unrolled_entry_rank(loose, *node, count, loop_start)
            } else if state == next + 1 {
                if count == 0 {
                    loop_end
                } else {
                    unrolled_entry_rank(loose, *node, (count - 1) as nat, loop_start)
                }
            } else if state < body {
                unrolled_rank_at(loose, *node, count, next + 2, loop_start, loop_end, state)
            } else {
                rank_at(loose, *node, body, loop_end, state)
            }
        },
        _ => 0,
    }
}

/// The rank of a fresh state of the chain of `items[i..]`.
pub open spec fn chain_rank_at(loose: Seq<u64>, items: Seq<AstModel>, i: int, next: int, exit: nat, state: int)
    -> nat
    decreases items, items.len() - i,
{
    if 0 <= i < items.len() {
        let last = i + 1 == items.len();
        let first = if last {
            next
        } else {
            next + 1
        };
        let behind = if last {
            exit
        } else {
            chain_entry_rank(loose, items, i + 1, exit)
        };
        if !last && state == next {
            behind
        } else if state < first + state_count(items[i]) {
            rank_at(loose, items[i], first, behind, state)
        } else {
            chain_rank_at(loose, items, i + 1, first + state_count(items[i]), exit, state)
        }
    } else {
        0
    }
}

/// The rank of a fresh state of the graphs of `options[i..]`.
pub open spec fn options_rank_at(
    loose: Seq<u64>,
    options: Seq<AstModel>,
    i: int,
    next: int,
    exit: nat,
    state: int,
) -> nat
    decreases options, options.len() - i,
{
    if 0 <= i < options.len() {
        if state < next + state_count(options[i]) {
            rank_at(loose, options[i], next, exit, state)
        } else {
            options_rank_at(loose, options, i + 1, next + state_count(options[i]), exit, state)
        }
    } else {
        0
    }
}

/// The rank of a fresh state of `count` unrolled copies of `node`, where `loop_start`
/// and `loop_end` are the ranks of the two states that the loop body stands between.
pub open spec fn unrolled_rank_at(
    loose: Seq<u64>,
    node: AstModel,
    count: nat,
    next: int,
    loop_start: nat,
    loop_end: nat,
    state: int,
) -> nat
    decreases node, count + 1,
{
    if count == 0 {
        0
    } else if state < next + state_count(node) {
        rank_at(loose, node, next, unrolled_entry_rank(loose, node, (count - 1) as nat, loop_start), state)
    } else if state == next + state_count(node) {
        if count == 1 {
            loop_end
        } else {
            unrolled_entry_rank(loose, node, (count - 2) as nat, loop_start)
        }
    } else {
        unrolled_rank_at(
            loose,
            node,
            (count - 1) as nat,
            next + state_count(node) + 1,
            loop_start,
            loop_end,
            state,
        )
    }
}

/// The rank of each state of a graph between `start` and `end`: the two given ranks in
/// these two, and in the fresh states what `fresh` says.
pub open spec fn ranks_with(
    loose: Seq<u64>,
    start: u64,
    end: u64,
    entry: nat,
    exit: nat,
    fresh: spec_fn(int) -> nat,
) -> spec_fn(u64) -> nat {
    |state: u64|
        if state == start {
            entry
        } else if state == end {
            exit
        } else {
            fresh(state as int)
        }
}

/// Whether a condition may hold without consuming a token, where the backreferences
/// to the groups `loose` may.
pub open spec fn loosely(loose: Seq<u64>, cond: CondModel) -> bool {
    cond is Epsilon || (cond is CaptureRef && loose.contains(cond->CaptureRef_0))
}

/// Whether `rank` falls along every edge that has no cap and may consume nothing.
pub open spec fn edges_fall(loose: Seq<u64>, edges: Seq<TransitionModel>, rank: spec_fn(u64) -> nat) -> bool {
    forall|i: int|
        0 <= i < edges.len() && (#[trigger] edges[i]).max_use is None && loosely(loose, edges[i].cond) ==> rank(edges[i].to_state) < rank(edges[i].from_state)
}

/// Edges along which one ranking falls fall along every ranking that says the same of
/// their states.
pub proof fn lemma_edges_fall_same(
    loose: Seq<u64>,
    edges: Seq<TransitionModel>,
    start: u64,
    end: u64,
    low: int,
    high: int,
    one: spec_fn(u64) -> nat,
    other: spec_fn(u64) -> nat,
)
    requires
        edges_fall(loose, edges, one),
        edges_within_from_two(edges, start, end, low, high),
        one(start) == other(start),
        one(end) == other(end),
        forall|state: u64| low <= state < high ==> #[trigger] one(state) == other(state),
    ensures
        edges_fall(loose, edges, other),
{
    assert forall|i: int|
        0 <= i < edges.len() && (#[trigger] edges[i]).max_use is None && loosely(loose, edges[i].cond) implies other(edges[i].to_state) < other(edges[i].from_state) by {
        assert(one(edges[i].from_state) == other(edges[i].from_state));
        assert(one(edges[i].to_state) == other(edges[i].to_state));
    }
}

/// Where the graph of a node cannot be crossed without consuming a token, the least
/// rank for the state in front of it does not depend on the rank of the state behind it.
pub proof fn lemma_entry_rank_fixed(loose: Seq<u64>, node: AstModel, one: nat, other: nat)
    requires
        !nullable(loose, node),
    ensures
        entry_rank(loose, node, one) == entry_rank(loose, node, other),
    decreases node, 0nat,
{
    match node {
        AstModel::Root(inner) => {
            lemma_entry_rank_fixed(loose, *inner, one, other);
        },
        AstModel::Sequence(items) => {
            let k = choose|k: int| 0 <= k < items.len() && !nullable(loose, #[trigger] items[k]);
            lemma_chain_entry_rank_fixed(loose, items, 0, k, one, other);
        },
        AstModel::Alt { options, id } => {
            lemma_options_entry_rank_fixed(loose, options, 0, one + 1, other + 1);
        },
        AstModel::Repeat { min, max, node: child } => {
            let end_one = loop_end_rank(loose, *child, max, one);
            let end_other = loop_end_rank(loose, *child, max, other);
            lemma_entry_rank_fixed(loose, *child, end_one, end_other);
        },
        _ => {},
    }
}

/// The same for a chain that holds, from `i` on, an item that cannot be crossed without
/// consuming a token.
pub proof fn lemma_chain_entry_rank_fixed(
    loose: Seq<u64>,
    items: Seq<AstModel>,
    i: int,
    k: int,
    one: nat,
    other: nat,
)
    requires
        0 <= i <= k < items.len(),
        !nullable(loose, items[k]),
    ensures
        chain_entry_rank(loose, items, i, one) == chain_entry_rank(loose, items, i, other),
    decreases items, items.len() - i,
{
    if i == k {
        let last = i + 1 == items.len();
        lemma_entry_rank_fixed(
            loose,
            items[i],
            if last {
                one
            } else {
                chain_entry_rank(loose, items, i + 1, one)
            },
            if last {
                other
            } else {
                chain_entry_rank(loose, items, i + 1, other)
            },
        );
    } else {
        lemma_chain_entry_rank_fixed(loose, items, i + 1, k, one, other);
    }
}

/// The same for options none of which can be crossed without consuming a token.
pub proof fn lemma_options_entry_rank_fixed(loose: Seq<u64>, options: Seq<AstModel>, i: int, one: nat, other: nat)
    requires
        0 <= i,
        forall|j: int| 0 <= j < options.len() ==> !nullable(loose, #[trigger] options[j]),
    ensures
        options_entry_rank(loose, options, i, one) == options_entry_rank(loose, options, i, other),
    decreases options, options.len() - i,
{
    if i < options.len() {
        lemma_entry_rank_fixed(loose, options[i], one, other);
        lemma_options_entry_rank_fixed(loose, options, i + 1, one, other);
    }
}

/// The rank of each state of the graph of `node` between `start` and `end`.
pub open spec fn ranks_around(
    loose: Seq<u64>,
    node: AstModel,
    start: u64,
    end: u64,
    next: int,
    entry: nat,
    exit: nat,
) -> spec_fn(u64) -> nat {
    ranks_with(loose, start, end, entry, exit, |state: int| rank_at(loose, node, next, exit, state))
}

/// The rank of each state of the chain of `items[i..]`.
pub open spec fn chain_ranks_around(
    loose: Seq<u64>,
    items: Seq<AstModel>,
    i: int,
    start: u64,
    end: u64,
    next: int,
    entry: nat,
    exit: nat,
) -> spec_fn(u64) -> nat {
    ranks_with(loose, start, end, entry, exit, |state: int| chain_rank_at(loose, items, i, next, exit, state))
}

/// The rank of each state of the graphs of `options[i..]`.
pub open spec fn options_ranks_around(
    loose: Seq<u64>,
    options: Seq<AstModel>,
    i: int,
    start: u64,
    end: u64,
    next: int,
    entry: nat,
    exit: nat,
) -> spec_fn(u64) -> nat {
    ranks_with(
        loose,
        start,
        end,
        entry,
        exit,
        |state: int| options_rank_at(loose, options, i, next, exit, state),
    )
}

/// The rank of each state of `count` unrolled copies of `node`, the first of which
/// stands between `start` and `end`.
pub open spec fn unrolled_ranks_around(
    loose: Seq<u64>,
    node: AstModel,
    count: nat,
    start: u64,
    end: u64,
    next: int,
    loop_start: nat,
    loop_end: nat,
) -> spec_fn(u64) -> nat {
    ranks_with(
        loose,
        start,
        end,
        unrolled_entry_rank(loose, node, count, loop_start),
        if count == 0 {
            loop_end
        } else {
            unrolled_entry_rank(loose, node, (count - 1) as nat, loop_start)
        },
        |state: int| unrolled_rank_at(loose, node, count, next, loop_start, loop_end, state),
    )
}

/// The ranks fall along the edges of the graph of a productive node, where the state in
/// front of it has at least the least rank for it.
pub proof fn lemma_graph_falls(
    loose: Seq<u64>,
    node: AstModel,
    start: u64,
    end: u64,
    next: int,
    entry: nat,
    exit: nat,
)
    requires
        start < next,
        end < next,
        start != end,
        next + state_count(node) <= u64::MAX,
        productive(loose, node),
        entry >= entry_rank(loose, node, exit),
    ensures
        edges_fall(
            loose,
            graph_between(node, start, end, next).transitions,
            ranks_around(loose, node, start, end, next, entry, exit),
        ),
    decreases node, 0nat,
{
    let around = ranks_around(loose, node, start, end, next, entry, exit);
    let edges = graph_between(node, start, end, next).transitions;
    match node {
        AstModel::Root(inner) => {
            lemma_graph_falls(loose, *inner, start, end, next, entry, exit);
            lemma_graph_within(*inner, start, end, next);
            lemma_edges_fall_same(
                loose,
                edges,
                start,
                end,
                next,
                next + state_count(node),
                ranks_around(loose, *inner, start, end, next, entry, exit),
                around,
            );
        },
        AstModel::Sequence(items) => {
            if items.len() > 0 {
                lemma_chain_falls(loose, items, 0, start, end, next, entry, exit);
                lemma_chain_within(items, 0, start, end, next);
                lemma_edges_fall_same(
                    loose,
                    edges,
                    start,
                    end,
                    next,
                    next + state_count(node),
                    chain_ranks_around(loose, items, 0, start, end, next, entry, exit),
                    around,
                );
            }
        },
        AstModel::Alt { options, id } => {
            let inner_start = next as u64;
            let inner_end = (next + 1) as u64;
            let inner_entry = options_entry_rank(loose, options, 0, exit + 1);
            let inner = options_between(options, 0, inner_start, inner_end, next + 2);
            lemma_options_falls(
                loose,
                options,
                0,
                inner_start,
                inner_end,
                next + 2,
                inner_entry,
                exit + 1,
            );
            lemma_options_within(options, 0, inner_start, inner_end, next + 2);
            lemma_options_next(options, 0, inner_start, inner_end, next + 2);
            lemma_edges_fall_same(
                loose,
                inner.transitions,
                inner_start,
                inner_end,
                next + 2,
                next + state_count(node),
                options_ranks_around(
                    loose,
                    options,
                    0,
                    inner_start,
                    inner_end,
                    next + 2,
                    inner_entry,
                    exit + 1,
                ),
                around,
            );
        },
        AstModel::Repeat { min, max, node: child } => {
            if max != Some(0u64) {
                let count = required_copies(min, max);
                let inner_start = next as u64;
                let inner_end = (next + 1) as u64;
                let loop_end = loop_end_rank(loose, *child, max, exit);
                let loop_start = entry_rank(loose, *child, loop_end);
                assert(count * (state_count(*child) + 1) >= 0) by (nonlinear_arith);
                let body_next = next + 2 + count * (state_count(*child) + 1);
                let copies = unrolled_between(*child, count, inner_start, inner_end, next + 2);
                lemma_unrolled_next(*child, count, inner_start, inner_end, next + 2);
                lemma_unrolled_within(*child, count, inner_start, inner_end, next + 2);
                lemma_unrolled_falls(
                    loose,
                    *child,
                    count,
                    inner_start,
                    inner_end,
                    next + 2,
                    loop_start,
                    loop_end,
                );
                lemma_edges_fall_same(
                    loose,
                    copies.transitions,
                    inner_start,
                    inner_end,
                    next + 2,
                    body_next,
                    unrolled_ranks_around(
                        loose,
                        *child,
                        count,
                        inner_start,
                        inner_end,
                        next + 2,
                        loop_start,
                        loop_end,
                    ),
                    around,
                );
                let body = graph_between(*child, copies.inner_start, copies.inner_end, copies.next);
                lemma_graph_falls(
                    loose,
                    *child,
                    copies.inner_start,
                    copies.inner_end,
                    copies.next,
                    loop_start,
                    loop_end,
                );
                lemma_graph_within(*child, copies.inner_start, copies.inner_end, copies.next);
                lemma_graph_next(*child, copies.inner_start, copies.inner_end, copies.next);
                assert(around(copies.inner_start) == loop_start);
                assert(around(copies.inner_end) == loop_end);
                lemma_edges_fall_same(
                    loose,
                    body.transitions,
                    copies.inner_start,
                    copies.inner_end,
                    body_next,
                    next + state_count(node),
                    ranks_around(
                        loose,
                        *child,
                        copies.inner_start,
                        copies.inner_end,
                        copies.next,
                        loop_start,
                        loop_end,
                    ),
                    around,
                );
                if max is None {
                    lemma_entry_rank_fixed(loose, *child, loop_end, 0);
                }
            }
        },
        _ => {},
    }
}

/// The ranks fall along the edges of a chain of productive items.
pub proof fn lemma_chain_falls(
    loose: Seq<u64>,
    items: Seq<AstModel>,
    i: int,
    from: u64,
    end: u64,
    next: int,
    entry: nat,
    exit: nat,
)
    requires
        0 <= i,
        from < next,
        end < next,
        from != end,
        next + chain_state_count(items, i) <= u64::MAX,
        forall|j: int| 0 <= j < items.len() ==> productive(loose, #[trigger] items[j]),
        entry >= chain_entry_rank(loose, items, i, exit),
    ensures
        edges_fall(
            loose,
            chain_between(items, i, from, end, next).transitions,
            chain_ranks_around(loose, items, i, from, end, next, entry, exit),
        ),
    decreases items, items.len() - i,
{
    if i < items.len() {
        let around = chain_ranks_around(loose, items, i, from, end, next, entry, exit);
        let last = i + 1 == items.len();
        let to = if last {
            end
        } else {
            next as u64
        };
        let next1 = if last {
            next
        } else {
            next + 1
        };
        let behind = if last {
            exit
        } else {
            chain_entry_rank(loose, items, i + 1, exit)
        };
        let first = graph_between(items[i], from, to, next1);
        lemma_graph_falls(loose, items[i], from, to, next1, entry, behind);
        lemma_graph_within(items[i], from, to, next1);
        lemma_graph_next(items[i], from, to, next1);
        lemma_edges_fall_same(
            loose,
            first.transitions,
            from,
            to,
            next1,
            first.next,
            ranks_around(loose, items[i], from, to, next1, entry, behind),
            around,
        );
        if !last {
            let rest = chain_between(items, i + 1, to, end, first.next);
            lemma_chain_falls(loose, items, i + 1, to, end, first.next, behind, exit);
            lemma_chain_within(items, i + 1, to, end, first.next);
            lemma_chain_next(items, i + 1, to, end, first.next);
            lemma_edges_fall_same(
                loose,
                rest.transitions,
                to,
                end,
                first.next,
                rest.next,
                chain_ranks_around(loose, items, i + 1, to, end, first.next, behind, exit),
                around,
            );
        }
    }
}

/// The ranks fall along the edges of a list of productive options.
pub proof fn lemma_options_falls(
    loose: Seq<u64>,
    options: Seq<AstModel>,
    i: int,
    start: u64,
    end: u64,
    next: int,
    entry: nat,
    exit: nat,
)
    requires
        0 <= i,
        start < next,
        end < next,
        start != end,
        next + options_state_count(options, i) <= u64::MAX,
        forall|j: int| 0 <= j < options.len() ==> productive(loose, #[trigger] options[j]),
        entry >= options_entry_rank(loose, options, i, exit),
    ensures
        edges_fall(
            loose,
            options_between(options, i, start, end, next).transitions,
            options_ranks_around(loose, options, i, start, end, next, entry, exit),
        ),
    decreases options, options.len() - i,
{
    if i < options.len() {
        let around = options_ranks_around(loose, options, i, start, end, next, entry, exit);
        let first = graph_between(options[i], start, end, next);
        lemma_graph_falls(loose, options[i], start, end, next, entry, exit);
        lemma_graph_within(options[i], start, end, next);
        lemma_graph_next(options[i], start, end, next);
        lemma_edges_fall_same(
            loose,
            first.transitions,
            start,
            end,
            next,
            first.next,
            ranks_around(loose, options[i], start, end, next, entry, exit),
            around,
        );
        let rest = options_between(options, i + 1, start, end, first.next);
        lemma_options_falls(loose, options, i + 1, start, end, first.next, entry, exit);
        lemma_options_within(options, i + 1, start, end, first.next);
        lemma_options_next(options, i + 1, start, end, first.next);
        lemma_edges_fall_same(
            loose,
            rest.transitions,
            start,
            end,
            first.next,
            rest.next,
            options_ranks_around(loose, options, i + 1, start, end, first.next, entry, exit),
            around,
        );
    }
}

/// The ranks fall along the edges of unrolled copies of a productive node, and the two
/// states that the loop body stands between have the ranks `loop_start` and `loop_end`.
pub proof fn lemma_unrolled_falls(
    loose: Seq<u64>,
    node: AstModel,
    count: nat,
    inner_start: u64,
    inner_end: u64,
    next: int,
    loop_start: nat,
    loop_end: nat,
)
    requires
        inner_start < next,
        inner_end < next,
        inner_start != inner_end,
        next + count * (state_count(node) + 1) <= u64::MAX,
        productive(loose, node),
    ensures
        edges_fall(
            loose,
            unrolled_between(node, count, inner_start, inner_end, next).transitions,
            unrolled_ranks_around(
                loose,
                node,
                count,
                inner_start,
                inner_end,
                next,
                loop_start,
                loop_end,
            ),
        ),
        ({
            let copies = unrolled_between(node, count, inner_start, inner_end, next);
            let around = unrolled_ranks_around(
                loose,
                node,
                count,
                inner_start,
                inner_end,
                next,
                loop_start,
                loop_end,
            );
            around(copies.inner_start) == loop_start && around(copies.inner_end) == loop_end
                && copies.inner_start != copies.inner_end
        }),
    decreases node, count + 1,
{
    if count > 0 {
        assert(count * (state_count(node) + 1) == (count - 1) * (state_count(node) + 1) + (
        state_count(node) + 1)) by (nonlinear_arith);
        assert((count - 1) * (state_count(node) + 1) >= 0) by (nonlinear_arith)
            requires
                count >= 1,
        ;
        let around = unrolled_ranks_around(
            loose,
            node,
            count,
            inner_start,
            inner_end,
            next,
            loop_start,
            loop_end,
        );
        let entry = unrolled_entry_rank(loose, node, count, loop_start);
        let behind = unrolled_entry_rank(loose, node, (count - 1) as nat, loop_start);
        let first = graph_between(node, inner_start, inner_end, next);
        lemma_graph_falls(loose, node, inner_start, inner_end, next, entry, behind);
        lemma_graph_within(node, inner_start, inner_end, next);
        lemma_graph_next(node, inner_start, inner_end, next);
        lemma_edges_fall_same(
            loose,
            first.transitions,
            inner_start,
            inner_end,
            next,
            first.next,
            ranks_around(loose, node, inner_start, inner_end, next, entry, behind),
            around,
        );
        let fresh = first.next as u64;
        let rest = unrolled_between(node, (count - 1) as nat, inner_end, fresh, first.next + 1);
        let rest_around = unrolled_ranks_around(
            loose,
            node,
            (count - 1) as nat,
            inner_end,
            fresh,
            first.next + 1,
            loop_start,
            loop_end,
        );
        lemma_unrolled_falls(
            loose,
            node,
            (count - 1) as nat,
            inner_end,
            fresh,
            first.next + 1,
            loop_start,
            loop_end,
        );
        lemma_unrolled_within(node, (count - 1) as nat, inner_end, fresh, first.next + 1);
        lemma_unrolled_next(node, (count - 1) as nat, inner_end, fresh, first.next + 1);
        assert(rest_around(fresh) == around(fresh));
        assert(rest_around(inner_end) == around(inner_end));
        lemma_edges_fall_same(
            loose,
            rest.transitions,
            inner_end,
            fresh,
            first.next + 1,
            rest.next,
            rest_around,
            around,
        );
    }
}

/// The rank of each state of the graph of a pattern.
pub open spec fn pattern_ranks(loose: Seq<u64>, node: AstModel) -> spec_fn(u64) -> nat {
    ranks_around(loose, node, START_STATE, END_STATE, 2, entry_rank(loose, node, 0), 0)
}

/// The ranks fall in the graph of a productive pattern.
pub proof fn lemma_pattern_falls(loose: Seq<u64>, node: AstModel)
    requires
        productive(loose, node),
        2 + state_count(node) <= u64::MAX,
    ensures
        edges_fall(loose, graph_of_pattern(node), pattern_ranks(loose, node)),
{
    lemma_graph_falls(loose, node, START_STATE, END_STATE, 2, entry_rank(loose, node, 0), 0);
}

} // verus!
