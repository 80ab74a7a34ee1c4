//! The groups that are open in each state of the graph of a pattern.
use vstd::prelude::*;
use crate::ast::{
    AstModel,
    chain_between,
    chain_state_count,
    graph_between,
    graph_of_pattern,
    lemma_chain_next,
    lemma_graph_next,
    lemma_options_next,
    lemma_unrolled_next,
    options_between,
    options_state_count,
    required_copies,
    state_count,
    unrolled_between,
};
use crate::common::{END_STATE, START_STATE};
use crate::progress::{edge_keeps_groups, groups_balanced};
use crate::shape::{
    edges_within_from_two,
    lemma_chain_within,
    lemma_graph_within,
    lemma_options_within,
    lemma_unrolled_within,
};
use crate::transition::TransitionModel;

verus! {

/// Whether no group of `node` stands inside a group of the same id, nor inside one of
/// the groups `open`; a repetition of at most zero times aside, whose child is dropped.
pub open spec fn groups_nest(node: AstModel, open: Seq<u64>) -> bool
    decreases node,
{
    match node {
        AstModel::Root(inner) => groups_nest(*inner, open),
        AstModel::Sequence(items) => forall|i: int|
            0 <= i < items.len() ==> groups_nest(#[trigger] items[i], open),
        AstModel::Alt { options, id } => !open.contains(id) && forall|i: int|
            0 <= i < options.len() ==> groups_nest(#[trigger] options[i], open.push(id)),
        AstModel::Repeat { min, max, node } => max == Some(0u64) || groups_nest(*node, open),
        _ => true,
    }
}

/// The groups that are open in the fresh state `state` of the graph of `node`, whose
/// fresh states are numbered from `next` and which stands inside the groups `open`.
pub open spec fn groups_at(node: AstModel, next: int, open: Seq<u64>, state: int) -> Seq<u64>
    decreases node, 0nat,
{
    match node {
        AstModel::Root(inner) => groups_at(*inner, next, open, state),
        AstModel::Sequence(items) => chain_groups_at(items, 0, next, open, state),
        AstModel::Alt { options, id } => if state == next || state == next + 1 {
            open.push(id)
        } else {
            options_groups_at(options, 0, next + 2, open.push(id), state)
        },
        AstModel::Repeat { min, max, node } => {
            let count = required_copies(min, max);
            let body = next + 2 + count * (state_count(*node) + 1);
            if max == Some(0u64) || state == next || state == next + 1 {
                open
            } else if state < body {
                unrolled_groups_at(*node, count, next + 2, open, state)
            } else {
                groups_at(*node, body, open, state)
            }
        },
        _ => open,
    }
}

/// The groups that are open in a fresh state of the chain of `items[i..]`.
pub open spec fn chain_groups_at(
    items: Seq<AstModel>,
    i: int,
    next: int,
    open: Seq<u64>,
    state: int,
) -> Seq<u64>
    decreases items, items.len() - i,
{
    if 0 <= i < items.len() {
        let last = i + 1 == items.len();
        let first = if last {
            next
        } else {
            next + 1
        };
        if !last && state == next {
            open
        } else if state < first + state_count(items[i]) {
            groups_at(items[i], first, open, state)
        } else {
            chain_groups_at(items, i + 1, first + state_count(items[i]), open, state)
        }
    } else {
        open
    }
}

/// The groups that are open in a fresh state of the graphs of `options[i..]`.
pub open spec fn options_groups_at(
    options: Seq<AstModel>,
    i: int,
    next: int,
    open: Seq<u64>,
    state: int,
) -> Seq<u64>
    decreases options, options.len() - i,
{
    if 0 <= i < options.len() {
        if state < next + state_count(options[i]) {
            groups_at(options[i], next, open, state)
        } else {
            options_groups_at(options, i + 1, next + state_count(options[i]), open, state)
        }
    } else {
        open
    }
}

/// The groups that are open in a fresh state of `count` unrolled copies of `node`.
pub open spec fn unrolled_groups_at(
    node: AstModel,
    count: nat,
    next: int,
    open: Seq<u64>,
    state: int,
) -> Seq<u64>
    decreases node, count + 1,
{
    if count == 0 || state == next + state_count(node) {
        open
    } else if state < next + state_count(node) {
        groups_at(node, next, open, state)
    } else {
        unrolled_groups_at(node, (count - 1) as nat, next + state_count(node) + 1, open, state)
    }
}

/// The groups that are open in each state of the graph of `node` between `start` and
/// `end`: the groups `open` in these two, and in the fresh states what `groups_at` says.
pub open spec fn groups_around(node: AstModel, start: u64, end: u64, next: int, open: Seq<u64>)
    -> spec_fn(u64) -> Seq<u64> {
    |state: u64|
        if state == start || state == end {
            open
        } else {
            groups_at(node, next, open, state as int)
        }
}

/// The same for the chain of `items[i..]`.
pub open spec fn chain_groups_around(
    items: Seq<AstModel>,
    i: int,
    start: u64,
    end: u64,
    next: int,
    open: Seq<u64>,
) -> spec_fn(u64) -> Seq<u64> {
    |state: u64|
        if state == start || state == end {
            open
        } else {
            chain_groups_at(items, i, next, open, state as int)
        }
}

/// The same for the graphs of `options[i..]`.
pub open spec fn options_groups_around(
    options: Seq<AstModel>,
    i: int,
    start: u64,
    end: u64,
    next: int,
    open: Seq<u64>,
) -> spec_fn(u64) -> Seq<u64> {
    |state: u64|
        if state == start || state == end {
            open
        } else {
            options_groups_at(options, i, next, open, state as int)
        }
}

/// The same for unrolled copies.
pub open spec fn unrolled_groups_around(
    node: AstModel,
    count: nat,
    start: u64,
    end: u64,
    next: int,
    open: Seq<u64>,
) -> spec_fn(u64) -> Seq<u64> {
    |state: u64|
        if state == start || state == end {
            open
        } else {
            unrolled_groups_at(node, count, next, open, state as int)
        }
}

/// Whether every edge agrees with `groups`.
pub open spec fn edges_keep_groups(edges: Seq<TransitionModel>, groups: spec_fn(u64) -> Seq<u64>)
    -> bool {
    forall|i: int| 0 <= i < edges.len() ==> edge_keeps_groups(#[trigger] edges[i], groups)
}

/// Edges that agree with one account of the open groups agree with every account that
/// says the same of their states.
pub proof fn lemma_edges_keep_groups_same(
    edges: Seq<TransitionModel>,
    start: u64,
    end: u64,
    low: int,
    high: int,
    one: spec_fn(u64) -> Seq<u64>,
    other: spec_fn(u64) -> Seq<u64>,
)
    requires
        edges_keep_groups(edges, one),
        edges_within_from_two(edges, start, end, low, high),
        one(start) == other(start),
        one(end) == other(end),
        forall|state: u64| low <= state < high ==> #[trigger] one(state) == other(state),
    ensures
        edges_keep_groups(edges, other),
{
    assert forall|i: int| 0 <= i < edges.len() implies edge_keeps_groups(
        #[trigger] edges[i],
        other,
    ) by {
        assert(edge_keeps_groups(edges[i], one));
        assert(one(edges[i].from_state) == other(edges[i].from_state));
        assert(one(edges[i].to_state) == other(edges[i].to_state));
    }
}

/// Every edge of the graph of a node whose groups nest agrees with the groups that are
/// open in its states.
pub proof fn lemma_graph_keeps_groups(
    node: AstModel,
    start: u64,
    end: u64,
    next: int,
    open: Seq<u64>,
)
    requires
        start < next,
        end < next,
        next + state_count(node) <= u64::MAX,
        groups_nest(node, open),
    ensures
        edges_keep_groups(
            graph_between(node, start, end, next).transitions,
            groups_around(node, start, end, next, open),
        ),
    decreases node, 0nat,
{
    let around = groups_around(node, start, end, next, open);
    let edges = graph_between(node, start, end, next).transitions;
    match node {
        AstModel::Root(inner) => {
            lemma_graph_keeps_groups(*inner, start, end, next, open);
            lemma_graph_within(*inner, start, end, next);
            lemma_edges_keep_groups_same(
                edges,
                start,
                end,
                next,
                next + state_count(node),
                groups_around(*inner, start, end, next, open),
                around,
            );
        },
        AstModel::Sequence(items) => {
            if items.len() > 0 {
                lemma_chain_keeps_groups(items, 0, start, end, next, open);
                lemma_chain_within(items, 0, start, end, next);
                lemma_edges_keep_groups_same(
                    edges,
                    start,
                    end,
                    next,
                    next + state_count(node),
                    chain_groups_around(items, 0, start, end, next, open),
                    around,
                );
            }
        },
        AstModel::Alt { options, id } => {
            let inner_start = next as u64;
            let inner_end = (next + 1) as u64;
            let inside = open.push(id);
            let inner = options_between(options, 0, inner_start, inner_end, next + 2);
            lemma_options_keeps_groups(options, 0, inner_start, inner_end, next + 2, inside);
            lemma_options_within(options, 0, inner_start, inner_end, next + 2);
            lemma_options_next(options, 0, inner_start, inner_end, next + 2);
            lemma_edges_keep_groups_same(
                inner.transitions,
                inner_start,
                inner_end,
                next + 2,
                next + state_count(node),
                options_groups_around(options, 0, inner_start, inner_end, next + 2, inside),
                around,
            );
            assert(inside.drop_last() =~= open);
            assert(inside.last() == id);
        },
        AstModel::Repeat { min, max, node: child } => {
            if max != Some(0u64) {
                let count = required_copies(min, max);
                let inner_start = next as u64;
                let inner_end = (next + 1) as u64;
                assert(count * (state_count(*child) + 1) >= 0) by (nonlinear_arith);
                let body_next = next + 2 + count * (state_count(*child) + 1);
                let copies = unrolled_between(*child, count, inner_start, inner_end, next + 2);
                lemma_unrolled_next(*child, count, inner_start, inner_end, next + 2);
                lemma_unrolled_within(*child, count, inner_start, inner_end, next + 2);
                lemma_unrolled_keeps_groups(*child, count, inner_start, inner_end, next + 2, open);
                lemma_edges_keep_groups_same(
                    copies.transitions,
                    inner_start,
                    inner_end,
                    next + 2,
                    body_next,
                    unrolled_groups_around(*child, count, inner_start, inner_end, next + 2, open),
                    around,
                );
                let body = graph_between(*child, copies.inner_start, copies.inner_end, copies.next);
                lemma_graph_keeps_groups(
                    *child,
                    copies.inner_start,
                    copies.inner_end,
                    copies.next,
                    open,
                );
                lemma_graph_within(*child, copies.inner_start, copies.inner_end, copies.next);
                lemma_graph_next(*child, copies.inner_start, copies.inner_end, copies.next);
                assert(around(copies.inner_start) == open);
                assert(around(copies.inner_end) == open);
                lemma_edges_keep_groups_same(
                    body.transitions,
                    copies.inner_start,
                    copies.inner_end,
                    body_next,
                    next + state_count(node),
                    groups_around(*child, copies.inner_start, copies.inner_end, copies.next, open),
                    around,
                );
            }
        },
        _ => {},
    }
}

/// Every edge of a chain agrees with the groups that are open in its states.
pub proof fn lemma_chain_keeps_groups(
    items: Seq<AstModel>,
    i: int,
    from: u64,
    end: u64,
    next: int,
    open: Seq<u64>,
)
    requires
        0 <= i,
        from < next,
        end < next,
        next + chain_state_count(items, i) <= u64::MAX,
        forall|j: int| 0 <= j < items.len() ==> groups_nest(#[trigger] items[j], open),
    ensures
        edges_keep_groups(
            chain_between(items, i, from, end, next).transitions,
            chain_groups_around(items, i, from, end, next, open),
        ),
    decreases items, items.len() - i,
{
    if i < items.len() {
        let around = chain_groups_around(items, i, from, end, next, open);
        let last = i + 1 == items.len();
        let to = if last {
            end
        } else {
            next as u64
        };
        let next1 = if last {
            next
        } else {
            next + 1
        };
        let first = graph_between(items[i], from, to, next1);
        lemma_graph_keeps_groups(items[i], from, to, next1, open);
        lemma_graph_within(items[i], from, to, next1);
        lemma_graph_next(items[i], from, to, next1);
        lemma_edges_keep_groups_same(
            first.transitions,
            from,
            to,
            next1,
            first.next,
            groups_around(items[i], from, to, next1, open),
            around,
        );
        let rest = chain_between(items, i + 1, to, end, first.next);
        lemma_chain_keeps_groups(items, i + 1, to, end, first.next, open);
        lemma_chain_within(items, i + 1, to, end, first.next);
        lemma_chain_next(items, i + 1, to, end, first.next);
        lemma_edges_keep_groups_same(
            rest.transitions,
            to,
            end,
            first.next,
            rest.next,
            chain_groups_around(items, i + 1, to, end, first.next, open),
            around,
        );
    }
}

/// Every edge of a list of options agrees with the groups that are open in its states.
pub proof fn lemma_options_keeps_groups(
    options: Seq<AstModel>,
    i: int,
    start: u64,
    end: u64,
    next: int,
    open: Seq<u64>,
)
    requires
        0 <= i,
        start < next,
        end < next,
        next + options_state_count(options, i) <= u64::MAX,
        forall|j: int| 0 <= j < options.len() ==> groups_nest(#[trigger] options[j], open),
    ensures
        edges_keep_groups(
            options_between(options, i, start, end, next).transitions,
            options_groups_around(options, i, start, end, next, open),
        ),
    decreases options, options.len() - i,
{
    if i < options.len() {
        let around = options_groups_around(options, i, start, end, next, open);
        let first = graph_between(options[i], start, end, next);
        lemma_graph_keeps_groups(options[i], start, end, next, open);
        lemma_graph_within(options[i], start, end, next);
        lemma_graph_next(options[i], start, end, next);
        lemma_edges_keep_groups_same(
            first.transitions,
            start,
            end,
            next,
            first.next,
            groups_around(options[i], start, end, next, open),
            around,
        );
        let rest = options_between(options, i + 1, start, end, first.next);
        lemma_options_keeps_groups(options, i + 1, start, end, first.next, open);
        lemma_options_within(options, i + 1, start, end, first.next);
        lemma_options_next(options, i + 1, start, end, first.next);
        lemma_edges_keep_groups_same(
            rest.transitions,
            start,
            end,
            first.next,
            rest.next,
            options_groups_around(options, i + 1, start, end, first.next, open),
            around,
        );
    }
}

/// Every edge of unrolled copies agrees with the groups that are open in its states,
/// and the groups `open` are open in the two states that the loop body stands between.
pub proof fn lemma_unrolled_keeps_groups(
    node: AstModel,
    count: nat,
    inner_start: u64,
    inner_end: u64,
    next: int,
    open: Seq<u64>,
)
    requires
        inner_start < next,
        inner_end < next,
        next + count * (state_count(node) + 1) <= u64::MAX,
        groups_nest(node, open),
    ensures
        edges_keep_groups(
            unrolled_between(node, count, inner_start, inner_end, next).transitions,
            unrolled_groups_around(node, count, inner_start, inner_end, next, open),
        ),
        ({
            let copies = unrolled_between(node, count, inner_start, inner_end, next);
            let around = unrolled_groups_around(node, count, inner_start, inner_end, next, open);
            around(copies.inner_start) == open && around(copies.inner_end) == open
        }),
    decreases node, count + 1,
{
    if count > 0 {
        assert(count * (state_count(node) + 1) == (count - 1) * (state_count(node) + 1) + (
        state_count(node) + 1)) by (nonlinear_arith);
        assert((count - 1) * (state_count(node) + 1) >= 0) by (nonlinear_arith)
            requires
                count >= 1,
        ;
        let around = unrolled_groups_around(node, count, inner_start, inner_end, next, open);
        let first = graph_between(node, inner_start, inner_end, next);
        lemma_graph_keeps_groups(node, inner_start, inner_end, next, open);
        lemma_graph_within(node, inner_start, inner_end, next);
        lemma_graph_next(node, inner_start, inner_end, next);
        lemma_edges_keep_groups_same(
            first.transitions,
            inner_start,
            inner_end,
            next,
            first.next,
            groups_around(node, inner_start, inner_end, next, open),
            around,
        );
        let fresh = first.next as u64;
        let rest = unrolled_between(node, (count - 1) as nat, inner_end, fresh, first.next + 1);
        let rest_around = unrolled_groups_around(
            node,
            (count - 1) as nat,
            inner_end,
            fresh,
            first.next + 1,
            open,
        );
        lemma_unrolled_keeps_groups(node, (count - 1) as nat, inner_end, fresh, first.next + 1, open);
        lemma_unrolled_within(node, (count - 1) as nat, inner_end, fresh, first.next + 1);
        lemma_unrolled_next(node, (count - 1) as nat, inner_end, fresh, first.next + 1);
        assert(rest_around(fresh) == around(fresh));
        lemma_edges_keep_groups_same(
            rest.transitions,
            inner_end,
            fresh,
            first.next + 1,
            rest.next,
            rest_around,
            around,
        );
    }
}

/// The groups that are open in each state of the graph of a pattern.
pub open spec fn pattern_groups(node: AstModel) -> spec_fn(u64) -> Seq<u64> {
    groups_around(node, START_STATE, END_STATE, 2, Seq::empty())
}

/// The graph of a pattern whose groups nest is balanced.
pub proof fn lemma_pattern_balanced(node: AstModel)
    requires
        groups_nest(node, Seq::empty()),
        2 + state_count(node) <= u64::MAX,
    ensures
        groups_balanced(graph_of_pattern(node), pattern_groups(node)),
{
    lemma_graph_keeps_groups(node, START_STATE, END_STATE, 2, Seq::empty());
}

} // verus!
