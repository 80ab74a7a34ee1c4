//! The states of the edges in the graph of a node.
use vstd::prelude::*;
use crate::ast::{
    AstModel,
    chain_between,
    chain_state_count,
    graph_between,
    lemma_chain_next,
    lemma_graph_next,
    lemma_options_next,
    lemma_unrolled_next,
    options_between,
    options_state_count,
    required_copies,
    state_count,
    unrolled_between,
};
use crate::transition::TransitionModel;

verus! {

/// Whether every edge leaves `start` or a state of the range and enters `end` or a
/// state of the range; the range is `low..high`.
pub open spec fn edges_within(
    edges: Seq<TransitionModel>,
    start: u64,
    end: u64,
    low: int,
    high: int,
) -> bool {
    forall|i: int|
        0 <= i < edges.len() ==> ((#[trigger] edges[i]).from_state == start || low
            <= edges[i].from_state < high) && (edges[i].to_state == end || low
            <= edges[i].to_state < high)
}

/// Whether every edge leaves one of two states or a state of the range and enters `end`
/// or a state of the range.
pub open spec fn edges_within_from_two(
    edges: Seq<TransitionModel>,
    start: u64,
    end: u64,
    low: int,
    high: int,
) -> bool {
    forall|i: int|
        0 <= i < edges.len() ==> ((#[trigger] edges[i]).from_state == start
            || edges[i].from_state == end || low <= edges[i].from_state < high) && (
        edges[i].to_state == end || low <= edges[i].to_state < high)
}

/// The edges of the graph of a node leave its start state or one of its fresh states,
/// and enter its end state or one of its fresh states.
pub proof fn lemma_graph_within(node: AstModel, start: u64, end: u64, next: int)
    requires
        0 <= next,
        next + state_count(node) <= u64::MAX,
    ensures
        edges_within(
            graph_between(node, start, end, next).transitions,
            start,
            end,
            next,
            next + state_count(node),
        ),
    decreases node, 0nat,
{
    lemma_graph_next(node, start, end, next);
    match node {
        AstModel::Root(inner) => {
            lemma_graph_within(*inner, start, end, next);
        },
        AstModel::Sequence(items) => {
            if items.len() > 0 {
                lemma_chain_within(items, 0, start, end, next);
            }
        },
        AstModel::Alt { options, id } => {
            lemma_options_within(options, 0, next as u64, (next + 1) as u64, next + 2);
        },
        AstModel::Repeat { min, max, node } => {
            if max != Some(0u64) {
                let count = required_copies(min, max);
                let child = *node;
                assert(count * (state_count(child) + 1) >= 0) by (nonlinear_arith);
                let copies = unrolled_between(
                    child,
                    count,
                    next as u64,
                    (next + 1) as u64,
                    next + 2,
                );
                lemma_unrolled_next(child, count, next as u64, (next + 1) as u64, next + 2);
                lemma_unrolled_within(child, count, next as u64, (next + 1) as u64, next + 2);
                lemma_graph_within(child, copies.inner_start, copies.inner_end, copies.next);
            }
        },
        _ => {},
    }
}

/// The edges of a chain leave its start state or a fresh state, and enter its end state
/// or a fresh state.
pub proof fn lemma_chain_within(items: Seq<AstModel>, i: int, from: u64, end: u64, next: int)
    requires
        0 <= next,
        0 <= i,
        next + chain_state_count(items, i) <= u64::MAX,
    ensures
        edges_within(
            chain_between(items, i, from, end, next).transitions,
            from,
            end,
            next,
            next + chain_state_count(items, i),
        ),
    decreases items, items.len() - i,
{
    if i < items.len() {
        let last = i + 1 == items.len();
        let to = if last {
            end
        } else {
            next as u64
        };
        let next1 = if last {
            next
        } else {
            next + 1
        };
        lemma_graph_within(items[i], from, to, next1);
        lemma_graph_next(items[i], from, to, next1);
        let first = graph_between(items[i], from, to, next1);
        lemma_chain_within(items, i + 1, to, end, first.next);
        lemma_chain_next(items, i + 1, to, end, first.next);
    }
}

/// The edges of a list of options leave its start state or a fresh state, and enter its
/// end state or a fresh state.
pub proof fn lemma_options_within(
    options: Seq<AstModel>,
    i: int,
    start: u64,
    end: u64,
    next: int,
)
    requires
        0 <= next,
        0 <= i,
        next + options_state_count(options, i) <= u64::MAX,
    ensures
        edges_within(
            options_between(options, i, start, end, next).transitions,
            start,
            end,
            next,
            next + options_state_count(options, i),
        ),
    decreases options, options.len() - i,
{
    if i < options.len() {
        lemma_graph_within(options[i], start, end, next);
        lemma_graph_next(options[i], start, end, next);
        let first = graph_between(options[i], start, end, next);
        lemma_options_within(options, i + 1, start, end, first.next);
        lemma_options_next(options, i + 1, start, end, first.next);
    }
}

/// The edges of unrolled copies leave one of the two states that the first copy stands
/// between or a fresh state, and enter the second of the two or a fresh state; the
/// loop body behind them stands between two such states.
pub proof fn lemma_unrolled_within(
    node: AstModel,
    count: nat,
    inner_start: u64,
    inner_end: u64,
    next: int,
)
    requires
        0 <= next,
        next + count * (state_count(node) + 1) <= u64::MAX,
    ensures
        edges_within_from_two(
            unrolled_between(node, count, inner_start, inner_end, next).transitions,
            inner_start,
            inner_end,
            next,
            next + count * (state_count(node) + 1),
        ),
        ({
            let copies = unrolled_between(node, count, inner_start, inner_end, next);
            if count == 0 {
                copies.inner_start == inner_start && copies.inner_end == inner_end
            } else {
                &&& (copies.inner_start == inner_end || next <= copies.inner_start < next + count
                    * (state_count(node) + 1))
                &&& next <= copies.inner_end < next + count * (state_count(node) + 1)
            }
        }),
    decreases node, count + 1,
{
    if count > 0 {
        assert(count * (state_count(node) + 1) == (count - 1) * (state_count(node) + 1) + (
        state_count(node) + 1)) by (nonlinear_arith);
        assert((count - 1) * (state_count(node) + 1) >= 0) by (nonlinear_arith)
            requires
                count >= 1,
        ;
        lemma_graph_within(node, inner_start, inner_end, next);
        lemma_graph_next(node, inner_start, inner_end, next);
        let first = graph_between(node, inner_start, inner_end, next);
        lemma_unrolled_within(
            node,
            (count - 1) as nat,
            inner_end,
            first.next as u64,
            first.next + 1,
        );
        lemma_unrolled_next(node, (count - 1) as nat, inner_end, first.next as u64, first.next + 1);
    } else {
        assert(count * (state_count(node) + 1) == 0) by (nonlinear_arith)
            requires
                count == 0,
        ;
    }
}

} // verus!
