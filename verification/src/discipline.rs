//! The order in which capture groups are opened and closed along the walks through
//! the graph of a pattern.
use vstd::prelude::*;
use crate::ast::{AstModel, graph_of_pattern, state_count};
use crate::capturer::CapturerModel;
use crate::common::{END_STATE, START_STATE};
use crate::grammar::parse_pattern;
use crate::groups::{groups_nest, lemma_pattern_balanced, pattern_groups};
use crate::parsed::lemma_parsed_pattern_sound;
use crate::progress::edge_keeps_groups;
use crate::search::after_edge;
use crate::token::Token;
use crate::transition::{CaptureGroupInstruction, TransitionModel};

verus! {

/// The stack of open groups behind a capture instruction, given the stack in front of
/// it; `None` where the instruction cannot be carried out: the group to open is open,
/// or the group to close is not the innermost open one.
pub open spec fn open_after(ins: CaptureGroupInstruction, open: Seq<u64>) -> Option<Seq<u64>> {
    match ins {
        CaptureGroupInstruction::Start(id) => if open.contains(id) {
            None
        } else {
            Some(open.push(id))
        },
        CaptureGroupInstruction::End(id) => if open.len() > 0 && open.last() == id {
            Some(open.drop_last())
        } else {
            None
        },
        CaptureGroupInstruction::Keep => Some(open),
    }
}

/// Whether `walk` lists, by their indices, edges of the graph that lead one into the
/// other, the first of them out of the state `from`.
pub open spec fn is_walk(graph: Seq<TransitionModel>, walk: Seq<int>, from: u64) -> bool
    decreases walk.len(),
{
    walk.len() == 0 || (0 <= walk[0] < graph.len() && graph[walk[0]].from_state == from
        && is_walk(graph, walk.drop_first(), graph[walk[0]].to_state))
}

/// The state that a walk out of `from` ends in.
pub open spec fn walk_end(graph: Seq<TransitionModel>, walk: Seq<int>, from: u64) -> u64
    decreases walk.len(),
{
    if walk.len() == 0 {
        from
    } else {
        walk_end(graph, walk.drop_first(), graph[walk[0]].to_state)
    }
}

/// The stack of open groups behind a walk that starts with the stack `open`; `None`
/// where an instruction on the way cannot be carried out.
pub open spec fn groups_along(graph: Seq<TransitionModel>, walk: Seq<int>, open: Seq<u64>)
    -> Option<Seq<u64>>
    decreases walk.len(),
{
    if walk.len() == 0 {
        Some(open)
    } else {
        match open_after(graph[walk[0]].capture_group_ins, open) {
            Some(next) => groups_along(graph, walk.drop_first(), next),
            None => None,
        }
    }
}

/// A capturer carries out the instruction of an edge exactly where `open_after` says
/// that it can be carried out, and then has the open groups that `open_after` gives.
pub proof fn lemma_capturer_follows(
    capturer: CapturerModel,
    consumed: Seq<Token>,
    tr: TransitionModel,
)
    ensures
        after_edge(capturer, consumed, tr) is Some <==> open_after(
            tr.capture_group_ins,
            capturer.currents,
        ) is Some,
        after_edge(capturer, consumed, tr) is Some ==> Some(
            after_edge(capturer, consumed, tr)->0.currents,
        ) == open_after(tr.capture_group_ins, capturer.currents),
{
}

/// Along every walk in a balanced graph each capture instruction can be carried out,
/// and behind the walk the groups of its last state are open.
pub proof fn lemma_walk_keeps_groups(
    graph: Seq<TransitionModel>,
    groups: spec_fn(u64) -> Seq<u64>,
    walk: Seq<int>,
    from: u64,
)
    requires
        forall|i: int| 0 <= i < graph.len() ==> edge_keeps_groups(#[trigger] graph[i], groups),
        is_walk(graph, walk, from),
    ensures
        groups_along(graph, walk, groups(from)) == Some(groups(walk_end(graph, walk, from))),
    decreases walk.len(),
{
    if walk.len() > 0 {
        let t = graph[walk[0]];
        assert(edge_keeps_groups(t, groups));
        lemma_walk_keeps_groups(graph, groups, walk.drop_first(), t.to_state);
    }
}

/// Along every walk from the start state in the graph of a pattern whose groups nest,
/// each instruction that closes a group closes the innermost open one and each
/// instruction that opens a group opens one that is not open; and where the walk ends
/// in the end state, no group is left open.
pub proof fn lemma_capture_discipline(node: AstModel, walk: Seq<int>)
    requires
        groups_nest(node, Seq::empty()),
        2 + state_count(node) <= u64::MAX,
        is_walk(graph_of_pattern(node), walk, START_STATE),
    ensures
        groups_along(graph_of_pattern(node), walk, Seq::empty()) is Some,
        walk_end(graph_of_pattern(node), walk, START_STATE) == END_STATE ==> groups_along(
            graph_of_pattern(node),
            walk,
            Seq::empty(),
        ) == Some(Seq::<u64>::empty()),
{
    lemma_pattern_balanced(node);
    lemma_walk_keeps_groups(graph_of_pattern(node), pattern_groups(node), walk, START_STATE);
}

/// The same of every pattern that the grammar accepts and whose graph has no more
/// states than there are state ids.
pub proof fn lemma_parsed_capture_discipline(pattern: Seq<char>, walk: Seq<int>)
    requires
        parse_pattern(pattern) is Ok,
        2 + state_count(parse_pattern(pattern)->Ok_0) <= u64::MAX,
        is_walk(graph_of_pattern(parse_pattern(pattern)->Ok_0), walk, START_STATE),
    ensures
        groups_along(graph_of_pattern(parse_pattern(pattern)->Ok_0), walk, Seq::empty()) is Some,
        walk_end(graph_of_pattern(parse_pattern(pattern)->Ok_0), walk, START_STATE) == END_STATE
            ==> groups_along(
            graph_of_pattern(parse_pattern(pattern)->Ok_0),
            walk,
            Seq::empty(),
        ) == Some(Seq::<u64>::empty()),
{
    lemma_parsed_pattern_sound(pattern);
    lemma_capture_discipline(parse_pattern(pattern)->Ok_0, walk);
}

} // verus!
