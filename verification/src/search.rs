//! The search of the evaluator as a mathematical function: its branches, its steps, and
//! the ranges that a scan reports.
use vstd::prelude::*;
use crate::capturer::CapturerModel;
use crate::common::{END_STATE, Incrementer, START_STATE};
use crate::cond::{MatchResult, cond_match};
use crate::token::Token;
use crate::transition::{CaptureGroupInstruction, TransitionModel};

verus! {

/// One pending branch of a search: where it stands in the stream and in the graph,
/// the loop it belongs to, and what it has captured.
pub struct FrameModel {
    /// Index of the next token.
    pub pos: int,
    pub loop_id: u64,
    pub state: u64,
    pub capturer: CapturerModel,
}

/// A search under way: the branches still to explore, the innermost last, how often
/// the capped edges out of each state were taken, and the next fresh loop id.
pub struct SearchModel {
    pub stack: Seq<FrameModel>,
    pub visits: Map<u64, u64>,
    pub next_loop_id: u64,
}

/// How a search from one offset ends.
pub enum SearchOutcome {
    /// The end state was reached in front of the token of that index.
    Found(int),
    /// Every branch failed.
    Exhausted,
}

/// The transitions that leave `state`, in the order of the graph.
pub open spec fn available(graph: Seq<TransitionModel>, state: u64) -> Seq<TransitionModel>
    decreases graph.len(),
{
    if graph.len() == 0 {
        Seq::empty()
    } else {
        let rest = available(graph.drop_last(), state);
        if graph.last().from_state == state {
            rest.push(graph.last())
        } else {
            rest
        }
    }
}

/// Whether some edge of the graph with a cap on its use leaves `state`.
pub open spec fn has_capped_exit(graph: Seq<TransitionModel>, state: u64) -> bool {
    exists|j: int|
        0 <= j < graph.len() && (#[trigger] graph[j]).max_use is Some && graph[j].from_state
            == state
}

/// Whether an edge from `from` to `to` starts a loop: it has no cap itself, and some
/// capped edge leaves `to`.
pub open spec fn is_loop_start(graph: Seq<TransitionModel>, from: u64, to: u64) -> bool {
    &&& exists|i: int|
        0 <= i < graph.len() && (#[trigger] graph[i]).max_use is None && graph[i].from_state
            == from && graph[i].to_state == to
    &&& has_capped_exit(graph, to)
}

/// How often the capped edges out of `state` were taken.
pub open spec fn visits_of(visits: Map<u64, u64>, state: u64) -> u64 {
    if visits.contains_key(state) {
        visits[state]
    } else {
        0
    }
}

/// What a capturer holds behind the edge `tr` that consumed the tokens `consumed`: their
/// characters go to every open group, then the edge's instruction is carried out.
/// `None` where it cannot be: the group to open is open, or the group to close is not
/// the innermost open one.
pub open spec fn after_edge(capturer: CapturerModel, consumed: Seq<Token>, tr: TransitionModel)
    -> Option<CapturerModel> {
    let fed = capturer.push(consumed);
    match tr.capture_group_ins {
        CaptureGroupInstruction::Start(id) => if fed.can_start(id) {
            Some(fed.start(id))
        } else {
            None
        },
        CaptureGroupInstruction::End(id) => if fed.can_end(id) {
            Some(fed.end())
        } else {
            None
        },
        CaptureGroupInstruction::Keep => Some(fed),
    }
}

/// The search after the branch `frame` has tried the transition `tr`: nothing changes but
/// the loop ids where the edge is used up or its condition fails; otherwise the branch
/// behind the edge is pushed. `None` where the edge's capture instruction cannot be
/// carried out.
pub open spec fn try_transition(
    graph: Seq<TransitionModel>,
    tokens: Seq<Token>,
    frame: FrameModel,
    tr: TransitionModel,
    search: SearchModel,
) -> Option<SearchModel> {
    let fresh = is_loop_start(graph, tr.from_state, tr.to_state);
    let loop_id = if fresh {
        search.next_loop_id
    } else {
        frame.loop_id
    };
    let next_loop_id = if fresh {
        Incrementer::cyclic_successor(search.next_loop_id)
    } else {
        search.next_loop_id
    };
    let used = visits_of(search.visits, frame.state);
    let skipped = SearchModel { next_loop_id, ..search };
    if tr.max_use is Some && used >= tr.max_use->0 {
        Some(skipped)
    } else {
        match cond_match(
            tr.cond,
            tokens.subrange(frame.pos, tokens.len() as int),
            frame.capturer.captures,
        ) {
            MatchResult::NoMatch => Some(skipped),
            MatchResult::Match(step) => {
                let visits = if tr.max_use is Some {
                    search.visits.insert(frame.state, (used + 1) as u64)
                } else {
                    search.visits
                };
                match after_edge(frame.capturer, tokens.subrange(frame.pos, frame.pos + step), tr) {
                    Some(capturer) => Some(
                        SearchModel {
                            stack: search.stack.push(
                                FrameModel {
                                    pos: frame.pos + step,
                                    loop_id,
                                    state: tr.to_state,
                                    capturer,
                                },
                            ),
                            visits,
                            next_loop_id,
                        },
                    ),
                    None => None,
                }
            },
        }
    }
}

/// The search after the branch `frame` has tried the first `count` of the transitions
/// `exits`, the last of them first, so that the first one is explored first.
pub open spec fn try_transitions(
    graph: Seq<TransitionModel>,
    tokens: Seq<Token>,
    frame: FrameModel,
    exits: Seq<TransitionModel>,
    count: int,
    search: SearchModel,
) -> Option<SearchModel>
    decreases count,
{
    if count <= 0 {
        Some(search)
    } else {
        match try_transition(graph, tokens, frame, exits[count - 1], search) {
            Some(next) => try_transitions(graph, tokens, frame, exits, count - 1, next),
            None => None,
        }
    }
}

/// One step of a search whose stack is not empty: the innermost branch is taken off
/// and replaced by the branches behind the transitions that leave its state.
pub open spec fn search_step(graph: Seq<TransitionModel>, tokens: Seq<Token>, search: SearchModel)
    -> Option<SearchModel> {
    let frame = search.stack.last();
    let exits = available(graph, frame.state);
    try_transitions(
        graph,
        tokens,
        frame,
        exits,
        exits.len() as int,
        SearchModel { stack: search.stack.drop_last(), ..search },
    )
}

/// How the search ends where it takes at most `fuel` steps; `None` where it takes more,
/// or where a step cannot be carried out.
pub open spec fn search_run(
    graph: Seq<TransitionModel>,
    tokens: Seq<Token>,
    search: SearchModel,
    fuel: nat,
) -> Option<SearchOutcome>
    decreases fuel,
{
    if search.stack.len() == 0 {
        Some(SearchOutcome::Exhausted)
    } else if search.stack.last().state == END_STATE {
        Some(SearchOutcome::Found(search.stack.last().pos))
    } else if fuel == 0 {
        None
    } else {
        match search_step(graph, tokens, search) {
            Some(next) => search_run(graph, tokens, next, (fuel - 1) as nat),
            None => None,
        }
    }
}

/// The search as it starts at `offset`: one branch in the start state that has captured
/// nothing, no edge taken yet.
pub open spec fn search_start(offset: int) -> SearchModel {
    SearchModel {
        stack: seq![
            FrameModel {
                pos: offset,
                loop_id: 0,
                state: START_STATE,
                capturer: CapturerModel::empty(),
            },
        ],
        visits: Map::empty(),
        next_loop_id: 1,
    }
}

/// Whether the search from `offset` comes to an end.
pub open spec fn search_completes(graph: Seq<TransitionModel>, tokens: Seq<Token>, offset: int)
    -> bool {
    exists|fuel: nat| search_run(graph, tokens, search_start(offset), fuel) is Some
}

/// How the search from `offset` ends, where it comes to an end.
pub open spec fn search_outcome(graph: Seq<TransitionModel>, tokens: Seq<Token>, offset: int)
    -> SearchOutcome {
    let fuel = choose|fuel: nat| search_run(graph, tokens, search_start(offset), fuel) is Some;
    search_run(graph, tokens, search_start(offset), fuel)->0
}

/// The ranges that a scan of the stream from `offset` on reports: at each offset it
/// tries, one search; behind a match that ends at `end` it goes on at `end`, or one
/// token further where the match is empty. `None` where one of these searches does
/// not come to an end.
pub open spec fn scan_from(graph: Seq<TransitionModel>, tokens: Seq<Token>, offset: int)
    -> Option<Seq<(usize, usize)>>
    decreases tokens.len() - offset,
{
    if offset < 0 || offset >= tokens.len() {
        Some(Seq::empty())
    } else if !search_completes(graph, tokens, offset) {
        None
    } else {
        match search_outcome(graph, tokens, offset) {
            SearchOutcome::Found(end) => {
                let next = if end > offset + 1 {
                    end
                } else {
                    offset + 1
                };
                if next >= tokens.len() {
                    Some(seq![(offset as usize, end as usize)])
                } else {
                    match scan_from(graph, tokens, next) {
                        Some(rest) => Some(seq![(offset as usize, end as usize)] + rest),
                        None => None,
                    }
                }
            },
            SearchOutcome::Exhausted => scan_from(graph, tokens, offset + 1),
        }
    }
}

/// With more fuel a search that came to an end ends the same way.
pub proof fn lemma_search_run_more_fuel(
    graph: Seq<TransitionModel>,
    tokens: Seq<Token>,
    search: SearchModel,
    fuel: nat,
    more: nat,
)
    requires
        search_run(graph, tokens, search, fuel) is Some,
        fuel <= more,
    ensures
        search_run(graph, tokens, search, more) == search_run(graph, tokens, search, fuel),
    decreases fuel,
{
    if search.stack.len() > 0 && search.stack.last().state != END_STATE {
        let next = search_step(graph, tokens, search)->0;
        lemma_search_run_more_fuel(graph, tokens, next, (fuel - 1) as nat, (more - 1) as nat);
    }
}

/// A search that comes to an end within `fuel` steps ends as `search_outcome` says.
pub proof fn lemma_search_outcome(
    graph: Seq<TransitionModel>,
    tokens: Seq<Token>,
    offset: int,
    fuel: nat,
)
    requires
        search_run(graph, tokens, search_start(offset), fuel) is Some,
    ensures
        search_completes(graph, tokens, offset),
        search_outcome(graph, tokens, offset) == search_run(
            graph,
            tokens,
            search_start(offset),
            fuel,
        )->0,
{
    let chosen = choose|f: nat| search_run(graph, tokens, search_start(offset), f) is Some;
    if chosen <= fuel {
        lemma_search_run_more_fuel(graph, tokens, search_start(offset), chosen, fuel);
    } else {
        lemma_search_run_more_fuel(graph, tokens, search_start(offset), fuel, chosen);
    }
}

/// The available transitions of two lists of edges one behind the other.
pub proof fn lemma_available_add(a: Seq<TransitionModel>, b: Seq<TransitionModel>, state: u64)
    ensures
        available(a + b, state) == available(a, state) + available(b, state),
    decreases b.len(),
{
    if b.len() == 0 {
        assert(a + b =~= a);
        assert(available(a, state) + available(b, state) =~= available(a, state));
    } else {
        lemma_available_add(a, b.drop_last(), state);
        assert((a + b).drop_last() =~= a + b.drop_last());
        assert((a + b).last() == b.last());
        if b.last().from_state == state {
            assert(available(a, state) + available(b.drop_last(), state).push(b.last()) =~= (
            available(a, state) + available(b.drop_last(), state)).push(b.last()));
        }
    }
}

/// Whether some edge of the list leaves the state.
pub open spec fn leaves(edges: Seq<TransitionModel>, state: u64) -> bool {
    exists|i: int| 0 <= i < edges.len() && (#[trigger] edges[i]).from_state == state
}

/// No transition is available in a state that no edge leaves.
pub proof fn lemma_available_none(edges: Seq<TransitionModel>, state: u64)
    requires
        !leaves(edges, state),
    ensures
        available(edges, state) == Seq::<TransitionModel>::empty(),
    decreases edges.len(),
{
    if edges.len() > 0 {
        assert(edges[edges.len() - 1].from_state != state);
        assert forall|i: int| 0 <= i < edges.drop_last().len() implies (
        #[trigger] edges.drop_last()[i]).from_state != state by {
            assert(edges[i].from_state != state);
        }
        lemma_available_none(edges.drop_last(), state);
    }
}

} // verus!
