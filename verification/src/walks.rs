//! Walks through a graph against a token stream, and what the search has to do with
//! them: it finds only what a walk spans, and in a graph without caps all of it.
use vstd::prelude::*;
use crate::capturer::CapturerModel;
use crate::common::{END_STATE, START_STATE};
use crate::cond::{MatchResult, cond_match};
use crate::progress::lemma_available_are_edges;
use crate::search::{
    FrameModel,
    SearchModel,
    SearchOutcome,
    after_edge,
    available,
    scan_from,
    search_outcome,
    search_run,
    search_start,
    search_step,
    try_transition,
    try_transitions,
};
use crate::token::Token;
use crate::transition::TransitionModel;

verus! {

/// A place on a walk through the graph: the index of the next token, the state, and
/// what was captured on the way.
pub struct Place {
    pub pos: int,
    pub state: u64,
    pub capturer: CapturerModel,
}

/// The place of a branch.
pub open spec fn place_of(frame: FrameModel) -> Place {
    Place { pos: frame.pos, state: frame.state, capturer: frame.capturer }
}

/// The place that a walk starts in at `offset`.
pub open spec fn start_place(offset: int) -> Place {
    Place { pos: offset, state: START_STATE, capturer: CapturerModel::empty() }
}

/// The place behind the edge `tr`, taken in `place`: `None` where the condition of the
/// edge does not hold there, given what was captured, or where its capture instruction
/// cannot be carried out.
pub open spec fn place_behind(tokens: Seq<Token>, place: Place, tr: TransitionModel) -> Option<
    Place,
> {
    match cond_match(
        tr.cond,
        tokens.subrange(place.pos, tokens.len() as int),
        place.capturer.captures,
    ) {
        MatchResult::NoMatch => None,
        MatchResult::Match(step) => match after_edge(
            place.capturer,
            tokens.subrange(place.pos, place.pos + step),
            tr,
        ) {
            Some(capturer) => Some(Place { pos: place.pos + step, state: tr.to_state, capturer }),
            None => None,
        },
    }
}

/// Whether a walk of at most `steps` edges leads from `place` to the end state in front
/// of the token `end`, each edge taken where its condition holds.
pub open spec fn walks_to_end(
    graph: Seq<TransitionModel>,
    tokens: Seq<Token>,
    place: Place,
    end: int,
    steps: nat,
) -> bool
    decreases steps,
{
    (place.state == END_STATE && place.pos == end) || (steps > 0 && exists|i: int|
        0 <= i < graph.len() && (#[trigger] graph[i]).from_state == place.state && place_behind(
            tokens,
            place,
            graph[i],
        ) is Some && walks_to_end(
            graph,
            tokens,
            place_behind(tokens, place, graph[i])->0,
            end,
            (steps - 1) as nat,
        ))
}

/// Whether some walk leads from `place` to the end state in front of the token `end`.
pub open spec fn reaches_end(
    graph: Seq<TransitionModel>,
    tokens: Seq<Token>,
    place: Place,
    end: int,
) -> bool {
    exists|steps: nat| walks_to_end(graph, tokens, place, end, steps)
}

/// Whether the tokens from `start` up to `end` are spanned by a walk through the graph
/// from the start state to the end state.
pub open spec fn spans(graph: Seq<TransitionModel>, tokens: Seq<Token>, start: int, end: int)
    -> bool {
    reaches_end(graph, tokens, start_place(start), end)
}

/// Every branch that the edges tried by `frame` push stands behind one of these edges.
pub proof fn lemma_pushed_behind_edges(
    graph: Seq<TransitionModel>,
    tokens: Seq<Token>,
    frame: FrameModel,
    exits: Seq<TransitionModel>,
    count: int,
    search: SearchModel,
)
    requires
        0 <= count <= exits.len(),
        try_transitions(graph, tokens, frame, exits, count, search) is Some,
    ensures
        ({
            let after = try_transitions(graph, tokens, frame, exits, count, search)->0;
            &&& search.stack.len() <= after.stack.len()
            &&& forall|k: int| 0 <= k < search.stack.len() ==> after.stack[k] == search.stack[k]
            &&& forall|k: int|
                search.stack.len() <= k < after.stack.len() ==> exists|j: int|
                    0 <= j < exits.len() && place_behind(
                        tokens,
                        place_of(frame),
                        #[trigger] exits[j],
                    ) == Some(place_of(#[trigger] after.stack[k]))
        }),
    decreases count,
{
    if count > 0 {
        let tr = exits[count - 1];
        let mid = try_transition(graph, tokens, frame, tr, search)->0;
        lemma_pushed_behind_edges(graph, tokens, frame, exits, count - 1, mid);
        let after = try_transitions(graph, tokens, frame, exits, count - 1, mid)->0;
        assert forall|k: int| search.stack.len() <= k < after.stack.len() implies exists|j: int|
            0 <= j < exits.len() && place_behind(tokens, place_of(frame), #[trigger] exits[j])
                == Some(place_of(#[trigger] after.stack[k])) by {
            if k < mid.stack.len() {
                assert(after.stack[k] == mid.stack[k]);
                assert(place_behind(tokens, place_of(frame), exits[count - 1]) == Some(
                    place_of(after.stack[k]),
                ));
            }
        }
    }
}

/// Where a search finds the end state, a walk leads there from one of the branches on
/// its stack.
pub proof fn lemma_found_by_walk(
    graph: Seq<TransitionModel>,
    tokens: Seq<Token>,
    search: SearchModel,
    fuel: nat,
)
    requires
        search_run(graph, tokens, search, fuel) is Some,
        search_run(graph, tokens, search, fuel)->0 is Found,
    ensures
        exists|k: int|
            0 <= k < search.stack.len() && reaches_end(
                graph,
                tokens,
                place_of(#[trigger] search.stack[k]),
                search_run(graph, tokens, search, fuel)->0->Found_0,
            ),
    decreases fuel,
{
    let end = search_run(graph, tokens, search, fuel)->0->Found_0;
    let top = search.stack.last();
    if top.state == END_STATE {
        assert(walks_to_end(graph, tokens, place_of(search.stack[search.stack.len() - 1]), end, 0));
    } else {
        let next = search_step(graph, tokens, search)->0;
        lemma_found_by_walk(graph, tokens, next, (fuel - 1) as nat);
        let k = choose|k: int|
            0 <= k < next.stack.len() && reaches_end(
                graph,
                tokens,
                place_of(#[trigger] next.stack[k]),
                end,
            );
        let exits = available(graph, top.state);
        let popped = SearchModel { stack: search.stack.drop_last(), ..search };
        lemma_pushed_behind_edges(graph, tokens, top, exits, exits.len() as int, popped);
        lemma_available_are_edges(graph, top.state);
        if k < popped.stack.len() {
            assert(next.stack[k] == popped.stack[k]);
            assert(search.stack[k] == popped.stack[k]);
        } else {
            let j = choose|j: int|
                0 <= j < exits.len() && place_behind(tokens, place_of(top), #[trigger] exits[j])
                    == Some(place_of(next.stack[k]));
            let i = choose|i: int| 0 <= i < graph.len() && graph[i] == exits[j];
            let steps = choose|steps: nat|
                walks_to_end(graph, tokens, place_of(next.stack[k]), end, steps);
            assert(walks_to_end(graph, tokens, place_of(top), end, steps + 1)) by {
                assert(graph[i].from_state == top.state);
                assert(place_behind(tokens, place_of(top), graph[i]) is Some);
            }
            assert(reaches_end(
                graph,
                tokens,
                place_of(search.stack[search.stack.len() - 1]),
                end,
            ));
        }
    }
}

/// Every range that a scan reports lies inside the stream, behind the offset of the
/// scan, and is spanned by a walk through the graph from the start state to the end
/// state, each of whose edges is taken where its condition holds, given what the walk
/// has captured up to there.
pub proof fn lemma_reported_ranges_are_spanned(
    graph: Seq<TransitionModel>,
    tokens: Seq<Token>,
    offset: int,
)
    requires
        0 <= offset,
        tokens.len() <= usize::MAX,
        scan_from(graph, tokens, offset) is Some,
    ensures
        forall|k: int|
            0 <= k < scan_from(graph, tokens, offset)->0.len() ==> spans(
                graph,
                tokens,
                (#[trigger] scan_from(graph, tokens, offset)->0[k]).0 as int,
                scan_from(graph, tokens, offset)->0[k].1 as int,
            ),
        forall|k: int|
            0 <= k < scan_from(graph, tokens, offset)->0.len() ==> offset <= (
            #[trigger] scan_from(graph, tokens, offset)->0[k]).0 < tokens.len() && scan_from(
                graph,
                tokens,
                offset,
            )->0[k].1 <= tokens.len(),
    decreases tokens.len() - offset,
{
    if offset < tokens.len() {
        let all = scan_from(graph, tokens, offset)->0;
        match search_outcome(graph, tokens, offset) {
            SearchOutcome::Found(end) => {
                let fuel = choose|fuel: nat|
                    search_run(graph, tokens, search_start(offset), fuel) is Some;
                lemma_found_by_walk(graph, tokens, search_start(offset), fuel);
                lemma_found_in_stream(graph, tokens, search_start(offset), fuel);
                assert(place_of(search_start(offset).stack[0]) == start_place(offset));
                assert(spans(graph, tokens, offset, end));
                let next = if end > offset + 1 {
                    end
                } else {
                    offset + 1
                };
                assert(all[0] == (offset as usize, end as usize));
                if next < tokens.len() {
                    lemma_reported_ranges_are_spanned(graph, tokens, next);
                    let rest = scan_from(graph, tokens, next)->0;
                    assert forall|k: int| 0 <= k < all.len() implies spans(
                        graph,
                        tokens,
                        (#[trigger] all[k]).0 as int,
                        all[k].1 as int,
                    ) && offset <= all[k].0 < tokens.len() && all[k].1 <= tokens.len() by {
                        if k > 0 {
                            assert(all[k] == rest[k - 1]);
                        }
                    }
                }
            },
            SearchOutcome::Exhausted => {
                lemma_reported_ranges_are_spanned(graph, tokens, offset + 1);
            },
        }
    }
}

/// Where a search whose branches stand inside the stream finds the end state, it finds
/// it inside the stream.
pub proof fn lemma_found_in_stream(
    graph: Seq<TransitionModel>,
    tokens: Seq<Token>,
    search: SearchModel,
    fuel: nat,
)
    requires
        forall|k: int|
            0 <= k < search.stack.len() ==> 0 <= (#[trigger] search.stack[k]).pos <= tokens.len(),
    ensures
        search_run(graph, tokens, search, fuel) matches Some(SearchOutcome::Found(end)) ==> 0
            <= end <= tokens.len(),
    decreases fuel,
{
    if search.stack.len() > 0 && search.stack.last().state != END_STATE && fuel > 0 {
        if search_step(graph, tokens, search) is Some {
            let top = search.stack.last();
            let exits = available(graph, top.state);
            let popped = SearchModel { stack: search.stack.drop_last(), ..search };
            let next = search_step(graph, tokens, search)->0;
            lemma_pushed_in_stream(graph, tokens, top, exits, exits.len() as int, popped);
            lemma_found_in_stream(graph, tokens, next, (fuel - 1) as nat);
        }
    } else if search.stack.len() > 0 && search.stack.last().state == END_STATE {
        assert(0 <= search.stack[search.stack.len() - 1].pos <= tokens.len());
    }
}

/// Every branch that a branch inside the stream pushes stands inside the stream.
pub proof fn lemma_pushed_in_stream(
    graph: Seq<TransitionModel>,
    tokens: Seq<Token>,
    frame: FrameModel,
    exits: Seq<TransitionModel>,
    count: int,
    search: SearchModel,
)
    requires
        0 <= count <= exits.len(),
        0 <= frame.pos <= tokens.len(),
        forall|k: int|
            0 <= k < search.stack.len() ==> 0 <= (#[trigger] search.stack[k]).pos <= tokens.len(),
        try_transitions(graph, tokens, frame, exits, count, search) is Some,
    ensures
        forall|k: int|
            0 <= k < try_transitions(graph, tokens, frame, exits, count, search)->0.stack.len()
                ==> 0 <= (#[trigger] try_transitions(
                graph,
                tokens,
                frame,
                exits,
                count,
                search,
            )->0.stack[k]).pos <= tokens.len(),
    decreases count,
{
    if count > 0 {
        let tr = exits[count - 1];
        let next = try_transition(graph, tokens, frame, tr, search)->0;
        crate::cond::lemma_cond_match_in_bounds(
            tr.cond,
            tokens.subrange(frame.pos, tokens.len() as int),
            frame.capturer.captures,
        );
        assert forall|k: int| 0 <= k < next.stack.len() implies 0 <= (
        #[trigger] next.stack[k]).pos <= tokens.len() by {
            if k < search.stack.len() {
                assert(next.stack[k] == search.stack[k]);
            }
        }
        lemma_pushed_in_stream(graph, tokens, frame, exits, count - 1, next);
    }
}

/// Whether no edge of the graph has a cap on its use.
pub open spec fn cap_free(graph: Seq<TransitionModel>) -> bool {
    forall|i: int| 0 <= i < graph.len() ==> (#[trigger] graph[i]).max_use is None
}

/// Every edge without a cap that `frame` has tried and that leads somewhere has pushed
/// the branch behind it.
pub proof fn lemma_edges_push(
    graph: Seq<TransitionModel>,
    tokens: Seq<Token>,
    frame: FrameModel,
    exits: Seq<TransitionModel>,
    count: int,
    search: SearchModel,
)
    requires
        0 <= count <= exits.len(),
        forall|j: int| 0 <= j < exits.len() ==> (#[trigger] exits[j]).max_use is None,
        try_transitions(graph, tokens, frame, exits, count, search) is Some,
    ensures
        forall|j: int|
            0 <= j < count && place_behind(tokens, place_of(frame), #[trigger] exits[j]) is Some
                ==> exists|k: int|
                0 <= k < try_transitions(
                    graph,
                    tokens,
                    frame,
                    exits,
                    count,
                    search,
                )->0.stack.len() && place_of(
                    #[trigger] try_transitions(
                        graph,
                        tokens,
                        frame,
                        exits,
                        count,
                        search,
                    )->0.stack[k],
                ) == place_behind(tokens, place_of(frame), exits[j])->0,
    decreases count,
{
    if count > 0 {
        let tr = exits[count - 1];
        let mid = try_transition(graph, tokens, frame, tr, search)->0;
        lemma_edges_push(graph, tokens, frame, exits, count - 1, mid);
        lemma_pushed_behind_edges(graph, tokens, frame, exits, count - 1, mid);
        let after = try_transitions(graph, tokens, frame, exits, count - 1, mid)->0;
        assert forall|j: int|
            0 <= j < count && place_behind(
                tokens,
                place_of(frame),
                #[trigger] exits[j],
            ) is Some implies exists|k: int|
            0 <= k < after.stack.len() && place_of(#[trigger] after.stack[k]) == place_behind(
                tokens,
                place_of(frame),
                exits[j],
            )->0 by {
            if j == count - 1 {
                let k = search.stack.len() as int;
                assert(mid.stack.len() == k + 1);
                assert(after.stack[k] == mid.stack[k]);
                assert(place_of(after.stack[k]) == place_behind(
                    tokens,
                    place_of(frame),
                    exits[j],
                )->0);
            }
        }
    }
}

/// Where a search in a graph without caps fails, no walk leads to the end state from
/// any branch on its stack.
pub proof fn lemma_exhausted_without_walk(
    graph: Seq<TransitionModel>,
    tokens: Seq<Token>,
    search: SearchModel,
    fuel: nat,
    k: int,
    end: int,
)
    requires
        cap_free(graph),
        search_run(graph, tokens, search, fuel) == Some(SearchOutcome::Exhausted),
        0 <= k < search.stack.len(),
    ensures
        !reaches_end(graph, tokens, place_of(search.stack[k]), end),
    decreases fuel,
{
    let top = search.stack.last();
    let next = search_step(graph, tokens, search)->0;
    let exits = available(graph, top.state);
    let popped = SearchModel { stack: search.stack.drop_last(), ..search };
    lemma_available_are_edges(graph, top.state);
    assert forall|j: int| 0 <= j < exits.len() implies (#[trigger] exits[j]).max_use is None by {
        let i = choose|i: int| 0 <= i < graph.len() && graph[i] == exits[j];
    }
    lemma_pushed_behind_edges(graph, tokens, top, exits, exits.len() as int, popped);
    lemma_edges_push(graph, tokens, top, exits, exits.len() as int, popped);
    if k < search.stack.len() - 1 {
        assert(next.stack[k] == search.stack[k]);
        lemma_exhausted_without_walk(graph, tokens, next, (fuel - 1) as nat, k, end);
    } else if reaches_end(graph, tokens, place_of(top), end) {
        let steps = choose|steps: nat| walks_to_end(graph, tokens, place_of(top), end, steps);
        let i = choose|i: int|
            0 <= i < graph.len() && (#[trigger] graph[i]).from_state == top.state && place_behind(
                tokens,
                place_of(top),
                graph[i],
            ) is Some && walks_to_end(
                graph,
                tokens,
                place_behind(tokens, place_of(top), graph[i])->0,
                end,
                (steps - 1) as nat,
            );
        lemma_edge_is_available(graph, top.state, i);
        let j = choose|j: int| 0 <= j < exits.len() && exits[j] == graph[i];
        let child = choose|child: int|
            0 <= child < next.stack.len() && place_of(#[trigger] next.stack[child])
                == place_behind(tokens, place_of(top), exits[j])->0;
        lemma_exhausted_without_walk(graph, tokens, next, (fuel - 1) as nat, child, end);
        assert(reaches_end(graph, tokens, place_of(next.stack[child]), end));
    }
}

/// Every edge of the graph that leaves `state` is among the available ones.
pub proof fn lemma_edge_is_available(graph: Seq<TransitionModel>, state: u64, i: int)
    requires
        0 <= i < graph.len(),
        graph[i].from_state == state,
    ensures
        exists|j: int|
            0 <= j < available(graph, state).len() && available(graph, state)[j] == graph[i],
    decreases graph.len(),
{
    let front = graph.drop_last();
    let rest = available(front, state);
    let all = available(graph, state);
    if i < front.len() {
        lemma_edge_is_available(front, state, i);
        let j = choose|j: int| 0 <= j < rest.len() && rest[j] == front[i];
        assert(all[j] == graph[i]);
    } else {
        assert(all[all.len() - 1] == graph[i]);
    }
}

/// In a graph without caps a search that comes to an end is exact: it finds the end
/// state from `offset` exactly where some walk leads there from `offset`.
pub proof fn lemma_cap_free_search_is_exact(
    graph: Seq<TransitionModel>,
    tokens: Seq<Token>,
    offset: int,
)
    requires
        cap_free(graph),
        crate::search::search_completes(graph, tokens, offset),
    ensures
        search_outcome(graph, tokens, offset) is Found <==> exists|end: int|
            spans(graph, tokens, offset, end),
{
    let fuel = choose|fuel: nat| search_run(graph, tokens, search_start(offset), fuel) is Some;
    let start = search_start(offset);
    assert(place_of(start.stack[0]) == start_place(offset));
    if search_outcome(graph, tokens, offset) is Found {
        lemma_found_by_walk(graph, tokens, start, fuel);
        assert(spans(graph, tokens, offset, search_outcome(graph, tokens, offset)->Found_0));
    } else {
        assert forall|end: int| !spans(graph, tokens, offset, end) by {
            lemma_exhausted_without_walk(graph, tokens, start, fuel, 0, end);
        }
    }
}

/// Whether a walk of at most `steps` edges leads from `place` to the state `target` in
/// front of the token `end`, each edge taken where its condition holds.
pub open spec fn walks_to(
    graph: Seq<TransitionModel>,
    tokens: Seq<Token>,
    place: Place,
    target: u64,
    end: int,
    steps: nat,
) -> bool
    decreases steps,
{
    (place.state == target && place.pos == end) || (steps > 0 && exists|i: int|
        0 <= i < graph.len() && (#[trigger] graph[i]).from_state == place.state && place_behind(
            tokens,
            place,
            graph[i],
        ) is Some && walks_to(
            graph,
            tokens,
            place_behind(tokens, place, graph[i])->0,
            target,
            end,
            (steps - 1) as nat,
        ))
}

/// A walk to the end state is a walk to a state that is the end state.
pub proof fn lemma_walks_to_end(
    graph: Seq<TransitionModel>,
    tokens: Seq<Token>,
    place: Place,
    end: int,
    steps: nat,
)
    ensures
        walks_to_end(graph, tokens, place, end, steps) == walks_to(
            graph,
            tokens,
            place,
            END_STATE,
            end,
            steps,
        ),
    decreases steps,
{
    if steps > 0 {
        assert forall|i: int| 0 <= i < graph.len() && place_behind(
            tokens,
            place,
            #[trigger] graph[i],
        ) is Some implies walks_to_end(
            graph,
            tokens,
            place_behind(tokens, place, graph[i])->0,
            end,
            (steps - 1) as nat,
        ) == walks_to(
            graph,
            tokens,
            place_behind(tokens, place, graph[i])->0,
            END_STATE,
            end,
            (steps - 1) as nat,
        ) by {
            lemma_walks_to_end(
                graph,
                tokens,
                place_behind(tokens, place, graph[i])->0,
                end,
                (steps - 1) as nat,
            );
        }
    }
}

/// A scan reports a range exactly where one of its searches finds the end state.
pub proof fn lemma_scan_reports(graph: Seq<TransitionModel>, tokens: Seq<Token>, offset: int)
    requires
        0 <= offset,
        scan_from(graph, tokens, offset) is Some,
    ensures
        scan_from(graph, tokens, offset)->0.len() > 0 <==> exists|o: int|
            offset <= o < tokens.len() && #[trigger] search_outcome(graph, tokens, o) is Found,
    decreases tokens.len() - offset,
{
    if offset < tokens.len() {
        match search_outcome(graph, tokens, offset) {
            SearchOutcome::Found(end) => {},
            SearchOutcome::Exhausted => {
                lemma_scan_reports(graph, tokens, offset + 1);
            },
        }
    }
}

/// In a graph of one edge into the end state, a walk leads to the end state from the
/// state of the edge exactly where the edge can be taken, and then up to where the
/// edge leads.
pub proof fn lemma_single_edge_walk(
    edge: TransitionModel,
    tokens: Seq<Token>,
    place: Place,
    end: int,
)
    requires
        edge.from_state == place.state,
        edge.from_state != END_STATE,
        edge.to_state == END_STATE,
    ensures
        reaches_end(seq![edge], tokens, place, end) <==> place_behind(tokens, place, edge) is Some
            && place_behind(tokens, place, edge)->0.pos == end,
{
    let graph = seq![edge];
    assert(graph[0] == edge);
    if reaches_end(graph, tokens, place, end) {
        let steps = choose|steps: nat| walks_to_end(graph, tokens, place, end, steps);
        let i = choose|i: int|
            0 <= i < graph.len() && (#[trigger] graph[i]).from_state == place.state && place_behind(
                tokens,
                place,
                graph[i],
            ) is Some && walks_to_end(
                graph,
                tokens,
                place_behind(tokens, place, graph[i])->0,
                end,
                (steps - 1) as nat,
            );
        let behind = place_behind(tokens, place, edge)->0;
        if !(behind.state == END_STATE && behind.pos == end) {
            let j = choose|j: int|
                0 <= j < graph.len() && (#[trigger] graph[j]).from_state == behind.state;
        }
    }
    if place_behind(tokens, place, edge) is Some && place_behind(tokens, place, edge)->0.pos
        == end {
        let behind = place_behind(tokens, place, edge)->0;
        assert(walks_to_end(graph, tokens, behind, end, 0));
        assert(walks_to_end(graph, tokens, place, end, 1));
    }
}

} // verus!
