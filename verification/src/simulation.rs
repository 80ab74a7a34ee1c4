//! Searches in two graphs that offer the same transitions up to the names of the states.
use vstd::prelude::*;
use crate::common::END_STATE;
use crate::renaming::{names_apart, renamed, renamed_graph, states_known};
use crate::search::{
    FrameModel,
    SearchModel,
    available,
    search_run,
    search_step,
    try_transition,
    try_transitions,
    visits_of,
};
use crate::token::Token;
use crate::transition::TransitionModel;

verus! {

/// Whether two branches are alike under a renaming: they stand at the same token with the
/// same captures, the second in the state that the state of the first is renamed to.
pub open spec fn frames_alike(
    one: FrameModel,
    other: FrameModel,
    name: spec_fn(u64) -> u64,
    known: spec_fn(u64) -> bool,
) -> bool {
    &&& known(one.state)
    &&& other.state == name(one.state)
    &&& other.pos == one.pos
    &&& other.capturer == one.capturer
}

/// Whether two searches are alike under a renaming: their branches are alike one by one,
/// and the capped edges out of each known state were taken as often as those out of
/// the state that it is renamed to. The loop ids may differ.
pub open spec fn searches_alike(
    one: SearchModel,
    other: SearchModel,
    name: spec_fn(u64) -> u64,
    known: spec_fn(u64) -> bool,
) -> bool {
    &&& one.stack.len() == other.stack.len()
    &&& forall|k: int|
        0 <= k < one.stack.len() ==> frames_alike(
            #[trigger] one.stack[k],
            other.stack[k],
            name,
            known,
        )
    &&& forall|state: u64|
        known(state) ==> visits_of(other.visits, #[trigger] name(state)) == visits_of(
            one.visits,
            state,
        )
}

/// Whether the second graph offers, in the state that a known state is renamed to, the
/// transitions that the first graph offers in that state, renamed; and these lead to
/// known states.
pub open spec fn offers_alike(
    one: Seq<TransitionModel>,
    other: Seq<TransitionModel>,
    name: spec_fn(u64) -> u64,
    known: spec_fn(u64) -> bool,
) -> bool {
    forall|state: u64|
        known(state) ==> available(other, #[trigger] name(state)) == renamed_graph(
            available(one, state),
            name,
        ) && states_known(available(one, state), known)
}

/// Two alike searches stay alike, or fail alike, behind the edges that two alike
/// branches have tried.
pub proof fn lemma_tried_alike(
    graph: Seq<TransitionModel>,
    graph2: Seq<TransitionModel>,
    tokens: Seq<Token>,
    name: spec_fn(u64) -> u64,
    known: spec_fn(u64) -> bool,
    frame: FrameModel,
    frame2: FrameModel,
    exits: Seq<TransitionModel>,
    count: int,
    search: SearchModel,
    search2: SearchModel,
)
    requires
        names_apart(name, known),
        frames_alike(frame, frame2, name, known),
        searches_alike(search, search2, name, known),
        states_known(exits, known),
        0 <= count <= exits.len(),
    ensures
        ({
            let after = try_transitions(graph, tokens, frame, exits, count, search);
            let after2 = try_transitions(
                graph2,
                tokens,
                frame2,
                renamed_graph(exits, name),
                count,
                search2,
            );
            &&& after is Some <==> after2 is Some
            &&& after is Some ==> searches_alike(after->0, after2->0, name, known)
        }),
    decreases count,
{
    let exits2 = renamed_graph(exits, name);
    if count > 0 {
        let tr = exits[count - 1];
        let tr2 = exits2[count - 1];
        assert(tr2 == renamed(tr, name));
        assert(known(tr.to_state));
        let mid = try_transition(graph, tokens, frame, tr, search);
        let mid2 = try_transition(graph2, tokens, frame2, tr2, search2);
        assert(visits_of(search2.visits, name(frame.state)) == visits_of(
            search.visits,
            frame.state,
        ));
        if mid is Some {
            assert(mid2 is Some);
            let used = visits_of(search.visits, frame.state);
            assert forall|state: u64| known(state) implies visits_of(
                mid2->0.visits,
                #[trigger] name(state),
            ) == visits_of(mid->0.visits, state) by {
                assert(visits_of(search2.visits, name(state)) == visits_of(search.visits, state));
                if name(state) == name(frame.state) {
                    assert(state == frame.state);
                }
            }
            assert forall|k: int| 0 <= k < mid->0.stack.len() implies frames_alike(
                #[trigger] mid->0.stack[k],
                mid2->0.stack[k],
                name,
                known,
            ) by {
                if k < search.stack.len() {
                    assert(frames_alike(search.stack[k], search2.stack[k], name, known));
                    assert(mid->0.stack[k] == search.stack[k]);
                    assert(mid2->0.stack[k] == search2.stack[k]);
                }
            }
            lemma_tried_alike(
                graph,
                graph2,
                tokens,
                name,
                known,
                frame,
                frame2,
                exits,
                count - 1,
                mid->0,
                mid2->0,
            );
        } else {
            assert(mid2 is None);
        }
    }
}

/// Two alike searches in two graphs that offer alike end alike.
pub proof fn lemma_searches_end_alike(
    graph: Seq<TransitionModel>,
    graph2: Seq<TransitionModel>,
    tokens: Seq<Token>,
    name: spec_fn(u64) -> u64,
    known: spec_fn(u64) -> bool,
    search: SearchModel,
    search2: SearchModel,
    fuel: nat,
)
    requires
        offers_alike(graph, graph2, name, known),
        names_apart(name, known),
        known(END_STATE),
        name(END_STATE) == END_STATE,
        searches_alike(search, search2, name, known),
    ensures
        search_run(graph2, tokens, search2, fuel) == search_run(graph, tokens, search, fuel),
    decreases fuel,
{
    if search.stack.len() > 0 {
        let top = search.stack.last();
        let top2 = search2.stack.last();
        assert(frames_alike(search.stack[search.stack.len() - 1], top2, name, known));
        if top.state == END_STATE {
        } else {
            assert(top2.state != END_STATE) by {
                if top2.state == END_STATE {
                    assert(name(top.state) == name(END_STATE));
                }
            }
            if fuel > 0 {
                let exits = available(graph, top.state);
                let popped = SearchModel { stack: search.stack.drop_last(), ..search };
                let popped2 = SearchModel { stack: search2.stack.drop_last(), ..search2 };
                assert(available(graph2, name(top.state)) == renamed_graph(exits, name));
                assert forall|k: int| 0 <= k < popped.stack.len() implies frames_alike(
                    #[trigger] popped.stack[k],
                    popped2.stack[k],
                    name,
                    known,
                ) by {
                    assert(frames_alike(search.stack[k], search2.stack[k], name, known));
                }
                lemma_tried_alike(
                    graph,
                    graph2,
                    tokens,
                    name,
                    known,
                    top,
                    top2,
                    exits,
                    exits.len() as int,
                    popped,
                    popped2,
                );
                let next = search_step(graph, tokens, search);
                let next2 = search_step(graph2, tokens, search2);
                if next is Some {
                    lemma_searches_end_alike(
                        graph,
                        graph2,
                        tokens,
                        name,
                        known,
                        next->0,
                        next2->0,
                        (fuel - 1) as nat,
                    );
                }
            }
        }
    }
}

/// The transitions that a renamed graph offers in a renamed state are those that the
/// graph offers in the state, renamed.
pub proof fn lemma_available_renamed(
    graph: Seq<TransitionModel>,
    name: spec_fn(u64) -> u64,
    known: spec_fn(u64) -> bool,
    state: u64,
)
    requires
        states_known(graph, known),
        names_apart(name, known),
        known(state),
    ensures
        available(renamed_graph(graph, name), name(state)) == renamed_graph(
            available(graph, state),
            name,
        ),
        states_known(available(graph, state), known),
    decreases graph.len(),
{
    let graph2 = renamed_graph(graph, name);
    if graph.len() > 0 {
        let front = graph.drop_last();
        assert forall|i: int| 0 <= i < front.len() implies known((#[trigger] front[i]).from_state)
            && known(front[i].to_state) by {
            assert(front[i] == graph[i]);
        }
        lemma_available_renamed(front, name, known, state);
        assert(graph2.drop_last() =~= renamed_graph(front, name));
        assert(graph2.last() == renamed(graph.last(), name));
        assert(known(graph[graph.len() - 1].from_state));
        if graph.last().from_state == state {
            assert(available(graph2, name(state)) =~= renamed_graph(
                available(graph, state),
                name,
            ));
        } else {
            assert(graph2.last().from_state != name(state));
        }
        let all = available(graph, state);
        let rest = available(front, state);
        assert forall|j: int| 0 <= j < all.len() implies known((#[trigger] all[j]).from_state)
            && known(all[j].to_state) by {
            if j < rest.len() {
                assert(all[j] == rest[j]);
            } else {
                assert(all[j] == graph[graph.len() - 1]);
            }
        }
    } else {
        assert(available(graph2, name(state)) =~= renamed_graph(available(graph, state), name));
    }
}

} // verus!
