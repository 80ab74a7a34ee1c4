//! When searches come to an end: in graphs whose capture instructions balance and whose
//! states have ranks that fall along the edges that may consume nothing. A backreference
//! may consume nothing only where the text of its group may be empty, which is followed
//! state by state.
use vstd::prelude::*;
use crate::capturer::CapturerModel;
use crate::common::{END_STATE, START_STATE};
use crate::cond::{CondModel, MatchResult, cond_match};
use crate::search::{
    FrameModel,
    SearchModel,
    SearchOutcome,
    after_edge,
    available,
    scan_from,
    search_completes,
    search_run,
    search_start,
    search_step,
    try_transition,
    try_transitions,
    visits_of,
};
use crate::token::{Token, chars_of};
use crate::transition::{CaptureGroupInstruction, TransitionModel};

verus! {

/// Whether a condition may hold without consuming a token.
pub open spec fn may_consume_nothing(cond: CondModel) -> bool {
    cond is Epsilon || cond is CaptureRef
}

/// What is known of the texts of the groups in a state: the groups in `weak` may hold an
/// empty text, and so may the innermost `unfilled` open groups; the text of every other
/// group that has a text holds a character.
pub struct Texts {
    pub weak: Seq<u64>,
    pub unfilled: nat,
}

/// Whether `id` is one of the innermost `count` groups of the stack `open`.
pub open spec fn among_last(open: Seq<u64>, count: nat, id: u64) -> bool {
    exists|j: int| 0 <= j < open.len() && open.len() - count <= j && #[trigger] open[j] == id
}

/// Whether the text of the group `id` may be empty where `texts` is known and the groups
/// `open` are open.
pub open spec fn may_be_empty(texts: Texts, open: Seq<u64>, id: u64) -> bool {
    texts.weak.contains(id) || among_last(open, texts.unfilled, id)
}

/// Whether the edge `t`, where it is taken, consumes a character: it asks for one, or
/// for the text of a group that holds a character.
pub open spec fn fills(t: TransitionModel, open: Seq<u64>, texts: Texts) -> bool {
    t.cond is Char || t.cond is AnyChar || t.cond is CharGroup || (t.cond is CaptureRef
        && !may_be_empty(texts, open, t.cond->CaptureRef_0))
}

/// Whether the edge `t` may be taken without consuming a token.
pub open spec fn slack(t: TransitionModel, open: Seq<u64>, texts: Texts) -> bool {
    t.cond is Epsilon || (t.cond is CaptureRef && may_be_empty(texts, open, t.cond->CaptureRef_0))
}

/// Whether the edge `t` agrees with what `texts` knows in its two states: no group
/// leaves `weak`; a character that the edge consumes fills every open group; a group
/// that the edge opens is unfilled; and a group that it closes unfilled is weak behind
/// it.
pub open spec fn edge_keeps_texts(
    t: TransitionModel,
    groups: spec_fn(u64) -> Seq<u64>,
    texts: spec_fn(u64) -> Texts,
) -> bool {
    let before = texts(t.from_state);
    let after = texts(t.to_state);
    let left = if fills(t, groups(t.from_state), before) {
        0
    } else {
        before.unfilled
    };
    &&& forall|id: u64| before.weak.contains(id) ==> #[trigger] after.weak.contains(id)
    &&& match t.capture_group_ins {
        CaptureGroupInstruction::Start(_) => after.unfilled >= left + 1,
        CaptureGroupInstruction::End(id) => (left > 0 ==> after.weak.contains(id))
            && after.unfilled + 1 >= left,
        CaptureGroupInstruction::Keep => after.unfilled >= left,
    }
}

/// Whether every edge of the graph agrees with `texts`.
pub open spec fn texts_kept(
    graph: Seq<TransitionModel>,
    groups: spec_fn(u64) -> Seq<u64>,
    texts: spec_fn(u64) -> Texts,
) -> bool {
    forall|i: int| 0 <= i < graph.len() ==> edge_keeps_texts(#[trigger] graph[i], groups, texts)
}

/// Whether a capturer holds what `texts` knows: every text of a group that may not be
/// empty holds a character.
pub open spec fn texts_fit(capturer: CapturerModel, texts: Texts) -> bool {
    forall|id: u64|
        capturer.captures.contains_key(id) && !may_be_empty(texts, capturer.currents, id)
            ==> (#[trigger] capturer.captures[id]).len() > 0
}

/// Whether the edge `t` agrees with the stacks of open groups that `groups` gives to its
/// two states: a group that it opens is not open in front of it and is the innermost
/// one behind it; a group that it closes is the innermost one in front of it and is
/// gone behind it; else the stack stays.
pub open spec fn edge_keeps_groups(t: TransitionModel, groups: spec_fn(u64) -> Seq<u64>) -> bool {
    match t.capture_group_ins {
        CaptureGroupInstruction::Start(id) => !groups(t.from_state).contains(id) && groups(
            t.to_state,
        ) == groups(t.from_state).push(id),
        CaptureGroupInstruction::End(id) => groups(t.from_state).len() > 0 && groups(
            t.from_state,
        ).last() == id && groups(t.to_state) == groups(t.from_state).drop_last(),
        CaptureGroupInstruction::Keep => groups(t.to_state) == groups(t.from_state),
    }
}

/// Whether `groups` gives every state of the graph the stack of groups that are open in
/// it: none in the start state and none in the end state, and every edge agrees.
pub open spec fn groups_balanced(graph: Seq<TransitionModel>, groups: spec_fn(u64) -> Seq<u64>)
    -> bool {
    &&& groups(START_STATE) == Seq::<u64>::empty()
    &&& groups(END_STATE) == Seq::<u64>::empty()
    &&& forall|i: int| 0 <= i < graph.len() ==> edge_keeps_groups(#[trigger] graph[i], groups)
}

/// Whether `rank` falls along every edge of the graph that has no cap and may be taken
/// without consuming a token: then every round trip in the graph consumes a token or
/// takes a capped edge.
pub open spec fn ranks_fall(
    graph: Seq<TransitionModel>,
    groups: spec_fn(u64) -> Seq<u64>,
    texts: spec_fn(u64) -> Texts,
    rank: spec_fn(u64) -> nat,
) -> bool {
    forall|i: int|
        0 <= i < graph.len() && (#[trigger] graph[i]).max_use is None && slack(
            graph[i],
            groups(graph[i].from_state),
            texts(graph[i].from_state),
        ) ==> rank(graph[i].to_state) < rank(graph[i].from_state)
}

/// Whether a branch stands inside the stream, holds the groups of its state, and holds
/// what is known of the texts there.
pub open spec fn frame_fits(
    frame: FrameModel,
    len: int,
    groups: spec_fn(u64) -> Seq<u64>,
    texts: spec_fn(u64) -> Texts,
) -> bool {
    &&& 0 <= frame.pos <= len
    &&& frame.capturer.wf()
    &&& frame.capturer.currents == groups(frame.state)
    &&& texts_fit(frame.capturer, texts(frame.state))
}

/// How many more times the capped edges of the graph can be taken, given how often
/// the capped edges out of each state were taken.
pub open spec fn budget(graph: Seq<TransitionModel>, visits: Map<u64, u64>) -> nat
    decreases graph.len(),
{
    if graph.len() == 0 {
        0
    } else {
        budget(graph.drop_last(), visits) + edge_budget(graph.last(), visits)
    }
}

/// How many more times the edge `t` can be taken.
pub open spec fn edge_budget(t: TransitionModel, visits: Map<u64, u64>) -> nat {
    match t.max_use {
        Some(cap) => if visits_of(visits, t.from_state) < cap {
            (cap - visits_of(visits, t.from_state)) as nat
        } else {
            0
        },
        None => 0,
    }
}

/// Whether no count of `before` is larger than in `after`.
pub open spec fn visits_grow(before: Map<u64, u64>, after: Map<u64, u64>) -> bool {
    forall|state: u64| visits_of(before, state) <= #[trigger] visits_of(after, state)
}

/// Where the counts grow, the budget does not.
pub proof fn lemma_budget_shrinks(
    graph: Seq<TransitionModel>,
    before: Map<u64, u64>,
    after: Map<u64, u64>,
)
    requires
        visits_grow(before, after),
    ensures
        budget(graph, after) <= budget(graph, before),
    decreases graph.len(),
{
    if graph.len() > 0 {
        lemma_budget_shrinks(graph.drop_last(), before, after);
        assert(visits_of(before, graph.last().from_state) <= visits_of(
            after,
            graph.last().from_state,
        ));
    }
}

/// Taking a capped edge that is not used up costs budget.
pub proof fn lemma_budget_spent(graph: Seq<TransitionModel>, visits: Map<u64, u64>, i: int)
    requires
        0 <= i < graph.len(),
        graph[i].max_use is Some,
        visits_of(visits, graph[i].from_state) < graph[i].max_use->0,
    ensures
        budget(
            graph,
            visits.insert(
                graph[i].from_state,
                (visits_of(visits, graph[i].from_state) + 1) as u64,
            ),
        ) < budget(graph, visits),
    decreases graph.len(),
{
    let state = graph[i].from_state;
    let after = visits.insert(state, (visits_of(visits, state) + 1) as u64);
    assert(visits_grow(visits, after));
    if i == graph.len() - 1 {
        lemma_budget_shrinks(graph.drop_last(), visits, after);
    } else {
        lemma_budget_spent(graph.drop_last(), visits, i);
        assert(visits_of(visits, graph.last().from_state) <= visits_of(
            after,
            graph.last().from_state,
        ));
    }
}

/// Every available transition is an edge of the graph that leaves the state.
pub proof fn lemma_available_are_edges(graph: Seq<TransitionModel>, state: u64)
    ensures
        forall|j: int|
            0 <= j < available(graph, state).len() ==> (#[trigger] available(
                graph,
                state,
            )[j]).from_state == state && exists|i: int|
                0 <= i < graph.len() && graph[i] == available(graph, state)[j],
    decreases graph.len(),
{
    if graph.len() > 0 {
        let front = graph.drop_last();
        lemma_available_are_edges(front, state);
        let rest = available(front, state);
        let all = available(graph, state);
        assert forall|j: int| 0 <= j < all.len() implies (#[trigger] all[j]).from_state == state
            && exists|i: int| 0 <= i < graph.len() && graph[i] == all[j] by {
            if j < rest.len() {
                assert(all[j] == rest[j]);
                let w = choose|w: int| 0 <= w < front.len() && front[w] == rest[j];
                assert(graph[w] == all[j]);
            } else {
                assert(graph[graph.len() - 1] == all[j]);
            }
        }
    }
}

/// A condition that always consumes something consumes exactly one token.
pub proof fn lemma_consuming_conditions(
    cond: CondModel,
    tokens: Seq<Token>,
    texts: Map<u64, Seq<char>>,
)
    ensures
        cond_match(cond, tokens, texts) matches MatchResult::Match(step) ==> step <= tokens.len()
            && (!may_consume_nothing(cond) ==> step == 1),
{
}

/// Whether the branch `child` is a step forward from the branch `frame`: it fits, it
/// stands no earlier in the stream, and either budget was spent, or it stands later,
/// or its state has a lower rank.
pub open spec fn steps_forward(
    graph: Seq<TransitionModel>,
    len: int,
    groups: spec_fn(u64) -> Seq<u64>,
    texts: spec_fn(u64) -> Texts,
    rank: spec_fn(u64) -> nat,
    frame: FrameModel,
    before: Map<u64, u64>,
    child: FrameModel,
    after: Map<u64, u64>,
) -> bool {
    &&& frame_fits(child, len, groups, texts)
    &&& frame.pos <= child.pos
    &&& (budget(graph, after) < budget(graph, before) || frame.pos < child.pos || rank(child.state)
        < rank(frame.state))
}

/// What holds behind the edges that a fitting branch has tried.
pub open spec fn tried_well(
    graph: Seq<TransitionModel>,
    len: int,
    groups: spec_fn(u64) -> Seq<u64>,
    texts: spec_fn(u64) -> Texts,
    rank: spec_fn(u64) -> nat,
    frame: FrameModel,
    before: SearchModel,
    after: SearchModel,
) -> bool {
    &&& before.stack.len() <= after.stack.len()
    &&& after.stack.subrange(0, before.stack.len() as int) == before.stack
    &&& visits_grow(before.visits, after.visits)
    &&& forall|k: int|
        before.stack.len() <= k < after.stack.len() ==> steps_forward(
            graph,
            len,
            groups,
            texts,
            rank,
            frame,
            before.visits,
            #[trigger] after.stack[k],
            after.visits,
        )
}

/// What a capturer holds behind an edge of a balanced graph: the edge's instruction can
/// be carried out, and the capturer then holds the groups of the state behind the edge.
pub proof fn lemma_after_edge(
    capturer: CapturerModel,
    consumed: Seq<Token>,
    tr: TransitionModel,
    groups: spec_fn(u64) -> Seq<u64>,
)
    requires
        capturer.wf(),
        capturer.currents == groups(tr.from_state),
        edge_keeps_groups(tr, groups),
    ensures
        after_edge(capturer, consumed, tr) is Some,
        after_edge(capturer, consumed, tr)->0.wf(),
        after_edge(capturer, consumed, tr)->0.currents == groups(tr.to_state),
{
    let fed = capturer.push(consumed);
    assert(fed.wf());
    match tr.capture_group_ins {
        CaptureGroupInstruction::Start(id) => {
            let out = fed.start(id);
            assert forall|i: int, j: int|
                0 <= i < out.currents.len() && 0 <= j < out.currents.len() && i
                    != j implies out.currents[i] != out.currents[j] by {
                if i == fed.currents.len() {
                    assert(fed.currents[j] != id);
                } else if j == fed.currents.len() {
                    assert(fed.currents[i] != id);
                }
            }
            assert forall|i: int| 0 <= i < out.currents.len() implies out.captures.contains_key(
                #[trigger] out.currents[i],
            ) by {
                if i < fed.currents.len() {
                    assert(fed.captures.contains_key(fed.currents[i]));
                }
            }
        },
        CaptureGroupInstruction::End(id) => {
            let out = fed.end();
            assert forall|i: int| 0 <= i < out.currents.len() implies out.captures.contains_key(
                #[trigger] out.currents[i],
            ) by {
                assert(fed.captures.contains_key(fed.currents[i]));
            }
        },
        CaptureGroupInstruction::Keep => {},
    }
}

/// Where an edge that consumes a character is taken, the tokens that it consumes hold a
/// character.
pub proof fn lemma_filling_edge(
    tr: TransitionModel,
    rest: Seq<Token>,
    capturer: CapturerModel,
    texts: Texts,
)
    requires
        texts_fit(capturer, texts),
        fills(tr, capturer.currents, texts),
        cond_match(tr.cond, rest, capturer.captures) is Match,
        rest.len() <= usize::MAX,
    ensures
        cond_match(tr.cond, rest, capturer.captures)->Match_0 >= 1,
        cond_match(tr.cond, rest, capturer.captures)->Match_0 <= rest.len(),
        chars_of(
            rest.subrange(0, cond_match(tr.cond, rest, capturer.captures)->Match_0 as int),
        ).len() > 0,
{
    let step = cond_match(tr.cond, rest, capturer.captures)->Match_0 as int;
    lemma_consuming_conditions(tr.cond, rest, capturer.captures);
    if tr.cond is CaptureRef {
        let id = tr.cond->CaptureRef_0;
        assert(capturer.captures[id].len() > 0);
        assert(rest[step - 1] == Token::Char(capturer.captures[id][step - 1]));
    }
    let consumed = rest.subrange(0, step);
    assert(consumed.last() == rest[step - 1]);
    assert(consumed.last() is Char);
}

/// What a capturer holds behind an edge that agrees with what is known of the texts:
/// what is known in the state behind the edge.
pub proof fn lemma_texts_after_edge(
    capturer: CapturerModel,
    consumed: Seq<Token>,
    tr: TransitionModel,
    groups: spec_fn(u64) -> Seq<u64>,
    texts: spec_fn(u64) -> Texts,
)
    requires
        capturer.wf(),
        capturer.currents == groups(tr.from_state),
        edge_keeps_groups(tr, groups),
        edge_keeps_texts(tr, groups, texts),
        texts_fit(capturer, texts(tr.from_state)),
        fills(tr, groups(tr.from_state), texts(tr.from_state)) ==> chars_of(consumed).len() > 0,
    ensures
        after_edge(capturer, consumed, tr) is Some,
        texts_fit(after_edge(capturer, consumed, tr)->0, texts(tr.to_state)),
{
    lemma_after_edge(capturer, consumed, tr, groups);
    let before = texts(tr.from_state);
    let after = texts(tr.to_state);
    let fed = capturer.push(consumed);
    let out = after_edge(capturer, consumed, tr)->0;
    let filled = fills(tr, groups(tr.from_state), before);
    let left: nat = if filled {
        0
    } else {
        before.unfilled
    };
    let mid = Texts { weak: before.weak, unfilled: left };
    let len = fed.currents.len() as int;
    assert forall|id: u64|
        fed.captures.contains_key(id) && !may_be_empty(mid, fed.currents, id) implies (
    #[trigger] fed.captures[id]).len() > 0 by {
        if capturer.currents.contains(id) {
            if !filled {
                assert(!may_be_empty(before, capturer.currents, id));
                assert(capturer.captures[id].len() > 0);
            }
        } else {
            if among_last(capturer.currents, before.unfilled, id) {
                let j = choose|j: int|
                    0 <= j < capturer.currents.len() && capturer.currents.len()
                        - before.unfilled <= j && #[trigger] capturer.currents[j] == id;
                assert(capturer.currents.contains(id));
            }
            assert(!may_be_empty(before, capturer.currents, id));
            assert(capturer.captures[id].len() > 0);
        }
    }
    assert forall|id: u64|
        out.captures.contains_key(id) && !may_be_empty(after, out.currents, id) implies (
    #[trigger] out.captures[id]).len() > 0 by {
        assert(before.weak.contains(id) ==> after.weak.contains(id));
        match tr.capture_group_ins {
            CaptureGroupInstruction::Start(opened) => {
                if id == opened {
                    assert(out.currents[len] == id);
                    assert(among_last(out.currents, after.unfilled, id));
                } else {
                    if among_last(fed.currents, left, id) {
                        let j = choose|j: int|
                            0 <= j < fed.currents.len() && fed.currents.len() - left <= j
                                && #[trigger] fed.currents[j] == id;
                        assert(out.currents[j] == id);
                        assert(among_last(out.currents, after.unfilled, id));
                    }
                    assert(out.captures[id] == fed.captures[id]);
                    assert(!may_be_empty(mid, fed.currents, id));
                }
            },
            CaptureGroupInstruction::End(closed) => {
                if among_last(fed.currents, left, id) {
                    let j = choose|j: int|
                        0 <= j < fed.currents.len() && fed.currents.len() - left <= j
                            && #[trigger] fed.currents[j] == id;
                    if j == len - 1 {
                        assert(id == closed);
                        assert(left > 0);
                    } else {
                        assert(out.currents[j] == id);
                        assert(among_last(out.currents, after.unfilled, id));
                    }
                }
                assert(!may_be_empty(mid, fed.currents, id));
            },
            CaptureGroupInstruction::Keep => {
                if among_last(fed.currents, left, id) {
                    let j = choose|j: int|
                        0 <= j < fed.currents.len() && fed.currents.len() - left <= j
                            && #[trigger] fed.currents[j] == id;
                    assert(out.currents[j] == id);
                    assert(among_last(out.currents, after.unfilled, id));
                }
                assert(!may_be_empty(mid, fed.currents, id));
            },
        }
    }
}

/// Behind one edge that a fitting branch has tried, the search holds at most one more
/// branch, which is a step forward.
pub proof fn lemma_try_transition(
    graph: Seq<TransitionModel>,
    tokens: Seq<Token>,
    groups: spec_fn(u64) -> Seq<u64>,
    texts: spec_fn(u64) -> Texts,
    rank: spec_fn(u64) -> nat,
    frame: FrameModel,
    i: int,
    search: SearchModel,
)
    requires
        groups_balanced(graph, groups),
        texts_kept(graph, groups, texts),
        tokens.len() <= usize::MAX,
        ranks_fall(graph, groups, texts, rank),
        frame_fits(frame, tokens.len() as int, groups, texts),
        0 <= i < graph.len(),
        graph[i].from_state == frame.state,
    ensures
        try_transition(graph, tokens, frame, graph[i], search) is Some,
        tried_well(
            graph,
            tokens.len() as int,
            groups,
            texts,
            rank,
            frame,
            search,
            try_transition(graph, tokens, frame, graph[i], search)->0,
        ),
{
    let tr = graph[i];
    let used = visits_of(search.visits, frame.state);
    let rest = tokens.subrange(frame.pos, tokens.len() as int);
    lemma_consuming_conditions(tr.cond, rest, frame.capturer.captures);
    assert(edge_keeps_groups(tr, groups));
    assert(edge_keeps_texts(tr, groups, texts));
    if tr.max_use is Some && used >= tr.max_use->0 {
        let after = try_transition(graph, tokens, frame, tr, search)->0;
        assert(after.stack.subrange(0, search.stack.len() as int) =~= search.stack);
    } else {
        match cond_match(tr.cond, rest, frame.capturer.captures) {
            MatchResult::NoMatch => {
                let after = try_transition(graph, tokens, frame, tr, search)->0;
                assert(after.stack.subrange(0, search.stack.len() as int) =~= search.stack);
            },
            MatchResult::Match(step) => {
                let consumed = tokens.subrange(frame.pos, frame.pos + step);
                lemma_after_edge(frame.capturer, consumed, tr, groups);
                if fills(tr, groups(frame.state), texts(frame.state)) {
                    lemma_filling_edge(tr, rest, frame.capturer, texts(frame.state));
                    assert(consumed =~= rest.subrange(0, step as int));
                }
                lemma_texts_after_edge(frame.capturer, consumed, tr, groups, texts);
                let after = try_transition(graph, tokens, frame, tr, search)->0;
                assert(after.stack.subrange(0, search.stack.len() as int) =~= search.stack);
                if tr.max_use is Some {
                    lemma_budget_spent(graph, search.visits, i);
                    assert(visits_grow(search.visits, after.visits));
                }
                let child = after.stack[search.stack.len() as int];
                assert(steps_forward(
                    graph,
                    tokens.len() as int,
                    groups,
                    texts,
                    rank,
                    frame,
                    search.visits,
                    child,
                    after.visits,
                ));
            },
        }
    }
}

/// Behind the edges that a fitting branch has tried, the search holds the branches it
/// held before and, on top of them, branches that are a step forward.
pub proof fn lemma_try_transitions(
    graph: Seq<TransitionModel>,
    tokens: Seq<Token>,
    groups: spec_fn(u64) -> Seq<u64>,
    texts: spec_fn(u64) -> Texts,
    rank: spec_fn(u64) -> nat,
    frame: FrameModel,
    exits: Seq<TransitionModel>,
    count: int,
    search: SearchModel,
)
    requires
        groups_balanced(graph, groups),
        texts_kept(graph, groups, texts),
        tokens.len() <= usize::MAX,
        ranks_fall(graph, groups, texts, rank),
        frame_fits(frame, tokens.len() as int, groups, texts),
        0 <= count <= exits.len(),
        forall|j: int|
            0 <= j < exits.len() ==> (#[trigger] exits[j]).from_state == frame.state
                && exists|i: int| 0 <= i < graph.len() && graph[i] == exits[j],
    ensures
        try_transitions(graph, tokens, frame, exits, count, search) is Some,
        tried_well(
            graph,
            tokens.len() as int,
            groups,
            texts,
            rank,
            frame,
            search,
            try_transitions(graph, tokens, frame, exits, count, search)->0,
        ),
    decreases count,
{
    let len = tokens.len() as int;
    if count <= 0 {
        assert(search.stack.subrange(0, search.stack.len() as int) =~= search.stack);
    } else {
        let tr = exits[count - 1];
        let i = choose|i: int| 0 <= i < graph.len() && graph[i] == tr;
        lemma_try_transition(graph, tokens, groups, texts, rank, frame, i, search);
        let mid = try_transition(graph, tokens, frame, tr, search)->0;
        lemma_try_transitions(graph, tokens, groups, texts, rank, frame, exits, count - 1, mid);
        let after = try_transitions(graph, tokens, frame, exits, count - 1, mid)->0;
        lemma_budget_shrinks(graph, search.visits, mid.visits);
        lemma_budget_shrinks(graph, mid.visits, after.visits);
        assert(after.stack.subrange(0, search.stack.len() as int) =~= search.stack) by {
            assert(after.stack.subrange(0, mid.stack.len() as int) == mid.stack);
            assert(mid.stack.subrange(0, search.stack.len() as int) == search.stack);
            assert forall|k: int| 0 <= k < search.stack.len() implies after.stack[k]
                == search.stack[k] by {
                assert(after.stack.subrange(0, mid.stack.len() as int)[k] == after.stack[k]);
                assert(mid.stack.subrange(0, search.stack.len() as int)[k] == mid.stack[k]);
            }
        }
        assert forall|state: u64|
            visits_of(search.visits, state) <= #[trigger] visits_of(after.visits, state) by {
            assert(visits_of(search.visits, state) <= visits_of(mid.visits, state));
            assert(visits_of(mid.visits, state) <= visits_of(after.visits, state));
        }
        assert forall|k: int| search.stack.len() <= k < after.stack.len() implies steps_forward(
            graph,
            len,
            groups,
            texts,
            rank,
            frame,
            search.visits,
            #[trigger] after.stack[k],
            after.visits,
        ) by {
            if k < mid.stack.len() {
                assert(after.stack.subrange(0, mid.stack.len() as int)[k] == after.stack[k]);
                assert(steps_forward(
                    graph,
                    len,
                    groups,
                    texts,
                    rank,
                    frame,
                    search.visits,
                    mid.stack[k],
                    mid.visits,
                ));
            } else {
                assert(steps_forward(
                    graph,
                    len,
                    groups,
                    texts,
                    rank,
                    frame,
                    mid.visits,
                    after.stack[k],
                    after.visits,
                ));
            }
        }
    }
}

/// What exploring some branches on top of a stack comes to: after `fuel` steps either
/// the end state was found in front of the token `found`, or the branches are used up
/// and the search goes on below them with these counts and this loop id.
pub struct Explored {
    pub fuel: nat,
    pub found: Option<int>,
    pub visits: Map<u64, u64>,
    pub next_loop_id: u64,
}

/// How the search ends where it takes at most `fuel + extra` steps.
pub open spec fn run_with(
    graph: Seq<TransitionModel>,
    tokens: Seq<Token>,
    search: SearchModel,
    fuel: nat,
    extra: nat,
) -> Option<SearchOutcome> {
    search_run(graph, tokens, search, fuel + extra)
}

/// Whether `result` says what the search `before` comes to once the branches above the
/// stack `below` are explored.
pub open spec fn explores(
    graph: Seq<TransitionModel>,
    tokens: Seq<Token>,
    before: SearchModel,
    below: Seq<FrameModel>,
    result: Explored,
) -> bool {
    match result.found {
        Some(end) => forall|extra: nat| #[trigger]
            run_with(graph, tokens, before, result.fuel, extra) == Some(SearchOutcome::Found(end)),
        None => {
            &&& visits_grow(before.visits, result.visits)
            &&& forall|extra: nat| #[trigger]
                run_with(graph, tokens, before, result.fuel, extra) == search_run(
                    graph,
                    tokens,
                    SearchModel {
                        stack: below,
                        visits: result.visits,
                        next_loop_id: result.next_loop_id,
                    },
                    extra,
                )
        },
    }
}

/// Whether the branch `child` under the counts `visits` lies below the bound: in the
/// order by budget, then by tokens left, then by rank.
pub open spec fn below_bound(
    graph: Seq<TransitionModel>,
    len: int,
    rank: spec_fn(u64) -> nat,
    visits: Map<u64, u64>,
    child: FrameModel,
    budget_bound: nat,
    left_bound: nat,
    rank_bound: nat,
) -> bool {
    ||| budget(graph, visits) < budget_bound
    ||| (budget(graph, visits) <= budget_bound && len - child.pos < left_bound)
    ||| (budget(graph, visits) <= budget_bound && len - child.pos <= left_bound && rank(
        child.state,
    ) < rank_bound)
}

/// In a balanced graph whose ranks fall, exploring a fitting branch comes to an end.
pub proof fn lemma_explore_frame(
    graph: Seq<TransitionModel>,
    tokens: Seq<Token>,
    groups: spec_fn(u64) -> Seq<u64>,
    texts: spec_fn(u64) -> Texts,
    rank: spec_fn(u64) -> nat,
    below: Seq<FrameModel>,
    frame: FrameModel,
    visits: Map<u64, u64>,
    next_loop_id: u64,
) -> (result: Explored)
    requires
        groups_balanced(graph, groups),
        texts_kept(graph, groups, texts),
        tokens.len() <= usize::MAX,
        ranks_fall(graph, groups, texts, rank),
        frame_fits(frame, tokens.len() as int, groups, texts),
    ensures
        explores(
            graph,
            tokens,
            SearchModel { stack: below.push(frame), visits, next_loop_id },
            below,
            result,
        ),
    decreases budget(graph, visits), tokens.len() - frame.pos, rank(frame.state), 1nat, 0nat,
{
    let before = SearchModel { stack: below.push(frame), visits, next_loop_id };
    if frame.state == END_STATE {
        let result = Explored { fuel: 0, found: Some(frame.pos), visits, next_loop_id };
        assert forall|extra: nat| #[trigger]
            run_with(graph, tokens, before, 0, extra) == Some(
                SearchOutcome::Found(frame.pos),
            ) by {}
        result
    } else {
        let exits = available(graph, frame.state);
        let popped = SearchModel { stack: below, visits, next_loop_id };
        assert(before.stack.drop_last() =~= below);
        lemma_available_are_edges(graph, frame.state);
        lemma_try_transitions(
            graph,
            tokens,
            groups,
            texts,
            rank,
            frame,
            exits,
            exits.len() as int,
            popped,
        );
        let after = try_transitions(graph, tokens, frame, exits, exits.len() as int, popped)->0;
        assert(search_step(graph, tokens, before) == Some(after));
        let children = after.stack.subrange(below.len() as int, after.stack.len() as int);
        assert(after.stack =~= below + children) by {
            assert(after.stack.subrange(0, below.len() as int) == below);
            assert forall|k: int| 0 <= k < below.len() implies after.stack[k] == below[k] by {
                assert(after.stack.subrange(0, below.len() as int)[k] == after.stack[k]);
            }
        }
        lemma_budget_shrinks(graph, visits, after.visits);
        let len = tokens.len() as int;
        assert forall|k: int| 0 <= k < children.len() implies frame_fits(
            #[trigger] children[k],
            len,
            groups,
            texts,
        ) && below_bound(
            graph,
            len,
            rank,
            after.visits,
            children[k],
            budget(graph, visits),
            (len - frame.pos) as nat,
            rank(frame.state),
        ) by {
            assert(steps_forward(
                graph,
                len,
                groups,
                texts,
                rank,
                frame,
                visits,
                after.stack[below.len() + k],
                after.visits,
            ));
        }
        let inner = lemma_explore_frames(
            graph,
            tokens,
            groups,
            texts,
            rank,
            below,
            children,
            after.visits,
            after.next_loop_id,
            budget(graph, visits),
            (len - frame.pos) as nat,
            rank(frame.state),
        );
        let result = Explored { fuel: inner.fuel + 1, ..inner };
        let mid = SearchModel {
            stack: below + children,
            visits: after.visits,
            next_loop_id: after.next_loop_id,
        };
        assert(mid == after);
        assert forall|extra: nat|
            run_with(graph, tokens, before, result.fuel, extra) == #[trigger] run_with(
                graph,
                tokens,
                mid,
                inner.fuel,
                extra,
            ) by {
            assert(search_run(graph, tokens, before, (inner.fuel + 1 + extra) as nat)
                == search_run(graph, tokens, after, (inner.fuel + extra) as nat));
        }
        if inner.found is None {
            assert forall|state: u64|
                visits_of(visits, state) <= #[trigger] visits_of(inner.visits, state) by {
                assert(visits_of(visits, state) <= visits_of(after.visits, state));
                assert(visits_of(after.visits, state) <= visits_of(inner.visits, state));
            }
            assert forall|extra: nat| #[trigger]
                run_with(graph, tokens, before, result.fuel, extra) == search_run(
                    graph,
                    tokens,
                    SearchModel {
                        stack: below,
                        visits: result.visits,
                        next_loop_id: result.next_loop_id,
                    },
                    extra,
                ) by {
                assert(run_with(graph, tokens, before, result.fuel, extra) == run_with(
                    graph,
                    tokens,
                    mid,
                    inner.fuel,
                    extra,
                ));
            }
        } else {
            assert forall|extra: nat| #[trigger]
                run_with(graph, tokens, before, result.fuel, extra) == Some(
                    SearchOutcome::Found(inner.found->0),
                ) by {
                assert(run_with(graph, tokens, before, result.fuel, extra) == run_with(
                    graph,
                    tokens,
                    mid,
                    inner.fuel,
                    extra,
                ));
            }
        }
        result
    }
}

/// In a balanced graph whose ranks fall, exploring fitting branches that lie below a
/// bound comes to an end.
pub proof fn lemma_explore_frames(
    graph: Seq<TransitionModel>,
    tokens: Seq<Token>,
    groups: spec_fn(u64) -> Seq<u64>,
    texts: spec_fn(u64) -> Texts,
    rank: spec_fn(u64) -> nat,
    below: Seq<FrameModel>,
    children: Seq<FrameModel>,
    visits: Map<u64, u64>,
    next_loop_id: u64,
    budget_bound: nat,
    left_bound: nat,
    rank_bound: nat,
) -> (result: Explored)
    requires
        groups_balanced(graph, groups),
        texts_kept(graph, groups, texts),
        tokens.len() <= usize::MAX,
        ranks_fall(graph, groups, texts, rank),
        forall|k: int|
            0 <= k < children.len() ==> frame_fits(
                #[trigger] children[k],
                tokens.len() as int,
                groups,
                texts,
            ) && below_bound(
                graph,
                tokens.len() as int,
                rank,
                visits,
                children[k],
                budget_bound,
                left_bound,
                rank_bound,
            ),
    ensures
        explores(
            graph,
            tokens,
            SearchModel { stack: below + children, visits, next_loop_id },
            below,
            result,
        ),
    decreases budget_bound, left_bound, rank_bound, 0nat, children.len(),
{
    let before = SearchModel { stack: below + children, visits, next_loop_id };
    let len = tokens.len() as int;
    if children.len() == 0 {
        let result = Explored { fuel: 0, found: None, visits, next_loop_id };
        assert(below + children =~= below);
        assert forall|extra: nat| #[trigger]
            run_with(graph, tokens, before, 0, extra) == search_run(
                graph,
                tokens,
                SearchModel { stack: below, visits, next_loop_id },
                extra,
            ) by {}
        result
    } else {
        let top = children.last();
        let rest = children.drop_last();
        assert(frame_fits(children[children.len() - 1], len, groups, texts));
        assert(below_bound(
            graph,
            len,
            rank,
            visits,
            children[children.len() - 1],
            budget_bound,
            left_bound,
            rank_bound,
        ));
        let first = lemma_explore_frame(
            graph,
            tokens,
            groups,
            texts,
            rank,
            below + rest,
            top,
            visits,
            next_loop_id,
        );
        assert((below + rest).push(top) =~= below + children);
        if first.found is Some {
            first
        } else {
            lemma_budget_shrinks(graph, visits, first.visits);
            assert forall|k: int| 0 <= k < rest.len() implies frame_fits(
                #[trigger] rest[k],
                len,
                groups,
                texts,
            ) && below_bound(
                graph,
                len,
                rank,
                first.visits,
                rest[k],
                budget_bound,
                left_bound,
                rank_bound,
            ) by {
                assert(rest[k] == children[k]);
                assert(below_bound(
                    graph,
                    len,
                    rank,
                    visits,
                    children[k],
                    budget_bound,
                    left_bound,
                    rank_bound,
                ));
            }
            let second = lemma_explore_frames(
                graph,
                tokens,
                groups,
                texts,
                rank,
                below,
                rest,
                first.visits,
                first.next_loop_id,
                budget_bound,
                left_bound,
                rank_bound,
            );
            let result = Explored { fuel: first.fuel + second.fuel, ..second };
            let mid = SearchModel {
                stack: below + rest,
                visits: first.visits,
                next_loop_id: first.next_loop_id,
            };
            assert forall|extra: nat|
                run_with(graph, tokens, before, result.fuel, extra) == #[trigger] run_with(
                    graph,
                    tokens,
                    mid,
                    second.fuel,
                    extra,
                ) by {
                assert(run_with(graph, tokens, before, first.fuel, second.fuel + extra)
                    == search_run(graph, tokens, mid, second.fuel + extra));
                assert(first.fuel + (second.fuel + extra) == first.fuel + second.fuel + extra);
            }
            if second.found is None {
                assert forall|state: u64|
                    visits_of(visits, state) <= #[trigger] visits_of(second.visits, state) by {
                    assert(visits_of(visits, state) <= visits_of(first.visits, state));
                    assert(visits_of(first.visits, state) <= visits_of(second.visits, state));
                }
                assert forall|extra: nat| #[trigger]
                    run_with(graph, tokens, before, result.fuel, extra) == search_run(
                        graph,
                        tokens,
                        SearchModel {
                            stack: below,
                            visits: result.visits,
                            next_loop_id: result.next_loop_id,
                        },
                        extra,
                    ) by {
                    assert(run_with(graph, tokens, before, result.fuel, extra) == run_with(
                        graph,
                        tokens,
                        mid,
                        second.fuel,
                        extra,
                    ));
                }
            } else {
                assert forall|extra: nat| #[trigger]
                    run_with(graph, tokens, before, result.fuel, extra) == Some(
                        SearchOutcome::Found(second.found->0),
                    ) by {
                    assert(run_with(graph, tokens, before, result.fuel, extra) == run_with(
                        graph,
                        tokens,
                        mid,
                        second.fuel,
                        extra,
                    ));
                }
            }
            result
        }
    }
}

/// In a balanced graph whose ranks fall, the search from every offset comes to an end.
pub proof fn lemma_search_completes(
    graph: Seq<TransitionModel>,
    tokens: Seq<Token>,
    groups: spec_fn(u64) -> Seq<u64>,
    texts: spec_fn(u64) -> Texts,
    rank: spec_fn(u64) -> nat,
    offset: int,
)
    requires
        groups_balanced(graph, groups),
        texts_kept(graph, groups, texts),
        tokens.len() <= usize::MAX,
        ranks_fall(graph, groups, texts, rank),
        0 <= offset <= tokens.len(),
    ensures
        search_completes(graph, tokens, offset),
{
    let start = search_start(offset);
    let frame = start.stack[0];
    assert(frame.capturer.wf());
    assert(frame.capturer.currents =~= groups(START_STATE));
    let result = lemma_explore_frame(
        graph,
        tokens,
        groups,
        texts,
        rank,
        Seq::empty(),
        frame,
        start.visits,
        start.next_loop_id,
    );
    assert(Seq::<FrameModel>::empty().push(frame) =~= start.stack);
    assert(run_with(graph, tokens, start, result.fuel, 0) is Some);
    assert(search_run(graph, tokens, start, result.fuel) is Some);
}

/// In a balanced graph whose ranks fall, every scan comes to an end.
pub proof fn lemma_scan_completes(
    graph: Seq<TransitionModel>,
    tokens: Seq<Token>,
    groups: spec_fn(u64) -> Seq<u64>,
    texts: spec_fn(u64) -> Texts,
    rank: spec_fn(u64) -> nat,
    offset: int,
)
    requires
        groups_balanced(graph, groups),
        texts_kept(graph, groups, texts),
        tokens.len() <= usize::MAX,
        ranks_fall(graph, groups, texts, rank),
    ensures
        scan_from(graph, tokens, offset) is Some,
    decreases tokens.len() - offset,
{
    if 0 <= offset < tokens.len() {
        lemma_search_completes(graph, tokens, groups, texts, rank, offset);
        match crate::search::search_outcome(graph, tokens, offset) {
            SearchOutcome::Found(end) => {
                let next = if end > offset + 1 {
                    end
                } else {
                    offset + 1
                };
                if next < tokens.len() {
                    lemma_scan_completes(graph, tokens, groups, texts, rank, next);
                }
            },
            SearchOutcome::Exhausted => {
                lemma_scan_completes(graph, tokens, groups, texts, rank, offset + 1);
            },
        }
    }
}

} // verus!
