//! What the anchors do to a scan: a pattern that starts with `^` matches only at the
//! start of a subject, one that ends with `$` only at its end.
use vstd::prelude::*;
use crate::ast::{
    AstModel,
    chain_between,
    chain_state_count,
    graph_between,
    graph_of_pattern,
    lemma_chain_next,
    lemma_graph_next,
    state_count,
};
use crate::common::{END_STATE, START_STATE};
use crate::cond::{CondModel, MatchResult, cond_match};
use crate::progress::lemma_available_are_edges;
use crate::search::{
    FrameModel,
    SearchModel,
    SearchOutcome,
    available,
    lemma_search_outcome,
    scan_from,
    search_completes,
    search_outcome,
    search_run,
    search_start,
    search_step,
    try_transition,
    try_transitions,
};
use crate::shape::{lemma_chain_within, lemma_graph_within};
use crate::token::{Token, tokens_of};
use crate::transition::TransitionModel;

verus! {

/// Whether every edge out of the start state asks for the sentinel at the start of the
/// stream.
pub open spec fn starts_anchored(graph: Seq<TransitionModel>) -> bool {
    forall|i: int|
        0 <= i < graph.len() && (#[trigger] graph[i]).from_state == START_STATE ==> graph[i].cond
            == CondModel::Start
}

/// Whether every edge into the end state asks for the sentinel at the end of the stream.
pub open spec fn ends_anchored(graph: Seq<TransitionModel>) -> bool {
    forall|i: int|
        0 <= i < graph.len() && (#[trigger] graph[i]).to_state == END_STATE ==> graph[i].cond
            == CondModel::End
}

/// Whether the stream holds the start sentinel at its first index and nowhere else, and
/// the end sentinel at its last index and nowhere else.
pub open spec fn sentinels_at_ends(tokens: Seq<Token>) -> bool {
    forall|i: int|
        0 <= i < tokens.len() ==> ((#[trigger] tokens[i]) == Token::Start <==> i == 0) && (
        tokens[i] == Token::End <==> i == tokens.len() - 1)
}

/// The token stream of a subject has its sentinels at its ends.
pub proof fn lemma_subject_sentinels(s: Seq<char>)
    ensures
        sentinels_at_ends(tokens_of(s)),
{
}

/// Edges that all ask for the start sentinel push nothing where the next token is not
/// that sentinel.
proof fn lemma_no_entry(
    graph: Seq<TransitionModel>,
    tokens: Seq<Token>,
    frame: FrameModel,
    exits: Seq<TransitionModel>,
    count: int,
    search: SearchModel,
)
    requires
        0 <= count <= exits.len(),
        0 <= frame.pos < tokens.len(),
        tokens[frame.pos] != Token::Start,
        forall|j: int| 0 <= j < exits.len() ==> (#[trigger] exits[j]).cond == CondModel::Start,
    ensures
        try_transitions(graph, tokens, frame, exits, count, search) is Some,
        try_transitions(graph, tokens, frame, exits, count, search)->0.stack == search.stack,
    decreases count,
{
    if count > 0 {
        let tr = exits[count - 1];
        let rest = tokens.subrange(frame.pos, tokens.len() as int);
        assert(rest[0] == tokens[frame.pos]);
        assert(cond_match(tr.cond, rest, frame.capturer.captures) == MatchResult::NoMatch);
        let next = try_transition(graph, tokens, frame, tr, search)->0;
        lemma_no_entry(graph, tokens, frame, exits, count - 1, next);
    }
}

/// With a graph that is anchored at the start, the search from an offset whose token is
/// not the start sentinel fails at once.
pub proof fn lemma_anchored_search_fails(
    graph: Seq<TransitionModel>,
    tokens: Seq<Token>,
    offset: int,
)
    requires
        starts_anchored(graph),
        0 <= offset < tokens.len(),
        tokens[offset] != Token::Start,
    ensures
        search_completes(graph, tokens, offset),
        search_outcome(graph, tokens, offset) == SearchOutcome::Exhausted,
{
    let start = search_start(offset);
    let frame = start.stack[0];
    let exits = available(graph, START_STATE);
    lemma_available_are_edges(graph, START_STATE);
    assert forall|j: int| 0 <= j < exits.len() implies (#[trigger] exits[j]).cond
        == CondModel::Start by {
        let i = choose|i: int| 0 <= i < graph.len() && graph[i] == exits[j];
        assert(graph[i].from_state == START_STATE);
    }
    let popped = SearchModel { stack: start.stack.drop_last(), ..start };
    lemma_no_entry(graph, tokens, frame, exits, exits.len() as int, popped);
    reveal_with_fuel(search_run, 2);
    assert(search_run(graph, tokens, start, 1) == Some(SearchOutcome::Exhausted));
    lemma_search_outcome(graph, tokens, offset, 1);
}

/// With a graph that is anchored at the start, a scan from behind the first token of a
/// stream with its sentinels at its ends reports nothing.
pub proof fn lemma_anchored_scan_behind_start(
    graph: Seq<TransitionModel>,
    tokens: Seq<Token>,
    offset: int,
)
    requires
        starts_anchored(graph),
        sentinels_at_ends(tokens),
        1 <= offset,
    ensures
        scan_from(graph, tokens, offset) == Some(Seq::<(usize, usize)>::empty()),
    decreases tokens.len() - offset,
{
    if offset < tokens.len() {
        assert(tokens[offset] != Token::Start);
        lemma_anchored_search_fails(graph, tokens, offset);
        lemma_anchored_scan_behind_start(graph, tokens, offset + 1);
    }
}

/// A pattern that is anchored at the start matches only at the start of the subject:
/// a scan reports at most one range, and that one starts at the first token.
pub proof fn lemma_start_anchor(graph: Seq<TransitionModel>, tokens: Seq<Token>)
    requires
        starts_anchored(graph),
        sentinels_at_ends(tokens),
        scan_from(graph, tokens, 0) is Some,
    ensures
        scan_from(graph, tokens, 0)->0.len() <= 1,
        forall|k: int|
            0 <= k < scan_from(graph, tokens, 0)->0.len() ==> (#[trigger] scan_from(
                graph,
                tokens,
                0,
            )->0[k]).0 == 0,
{
    if 0 < tokens.len() {
        match search_outcome(graph, tokens, 0) {
            SearchOutcome::Found(end) => {
                let next = if end > 1 {
                    end
                } else {
                    1
                };
                lemma_anchored_scan_behind_start(graph, tokens, next);
            },
            SearchOutcome::Exhausted => {
                lemma_anchored_scan_behind_start(graph, tokens, 1);
            },
        }
    }
}

/// Whether every branch of the stack that stands in the end state stands behind the
/// last token.
pub open spec fn ends_behind_last(stack: Seq<FrameModel>, len: int) -> bool {
    forall|k: int|
        0 <= k < stack.len() && (#[trigger] stack[k]).state == END_STATE ==> stack[k].pos == len
}

/// Edges of a graph that is anchored at the end put only such branches into the end
/// state as stand behind the last token.
proof fn lemma_entry_at_end(
    graph: Seq<TransitionModel>,
    tokens: Seq<Token>,
    frame: FrameModel,
    exits: Seq<TransitionModel>,
    count: int,
    search: SearchModel,
)
    requires
        ends_anchored(graph),
        sentinels_at_ends(tokens),
        0 <= count <= exits.len(),
        0 <= frame.pos <= tokens.len(),
        ends_behind_last(search.stack, tokens.len() as int),
        forall|j: int|
            0 <= j < exits.len() ==> exists|i: int|
                0 <= i < graph.len() && graph[i] == #[trigger] exits[j],
        try_transitions(graph, tokens, frame, exits, count, search) is Some,
    ensures
        ends_behind_last(
            try_transitions(graph, tokens, frame, exits, count, search)->0.stack,
            tokens.len() as int,
        ),
    decreases count,
{
    if count > 0 {
        let tr = exits[count - 1];
        let i = choose|i: int| 0 <= i < graph.len() && graph[i] == tr;
        assert(graph[i].to_state == END_STATE ==> graph[i].cond == CondModel::End);
        let rest = tokens.subrange(frame.pos, tokens.len() as int);
        let next = try_transition(graph, tokens, frame, tr, search)->0;
        assert forall|k: int|
            0 <= k < next.stack.len() && (#[trigger] next.stack[k]).state
                == END_STATE implies next.stack[k].pos == tokens.len() by {
            if k < search.stack.len() {
                assert(next.stack[k] == search.stack[k]);
            } else {
                assert(tr.to_state == END_STATE);
                assert(tr.cond == CondModel::End);
                assert(cond_match(tr.cond, rest, frame.capturer.captures) == MatchResult::Match(1));
                assert(rest.len() > 0);
                assert(rest[0] == tokens[frame.pos]);
                assert(tokens[frame.pos] == Token::End);
            }
        }
        lemma_entry_at_end(graph, tokens, frame, exits, count - 1, next);
    }
}

/// With a graph that is anchored at the end, a search finds the end state only behind
/// the last token.
pub proof fn lemma_anchored_run_ends(
    graph: Seq<TransitionModel>,
    tokens: Seq<Token>,
    search: SearchModel,
    fuel: nat,
)
    requires
        ends_anchored(graph),
        sentinels_at_ends(tokens),
        ends_behind_last(search.stack, tokens.len() as int),
        forall|k: int|
            0 <= k < search.stack.len() ==> 0 <= (#[trigger] search.stack[k]).pos <= tokens.len(),
    ensures
        search_run(graph, tokens, search, fuel) matches Some(SearchOutcome::Found(end)) ==> end
            == tokens.len(),
    decreases fuel,
{
    if search.stack.len() > 0 && search.stack.last().state != END_STATE && fuel > 0 {
        let frame = search.stack.last();
        let exits = available(graph, frame.state);
        let popped = SearchModel { stack: search.stack.drop_last(), ..search };
        lemma_available_are_edges(graph, frame.state);
        if search_step(graph, tokens, search) is Some {
            let next = search_step(graph, tokens, search)->0;
            assert forall|k: int|
                0 <= k < popped.stack.len() && (#[trigger] popped.stack[k]).state
                    == END_STATE implies popped.stack[k].pos == tokens.len() by {
                assert(popped.stack[k] == search.stack[k]);
            }
            lemma_entry_at_end(graph, tokens, frame, exits, exits.len() as int, popped);
            crate::walks::lemma_pushed_in_stream(
                graph,
                tokens,
                frame,
                exits,
                exits.len() as int,
                popped,
            );
            lemma_anchored_run_ends(graph, tokens, next, (fuel - 1) as nat);
        }
    } else if search.stack.len() > 0 && search.stack.last().state == END_STATE {
        assert(search.stack[search.stack.len() - 1].pos == tokens.len());
    }
}

/// A pattern that is anchored at the end matches only at the end of the subject: every
/// range that a scan from `offset` on reports ends behind the last token.
pub proof fn lemma_end_anchor(graph: Seq<TransitionModel>, tokens: Seq<Token>, offset: int)
    requires
        ends_anchored(graph),
        sentinels_at_ends(tokens),
        tokens.len() <= usize::MAX,
        0 <= offset,
        scan_from(graph, tokens, offset) is Some,
    ensures
        forall|k: int|
            0 <= k < scan_from(graph, tokens, offset)->0.len() ==> (#[trigger] scan_from(
                graph,
                tokens,
                offset,
            )->0[k]).1 == tokens.len(),
    decreases tokens.len() - offset,
{
    if offset < tokens.len() {
        let fuel = choose|fuel: nat| search_run(graph, tokens, search_start(offset), fuel) is Some;
        lemma_anchored_run_ends(graph, tokens, search_start(offset), fuel);
        match search_outcome(graph, tokens, offset) {
            SearchOutcome::Found(end) => {
                let next = if end > offset + 1 {
                    end
                } else {
                    offset + 1
                };
                let all = scan_from(graph, tokens, offset)->0;
                assert(all[0] == (offset as usize, end as usize));
                if next < tokens.len() {
                    lemma_end_anchor(graph, tokens, next);
                    let rest = scan_from(graph, tokens, next)->0;
                    assert forall|k: int| 0 <= k < all.len() implies (#[trigger] all[k]).1
                        == tokens.len() by {
                        if k > 0 {
                            assert(all[k] == rest[k - 1]);
                        }
                    }
                }
            },
            SearchOutcome::Exhausted => {
                lemma_end_anchor(graph, tokens, offset + 1);
            },
        }
    }
}

/// A pattern that is anchored at both ends matches the whole subject or nothing: a scan
/// reports no range, or the one range of all tokens.
pub proof fn lemma_both_anchors(graph: Seq<TransitionModel>, tokens: Seq<Token>)
    requires
        starts_anchored(graph),
        ends_anchored(graph),
        sentinels_at_ends(tokens),
        tokens.len() <= usize::MAX,
        scan_from(graph, tokens, 0) is Some,
    ensures
        scan_from(graph, tokens, 0)->0 == Seq::<(usize, usize)>::empty() || scan_from(
            graph,
            tokens,
            0,
        )->0 == seq![(0usize, tokens.len() as usize)],
{
    lemma_start_anchor(graph, tokens);
    lemma_end_anchor(graph, tokens, 0);
    let ranges = scan_from(graph, tokens, 0)->0;
    if ranges.len() == 1 {
        assert(ranges[0].0 == 0);
        assert(ranges[0].1 == tokens.len());
        assert(ranges =~= seq![(0usize, tokens.len() as usize)]);
    } else {
        assert(ranges =~= Seq::<(usize, usize)>::empty());
    }
}

/// The whole pattern whose top-level sequence is `items`.
pub open spec fn pattern_of(items: Seq<AstModel>) -> AstModel {
    AstModel::Root(Box::new(AstModel::Sequence(items)))
}

/// The graph of a pattern whose first item is `^` is anchored at the start.
pub proof fn lemma_leading_anchor(items: Seq<AstModel>)
    requires
        items.len() > 0,
        items[0] == AstModel::Start,
        2 + state_count(pattern_of(items)) <= u64::MAX,
    ensures
        starts_anchored(graph_of_pattern(pattern_of(items))),
{
    let sequence = AstModel::Sequence(items);
    assert(graph_between(pattern_of(items), START_STATE, END_STATE, 2) == graph_between(
        sequence,
        START_STATE,
        END_STATE,
        2,
    ));
    assert(state_count(pattern_of(items)) == state_count(sequence));
    let graph = chain_between(items, 0, START_STATE, END_STATE, 2).transitions;
    assert(graph_of_pattern(pattern_of(items)) == graph);
    let last = items.len() == 1;
    let to = if last {
        END_STATE
    } else {
        2u64
    };
    let next1 = if last {
        2int
    } else {
        3int
    };
    let first = graph_between(items[0], START_STATE, to, next1);
    let rest = chain_between(items, 1, to, END_STATE, first.next);
    assert(graph == first.transitions + rest.transitions);
    lemma_graph_next(items[0], START_STATE, to, next1);
    assert(state_count(sequence) == chain_state_count(items, 0));
    assert(chain_state_count(items, 0) == (if last {
        0nat
    } else {
        1nat
    }) + state_count(items[0]) + chain_state_count(items, 1));
    lemma_chain_next(items, 1, to, END_STATE, first.next);
    lemma_chain_within(items, 1, to, END_STATE, first.next);
    assert forall|i: int|
        0 <= i < graph.len() && (#[trigger] graph[i]).from_state == START_STATE implies graph[i].cond
        == CondModel::Start by {
        if i >= first.transitions.len() {
            assert(graph[i] == rest.transitions[i - first.transitions.len()]);
        }
    }
}

/// The graph of a chain whose last item is `$` is anchored at the end.
proof fn lemma_chain_ends_anchored(items: Seq<AstModel>, i: int, from: u64, next: int)
    requires
        0 <= i < items.len(),
        items[items.len() - 1] == AstModel::End,
        2 <= next,
        next + chain_state_count(items, i) <= u64::MAX,
    ensures
        ends_anchored(chain_between(items, i, from, END_STATE, next).transitions),
    decreases items.len() - i,
{
    let graph = chain_between(items, i, from, END_STATE, next).transitions;
    let last = i + 1 == items.len();
    if !last {
        let to = next as u64;
        let first = graph_between(items[i], from, to, next + 1);
        let rest = chain_between(items, i + 1, to, END_STATE, first.next);
        lemma_graph_next(items[i], from, to, next + 1);
        lemma_graph_within(items[i], from, to, next + 1);
        lemma_chain_ends_anchored(items, i + 1, to, first.next);
        assert forall|k: int|
            0 <= k < graph.len() && (#[trigger] graph[k]).to_state == END_STATE implies graph[k].cond
            == CondModel::End by {
            if k >= first.transitions.len() {
                assert(graph[k] == rest.transitions[k - first.transitions.len()]);
            } else {
                assert(graph[k] == first.transitions[k]);
            }
        }
    } else {
        let first = graph_between(items[i], from, END_STATE, next);
        let rest = chain_between(items, i + 1, END_STATE, END_STATE, first.next);
        assert(graph =~= first.transitions);
    }
}

/// The graph of a pattern whose last item is `$` is anchored at the end.
pub proof fn lemma_trailing_anchor(items: Seq<AstModel>)
    requires
        items.len() > 0,
        items[items.len() - 1] == AstModel::End,
        2 + state_count(pattern_of(items)) <= u64::MAX,
    ensures
        ends_anchored(graph_of_pattern(pattern_of(items))),
{
    let sequence = AstModel::Sequence(items);
    assert(graph_between(pattern_of(items), START_STATE, END_STATE, 2) == graph_between(
        sequence,
        START_STATE,
        END_STATE,
        2,
    ));
    assert(state_count(pattern_of(items)) == state_count(sequence));
    lemma_chain_ends_anchored(items, 0, START_STATE, 2);
}

/// A pattern that starts with `^` matches at most once, and from the first token on: a
/// scan of the token stream of a subject reports no range, or one range that starts
/// with the start sentinel.
pub proof fn lemma_start_anchored_pattern(items: Seq<AstModel>, subject: Seq<char>)
    requires
        items.len() > 0,
        items[0] == AstModel::Start,
        2 + state_count(pattern_of(items)) <= u64::MAX,
        scan_from(graph_of_pattern(pattern_of(items)), tokens_of(subject), 0) is Some,
    ensures
        ({
            let ranges = scan_from(graph_of_pattern(pattern_of(items)), tokens_of(subject), 0)->0;
            &&& ranges.len() <= 1
            &&& ranges.len() == 1 ==> ranges[0].0 == 0
        }),
{
    lemma_leading_anchor(items);
    lemma_subject_sentinels(subject);
    lemma_start_anchor(graph_of_pattern(pattern_of(items)), tokens_of(subject));
}

/// A pattern that ends with `$` matches up to the end of the subject alone: every range
/// that a scan of the token stream of a subject reports ends behind the end sentinel.
pub proof fn lemma_end_anchored_pattern(items: Seq<AstModel>, subject: Seq<char>)
    requires
        items.len() > 0,
        items[items.len() - 1] == AstModel::End,
        2 + state_count(pattern_of(items)) <= u64::MAX,
        subject.len() + 2 <= usize::MAX,
        scan_from(graph_of_pattern(pattern_of(items)), tokens_of(subject), 0) is Some,
    ensures
        ({
            let ranges = scan_from(graph_of_pattern(pattern_of(items)), tokens_of(subject), 0)->0;
            forall|k: int| 0 <= k < ranges.len() ==> (#[trigger] ranges[k]).1 == subject.len() + 2
        }),
{
    lemma_trailing_anchor(items);
    lemma_subject_sentinels(subject);
    lemma_end_anchor(graph_of_pattern(pattern_of(items)), tokens_of(subject), 0);
}

/// A pattern between `^` and `$` matches the whole subject or nothing: a scan of the
/// token stream of a subject reports no range, or the one range of all its tokens.
pub proof fn lemma_anchored_pattern(items: Seq<AstModel>, subject: Seq<char>)
    requires
        items.len() > 0,
        items[0] == AstModel::Start,
        items[items.len() - 1] == AstModel::End,
        2 + state_count(pattern_of(items)) <= u64::MAX,
        subject.len() + 2 <= usize::MAX,
        scan_from(graph_of_pattern(pattern_of(items)), tokens_of(subject), 0) is Some,
    ensures
        ({
            let ranges = scan_from(graph_of_pattern(pattern_of(items)), tokens_of(subject), 0)->0;
            ranges == Seq::<(usize, usize)>::empty() || ranges == seq![
                (0usize, (subject.len() + 2) as usize),
            ]
        }),
{
    lemma_leading_anchor(items);
    lemma_trailing_anchor(items);
    lemma_subject_sentinels(subject);
    lemma_both_anchors(graph_of_pattern(pattern_of(items)), tokens_of(subject));
}

} // verus!
