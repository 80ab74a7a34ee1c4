//! The meaning of `$` behind a pattern: the pattern matches an end of the subject.
use vstd::prelude::*;
use crate::anchors::{lemma_subject_sentinels, pattern_of};
use crate::ast::{
    AstModel,
    chain_between,
    chain_state_count,
    graph_between,
    graph_of_pattern,
    lemma_graph_next,
    state_count,
};
use crate::common::{END_STATE, START_STATE};
use crate::cond::CondModel;
use crate::prefix::{lemma_graph_cap_free, uncapped};
use crate::renaming::{
    renamed,
    lemma_graph_moves,
    lemma_renamed_add,
    lemma_renamed_same,
    lemma_walks_renamed,
    moved,
    names_apart,
    renamed_graph,
    renamed_place,
    states_known,
};
use crate::search::search_outcome;
use crate::searchable::{
    lemma_searchable_pattern_scans,
    lemma_searchable_pattern_searches,
    pattern_ranges,
    searchable,
};
use crate::shape::{lemma_chain_within, lemma_graph_within};
use crate::token::{Token, tokens_of};
use crate::transition::TransitionModel;
use crate::walks::{
    Place,
    lemma_cap_free_search_is_exact,
    lemma_scan_reports,
    lemma_single_edge_walk,
    lemma_walks_to_end,
    place_behind,
    spans,
    start_place,
    walks_to,
    walks_to_end,
};

verus! {

/// The number from which the fresh states of the last of `items[i..]` are numbered,
/// where those of the chain are numbered from `next`.
pub open spec fn last_item_next(items: Seq<AstModel>, i: int, next: int) -> int
    decreases items.len() - i,
{
    if i + 1 < items.len() && 0 <= i {
        last_item_next(items, i + 1, next + 1 + state_count(items[i]))
    } else {
        next
    }
}

/// The renaming that makes room for one state at `room`: the end state gets that
/// number, and the states from that number on get the next number each.
pub open spec fn lifted(room: int) -> spec_fn(u64) -> u64 {
    |state: u64|
        if state == END_STATE {
            room as u64
        } else if state >= room {
            (state + 1) as u64
        } else {
            state
        }
}

/// The edge that asks for the end sentinel, out of the state `from`.
pub open spec fn end_edge(from: int) -> TransitionModel {
    TransitionModel::on(from as u64, END_STATE, CondModel::End)
}

/// Where the fresh states of the last item are numbered from lies inside the chain.
pub proof fn lemma_last_item_next(items: Seq<AstModel>, i: int, next: int)
    requires
        0 <= i < items.len(),
    ensures
        next <= last_item_next(items, i, next),
        last_item_next(items, i, next) + state_count(items[items.len() - 1]) == next
            + chain_state_count(items, i),
    decreases items.len() - i,
{
    if i + 1 < items.len() {
        lemma_last_item_next(items, i + 1, next + 1 + state_count(items[i]));
    } else {
        assert(chain_state_count(items, i + 1) == 0);
    }
}

/// With `$` behind its items, a chain is the chain of the items with room made for one
/// state, and behind it the edge from that state that asks for the end sentinel.
pub proof fn lemma_chain_with_end_anchor(items: Seq<AstModel>, i: int, from: u64, next: int)
    requires
        0 <= i < items.len(),
        from != END_STATE,
        from < next,
        2 <= next,
        next + chain_state_count(items, i) + 1 <= u64::MAX,
    ensures
        chain_between(items + seq![AstModel::End], i, from, END_STATE, next).transitions
            == renamed_graph(
            chain_between(items, i, from, END_STATE, next).transitions,
            lifted(last_item_next(items, i, next)),
        ) + seq![end_edge(last_item_next(items, i, next))],
    decreases items.len() - i,
{
    let all = items + seq![AstModel::End];
    let room = last_item_next(items, i, next);
    let name = lifted(room);
    assert(all[i] == items[i]);
    assert(all.len() == items.len() + 1);
    lemma_last_item_next(items, i, next);
    if i + 1 == items.len() {
        // The last item: it ends in the fresh state instead of the end state.
        let to = next as u64;
        let plain = graph_between(items[i], from, END_STATE, next);
        let first = graph_between(items[i], from, to, next + 1);
        lemma_graph_moves(items[i], from, END_STATE, next, from, to, next + 1);
        lemma_graph_within(items[i], from, END_STATE, next);
        lemma_graph_next(items[i], from, END_STATE, next);
        lemma_graph_next(items[i], from, to, next + 1);
        lemma_renamed_same(
            plain.transitions,
            from,
            END_STATE,
            next,
            plain.next,
            moved(from, END_STATE, next, from, to, next + 1),
            name,
        );
        assert(all[i + 1] == AstModel::End);
        let last = chain_between(all, i + 1, to, END_STATE, first.next);
        assert(chain_between(all, i + 2, END_STATE, END_STATE, first.next).transitions
            =~= Seq::<TransitionModel>::empty());
        assert(graph_between(all[i + 1], to, END_STATE, first.next).transitions =~= seq![
            end_edge(room),
        ]);
        assert(last.transitions =~= seq![end_edge(room)]);
        assert(chain_between(items, i + 1, END_STATE, END_STATE, plain.next).transitions
            =~= Seq::<TransitionModel>::empty());
        assert(chain_between(items, i, from, END_STATE, next).transitions =~= plain.transitions);
        assert(chain_between(all, i, from, END_STATE, next).transitions =~= first.transitions
            + seq![end_edge(room)]);
    } else {
        let to = next as u64;
        let first = graph_between(items[i], from, to, next + 1);
        lemma_graph_within(items[i], from, to, next + 1);
        lemma_graph_next(items[i], from, to, next + 1);
        let rest = chain_between(items, i + 1, to, END_STATE, first.next);
        lemma_chain_with_end_anchor(items, i + 1, to, first.next);
        lemma_last_item_next(items, i + 1, first.next);
        // The states of the first item keep their names.
        assert(renamed_graph(first.transitions, name) =~= first.transitions) by {
            assert forall|k: int| 0 <= k < first.transitions.len() implies #[trigger] renamed(
                first.transitions[k],
                name,
            ) == first.transitions[k] by {}
        }
        lemma_renamed_add(first.transitions, rest.transitions, name);
        assert(chain_between(items, i, from, END_STATE, next).transitions =~= first.transitions
            + rest.transitions);
        assert(chain_between(all, i, from, END_STATE, next).transitions =~= first.transitions
            + chain_between(all, i + 1, to, END_STATE, first.next).transitions);
        assert(chain_between(all, i, from, END_STATE, next).transitions =~= renamed_graph(
            chain_between(items, i, from, END_STATE, next).transitions,
            name,
        ) + seq![end_edge(room)]);
    }
}

/// Where the edge that asks for the end sentinel is the only way into the end state, and
/// nothing leads out of the end state, a walk leads to the end state exactly where one
/// leads, without that edge, to the state of the edge in front of the end sentinel.
pub proof fn lemma_walks_through_end_edge(
    inner: Seq<TransitionModel>,
    from: int,
    tokens: Seq<Token>,
    place: Place,
    end: int,
    steps: nat,
)
    requires
        0 <= from <= u64::MAX,
        from != END_STATE,
        place.state != END_STATE,
        0 <= place.pos <= tokens.len(),
        forall|i: int|
            0 <= i < inner.len() ==> (#[trigger] inner[i]).to_state != END_STATE
                && inner[i].from_state != END_STATE,
    ensures
        walks_to(inner + seq![end_edge(from)], tokens, place, END_STATE, end, steps) ==> walks_to(
            inner,
            tokens,
            place,
            from as u64,
            end - 1,
            steps,
        ) && 0 <= end - 1 < tokens.len() && tokens[end - 1] == Token::End,
        walks_to(inner, tokens, place, from as u64, end - 1, steps) && 0 <= end - 1 < tokens.len()
            && tokens[end - 1] == Token::End ==> walks_to(
            inner + seq![end_edge(from)],
            tokens,
            place,
            END_STATE,
            end,
            steps + 1,
        ),
    decreases steps,
{
    let all = inner + seq![end_edge(from)];
    let edge = end_edge(from);
    assert(all[inner.len() as int] == edge);
    if walks_to(all, tokens, place, END_STATE, end, steps) {
        let i = choose|i: int|
            0 <= i < all.len() && (#[trigger] all[i]).from_state == place.state && place_behind(
                tokens,
                place,
                all[i],
            ) is Some && walks_to(
                all,
                tokens,
                place_behind(tokens, place, all[i])->0,
                END_STATE,
                end,
                (steps - 1) as nat,
            );
        let behind = place_behind(tokens, place, all[i])->0;
        crate::cond::lemma_cond_match_in_bounds(
            all[i].cond,
            tokens.subrange(place.pos, tokens.len() as int),
            place.capturer.captures,
        );
        if i < inner.len() {
            assert(all[i] == inner[i]);
            assert(0 <= behind.pos <= tokens.len());
            lemma_walks_through_end_edge(inner, from, tokens, behind, end, (steps - 1) as nat);
        } else {
            // Behind the edge the walk stands in the end state, which nothing leaves.
            let rest = tokens.subrange(place.pos, tokens.len() as int);
            assert(rest.len() > 0);
            assert(rest[0] == tokens[place.pos]);
            if !(behind.state == END_STATE && behind.pos == end) {
                let j = choose|j: int|
                    0 <= j < all.len() && (#[trigger] all[j]).from_state == behind.state
                        && place_behind(tokens, behind, all[j]) is Some;
                if j < inner.len() {
                    assert(all[j] == inner[j]);
                }
            }
        }
    }
    if walks_to(inner, tokens, place, from as u64, end - 1, steps) && 0 <= end - 1 < tokens.len()
        && tokens[end - 1] == Token::End {
        if place.state == from as u64 && place.pos == end - 1 {
            let rest = tokens.subrange(place.pos, tokens.len() as int);
            assert(rest[0] == tokens[place.pos]);
            let behind = place_behind(tokens, place, edge)->0;
            assert(walks_to(all, tokens, behind, END_STATE, end, 0));
            assert(walks_to(all, tokens, place, END_STATE, end, 1));
            lemma_walks_with_more_steps(all, tokens, place, END_STATE, end, 1, steps + 1);
        } else {
            let i = choose|i: int|
                0 <= i < inner.len() && (#[trigger] inner[i]).from_state == place.state
                    && place_behind(tokens, place, inner[i]) is Some && walks_to(
                    inner,
                    tokens,
                    place_behind(tokens, place, inner[i])->0,
                    from as u64,
                    end - 1,
                    (steps - 1) as nat,
                );
            let behind = place_behind(tokens, place, inner[i])->0;
            crate::cond::lemma_cond_match_in_bounds(
                inner[i].cond,
                tokens.subrange(place.pos, tokens.len() as int),
                place.capturer.captures,
            );
            assert(all[i] == inner[i]);
            lemma_walks_through_end_edge(inner, from, tokens, behind, end, (steps - 1) as nat);
        }
    }
}

/// A walk of some steps is a walk of more steps.
pub proof fn lemma_walks_with_more_steps(
    graph: Seq<TransitionModel>,
    tokens: Seq<Token>,
    place: Place,
    target: u64,
    end: int,
    steps: nat,
    more: nat,
)
    requires
        walks_to(graph, tokens, place, target, end, steps),
        steps <= more,
    ensures
        walks_to(graph, tokens, place, target, end, more),
    decreases steps,
{
    if !(place.state == target && place.pos == end) {
        let i = choose|i: int|
            0 <= i < graph.len() && (#[trigger] graph[i]).from_state == place.state && place_behind(
                tokens,
                place,
                graph[i],
            ) is Some && walks_to(
                graph,
                tokens,
                place_behind(tokens, place, graph[i])->0,
                target,
                end,
                (steps - 1) as nat,
            );
        lemma_walks_with_more_steps(
            graph,
            tokens,
            place_behind(tokens, place, graph[i])->0,
            target,
            end,
            (steps - 1) as nat,
            (more - 1) as nat,
        );
    }
}

/// The pattern with `$` behind its items.
pub open spec fn anchored_at_end(items: Seq<AstModel>) -> AstModel {
    pattern_of(items + seq![AstModel::End])
}

/// With `$` behind it, a pattern is walked through from a place exactly where the
/// pattern itself is walked through from there up to the end sentinel of the subject.
pub proof fn lemma_walks_up_to_end_anchor(
    items: Seq<AstModel>,
    subject: Seq<char>,
    offset: int,
    end: int,
)
    requires
        0 <= offset <= subject.len() + 2,
        2 + state_count(anchored_at_end(items)) <= u64::MAX,
    ensures
        spans(graph_of_pattern(anchored_at_end(items)), tokens_of(subject), offset, end) <==> end
            == subject.len() + 2 && spans(
            graph_of_pattern(pattern_of(items)),
            tokens_of(subject),
            offset,
            end - 1,
        ),
{
    if items.len() > 0 {
        lemma_walks_up_to_end_anchor_of_some(items, subject, offset, end);
    } else {
        let tokens = tokens_of(subject);
        let all = items + seq![AstModel::End];
        let last = TransitionModel::on(START_STATE, END_STATE, CondModel::End);
        let only = TransitionModel::epsilon(START_STATE, END_STATE);
        assert(all[0] == AstModel::End);
        assert(graph_between(anchored_at_end(items), START_STATE, END_STATE, 2) == graph_between(
            AstModel::Sequence(all),
            START_STATE,
            END_STATE,
            2,
        ));
        assert(all.len() == 1);
        assert(graph_between(all[0], START_STATE, END_STATE, 2).transitions =~= seq![last]);
        assert(chain_between(all, 1, END_STATE, END_STATE, 2).transitions =~= Seq::<
            TransitionModel,
        >::empty());
        assert(chain_between(all, 0, START_STATE, END_STATE, 2).transitions =~= seq![last]);
        assert(graph_of_pattern(anchored_at_end(items)) =~= seq![last]);
        assert(graph_between(pattern_of(items), START_STATE, END_STATE, 2) == graph_between(
            AstModel::Sequence(items),
            START_STATE,
            END_STATE,
            2,
        ));
        assert(graph_of_pattern(pattern_of(items)) =~= seq![only]);
        lemma_subject_sentinels(subject);
        if offset < tokens.len() {
            assert(tokens.subrange(offset, tokens.len() as int)[0] == tokens[offset]);
        }
        lemma_single_edge_walk(last, tokens, start_place(offset), end);
        lemma_single_edge_walk(only, tokens, start_place(offset), end - 1);
    }
}

/// The same for a pattern that is not empty.
proof fn lemma_walks_up_to_end_anchor_of_some(
    items: Seq<AstModel>,
    subject: Seq<char>,
    offset: int,
    end: int,
)
    requires
        items.len() > 0,
        0 <= offset <= subject.len() + 2,
        2 + state_count(anchored_at_end(items)) <= u64::MAX,
    ensures
        spans(graph_of_pattern(anchored_at_end(items)), tokens_of(subject), offset, end) <==> end
            == subject.len() + 2 && spans(
            graph_of_pattern(pattern_of(items)),
            tokens_of(subject),
            offset,
            end - 1,
        ),
{
    let tokens = tokens_of(subject);
    let before = end - 1;
    let all = items + seq![AstModel::End];
    let anchored = graph_of_pattern(anchored_at_end(items));
    let plain = graph_of_pattern(pattern_of(items));
    assert(graph_between(anchored_at_end(items), START_STATE, END_STATE, 2) == graph_between(
        AstModel::Sequence(all),
        START_STATE,
        END_STATE,
        2,
    ));
    assert(graph_between(pattern_of(items), START_STATE, END_STATE, 2) == graph_between(
        AstModel::Sequence(items),
        START_STATE,
        END_STATE,
        2,
    ));
    assert(state_count(anchored_at_end(items)) == state_count(AstModel::Sequence(all)));
    assert(state_count(AstModel::Sequence(all)) == chain_state_count(all, 0));
    lemma_chain_count_with_end_anchor(items, 0);
    let room = last_item_next(items, 0, 2);
    let name = lifted(room);
    lemma_last_item_next(items, 0, 2);
    lemma_chain_with_end_anchor(items, 0, START_STATE, 2);
    assert(plain == chain_between(items, 0, START_STATE, END_STATE, 2).transitions);
    let inner = renamed_graph(plain, name);
    assert(anchored == inner + seq![end_edge(room)]);
    let high = 2 + chain_state_count(items, 0);
    let known = |state: u64| state == START_STATE || state == END_STATE || 2 <= state < high;
    lemma_chain_within(items, 0, START_STATE, END_STATE, 2);
    assert(states_known(plain, known));
    assert(names_apart(name, known));
    assert forall|i: int| 0 <= i < inner.len() implies (#[trigger] inner[i]).to_state != END_STATE
        && inner[i].from_state != END_STATE by {
        assert(inner[i] == renamed(plain[i], name));
        assert(known(plain[i].from_state) && known(plain[i].to_state));
    }
    lemma_subject_sentinels(subject);
    let from = start_place(offset);
    assert(renamed_place(from, name) == from);
    assert forall|steps: nat|
        walks_to(inner, tokens, from, room as u64, before, steps) == #[trigger] walks_to_end(
            plain,
            tokens,
            from,
            before,
            steps,
        ) by {
        lemma_walks_renamed(plain, tokens, name, known, from, END_STATE, before, steps);
        lemma_walks_to_end(plain, tokens, from, before, steps);
    }
    if spans(anchored, tokens, offset, end) {
        let steps = choose|steps: nat| walks_to_end(anchored, tokens, from, end, steps);
        lemma_walks_to_end(anchored, tokens, from, end, steps);
        lemma_walks_through_end_edge(inner, room, tokens, from, end, steps);
        assert(walks_to_end(plain, tokens, from, before, steps));
        assert(tokens[before] == Token::End);
    }
    if end == subject.len() + 2 && spans(plain, tokens, offset, before) {
        let steps = choose|steps: nat| walks_to_end(plain, tokens, from, before, steps);
        assert(walks_to(inner, tokens, from, room as u64, before, steps));
        assert(tokens[before] == Token::End);
        lemma_walks_through_end_edge(inner, room, tokens, from, end, steps);
        lemma_walks_to_end(anchored, tokens, from, end, steps + 1);
        assert(walks_to_end(anchored, tokens, from, end, steps + 1));
    }
}

/// With `$` behind its items, a chain takes one more state.
pub proof fn lemma_chain_count_with_end_anchor(items: Seq<AstModel>, i: int)
    requires
        0 <= i < items.len(),
    ensures
        chain_state_count(items + seq![AstModel::End], i) == chain_state_count(items, i) + 1,
    decreases items.len() - i,
{
    let all = items + seq![AstModel::End];
    assert(all[i] == items[i]);
    if i + 1 < items.len() {
        lemma_chain_count_with_end_anchor(items, i + 1);
    } else {
        assert(all[i + 1] == AstModel::End);
        assert(all.len() == items.len() + 1);
        assert(state_count(all[i + 1]) == 0);
        assert(chain_state_count(all, i + 2) == 0);
        assert(chain_state_count(all, i + 1) == 0);
        assert(chain_state_count(items, i + 1) == 0);
    }
}

/// Whether the pattern of `items` matches the subject from the token `offset` up to its
/// end: a walk through the graph of the pattern leads from its start state in front of
/// that token to its end state in front of the end sentinel.
pub open spec fn matches_up_to_end(items: Seq<AstModel>, subject: Seq<char>, offset: int) -> bool {
    spans(
        graph_of_pattern(pattern_of(items)),
        tokens_of(subject),
        offset,
        subject.len() as int + 1,
    )
}

/// With `$` behind it, a searchable pattern matches up to the end of a subject alone:
/// every range that a scan reports ends behind the end sentinel.
pub proof fn lemma_end_anchor_ranges(items: Seq<AstModel>, subject: Seq<char>)
    requires
        searchable(anchored_at_end(items)),
        subject.len() + 2 <= usize::MAX,
    ensures
        forall|k: int|
            0 <= k < pattern_ranges(anchored_at_end(items), tokens_of(subject)).len() ==> (
            #[trigger] pattern_ranges(anchored_at_end(items), tokens_of(subject))[k]).1
                == subject.len() + 2,
{
    let all = items + seq![AstModel::End];
    lemma_searchable_pattern_scans(anchored_at_end(items), tokens_of(subject));
    assert(all[all.len() - 1] == AstModel::End);
    crate::anchors::lemma_end_anchored_pattern(all, subject);
}

/// With `$` behind it, a searchable pattern, with or without maxima, matches a subject
/// only where the pattern itself matches an end of the subject: every range that a scan
/// reports ends behind the end sentinel, and a walk through the graph of the pattern
/// itself leads from the start of the range up to the end sentinel.
pub proof fn lemma_end_anchor_matches_only_suffixes(items: Seq<AstModel>, subject: Seq<char>)
    requires
        searchable(anchored_at_end(items)),
        subject.len() + 2 <= usize::MAX,
    ensures
        forall|k: int|
            0 <= k < pattern_ranges(anchored_at_end(items), tokens_of(subject)).len() ==> (
            #[trigger] pattern_ranges(anchored_at_end(items), tokens_of(subject))[k]).1
                == subject.len() + 2 && matches_up_to_end(
                items,
                subject,
                pattern_ranges(anchored_at_end(items), tokens_of(subject))[k].0 as int,
            ),
{
    let tokens = tokens_of(subject);
    let node = anchored_at_end(items);
    let ranges = pattern_ranges(node, tokens);
    lemma_end_anchor_ranges(items, subject);
    lemma_searchable_pattern_scans(node, tokens);
    crate::anchors::lemma_subject_sentinels(subject);
    crate::walks::lemma_reported_ranges_are_spanned(graph_of_pattern(node), tokens, 0);
    assert forall|k: int| 0 <= k < ranges.len() implies (#[trigger] ranges[k]).1 == subject.len()
        + 2 && matches_up_to_end(items, subject, ranges[k].0 as int) by {
        lemma_walks_up_to_end_anchor(items, subject, ranges[k].0 as int, ranges[k].1 as int);
    }
}

/// With `$` behind it, a pattern without maxima matches a subject exactly where the
/// pattern itself matches an end of the subject: from some token on up to its end.
/// Every range that it reports then ends behind the end sentinel.
pub proof fn lemma_end_anchor_means_suffix(items: Seq<AstModel>, subject: Seq<char>)
    requires
        searchable(anchored_at_end(items)),
        subject.len() + 2 <= usize::MAX,
        uncapped(anchored_at_end(items)),
    ensures
        pattern_ranges(anchored_at_end(items), tokens_of(subject)).len() > 0 <==> exists|
            offset: int,
        |
            0 <= offset < subject.len() + 2 && #[trigger] matches_up_to_end(
                items,
                subject,
                offset,
            ),
        forall|k: int|
            0 <= k < pattern_ranges(anchored_at_end(items), tokens_of(subject)).len() ==> (
            #[trigger] pattern_ranges(anchored_at_end(items), tokens_of(subject))[k]).1
                == subject.len() + 2,
{
    lemma_end_anchor_ranges(items, subject);
    let tokens = tokens_of(subject);
    let node = anchored_at_end(items);
    let graph = graph_of_pattern(node);
    let plain = graph_of_pattern(pattern_of(items));
    let last: int = subject.len() as int + 1;
    lemma_searchable_pattern_scans(node, tokens);
    lemma_graph_cap_free(node, START_STATE, END_STATE, 2);
    lemma_scan_reports(graph, tokens, 0);
    assert forall|offset: int| 0 <= offset < tokens.len() implies (#[trigger] search_outcome(
        graph,
        tokens,
        offset,
    ) is Found <==> matches_up_to_end(items, subject, offset)) by {
        lemma_searchable_pattern_searches(node, tokens, offset);
        lemma_cap_free_search_is_exact(graph, tokens, offset);
        assert forall|end: int| spans(graph, tokens, offset, end) == (end == last + 1 && spans(
            plain,
            tokens,
            offset,
            end - 1,
        )) by {
            lemma_walks_up_to_end_anchor(items, subject, offset, end);
        }
        if matches_up_to_end(items, subject, offset) {
            assert(spans(graph, tokens, offset, last + 1));
        }
    }
    if pattern_ranges(node, tokens).len() > 0 {
        let o = choose|o: int|
            0 <= o < tokens.len() && #[trigger] search_outcome(graph, tokens, o) is Found;
        assert(matches_up_to_end(items, subject, o));
    }
    if exists|offset: int|
        0 <= offset < subject.len() + 2 && #[trigger] matches_up_to_end(items, subject, offset) {
        let o = choose|offset: int|
            0 <= offset < subject.len() + 2 && #[trigger] matches_up_to_end(
                items,
                subject,
                offset,
            );
        assert(search_outcome(graph, tokens, o) is Found);
    }
}

} // verus!
