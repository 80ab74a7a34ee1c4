//! The meaning of `^` in front of a pattern: the pattern matches a start of the subject.
use vstd::prelude::*;
use crate::anchors::{
    lemma_anchored_scan_behind_start,
    lemma_leading_anchor,
    lemma_subject_sentinels,
    pattern_of,
};
use crate::ast::{
    AstModel,
    chain_between,
    chain_state_count,
    graph_between,
    graph_of_pattern,
    optional_laps,
    options_between,
    required_copies,
    state_count,
    unrolled_between,
};
use crate::capturer::CapturerModel;
use crate::common::{END_STATE, START_STATE};
use crate::cond::CondModel;
use crate::renaming::{
    lemma_chain_moves,
    lemma_walks_renamed,
    moved,
    names_apart,
    renamed_graph,
    renamed_place,
    states_known,
};
use crate::search::{
    SearchModel,
    SearchOutcome,
    available,
    lemma_available_add,
    lemma_available_none,
    lemma_search_outcome,
    leaves,
    search_completes,
    search_outcome,
    search_run,
    search_start,
    search_step,
    try_transition,
    try_transitions,
};
use crate::searchable::{
    lemma_searchable_pattern_scans,
    lemma_searchable_pattern_searches,
    pattern_ranges,
    searchable,
};
use crate::shape::lemma_chain_within;
use crate::simulation::{
    frames_alike,
    lemma_available_renamed,
    lemma_searches_end_alike,
    offers_alike,
    searches_alike,
};
use crate::token::{Token, tokens_of};
use crate::transition::TransitionModel;
use crate::walks::{
    Place,
    cap_free,
    lemma_cap_free_search_is_exact,
    lemma_single_edge_walk,
    lemma_walks_to_end,
    place_behind,
    spans,
    start_place,
    walks_to,
    walks_to_end,
};

verus! {

/// Whether no repetition of `node` has a maximum, a maximum of zero aside: then no edge
/// of its graph has a cap.
pub open spec fn uncapped(node: AstModel) -> bool
    decreases node,
{
    match node {
        AstModel::Root(inner) => uncapped(*inner),
        AstModel::Sequence(items) => forall|i: int|
            0 <= i < items.len() ==> uncapped(#[trigger] items[i]),
        AstModel::Alt { options, id } => forall|i: int|
            0 <= i < options.len() ==> uncapped(#[trigger] options[i]),
        AstModel::Repeat { min, max, node } => max == Some(0u64) || (max is None && uncapped(
            *node,
        )),
        _ => true,
    }
}

/// The graph of a node without maxima has no caps.
pub proof fn lemma_graph_cap_free(node: AstModel, start: u64, end: u64, next: int)
    requires
        uncapped(node),
    ensures
        cap_free(graph_between(node, start, end, next).transitions),
    decreases node, 0nat,
{
    match node {
        AstModel::Root(inner) => {
            lemma_graph_cap_free(*inner, start, end, next);
        },
        AstModel::Sequence(items) => {
            if items.len() > 0 {
                lemma_chain_cap_free(items, 0, start, end, next);
            }
        },
        AstModel::Alt { options, id } => {
            lemma_options_cap_free(options, 0, next as u64, (next + 1) as u64, next + 2);
        },
        AstModel::Repeat { min, max, node: child } => {
            if max != Some(0u64) {
                let copies = unrolled_between(
                    *child,
                    required_copies(min, max),
                    next as u64,
                    (next + 1) as u64,
                    next + 2,
                );
                lemma_unrolled_cap_free(
                    *child,
                    required_copies(min, max),
                    next as u64,
                    (next + 1) as u64,
                    next + 2,
                );
                lemma_graph_cap_free(*child, copies.inner_start, copies.inner_end, copies.next);
                assert(optional_laps(min, max) is None);
            }
        },
        _ => {},
    }
}

/// The same for a chain.
pub proof fn lemma_chain_cap_free(items: Seq<AstModel>, i: int, from: u64, end: u64, next: int)
    requires
        0 <= i,
        forall|j: int| 0 <= j < items.len() ==> uncapped(#[trigger] items[j]),
    ensures
        cap_free(chain_between(items, i, from, end, next).transitions),
    decreases items, items.len() - i,
{
    if i < items.len() {
        let last = i + 1 == items.len();
        let to = if last {
            end
        } else {
            next as u64
        };
        let next1 = if last {
            next
        } else {
            next + 1
        };
        lemma_graph_cap_free(items[i], from, to, next1);
        lemma_chain_cap_free(items, i + 1, to, end, graph_between(items[i], from, to, next1).next);
    }
}

/// The same for a list of options.
pub proof fn lemma_options_cap_free(
    options: Seq<AstModel>,
    i: int,
    start: u64,
    end: u64,
    next: int,
)
    requires
        0 <= i,
        forall|j: int| 0 <= j < options.len() ==> uncapped(#[trigger] options[j]),
    ensures
        cap_free(options_between(options, i, start, end, next).transitions),
    decreases options, options.len() - i,
{
    if i < options.len() {
        lemma_graph_cap_free(options[i], start, end, next);
        lemma_options_cap_free(
            options,
            i + 1,
            start,
            end,
            graph_between(options[i], start, end, next).next,
        );
    }
}

/// The same for unrolled copies.
pub proof fn lemma_unrolled_cap_free(
    node: AstModel,
    count: nat,
    inner_start: u64,
    inner_end: u64,
    next: int,
)
    requires
        uncapped(node),
    ensures
        cap_free(unrolled_between(node, count, inner_start, inner_end, next).transitions),
    decreases node, count + 1,
{
    if count > 0 {
        lemma_graph_cap_free(node, inner_start, inner_end, next);
        let first = graph_between(node, inner_start, inner_end, next);
        lemma_unrolled_cap_free(
            node,
            (count - 1) as nat,
            inner_end,
            first.next as u64,
            first.next + 1,
        );
    }
}

/// The chain of the items behind the first one of a list is the chain of the list
/// without its first item.
pub proof fn lemma_chain_behind_first(
    first: AstModel,
    items: Seq<AstModel>,
    i: int,
    from: u64,
    end: u64,
    next: int,
)
    requires
        0 <= i,
    ensures
        chain_between(seq![first] + items, i + 1, from, end, next) == chain_between(
            items,
            i,
            from,
            end,
            next,
        ),
        chain_state_count(seq![first] + items, i + 1) == chain_state_count(items, i),
    decreases items.len() - i,
{
    let all = seq![first] + items;
    if i < items.len() {
        assert(all[i + 1] == items[i]);
        let last = i + 1 == items.len();
        let to = if last {
            end
        } else {
            next as u64
        };
        let next1 = if last {
            next
        } else {
            next + 1
        };
        lemma_chain_behind_first(
            first,
            items,
            i + 1,
            to,
            end,
            graph_between(items[i], from, to, next1).next,
        );
    }
}

/// An edge out of a state that a walk does not start in and that no other edge leads
/// into is of no use to the walk.
pub proof fn lemma_walks_skip_first(
    first: TransitionModel,
    rest: Seq<TransitionModel>,
    tokens: Seq<Token>,
    place: Place,
    target: u64,
    end: int,
    steps: nat,
)
    requires
        place.state != first.from_state,
        forall|i: int| 0 <= i < rest.len() ==> (#[trigger] rest[i]).to_state != first.from_state,
    ensures
        walks_to(seq![first] + rest, tokens, place, target, end, steps) == walks_to(
            rest,
            tokens,
            place,
            target,
            end,
            steps,
        ),
    decreases steps,
{
    let all = seq![first] + rest;
    if steps > 0 {
        assert forall|i: int| 0 <= i < rest.len() && place_behind(
            tokens,
            place,
            #[trigger] rest[i],
        ) is Some implies walks_to(
            all,
            tokens,
            place_behind(tokens, place, rest[i])->0,
            target,
            end,
            (steps - 1) as nat,
        ) == walks_to(
            rest,
            tokens,
            place_behind(tokens, place, rest[i])->0,
            target,
            end,
            (steps - 1) as nat,
        ) by {
            lemma_walks_skip_first(
                first,
                rest,
                tokens,
                place_behind(tokens, place, rest[i])->0,
                target,
                end,
                (steps - 1) as nat,
            );
        }
        if walks_to(all, tokens, place, target, end, steps) && !(place.state == target && place.pos
            == end) {
            let i = choose|i: int|
                0 <= i < all.len() && (#[trigger] all[i]).from_state == place.state
                    && place_behind(tokens, place, all[i]) is Some && walks_to(
                    all,
                    tokens,
                    place_behind(tokens, place, all[i])->0,
                    target,
                    end,
                    (steps - 1) as nat,
                );
            assert(i > 0);
            assert(all[i] == rest[i - 1]);
            assert(rest[i - 1].from_state == place.state);
        }
        if walks_to(rest, tokens, place, target, end, steps) && !(place.state == target
            && place.pos == end) {
            let i = choose|i: int|
                0 <= i < rest.len() && (#[trigger] rest[i]).from_state == place.state
                    && place_behind(tokens, place, rest[i]) is Some && walks_to(
                    rest,
                    tokens,
                    place_behind(tokens, place, rest[i])->0,
                    target,
                    end,
                    (steps - 1) as nat,
                );
            assert(all[i + 1] == rest[i]);
            assert(all[i + 1].from_state == place.state);
        }
    }
}

/// The pattern with `^` in front of its items.
pub open spec fn anchored_at_start(items: Seq<AstModel>) -> AstModel {
    pattern_of(seq![AstModel::Start] + items)
}

/// With `^` in front, a pattern is walked through from the first token of a subject
/// exactly where the pattern itself is walked through from its first character.
pub proof fn lemma_walks_behind_start_anchor(items: Seq<AstModel>, subject: Seq<char>, end: int)
    requires
        2 + state_count(anchored_at_start(items)) <= u64::MAX,
    ensures
        spans(graph_of_pattern(anchored_at_start(items)), tokens_of(subject), 0, end) <==> spans(
            graph_of_pattern(pattern_of(items)),
            tokens_of(subject),
            1,
            end,
        ),
{
    if items.len() > 0 {
        lemma_walks_behind_start_anchor_of_some(items, subject, end);
    } else {
        let tokens = tokens_of(subject);
        let all = seq![AstModel::Start] + items;
        let first = TransitionModel::on(START_STATE, END_STATE, CondModel::Start);
        let only = TransitionModel::epsilon(START_STATE, END_STATE);
        assert(all[0] == AstModel::Start);
        assert(graph_between(anchored_at_start(items), START_STATE, END_STATE, 2)
            == graph_between(AstModel::Sequence(all), START_STATE, END_STATE, 2));
        assert(all.len() == 1);
        assert(graph_between(all[0], START_STATE, END_STATE, 2).transitions =~= seq![first]);
        assert(chain_between(all, 1, END_STATE, END_STATE, 2).transitions =~= Seq::<
            TransitionModel,
        >::empty());
        assert(chain_between(all, 0, START_STATE, END_STATE, 2).transitions =~= seq![first]);
        assert(graph_of_pattern(anchored_at_start(items)) =~= seq![first]);
        assert(graph_between(pattern_of(items), START_STATE, END_STATE, 2) == graph_between(
            AstModel::Sequence(items),
            START_STATE,
            END_STATE,
            2,
        ));
        assert(graph_of_pattern(pattern_of(items)) =~= seq![only]);
        assert(tokens[0] == Token::Start);
        assert(tokens.subrange(0, tokens.len() as int)[0] == tokens[0]);
        lemma_single_edge_walk(first, tokens, start_place(0), end);
        lemma_single_edge_walk(only, tokens, start_place(1), end);
    }
}

/// The same for a pattern that is not empty.
proof fn lemma_walks_behind_start_anchor_of_some(
    items: Seq<AstModel>,
    subject: Seq<char>,
    end: int,
)
    requires
        items.len() > 0,
        2 + state_count(anchored_at_start(items)) <= u64::MAX,
    ensures
        spans(graph_of_pattern(anchored_at_start(items)), tokens_of(subject), 0, end) <==> spans(
            graph_of_pattern(pattern_of(items)),
            tokens_of(subject),
            1,
            end,
        ),
{
    let tokens = tokens_of(subject);
    let all = seq![AstModel::Start] + items;
    let anchored = graph_of_pattern(anchored_at_start(items));
    let plain = graph_of_pattern(pattern_of(items));
    let first = TransitionModel::on(START_STATE, 2, CondModel::Start);

    // The graph behind the anchor is the graph of the pattern, renamed.
    assert(all[0] == AstModel::Start);
    assert(graph_between(anchored_at_start(items), START_STATE, END_STATE, 2) == graph_between(
        AstModel::Sequence(all),
        START_STATE,
        END_STATE,
        2,
    ));
    assert(graph_between(pattern_of(items), START_STATE, END_STATE, 2) == graph_between(
        AstModel::Sequence(items),
        START_STATE,
        END_STATE,
        2,
    ));
    assert(state_count(anchored_at_start(items)) == state_count(AstModel::Sequence(all)));
    assert(state_count(AstModel::Sequence(all)) == chain_state_count(all, 0));
    assert(all.len() == items.len() + 1);
    assert(state_count(all[0]) == 0);
    assert(chain_state_count(all, 0) == 1 + chain_state_count(all, 1));
    lemma_chain_behind_first(AstModel::Start, items, 0, 2, END_STATE, 3);
    let rest = chain_between(items, 0, 2, END_STATE, 3).transitions;
    let head = graph_between(all[0], START_STATE, 2, 3);
    assert(head.transitions =~= seq![first]);
    assert(head.next == 3);
    assert(chain_between(all, 0, START_STATE, END_STATE, 2).transitions == head.transitions
        + chain_between(all, 1, 2, END_STATE, 3).transitions);
    assert(anchored =~= seq![first] + rest);
    let name = moved(START_STATE, END_STATE, 2, 2, END_STATE, 3);
    lemma_chain_moves(items, 0, START_STATE, END_STATE, 2, 2, END_STATE, 3);
    assert(plain == chain_between(items, 0, START_STATE, END_STATE, 2).transitions);
    assert(rest == renamed_graph(plain, name));
    let high = 2 + chain_state_count(items, 0);
    let known = |state: u64| state == START_STATE || state == END_STATE || 2 <= state < high;
    lemma_chain_within(items, 0, START_STATE, END_STATE, 2);
    assert(states_known(plain, known));
    assert(names_apart(name, known));
    lemma_chain_within(items, 0, 2, END_STATE, 3);

    // The way in is the edge that asks for the start sentinel.
    let from_start = start_place(0);
    let behind = Place { pos: 1, state: 2, capturer: CapturerModel::empty() };
    assert(tokens[0] == Token::Start);
    assert(tokens.subrange(0, tokens.len() as int)[0] == tokens[0]);
    assert(place_behind(tokens, from_start, first) == Some(behind)) by {
        let fed = CapturerModel::empty().push(tokens.subrange(0, 1));
        assert(fed.captures =~= Map::<u64, Seq<char>>::empty());
    }
    assert(renamed_place(start_place(1), name) == behind);
    assert forall|steps: nat|
        walks_to(anchored, tokens, behind, END_STATE, end, steps) == #[trigger] walks_to(
            plain,
            tokens,
            start_place(1),
            END_STATE,
            end,
            steps,
        ) by {
        lemma_walks_skip_first(first, rest, tokens, behind, END_STATE, end, steps);
        lemma_walks_renamed(plain, tokens, name, known, start_place(1), END_STATE, end, steps);
    }
    assert forall|steps: nat|
        walks_to_end(anchored, tokens, behind, end, steps) == #[trigger] walks_to_end(
            plain,
            tokens,
            start_place(1),
            end,
            steps,
        ) by {
        lemma_walks_to_end(anchored, tokens, behind, end, steps);
        lemma_walks_to_end(plain, tokens, start_place(1), end, steps);
        assert(walks_to(anchored, tokens, behind, END_STATE, end, steps) == walks_to(
            plain,
            tokens,
            start_place(1),
            END_STATE,
            end,
            steps,
        ));
    }
    if spans(anchored, tokens, 0, end) {
        let steps = choose|steps: nat| walks_to_end(anchored, tokens, from_start, end, steps);
        let i = choose|i: int|
            0 <= i < anchored.len() && (#[trigger] anchored[i]).from_state == from_start.state
                && place_behind(tokens, from_start, anchored[i]) is Some && walks_to_end(
                anchored,
                tokens,
                place_behind(tokens, from_start, anchored[i])->0,
                end,
                (steps - 1) as nat,
            );
        if i > 0 {
            assert(anchored[i] == rest[i - 1]);
        }
        assert(anchored[0] == first);
        assert(walks_to_end(plain, tokens, start_place(1), end, (steps - 1) as nat));
    }
    if spans(plain, tokens, 1, end) {
        let steps = choose|steps: nat| walks_to_end(plain, tokens, start_place(1), end, steps);
        assert(walks_to_end(anchored, tokens, behind, end, steps));
        assert(anchored[0] == first);
        assert(walks_to_end(anchored, tokens, from_start, end, steps + 1));
    }
}

/// With `^` in front, a pattern without maxima matches a subject exactly where the
/// pattern itself matches a start of the subject: where a walk through the graph of the
/// pattern leads from its start state in front of the first character to its end state.
/// It then matches once, from the start sentinel on.
pub proof fn lemma_start_anchor_means_prefix(items: Seq<AstModel>, subject: Seq<char>)
    requires
        searchable(anchored_at_start(items)),
        subject.len() + 2 <= usize::MAX,
        uncapped(anchored_at_start(items)),
    ensures
        pattern_ranges(anchored_at_start(items), tokens_of(subject)).len() > 0 <==> exists|
            end: int,
        |
            spans(graph_of_pattern(pattern_of(items)), tokens_of(subject), 1, end),
        pattern_ranges(anchored_at_start(items), tokens_of(subject)).len() <= 1,
        forall|k: int|
            0 <= k < pattern_ranges(anchored_at_start(items), tokens_of(subject)).len() ==> (
            #[trigger] pattern_ranges(anchored_at_start(items), tokens_of(subject))[k]).0 == 0 && 1
                <= pattern_ranges(anchored_at_start(items), tokens_of(subject))[k].1
                <= subject.len() + 2,
{
    lemma_start_anchor_ranges(items, subject);
    let tokens = tokens_of(subject);
    let node = anchored_at_start(items);
    let graph = graph_of_pattern(node);
    lemma_searchable_pattern_scans(node, tokens);
    lemma_graph_cap_free(node, START_STATE, END_STATE, 2);
    lemma_cap_free_search_is_exact(graph, tokens, 0);
    lemma_leading_anchor(seq![AstModel::Start] + items);
    lemma_subject_sentinels(subject);
    lemma_anchored_scan_behind_start(graph, tokens, 1);
    assert forall|end: int|
        spans(graph, tokens, 0, end) == #[trigger] spans(
            graph_of_pattern(pattern_of(items)),
            tokens,
            1,
            end,
        ) by {
        lemma_walks_behind_start_anchor(items, subject, end);
    }
    match search_outcome(graph, tokens, 0) {
        SearchOutcome::Found(end) => {
            let next = if end > 1 {
                end
            } else {
                1
            };
            lemma_anchored_scan_behind_start(graph, tokens, next);
            let end2 = choose|end2: int| spans(graph, tokens, 0, end2);
            assert(spans(graph_of_pattern(pattern_of(items)), tokens, 1, end2));
        },
        SearchOutcome::Exhausted => {
            assert forall|end: int| !spans(
                graph_of_pattern(pattern_of(items)),
                tokens,
                1,
                end,
            ) by {
                assert(!spans(graph, tokens, 0, end));
            }
        },
    }
}

/// With `^` in front, a searchable pattern matches a subject at most once, and from
/// the start sentinel on: a scan reports no range, or one range from the first token up
/// to a later one.
pub proof fn lemma_start_anchor_ranges(items: Seq<AstModel>, subject: Seq<char>)
    requires
        searchable(anchored_at_start(items)),
        subject.len() + 2 <= usize::MAX,
    ensures
        pattern_ranges(anchored_at_start(items), tokens_of(subject)).len() <= 1,
        forall|k: int|
            0 <= k < pattern_ranges(anchored_at_start(items), tokens_of(subject)).len() ==> (
            #[trigger] pattern_ranges(anchored_at_start(items), tokens_of(subject))[k]).0 == 0 && 1
                <= pattern_ranges(anchored_at_start(items), tokens_of(subject))[k].1
                <= subject.len() + 2,
{
    let tokens = tokens_of(subject);
    let node = anchored_at_start(items);
    let graph = graph_of_pattern(node);
    let all = seq![AstModel::Start] + items;
    lemma_searchable_pattern_scans(node, tokens);
    lemma_subject_sentinels(subject);
    assert(all[0] == AstModel::Start);
    crate::anchors::lemma_start_anchored_pattern(all, subject);
    crate::walks::lemma_reported_ranges_are_spanned(graph, tokens, 0);
    let ranges = pattern_ranges(node, tokens);
    if ranges.len() == 1 {
        lemma_leading_anchor(all);
        let end = ranges[0].1 as int;
        assert(spans(graph, tokens, 0, end));
        let place = crate::walks::start_place(0);
        let steps = choose|steps: nat|
            crate::walks::walks_to_end(graph, tokens, place, end, steps);
        let walk = crate::backref::lemma_walk_exists(graph, tokens, place, end, steps);
        reveal_with_fuel(crate::backref::place_along, 2);
        if walk.len() > 0 {
            crate::backref::lemma_places_along(graph, tokens, place, walk, walk.len() as int, 1);
            assert(graph[walk[0]].cond == CondModel::Start);
        }
    }
}

/// With `^` in front, a searchable pattern, with or without maxima, matches a subject
/// only where the pattern itself matches a start of the subject: the range that a scan
/// reports starts with the start sentinel, and behind it a walk through the graph of the
/// pattern itself leads from the first character up to the end of the range.
pub proof fn lemma_start_anchor_matches_only_prefixes(items: Seq<AstModel>, subject: Seq<char>)
    requires
        searchable(anchored_at_start(items)),
        subject.len() + 2 <= usize::MAX,
    ensures
        forall|k: int|
            0 <= k < pattern_ranges(anchored_at_start(items), tokens_of(subject)).len() ==> (
            #[trigger] pattern_ranges(anchored_at_start(items), tokens_of(subject))[k]).0 == 0
                && spans(
                graph_of_pattern(pattern_of(items)),
                tokens_of(subject),
                1,
                pattern_ranges(anchored_at_start(items), tokens_of(subject))[k].1 as int,
            ),
{
    let tokens = tokens_of(subject);
    let node = anchored_at_start(items);
    let ranges = pattern_ranges(node, tokens);
    lemma_start_anchor_ranges(items, subject);
    lemma_searchable_pattern_scans(node, tokens);
    lemma_subject_sentinels(subject);
    crate::walks::lemma_reported_ranges_are_spanned(graph_of_pattern(node), tokens, 0);
    assert forall|k: int| 0 <= k < ranges.len() implies (#[trigger] ranges[k]).0 == 0 && spans(
        graph_of_pattern(pattern_of(items)),
        tokens,
        1,
        ranges[k].1 as int,
    ) by {
        lemma_walks_behind_start_anchor(items, subject, ranges[k].1 as int);
    }
}

/// With `^` in front, a pattern is searched for from the first token of a subject as
/// the pattern itself is searched for from the first character: the one search finds
/// the end state exactly where the other does, and in front of the same token. So
/// with `^` in front a pattern matches a subject exactly where the search with the
/// pattern itself, from the first character on, finds a match.
pub proof fn lemma_start_anchor_means_search_from_first(items: Seq<AstModel>, subject: Seq<char>)
    requires
        searchable(anchored_at_start(items)),
        subject.len() + 2 <= usize::MAX,
    ensures
        search_completes(graph_of_pattern(pattern_of(items)), tokens_of(subject), 1),
        search_outcome(graph_of_pattern(anchored_at_start(items)), tokens_of(subject), 0)
            == search_outcome(graph_of_pattern(pattern_of(items)), tokens_of(subject), 1),
        pattern_ranges(anchored_at_start(items), tokens_of(subject)).len() > 0 <==> search_outcome(
            graph_of_pattern(pattern_of(items)),
            tokens_of(subject),
            1,
        ) is Found,
{
    if items.len() > 0 {
        lemma_search_behind_start_anchor_of_some(items, subject);
    } else {
        let tokens = tokens_of(subject);
        let all = seq![AstModel::Start] + items;
        let node = anchored_at_start(items);
        let anchored = graph_of_pattern(node);
        let plain = graph_of_pattern(pattern_of(items));
        let first = TransitionModel::on(START_STATE, END_STATE, CondModel::Start);
        assert(all[0] == AstModel::Start);
        assert(all.len() == 1);
        assert(graph_between(node, START_STATE, END_STATE, 2) == graph_between(
            AstModel::Sequence(all),
            START_STATE,
            END_STATE,
            2,
        ));
        assert(graph_between(all[0], START_STATE, END_STATE, 2).transitions =~= seq![first]);
        assert(chain_between(all, 1, END_STATE, END_STATE, 2).transitions =~= Seq::<
            TransitionModel,
        >::empty());
        assert(chain_between(all, 0, START_STATE, END_STATE, 2).transitions =~= seq![first]);
        assert(anchored =~= seq![first]);
        assert(graph_between(pattern_of(items), START_STATE, END_STATE, 2) == graph_between(
            AstModel::Sequence(items),
            START_STATE,
            END_STATE,
            2,
        ));
        assert(plain =~= crate::empty_match::empty_graph());
        crate::empty_match::lemma_empty_graph_search(tokens, 1);
        lemma_search_outcome(plain, tokens, 1, 1);
        // The anchored pattern takes the start sentinel and stands in the end state.
        reveal_with_fuel(available, 2);
        reveal_with_fuel(try_transitions, 2);
        reveal_with_fuel(search_run, 2);
        assert(anchored.drop_last() =~= Seq::<TransitionModel>::empty());
        assert(available(anchored, START_STATE) =~= anchored);
        assert(tokens[0] == Token::Start);
        assert(tokens.subrange(0, tokens.len() as int)[0] == tokens[0]);
        assert(search_run(anchored, tokens, search_start(0), 1) == Some(SearchOutcome::Found(1)));
        lemma_search_outcome(anchored, tokens, 0, 1);
        lemma_searchable_pattern_scans(node, tokens);
        lemma_leading_anchor(all);
        lemma_subject_sentinels(subject);
        lemma_anchored_scan_behind_start(anchored, tokens, 1);
    }
}

/// The same for a pattern that is not empty.
proof fn lemma_search_behind_start_anchor_of_some(items: Seq<AstModel>, subject: Seq<char>)
    requires
        items.len() > 0,
        searchable(anchored_at_start(items)),
        subject.len() + 2 <= usize::MAX,
    ensures
        search_completes(graph_of_pattern(pattern_of(items)), tokens_of(subject), 1),
        search_outcome(graph_of_pattern(anchored_at_start(items)), tokens_of(subject), 0)
            == search_outcome(graph_of_pattern(pattern_of(items)), tokens_of(subject), 1),
        pattern_ranges(anchored_at_start(items), tokens_of(subject)).len() > 0 <==> search_outcome(
            graph_of_pattern(pattern_of(items)),
            tokens_of(subject),
            1,
        ) is Found,
{
    let tokens = tokens_of(subject);
    let all = seq![AstModel::Start] + items;
    let node = anchored_at_start(items);
    let anchored = graph_of_pattern(node);
    let plain = graph_of_pattern(pattern_of(items));
    let first = TransitionModel::on(START_STATE, 2, CondModel::Start);

    // The graph behind the anchor is the graph of the pattern, renamed.
    assert(all[0] == AstModel::Start);
    assert(graph_between(node, START_STATE, END_STATE, 2) == graph_between(
        AstModel::Sequence(all),
        START_STATE,
        END_STATE,
        2,
    ));
    assert(graph_between(pattern_of(items), START_STATE, END_STATE, 2) == graph_between(
        AstModel::Sequence(items),
        START_STATE,
        END_STATE,
        2,
    ));
    assert(state_count(node) == state_count(AstModel::Sequence(all)));
    assert(state_count(AstModel::Sequence(all)) == chain_state_count(all, 0));
    assert(all.len() == items.len() + 1);
    assert(state_count(all[0]) == 0);
    assert(chain_state_count(all, 0) == 1 + chain_state_count(all, 1));
    lemma_chain_behind_first(AstModel::Start, items, 0, 2, END_STATE, 3);
    let rest = chain_between(items, 0, 2, END_STATE, 3).transitions;
    let head = graph_between(all[0], START_STATE, 2, 3);
    assert(head.transitions =~= seq![first]);
    assert(head.next == 3);
    assert(chain_between(all, 0, START_STATE, END_STATE, 2).transitions == head.transitions
        + chain_between(all, 1, 2, END_STATE, 3).transitions);
    assert(anchored =~= seq![first] + rest);
    let name = moved(START_STATE, END_STATE, 2, 2, END_STATE, 3);
    lemma_chain_moves(items, 0, START_STATE, END_STATE, 2, 2, END_STATE, 3);
    assert(plain == chain_between(items, 0, START_STATE, END_STATE, 2).transitions);
    assert(rest == renamed_graph(plain, name));
    let high = 2 + chain_state_count(items, 0);
    let known = |state: u64| state == START_STATE || state == END_STATE || 2 <= state < high;
    lemma_chain_within(items, 0, START_STATE, END_STATE, 2);
    assert(states_known(plain, known));
    assert(names_apart(name, known));
    lemma_chain_within(items, 0, 2, END_STATE, 3);

    // In every state behind the anchor it offers what the graph of the pattern offers.
    reveal_with_fuel(available, 2);
    assert(seq![first].drop_last() =~= Seq::<TransitionModel>::empty());
    assert forall|state: u64| known(state) implies available(anchored, #[trigger] name(state))
        == renamed_graph(available(plain, state), name) && states_known(
        available(plain, state),
        known,
    ) by {
        lemma_available_renamed(plain, name, known, state);
        lemma_available_add(seq![first], rest, name(state));
        assert(available(seq![first], name(state)) =~= Seq::<TransitionModel>::empty());
        assert(available(seq![first], name(state)) + available(rest, name(state)) =~= available(
            rest,
            name(state),
        ));
    }
    assert(offers_alike(plain, anchored, name, known));

    // Its first step takes the edge that asks for the start sentinel.
    assert(!leaves(rest, START_STATE)) by {
        if leaves(rest, START_STATE) {
            let i = choose|i: int|
                0 <= i < rest.len() && (#[trigger] rest[i]).from_state == START_STATE;
        }
    }
    lemma_available_add(seq![first], rest, START_STATE);
    lemma_available_none(rest, START_STATE);
    assert(available(seq![first], START_STATE) =~= seq![first]);
    assert(available(anchored, START_STATE) =~= seq![first]);
    lemma_searchable_pattern_searches(node, tokens, 0);
    let fuel = choose|fuel: nat| search_run(anchored, tokens, search_start(0), fuel) is Some;
    let start = search_start(0);
    let frame = start.stack[0];
    assert(tokens[0] == Token::Start);
    assert(tokens.subrange(0, tokens.len() as int)[0] == tokens[0]);
    reveal_with_fuel(try_transitions, 2);
    let popped = SearchModel { stack: start.stack.drop_last(), ..start };
    let entered = try_transition(anchored, tokens, frame, first, popped)->0;
    assert(search_step(anchored, tokens, start) == Some(entered));
    assert(fuel > 0);
    assert(search_run(anchored, tokens, start, fuel) == search_run(
        anchored,
        tokens,
        entered,
        (fuel - 1) as nat,
    ));
    let fed = CapturerModel::empty().push(tokens.subrange(0, 1));
    assert(fed.captures =~= Map::<u64, Seq<char>>::empty());
    assert(entered.stack.len() == 1);
    let other = search_start(1);
    assert(frames_alike(other.stack[0], entered.stack[0], name, known));
    assert(searches_alike(other, entered, name, known));
    lemma_searches_end_alike(plain, anchored, tokens, name, known, other, entered, (fuel - 1) as nat);
    lemma_search_outcome(plain, tokens, 1, (fuel - 1) as nat);
    lemma_search_outcome(anchored, tokens, 0, fuel);

    // Behind the first token the anchored pattern finds nothing.
    lemma_searchable_pattern_scans(node, tokens);
    lemma_leading_anchor(all);
    lemma_subject_sentinels(subject);
    lemma_anchored_scan_behind_start(anchored, tokens, 1);
    match search_outcome(anchored, tokens, 0) {
        SearchOutcome::Found(end) => {
            let next = if end > 1 {
                end
            } else {
                1
            };
            lemma_anchored_scan_behind_start(anchored, tokens, next);
        },
        SearchOutcome::Exhausted => {},
    }
}

} // verus!
