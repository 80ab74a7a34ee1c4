//! What a backreference consumes along a walk: the text that its group consumed.
use vstd::prelude::*;
use crate::anchors::lemma_subject_sentinels;
use crate::ast::{AstModel, graph_of_pattern};
use crate::common::{END_STATE, START_STATE};
use crate::cond::{CondModel, cond_match, lemma_cond_match_in_bounds};
use crate::prefix::{lemma_graph_cap_free, uncapped};
use crate::search::{scan_from, search_outcome};
use crate::searchable::{
    lemma_searchable_pattern_scans,
    lemma_searchable_pattern_searches,
    pattern_ranges,
    searchable,
};
use crate::token::{Token, chars_of, tokens_of};
use crate::transition::{CaptureGroupInstruction, TransitionModel};
use crate::walks::{
    Place,
    lemma_cap_free_search_is_exact,
    lemma_reported_ranges_are_spanned,
    lemma_scan_reports,
    place_behind,
    spans,
    start_place,
    walks_to_end,
};

verus! {

/// The place behind the first `count` edges of the walk, taken from `place` on; `None`
/// where one of them does not leave the state that the walk has come to, or cannot be
/// taken there.
pub open spec fn place_along(
    graph: Seq<TransitionModel>,
    tokens: Seq<Token>,
    place: Place,
    walk: Seq<int>,
    count: int,
) -> Option<Place>
    decreases count,
{
    if count <= 0 {
        Some(place)
    } else {
        match place_along(graph, tokens, place, walk, count - 1) {
            Some(before) => if count <= walk.len() && 0 <= walk[count - 1] < graph.len()
                && graph[walk[count - 1]].from_state == before.state {
                place_behind(tokens, before, graph[walk[count - 1]])
            } else {
                None
            },
            None => None,
        }
    }
}

/// The characters of two runs of tokens one behind the other.
pub proof fn lemma_chars_of_add(a: Seq<Token>, b: Seq<Token>)
    ensures
        chars_of(a + b) == chars_of(a) + chars_of(b),
    decreases b.len(),
{
    if b.len() == 0 {
        assert(a + b =~= a);
        assert(chars_of(a) + chars_of(b) =~= chars_of(a));
    } else {
        lemma_chars_of_add(a, b.drop_last());
        assert((a + b).drop_last() =~= a + b.drop_last());
        assert((a + b).last() == b.last());
        match b.last() {
            Token::Char(c) => {
                assert(chars_of(a) + chars_of(b.drop_last()).push(c) =~= (chars_of(a) + chars_of(
                    b.drop_last(),
                )).push(c));
            },
            _ => {},
        }
    }
}

/// The characters of a run of tokens that are the characters of `text`, one token each.
pub proof fn lemma_chars_of_text(tokens: Seq<Token>, text: Seq<char>)
    requires
        tokens.len() == text.len(),
        forall|i: int| 0 <= i < text.len() ==> #[trigger] tokens[i] == Token::Char(text[i]),
    ensures
        chars_of(tokens) == text,
    decreases tokens.len(),
{
    if tokens.len() > 0 {
        lemma_chars_of_text(tokens.drop_last(), text.drop_last());
        assert(tokens[tokens.len() - 1] == Token::Char(text[text.len() - 1]));
        assert(text.drop_last().push(text.last()) =~= text);
    } else {
        assert(text =~= Seq::<char>::empty());
    }
}

/// Behind an edge, a place stands no earlier in the stream and not behind its end, and
/// its capturer is sound where it was sound in front of the edge.
pub proof fn lemma_place_behind(tokens: Seq<Token>, place: Place, tr: TransitionModel)
    requires
        0 <= place.pos <= tokens.len(),
        place.capturer.wf(),
        place_behind(tokens, place, tr) is Some,
    ensures
        place.pos <= place_behind(tokens, place, tr)->0.pos <= tokens.len(),
        place_behind(tokens, place, tr)->0.capturer.wf(),
{
    lemma_cond_match_in_bounds(
        tr.cond,
        tokens.subrange(place.pos, tokens.len() as int),
        place.capturer.captures,
    );
    let step = cond_match(
        tr.cond,
        tokens.subrange(place.pos, tokens.len() as int),
        place.capturer.captures,
    )->Match_0;
    let fed = place.capturer.push(tokens.subrange(place.pos, place.pos + step));
    assert(fed.wf());
    match tr.capture_group_ins {
        CaptureGroupInstruction::Start(id) => {
            let out = fed.start(id);
            assert forall|i: int, j: int|
                0 <= i < out.currents.len() && 0 <= j < out.currents.len() && i
                    != j implies out.currents[i] != out.currents[j] by {
                if i == fed.currents.len() {
                    assert(fed.currents[j] != id);
                } else if j == fed.currents.len() {
                    assert(fed.currents[i] != id);
                }
            }
            assert forall|i: int| 0 <= i < out.currents.len() implies out.captures.contains_key(
                #[trigger] out.currents[i],
            ) by {
                if i < fed.currents.len() {
                    assert(fed.captures.contains_key(fed.currents[i]));
                }
            }
        },
        CaptureGroupInstruction::End(id) => {
            let out = fed.end();
            assert forall|i: int| 0 <= i < out.currents.len() implies out.captures.contains_key(
                #[trigger] out.currents[i],
            ) by {
                assert(fed.captures.contains_key(fed.currents[i]));
            }
        },
        CaptureGroupInstruction::Keep => {},
    }
}

/// Along a walk that can be taken, every place stands inside the stream, no earlier
/// than the places before it, and holds a sound capturer.
pub proof fn lemma_places_along(
    graph: Seq<TransitionModel>,
    tokens: Seq<Token>,
    place: Place,
    walk: Seq<int>,
    count: int,
    earlier: int,
)
    requires
        0 <= place.pos <= tokens.len(),
        place.capturer.wf(),
        0 <= earlier <= count,
        place_along(graph, tokens, place, walk, count) is Some,
    ensures
        place_along(graph, tokens, place, walk, earlier) is Some,
        place.pos <= place_along(graph, tokens, place, walk, earlier)->0.pos <= place_along(
            graph,
            tokens,
            place,
            walk,
            count,
        )->0.pos <= tokens.len(),
        place_along(graph, tokens, place, walk, count)->0.capturer.wf(),
    decreases count,
{
    if count > 0 {
        let before = place_along(graph, tokens, place, walk, count - 1)->0;
        if earlier < count {
            lemma_places_along(graph, tokens, place, walk, count - 1, earlier);
        } else {
            lemma_places_along(graph, tokens, place, walk, count - 1, count - 1);
        }
        lemma_place_behind(tokens, before, graph[walk[count - 1]]);
    }
}

/// Whether the edge of that index neither opens nor closes the group `id`.
pub open spec fn leaves_group(graph: Seq<TransitionModel>, edge: int, id: u64) -> bool {
    graph[edge].capture_group_ins != CaptureGroupInstruction::Start(id)
        && graph[edge].capture_group_ins != CaptureGroupInstruction::End(id)
}

/// While a group stays open along a walk, its text is what the walk has consumed since
/// the group was opened.
pub proof fn lemma_open_group_collects(
    graph: Seq<TransitionModel>,
    tokens: Seq<Token>,
    place: Place,
    walk: Seq<int>,
    id: u64,
    opened: int,
    count: int,
)
    requires
        0 <= place.pos <= tokens.len(),
        place.capturer.wf(),
        0 <= opened < count,
        place_along(graph, tokens, place, walk, count) is Some,
        graph[walk[opened]].capture_group_ins == CaptureGroupInstruction::Start(id),
        forall|k: int| opened < k < count ==> leaves_group(graph, #[trigger] walk[k], id),
    ensures
        ({
            let from = place_along(graph, tokens, place, walk, opened + 1)->0;
            let here = place_along(graph, tokens, place, walk, count)->0;
            &&& here.capturer.currents.contains(id)
            &&& here.capturer.captures.contains_key(id)
            &&& here.capturer.captures[id] == chars_of(tokens.subrange(from.pos, here.pos))
        }),
    decreases count,
{
    lemma_places_along(graph, tokens, place, walk, count, opened + 1);
    lemma_places_along(graph, tokens, place, walk, count, count - 1);
    lemma_places_along(graph, tokens, place, walk, count - 1, count - 1);
    let from = place_along(graph, tokens, place, walk, opened + 1)->0;
    let before = place_along(graph, tokens, place, walk, count - 1)->0;
    let here = place_along(graph, tokens, place, walk, count)->0;
    let tr = graph[walk[count - 1]];
    let step = cond_match(
        tr.cond,
        tokens.subrange(before.pos, tokens.len() as int),
        before.capturer.captures,
    )->Match_0;
    let consumed = tokens.subrange(before.pos, before.pos + step);
    let fed = before.capturer.push(consumed);
    if count == opened + 1 {
        assert(here.capturer == fed.start(id));
        assert(here.capturer.currents[fed.currents.len() as int] == id);
        assert(tokens.subrange(from.pos, here.pos) =~= Seq::<Token>::empty());
    } else {
        lemma_open_group_collects(graph, tokens, place, walk, id, opened, count - 1);
        lemma_places_along(graph, tokens, place, walk, count - 1, opened + 1);
        assert(leaves_group(graph, walk[count - 1], id));
        lemma_chars_of_add(tokens.subrange(from.pos, before.pos), consumed);
        assert(tokens.subrange(from.pos, before.pos) + consumed =~= tokens.subrange(
            from.pos,
            here.pos,
        ));
        let w = choose|w: int|
            0 <= w < before.capturer.currents.len() && before.capturer.currents[w] == id;
        assert(fed.currents[w] == id);
        match tr.capture_group_ins {
            CaptureGroupInstruction::Start(other) => {
                assert(here.capturer.currents[w] == id);
            },
            CaptureGroupInstruction::End(other) => {
                assert(w < fed.currents.len() - 1);
                assert(here.capturer.currents[w] == id);
            },
            CaptureGroupInstruction::Keep => {},
        }
    }
}

/// Once a group is closed, its text stays as long as the walk does not open it again.
pub proof fn lemma_closed_group_keeps(
    graph: Seq<TransitionModel>,
    tokens: Seq<Token>,
    place: Place,
    walk: Seq<int>,
    id: u64,
    closed: int,
    count: int,
)
    requires
        0 <= place.pos <= tokens.len(),
        place.capturer.wf(),
        0 <= closed < count,
        place_along(graph, tokens, place, walk, count) is Some,
        graph[walk[closed]].capture_group_ins == CaptureGroupInstruction::End(id),
        forall|k: int|
            closed < k < count ==> graph[#[trigger] walk[k]].capture_group_ins
                != CaptureGroupInstruction::Start(id),
    ensures
        ({
            let behind = place_along(graph, tokens, place, walk, closed + 1)->0;
            let here = place_along(graph, tokens, place, walk, count)->0;
            &&& !here.capturer.currents.contains(id)
            &&& behind.capturer.captures.contains_key(id)
                ==> here.capturer.captures.contains_key(id) && here.capturer.captures[id]
                == behind.capturer.captures[id]
        }),
    decreases count,
{
    lemma_places_along(graph, tokens, place, walk, count, closed + 1);
    lemma_places_along(graph, tokens, place, walk, count, count - 1);
    lemma_places_along(graph, tokens, place, walk, count - 1, count - 1);
    let before = place_along(graph, tokens, place, walk, count - 1)->0;
    let here = place_along(graph, tokens, place, walk, count)->0;
    let tr = graph[walk[count - 1]];
    let step = cond_match(
        tr.cond,
        tokens.subrange(before.pos, tokens.len() as int),
        before.capturer.captures,
    )->Match_0;
    let consumed = tokens.subrange(before.pos, before.pos + step);
    let fed = before.capturer.push(consumed);
    if count == closed + 1 {
        assert(here.capturer == fed.end());
        assert(fed.currents.no_duplicates());
        if here.capturer.currents.contains(id) {
            let w = choose|w: int|
                0 <= w < here.capturer.currents.len() && here.capturer.currents[w] == id;
            assert(fed.currents[w] == id);
            assert(fed.currents[fed.currents.len() - 1] == id);
        }
    } else {
        lemma_closed_group_keeps(graph, tokens, place, walk, id, closed, count - 1);
        lemma_places_along(graph, tokens, place, walk, count - 1, closed + 1);
        assert(graph[walk[count - 1]].capture_group_ins != CaptureGroupInstruction::Start(id));
        match tr.capture_group_ins {
            CaptureGroupInstruction::Start(other) => {
                if here.capturer.currents.contains(id) {
                    let w = choose|w: int|
                        0 <= w < here.capturer.currents.len() && here.capturer.currents[w] == id;
                    if w < fed.currents.len() {
                        assert(fed.currents[w] == id);
                    }
                }
            },
            CaptureGroupInstruction::End(other) => {
                if here.capturer.currents.contains(id) {
                    let w = choose|w: int|
                        0 <= w < here.capturer.currents.len() && here.capturer.currents[w] == id;
                    assert(fed.currents[w] == id);
                }
            },
            CaptureGroupInstruction::Keep => {},
        }
    }
}

/// A backreference repeats what its group consumed. Along a walk that can be taken: where
/// the edge `opened` opens the group `id`, the edge `closed` closes it with no edge
/// between them that opens or closes it, and the edge `referred` behind them asks for
/// the text of the group with no edge in between that opens it, the tokens that this
/// edge consumes are characters, and they are the characters that the walk consumed
/// from behind the edge `opened` up to behind the edge `closed`.
pub proof fn lemma_backreference_repeats_group(
    graph: Seq<TransitionModel>,
    tokens: Seq<Token>,
    place: Place,
    walk: Seq<int>,
    id: u64,
    opened: int,
    closed: int,
    referred: int,
)
    requires
        0 <= place.pos <= tokens.len(),
        tokens.len() <= usize::MAX,
        place.capturer.wf(),
        0 <= opened < closed < referred < walk.len(),
        place_along(graph, tokens, place, walk, referred + 1) is Some,
        graph[walk[opened]].capture_group_ins == CaptureGroupInstruction::Start(id),
        graph[walk[closed]].capture_group_ins == CaptureGroupInstruction::End(id),
        graph[walk[referred]].cond == CondModel::CaptureRef(id),
        forall|k: int| opened < k < closed ==> leaves_group(graph, #[trigger] walk[k], id),
        forall|k: int|
            closed < k < referred ==> graph[#[trigger] walk[k]].capture_group_ins
                != CaptureGroupInstruction::Start(id),
    ensures
        ({
            let group_from = place_along(graph, tokens, place, walk, opened + 1)->0.pos;
            let group_to = place_along(graph, tokens, place, walk, closed + 1)->0.pos;
            let from = place_along(graph, tokens, place, walk, referred)->0.pos;
            let to = place_along(graph, tokens, place, walk, referred + 1)->0.pos;
            &&& 0 <= group_from <= group_to <= from <= to <= tokens.len()
            &&& forall|i: int| from <= i < to ==> #[trigger] tokens[i] is Char
            &&& chars_of(tokens.subrange(from, to)) == chars_of(
                tokens.subrange(group_from, group_to),
            )
        }),
{
    lemma_places_along(graph, tokens, place, walk, referred + 1, referred);
    lemma_places_along(graph, tokens, place, walk, referred, closed + 1);
    lemma_places_along(graph, tokens, place, walk, referred, referred);
    lemma_places_along(graph, tokens, place, walk, closed + 1, closed);
    lemma_places_along(graph, tokens, place, walk, closed + 1, opened + 1);
    lemma_places_along(graph, tokens, place, walk, closed, opened + 1);
    lemma_places_along(graph, tokens, place, walk, closed, closed);
    let group_from = place_along(graph, tokens, place, walk, opened + 1)->0;
    let at_close = place_along(graph, tokens, place, walk, closed)->0;
    let group_to = place_along(graph, tokens, place, walk, closed + 1)->0;
    let here = place_along(graph, tokens, place, walk, referred)->0;
    let behind = place_along(graph, tokens, place, walk, referred + 1)->0;

    // What the group holds when it is closed.
    let closing = graph[walk[closed]];
    let close_step = cond_match(
        closing.cond,
        tokens.subrange(at_close.pos, tokens.len() as int),
        at_close.capturer.captures,
    )->Match_0;
    let close_consumed = tokens.subrange(at_close.pos, at_close.pos + close_step);
    if closed == opened + 1 {
        assert(at_close == group_from);
        let opening = graph[walk[opened]];
        lemma_places_along(graph, tokens, place, walk, opened + 1, opened);
        let at_open = place_along(graph, tokens, place, walk, opened)->0;
        let open_step = cond_match(
            opening.cond,
            tokens.subrange(at_open.pos, tokens.len() as int),
            at_open.capturer.captures,
        )->Match_0;
        let fed = at_open.capturer.push(tokens.subrange(at_open.pos, at_open.pos + open_step));
        assert(at_close.capturer == fed.start(id));
        assert(at_close.capturer.currents[fed.currents.len() as int] == id);
        assert(tokens.subrange(group_from.pos, at_close.pos) =~= Seq::<Token>::empty());
    } else {
        lemma_open_group_collects(graph, tokens, place, walk, id, opened, closed);
    }
    lemma_chars_of_add(tokens.subrange(group_from.pos, at_close.pos), close_consumed);
    assert(tokens.subrange(group_from.pos, at_close.pos) + close_consumed =~= tokens.subrange(
        group_from.pos,
        group_to.pos,
    ));
    let text = chars_of(tokens.subrange(group_from.pos, group_to.pos));
    assert(group_to.capturer.captures.contains_key(id));
    assert(group_to.capturer.captures[id] == text);

    // It still holds that when the edge refers to it.
    if referred > closed + 1 {
        lemma_closed_group_keeps(graph, tokens, place, walk, id, closed, referred);
    }
    assert(here.capturer.captures[id] == text);

    // The edge consumes just that.
    let referring = graph[walk[referred]];
    let rest = tokens.subrange(here.pos, tokens.len() as int);
    let consumed = tokens.subrange(here.pos, behind.pos);
    assert(behind.pos == here.pos + text.len());
    assert forall|i: int| 0 <= i < text.len() implies #[trigger] consumed[i] == Token::Char(
        text[i],
    ) by {
        assert(rest[i] == Token::Char(text[i]));
    }
    lemma_chars_of_text(consumed, text);
    assert forall|i: int| here.pos <= i < behind.pos implies #[trigger] tokens[i] is Char by {
        assert(consumed[i - here.pos] == Token::Char(text[i - here.pos]));
    }
}

/// A walk that starts with the edge `first` comes, behind that edge, to the places that
/// the rest of the walk comes to from the place behind the edge.
pub proof fn lemma_place_along_first(
    graph: Seq<TransitionModel>,
    tokens: Seq<Token>,
    place: Place,
    first: int,
    rest: Seq<int>,
    count: int,
)
    requires
        0 <= first < graph.len(),
        graph[first].from_state == place.state,
        place_behind(tokens, place, graph[first]) is Some,
        0 <= count <= rest.len(),
    ensures
        place_along(graph, tokens, place, seq![first] + rest, count + 1) == place_along(
            graph,
            tokens,
            place_behind(tokens, place, graph[first])->0,
            rest,
            count,
        ),
    decreases count,
{
    let walk = seq![first] + rest;
    if count == 0 {
        assert(walk[0] == first);
        assert(place_along(graph, tokens, place, walk, 0) == Some(place));
    } else {
        lemma_place_along_first(graph, tokens, place, first, rest, count - 1);
        assert(walk[count] == rest[count - 1]);
    }
}

/// Where a place reaches the end state, a list of edges says how: a walk that can be
/// taken from the place and ends in the end state in front of the token `end`.
pub proof fn lemma_walk_exists(
    graph: Seq<TransitionModel>,
    tokens: Seq<Token>,
    place: Place,
    end: int,
    steps: nat,
) -> (walk: Seq<int>)
    requires
        walks_to_end(graph, tokens, place, end, steps),
    ensures
        place_along(graph, tokens, place, walk, walk.len() as int) is Some,
        place_along(graph, tokens, place, walk, walk.len() as int)->0.state == END_STATE,
        place_along(graph, tokens, place, walk, walk.len() as int)->0.pos == end,
    decreases steps,
{
    if place.state == END_STATE && place.pos == end {
        Seq::empty()
    } else {
        let i = choose|i: int|
            0 <= i < graph.len() && (#[trigger] graph[i]).from_state == place.state && place_behind(
                tokens,
                place,
                graph[i],
            ) is Some && walks_to_end(
                graph,
                tokens,
                place_behind(tokens, place, graph[i])->0,
                end,
                (steps - 1) as nat,
            );
        let child = place_behind(tokens, place, graph[i])->0;
        let rest = lemma_walk_exists(graph, tokens, child, end, (steps - 1) as nat);
        lemma_place_along_first(graph, tokens, place, i, rest, rest.len() as int);
        seq![i] + rest
    }
}

/// Whether, in the walk, the edge `referred` asks for the text of the group `id` that
/// the edges `opened` and `closed` in front of it open and close, with no edge between
/// these two that opens or closes the group, and none behind them that opens it again.
pub open spec fn refers_back(
    graph: Seq<TransitionModel>,
    walk: Seq<int>,
    id: u64,
    opened: int,
    closed: int,
    referred: int,
) -> bool {
    &&& 0 <= opened < closed < referred < walk.len()
    &&& graph[walk[opened]].capture_group_ins == CaptureGroupInstruction::Start(id)
    &&& graph[walk[closed]].capture_group_ins == CaptureGroupInstruction::End(id)
    &&& graph[walk[referred]].cond == CondModel::CaptureRef(id)
    &&& forall|k: int| opened < k < closed ==> leaves_group(graph, #[trigger] walk[k], id)
    &&& forall|k: int|
        closed < k < referred ==> graph[#[trigger] walk[k]].capture_group_ins
            != CaptureGroupInstruction::Start(id)
}

/// Whether the edge `referred` of the walk, taken from `place` on, consumes characters
/// alone, and the very characters that the walk consumed from behind the edge `opened`
/// up to behind the edge `closed`.
pub open spec fn repeats_text(
    graph: Seq<TransitionModel>,
    tokens: Seq<Token>,
    place: Place,
    walk: Seq<int>,
    opened: int,
    closed: int,
    referred: int,
) -> bool {
    let group_from = place_along(graph, tokens, place, walk, opened + 1)->0.pos;
    let group_to = place_along(graph, tokens, place, walk, closed + 1)->0.pos;
    let from = place_along(graph, tokens, place, walk, referred)->0.pos;
    let to = place_along(graph, tokens, place, walk, referred + 1)->0.pos;
    &&& 0 <= group_from <= group_to <= from <= to <= tokens.len()
    &&& forall|i: int| from <= i < to ==> #[trigger] tokens[i] is Char
    &&& chars_of(tokens.subrange(from, to)) == chars_of(tokens.subrange(group_from, group_to))
}

/// Every range that a scan reports is spanned by a walk from the start state to the end
/// state in which each backreference consumes the text that its group consumed.
pub proof fn lemma_reported_backreferences_repeat(
    graph: Seq<TransitionModel>,
    tokens: Seq<Token>,
    offset: int,
    k: int,
) -> (walk: Seq<int>)
    requires
        0 <= offset,
        tokens.len() <= usize::MAX,
        scan_from(graph, tokens, offset) is Some,
        0 <= k < scan_from(graph, tokens, offset)->0.len(),
    ensures
        ({
            let range = scan_from(graph, tokens, offset)->0[k];
            let from = start_place(range.0 as int);
            let last = place_along(graph, tokens, from, walk, walk.len() as int);
            &&& last is Some
            &&& last->0.state == END_STATE
            &&& last->0.pos == range.1
            &&& forall|id: u64, opened: int, closed: int, referred: int| #[trigger]
                refers_back(graph, walk, id, opened, closed, referred) ==> repeats_text(
                    graph,
                    tokens,
                    from,
                    walk,
                    opened,
                    closed,
                    referred,
                )
        }),
{
    lemma_reported_ranges_are_spanned(graph, tokens, offset);
    let range = scan_from(graph, tokens, offset)->0[k];
    let from = start_place(range.0 as int);
    assert(spans(graph, tokens, range.0 as int, range.1 as int));
    let steps = choose|steps: nat| walks_to_end(graph, tokens, from, range.1 as int, steps);
    let walk = lemma_walk_exists(graph, tokens, from, range.1 as int, steps);
    assert forall|id: u64, opened: int, closed: int, referred: int| #[trigger]
        refers_back(graph, walk, id, opened, closed, referred) implies repeats_text(
        graph,
        tokens,
        from,
        walk,
        opened,
        closed,
        referred,
    ) by {
        lemma_places_along(graph, tokens, from, walk, walk.len() as int, referred + 1);
        lemma_backreference_repeats_group(graph, tokens, from, walk, id, opened, closed, referred);
    }
    walk
}

/// A searchable pattern without maxima, with its backreferences, matches a subject
/// exactly where a walk through its graph leads from the start state to the end state
/// somewhere in the token stream, each edge taken where its condition holds given what
/// the walk has captured: a backreference where the stream goes on with the text of its
/// group.
pub proof fn lemma_pattern_matches_where_a_walk_leads(node: AstModel, subject: Seq<char>)
    requires
        searchable(node),
        uncapped(node),
        subject.len() + 2 <= usize::MAX,
    ensures
        pattern_ranges(node, tokens_of(subject)).len() > 0 <==> exists|offset: int, end: int|
            0 <= offset < subject.len() + 2 && #[trigger] spans(
                graph_of_pattern(node),
                tokens_of(subject),
                offset,
                end,
            ),
{
    let tokens = tokens_of(subject);
    let graph = graph_of_pattern(node);
    lemma_subject_sentinels(subject);
    lemma_searchable_pattern_scans(node, tokens);
    lemma_graph_cap_free(node, START_STATE, END_STATE, 2);
    lemma_scan_reports(graph, tokens, 0);
    assert forall|offset: int| 0 <= offset < tokens.len() implies (#[trigger] search_outcome(
        graph,
        tokens,
        offset,
    ) is Found <==> exists|end: int| spans(graph, tokens, offset, end)) by {
        lemma_searchable_pattern_searches(node, tokens, offset);
        lemma_cap_free_search_is_exact(graph, tokens, offset);
    }
    if pattern_ranges(node, tokens).len() > 0 {
        let offset = choose|o: int|
            0 <= o < tokens.len() && #[trigger] search_outcome(graph, tokens, o) is Found;
        let end = choose|end: int| spans(graph, tokens, offset, end);
        assert(spans(graph, tokens, offset, end));
    }
    if exists|offset: int, end: int|
        0 <= offset < subject.len() + 2 && #[trigger] spans(graph, tokens, offset, end) {
        let (offset, end) = choose|offset: int, end: int|
            0 <= offset < subject.len() + 2 && #[trigger] spans(graph, tokens, offset, end);
        assert(search_outcome(graph, tokens, offset) is Found);
    }
}

} // verus!
