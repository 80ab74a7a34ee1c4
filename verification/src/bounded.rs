//! The search with a repeated character between anchors: the loop of a bounded
//! repetition, explored step by step, and the subjects that it matches.
use vstd::prelude::*;
use crate::anchors::{
    lemma_anchored_scan_behind_start,
    lemma_subject_sentinels,
    pattern_of,
    sentinels_at_ends,
};
use crate::ast::{
    AstModel,
    Unrolled,
    back_edge,
    chain_between,
    graph_between,
    graph_of_pattern,
    lemma_unrolled_next,
    optional_laps,
    required_copies,
    state_count,
    unrolled_between,
};
use crate::common::{END_STATE, START_STATE};
use crate::cond::{CondModel, MatchResult, class_accepts, cond_match};
use crate::progress::{Explored, explores, run_with, visits_grow};
use crate::search::{
    FrameModel,
    SearchModel,
    SearchOutcome,
    available,
    leaves,
    lemma_available_add,
    lemma_available_none,
    lemma_search_outcome,
    scan_from,
    search_outcome,
    search_run,
    search_start,
    search_step,
    try_transition,
    try_transitions,
    visits_of,
};
use crate::shape::lemma_unrolled_within;
use crate::token::{Token, tokens_of};
use crate::transition::{CaptureGroupInstruction, TransitionModel};

verus! {

/// Whether a condition asks for one character.
pub open spec fn asks_one_char(cond: CondModel) -> bool {
    cond is Char || cond is AnyChar || cond is CharGroup
}

/// Whether a condition that asks for one character takes the character `c`.
pub open spec fn takes(cond: CondModel, c: char) -> bool {
    match cond {
        CondModel::Char(l) => l.accepts(c),
        CondModel::AnyChar => true,
        CondModel::CharGroup { chars, is_negated } => class_accepts(chars, c) != is_negated,
        _ => false,
    }
}

/// Whether the token at `pos` is a character that the condition takes.
pub open spec fn taken_at(tokens: Seq<Token>, cond: CondModel, pos: int) -> bool {
    0 <= pos < tokens.len() && tokens[pos] is Char && takes(cond, tokens[pos]->Char_0)
}

/// Whether the token at `pos` is the end sentinel.
pub open spec fn end_at(tokens: Seq<Token>, pos: int) -> bool {
    0 <= pos < tokens.len() && tokens[pos] == Token::End
}

/// Where a branch that stands at `pos` in front of the body of a loop finds the end
/// state, with `laps` laps of the loop left: the body takes the token at `pos`, and the
/// branch behind it finds the end state.
pub open spec fn body_finds(tokens: Seq<Token>, cond: CondModel, pos: int, laps: nat) -> Option<
    int,
>
    decreases tokens.len() - pos, 0nat,
{
    if taken_at(tokens, cond, pos) {
        loop_end_finds(tokens, cond, pos + 1, laps)
    } else {
        None
    }
}

/// Where a branch that stands at `pos` behind the body of a loop finds the end state,
/// with `laps` laps left: by another lap where one is left and leads there, else by
/// leaving the loop where the end sentinel follows.
pub open spec fn loop_end_finds(tokens: Seq<Token>, cond: CondModel, pos: int, laps: nat)
    -> Option<int>
    decreases tokens.len() - pos, 1nat,
{
    if laps > 0 && body_finds(tokens, cond, pos, (laps - 1) as nat) is Some {
        body_finds(tokens, cond, pos, (laps - 1) as nat)
    } else if end_at(tokens, pos) {
        Some(pos + 1)
    } else {
        None
    }
}

/// How many laps are left at the state `loop_end`, whose capped edge allows `cap`.
pub open spec fn laps_left(visits: Map<u64, u64>, loop_end: u64, cap: u64) -> nat {
    if visits_of(visits, loop_end) < cap {
        (cap - visits_of(visits, loop_end)) as nat
    } else {
        0
    }
}

/// Whether the graph holds a loop over one character that is left into the end
/// sentinel: out of `loop_start` leads the body alone, out of `loop_end` the capped
/// edge back and behind it the edge to `exit`, and out of `exit` the edge that asks
/// for the end sentinel alone.
pub open spec fn holds_char_loop(
    graph: Seq<TransitionModel>,
    cond: CondModel,
    cap: u64,
    loop_start: u64,
    loop_end: u64,
    exit: u64,
) -> bool {
    &&& asks_one_char(cond)
    &&& loop_start != END_STATE
    &&& loop_end != END_STATE
    &&& exit != END_STATE
    &&& available(graph, loop_start) == seq![TransitionModel::on(loop_start, loop_end, cond)]
    &&& available(graph, loop_end) == seq![
        back_edge(loop_end, loop_start, Some(cap)),
        TransitionModel::epsilon(loop_end, exit),
    ]
    &&& available(graph, exit) == seq![TransitionModel::on(exit, END_STATE, CondModel::End)]
}

/// A step of the search and what exploring behind it comes to make what exploring in
/// front of it comes to.
pub proof fn lemma_explores_step(
    graph: Seq<TransitionModel>,
    tokens: Seq<Token>,
    before: SearchModel,
    after: SearchModel,
    below: Seq<FrameModel>,
    inner: Explored,
)
    requires
        before.stack.len() > 0,
        before.stack.last().state != END_STATE,
        search_step(graph, tokens, before) == Some(after),
        visits_grow(before.visits, after.visits),
        explores(graph, tokens, after, below, inner),
    ensures
        explores(graph, tokens, before, below, Explored { fuel: inner.fuel + 1, ..inner }),
{
    let result = Explored { fuel: inner.fuel + 1, ..inner };
    assert forall|extra: nat|
        run_with(graph, tokens, before, result.fuel, extra) == #[trigger] run_with(
            graph,
            tokens,
            after,
            inner.fuel,
            extra,
        ) by {
        assert(search_run(graph, tokens, before, (inner.fuel + 1 + extra) as nat) == search_run(
            graph,
            tokens,
            after,
            (inner.fuel + extra) as nat,
        ));
    }
    if inner.found is None {
        assert forall|state: u64|
            visits_of(before.visits, state) <= #[trigger] visits_of(inner.visits, state) by {
            assert(visits_of(before.visits, state) <= visits_of(after.visits, state));
            assert(visits_of(after.visits, state) <= visits_of(inner.visits, state));
        }
        assert forall|extra: nat| #[trigger]
            run_with(graph, tokens, before, result.fuel, extra) == search_run(
                graph,
                tokens,
                SearchModel {
                    stack: below,
                    visits: result.visits,
                    next_loop_id: result.next_loop_id,
                },
                extra,
            ) by {
            assert(run_with(graph, tokens, before, result.fuel, extra) == run_with(
                graph,
                tokens,
                after,
                inner.fuel,
                extra,
            ));
        }
    } else {
        assert forall|extra: nat| #[trigger]
            run_with(graph, tokens, before, result.fuel, extra) == Some(
                SearchOutcome::Found(inner.found->0),
            ) by {
            assert(run_with(graph, tokens, before, result.fuel, extra) == run_with(
                graph,
                tokens,
                after,
                inner.fuel,
                extra,
            ));
        }
    }
}

/// Exploring some branches without finding the end state, and then the branches below
/// them, comes to what exploring all of them comes to.
pub proof fn lemma_explores_then(
    graph: Seq<TransitionModel>,
    tokens: Seq<Token>,
    before: SearchModel,
    middle: Seq<FrameModel>,
    below: Seq<FrameModel>,
    first: Explored,
    second: Explored,
)
    requires
        explores(graph, tokens, before, middle, first),
        first.found is None,
        explores(
            graph,
            tokens,
            SearchModel {
                stack: middle,
                visits: first.visits,
                next_loop_id: first.next_loop_id,
            },
            below,
            second,
        ),
    ensures
        explores(
            graph,
            tokens,
            before,
            below,
            Explored { fuel: first.fuel + second.fuel, ..second },
        ),
{
    let result = Explored { fuel: first.fuel + second.fuel, ..second };
    let mid = SearchModel {
        stack: middle,
        visits: first.visits,
        next_loop_id: first.next_loop_id,
    };
    assert forall|extra: nat|
        run_with(graph, tokens, before, result.fuel, extra) == #[trigger] run_with(
            graph,
            tokens,
            mid,
            second.fuel,
            extra,
        ) by {
        assert(run_with(graph, tokens, before, first.fuel, second.fuel + extra) == search_run(
            graph,
            tokens,
            mid,
            second.fuel + extra,
        ));
        assert(first.fuel + (second.fuel + extra) == first.fuel + second.fuel + extra);
    }
    if second.found is None {
        assert forall|state: u64|
            visits_of(before.visits, state) <= #[trigger] visits_of(second.visits, state) by {
            assert(visits_of(before.visits, state) <= visits_of(first.visits, state));
            assert(visits_of(first.visits, state) <= visits_of(second.visits, state));
        }
        assert forall|extra: nat| #[trigger]
            run_with(graph, tokens, before, result.fuel, extra) == search_run(
                graph,
                tokens,
                SearchModel {
                    stack: below,
                    visits: result.visits,
                    next_loop_id: result.next_loop_id,
                },
                extra,
            ) by {
            assert(run_with(graph, tokens, before, result.fuel, extra) == run_with(
                graph,
                tokens,
                mid,
                second.fuel,
                extra,
            ));
        }
    } else {
        assert forall|extra: nat| #[trigger]
            run_with(graph, tokens, before, result.fuel, extra) == Some(
                SearchOutcome::Found(second.found->0),
            ) by {
            assert(run_with(graph, tokens, before, result.fuel, extra) == run_with(
                graph,
                tokens,
                mid,
                second.fuel,
                extra,
            ));
        }
    }
}

/// Where the end state was found, it does not matter which branches lay below.
pub proof fn lemma_explores_found(
    graph: Seq<TransitionModel>,
    tokens: Seq<Token>,
    before: SearchModel,
    one: Seq<FrameModel>,
    other: Seq<FrameModel>,
    result: Explored,
)
    requires
        explores(graph, tokens, before, one, result),
        result.found is Some,
    ensures
        explores(graph, tokens, before, other, result),
{
}

/// What one step comes to for a branch whose state has one edge out of it, without a cap
/// and without a capture instruction: the branch behind the edge where its condition
/// holds, and nothing else.
pub proof fn lemma_step_one_edge(
    graph: Seq<TransitionModel>,
    tokens: Seq<Token>,
    below: Seq<FrameModel>,
    frame: FrameModel,
    visits: Map<u64, u64>,
    next_loop_id: u64,
    tr: TransitionModel,
)
    requires
        frame.state != END_STATE,
        available(graph, frame.state) == seq![tr],
        tr.max_use is None,
        tr.capture_group_ins == CaptureGroupInstruction::Keep,
    ensures
        ({
            let before = SearchModel { stack: below.push(frame), visits, next_loop_id };
            let after = search_step(graph, tokens, before);
            &&& after is Some
            &&& after->0.visits == visits
            &&& match cond_match(
                tr.cond,
                tokens.subrange(frame.pos, tokens.len() as int),
                frame.capturer.captures,
            ) {
                MatchResult::Match(step) => after->0.stack.len() == below.len() + 1
                    && after->0.stack.drop_last() == below && after->0.stack.last().pos
                    == frame.pos + step && after->0.stack.last().state == tr.to_state,
                MatchResult::NoMatch => after->0.stack == below,
            }
        }),
{
    let before = SearchModel { stack: below.push(frame), visits, next_loop_id };
    let popped = SearchModel { stack: before.stack.drop_last(), ..before };
    assert(before.stack.drop_last() =~= below);
    let exits = available(graph, frame.state);
    reveal_with_fuel(try_transitions, 2);
    let after = try_transition(graph, tokens, frame, exits[0], popped)->0;
    assert(try_transitions(graph, tokens, frame, exits, 1, popped) == Some(after));
    match cond_match(
        tr.cond,
        tokens.subrange(frame.pos, tokens.len() as int),
        frame.capturer.captures,
    ) {
        MatchResult::Match(step) => {
            assert(after.stack.drop_last() =~= below);
        },
        MatchResult::NoMatch => {},
    }
}

/// Exploring a branch in front of the edge that asks for the end sentinel finds the end
/// state behind that sentinel, where it follows.
pub proof fn lemma_explore_exit(
    graph: Seq<TransitionModel>,
    tokens: Seq<Token>,
    below: Seq<FrameModel>,
    frame: FrameModel,
    visits: Map<u64, u64>,
    next_loop_id: u64,
) -> (result: Explored)
    requires
        frame.state != END_STATE,
        0 <= frame.pos <= tokens.len(),
        available(graph, frame.state) == seq![
            TransitionModel::on(frame.state, END_STATE, CondModel::End),
        ],
    ensures
        explores(
            graph,
            tokens,
            SearchModel { stack: below.push(frame), visits, next_loop_id },
            below,
            result,
        ),
        result.found == if end_at(tokens, frame.pos) {
            Some(frame.pos + 1)
        } else {
            None
        },
{
    let tr = TransitionModel::on(frame.state, END_STATE, CondModel::End);
    let before = SearchModel { stack: below.push(frame), visits, next_loop_id };
    lemma_step_one_edge(graph, tokens, below, frame, visits, next_loop_id, tr);
    let after = search_step(graph, tokens, before)->0;
    let rest = tokens.subrange(frame.pos, tokens.len() as int);
    if frame.pos < tokens.len() {
        assert(rest[0] == tokens[frame.pos]);
    }
    if end_at(tokens, frame.pos) {
        let inner = Explored {
            fuel: 0,
            found: Some(frame.pos + 1),
            visits,
            next_loop_id: after.next_loop_id,
        };
        assert forall|extra: nat| #[trigger]
            run_with(graph, tokens, after, 0, extra) == Some(
                SearchOutcome::Found(frame.pos + 1),
            ) by {}
        lemma_explores_step(graph, tokens, before, after, below, inner);
        Explored { fuel: 1, ..inner }
    } else {
        let inner = Explored { fuel: 0, found: None, visits, next_loop_id: after.next_loop_id };
        assert forall|extra: nat| #[trigger]
            run_with(graph, tokens, after, 0, extra) == search_run(
                graph,
                tokens,
                SearchModel { stack: below, visits, next_loop_id: after.next_loop_id },
                extra,
            ) by {}
        lemma_explores_step(graph, tokens, before, after, below, inner);
        Explored { fuel: 1, ..inner }
    }
}

/// Exploring a branch in front of the body of the loop finds the end state where
/// `body_finds` says.
pub proof fn lemma_explore_body(
    graph: Seq<TransitionModel>,
    tokens: Seq<Token>,
    cond: CondModel,
    cap: u64,
    loop_start: u64,
    loop_end: u64,
    exit: u64,
    below: Seq<FrameModel>,
    frame: FrameModel,
    visits: Map<u64, u64>,
    next_loop_id: u64,
) -> (result: Explored)
    requires
        holds_char_loop(graph, cond, cap, loop_start, loop_end, exit),
        frame.state == loop_start,
        0 <= frame.pos <= tokens.len(),
    ensures
        explores(
            graph,
            tokens,
            SearchModel { stack: below.push(frame), visits, next_loop_id },
            below,
            result,
        ),
        result.found == body_finds(tokens, cond, frame.pos, laps_left(visits, loop_end, cap)),
    decreases tokens.len() - frame.pos, 0nat,
{
    let tr = TransitionModel::on(loop_start, loop_end, cond);
    let before = SearchModel { stack: below.push(frame), visits, next_loop_id };
    lemma_step_one_edge(graph, tokens, below, frame, visits, next_loop_id, tr);
    let after = search_step(graph, tokens, before)->0;
    let rest = tokens.subrange(frame.pos, tokens.len() as int);
    if frame.pos < tokens.len() {
        assert(rest[0] == tokens[frame.pos]);
    }
    if taken_at(tokens, cond, frame.pos) {
        let child = after.stack.last();
        assert(after.stack =~= below.push(child));
        let inner = lemma_explore_loop_end(
            graph,
            tokens,
            cond,
            cap,
            loop_start,
            loop_end,
            exit,
            below,
            child,
            visits,
            after.next_loop_id,
        );
        lemma_explores_step(graph, tokens, before, after, below, inner);
        Explored { fuel: inner.fuel + 1, ..inner }
    } else {
        assert(cond_match(cond, rest, frame.capturer.captures) == MatchResult::NoMatch);
        let inner = Explored { fuel: 0, found: None, visits, next_loop_id: after.next_loop_id };
        assert forall|extra: nat| #[trigger]
            run_with(graph, tokens, after, 0, extra) == search_run(
                graph,
                tokens,
                SearchModel { stack: below, visits, next_loop_id: after.next_loop_id },
                extra,
            ) by {}
        lemma_explores_step(graph, tokens, before, after, below, inner);
        Explored { fuel: 1, ..inner }
    }
}

/// Exploring a branch behind the body of the loop finds the end state where
/// `loop_end_finds` says.
pub proof fn lemma_explore_loop_end(
    graph: Seq<TransitionModel>,
    tokens: Seq<Token>,
    cond: CondModel,
    cap: u64,
    loop_start: u64,
    loop_end: u64,
    exit: u64,
    below: Seq<FrameModel>,
    frame: FrameModel,
    visits: Map<u64, u64>,
    next_loop_id: u64,
) -> (result: Explored)
    requires
        holds_char_loop(graph, cond, cap, loop_start, loop_end, exit),
        frame.state == loop_end,
        0 <= frame.pos <= tokens.len(),
    ensures
        explores(
            graph,
            tokens,
            SearchModel { stack: below.push(frame), visits, next_loop_id },
            below,
            result,
        ),
        result.found == loop_end_finds(
            tokens,
            cond,
            frame.pos,
            laps_left(visits, loop_end, cap),
        ),
    decreases tokens.len() - frame.pos, 1nat,
{
    let back = back_edge(loop_end, loop_start, Some(cap));
    let leave = TransitionModel::epsilon(loop_end, exit);
    let before = SearchModel { stack: below.push(frame), visits, next_loop_id };
    let popped = SearchModel { stack: before.stack.drop_last(), ..before };
    assert(before.stack.drop_last() =~= below);
    let exits = available(graph, loop_end);
    reveal_with_fuel(try_transitions, 3);
    let used = visits_of(visits, loop_end);
    let laps = laps_left(visits, loop_end, cap);
    let left = try_transition(graph, tokens, frame, leave, popped)->0;
    assert(exits[1] == leave);
    assert(exits[0] == back);
    assert(left.visits == visits);
    let exit_child = left.stack.last();
    assert(left.stack =~= below.push(exit_child));
    let after = try_transition(graph, tokens, frame, back, left)->0;
    assert(search_step(graph, tokens, before) == Some(after));
    if used < cap {
        let back_child = after.stack.last();
        assert(after.stack =~= below.push(exit_child).push(back_child));
        assert(after.visits == visits.insert(loop_end, (used + 1) as u64));
        assert(visits_grow(visits, after.visits));
        assert(laps_left(after.visits, loop_end, cap) == laps - 1);
        let first = lemma_explore_body(
            graph,
            tokens,
            cond,
            cap,
            loop_start,
            loop_end,
            exit,
            below.push(exit_child),
            back_child,
            after.visits,
            after.next_loop_id,
        );
        if first.found is Some {
            lemma_explores_found(graph, tokens, after, below.push(exit_child), below, first);
            lemma_explores_step(graph, tokens, before, after, below, first);
            Explored { fuel: first.fuel + 1, ..first }
        } else {
            let second = lemma_explore_exit(
                graph,
                tokens,
                below,
                exit_child,
                first.visits,
                first.next_loop_id,
            );
            lemma_explores_then(
                graph,
                tokens,
                after,
                below.push(exit_child),
                below,
                first,
                second,
            );
            let inner = Explored { fuel: first.fuel + second.fuel, ..second };
            lemma_explores_step(graph, tokens, before, after, below, inner);
            Explored { fuel: inner.fuel + 1, ..inner }
        }
    } else {
        assert(after == SearchModel { next_loop_id: after.next_loop_id, ..left });
        assert(after.stack =~= below.push(exit_child));
        let inner = lemma_explore_exit(
            graph,
            tokens,
            below,
            exit_child,
            after.visits,
            after.next_loop_id,
        );
        lemma_explores_step(graph, tokens, before, after, below, inner);
        Explored { fuel: inner.fuel + 1, ..inner }
    }
}

/// Where a branch that stands at `pos` in front of `copies` copies of the body and the
/// loop behind them finds the end state: each copy takes one token, then the loop does
/// what `body_finds` says.
pub open spec fn copies_find(
    tokens: Seq<Token>,
    cond: CondModel,
    pos: int,
    copies: nat,
    laps: nat,
) -> Option<int>
    decreases copies,
{
    if copies == 0 {
        body_finds(tokens, cond, pos, laps)
    } else if taken_at(tokens, cond, pos) {
        copies_find(tokens, cond, pos + 1, (copies - 1) as nat, laps)
    } else {
        None
    }
}

/// Whether the condition takes every token from `pos` up to the last token, which is
/// left out.
pub open spec fn all_taken(tokens: Seq<Token>, cond: CondModel, pos: int) -> bool {
    forall|i: int| pos <= i < tokens.len() - 1 ==> taken_at(tokens, cond, i)
}

/// In a stream that ends in the end sentinel and holds it nowhere else, a branch behind
/// the body of the loop finds the end state exactly where the condition takes all
/// tokens up to the sentinel and they are no more than the laps left; and then behind
/// the sentinel.
pub proof fn lemma_loop_end_finds(tokens: Seq<Token>, cond: CondModel, pos: int, laps: nat)
    requires
        sentinels_at_ends(tokens),
        1 <= pos <= tokens.len() - 1,
    ensures
        loop_end_finds(tokens, cond, pos, laps) is Some <==> all_taken(tokens, cond, pos)
            && tokens.len() - 1 - pos <= laps,
        loop_end_finds(tokens, cond, pos, laps) is Some ==> loop_end_finds(
            tokens,
            cond,
            pos,
            laps,
        ) == Some(tokens.len() as int),
    decreases tokens.len() - pos, 1nat,
{
    assert(tokens[tokens.len() - 1] == Token::End);
    if pos < tokens.len() - 1 {
        assert(tokens[pos] != Token::End);
        if laps > 0 {
            lemma_body_finds(tokens, cond, pos, (laps - 1) as nat);
        }
        if all_taken(tokens, cond, pos) {
            assert(taken_at(tokens, cond, pos));
        }
    }
}

/// The same for a branch in front of the body of the loop: there it takes at least one
/// token, and at most one more than the laps left.
pub proof fn lemma_body_finds(tokens: Seq<Token>, cond: CondModel, pos: int, laps: nat)
    requires
        sentinels_at_ends(tokens),
        1 <= pos <= tokens.len() - 1,
    ensures
        body_finds(tokens, cond, pos, laps) is Some <==> all_taken(tokens, cond, pos) && 1
            <= tokens.len() - 1 - pos <= laps + 1,
        body_finds(tokens, cond, pos, laps) is Some ==> body_finds(tokens, cond, pos, laps)
            == Some(tokens.len() as int),
    decreases tokens.len() - pos, 0nat,
{
    assert(tokens[tokens.len() - 1] == Token::End);
    if taken_at(tokens, cond, pos) {
        lemma_loop_end_finds(tokens, cond, pos + 1, laps);
        if all_taken(tokens, cond, pos + 1) {
            assert forall|i: int| pos <= i < tokens.len() - 1 implies taken_at(tokens, cond, i) by {
                if i > pos {
                    assert(taken_at(tokens, cond, i));
                }
            }
        }
        if all_taken(tokens, cond, pos) {
            assert forall|i: int| pos + 1 <= i < tokens.len() - 1 implies taken_at(
                tokens,
                cond,
                i,
            ) by {}
        }
    } else {
        if pos < tokens.len() - 1 && all_taken(tokens, cond, pos) {
            assert(taken_at(tokens, cond, pos));
        }
    }
}

/// The same for a branch in front of `copies` copies of the body and the loop: there it
/// takes at least one token more than there are copies, and at most as many more as
/// there are laps left.
pub proof fn lemma_copies_find(
    tokens: Seq<Token>,
    cond: CondModel,
    pos: int,
    copies: nat,
    laps: nat,
)
    requires
        sentinels_at_ends(tokens),
        1 <= pos <= tokens.len() - 1,
    ensures
        copies_find(tokens, cond, pos, copies, laps) is Some <==> all_taken(tokens, cond, pos)
            && copies + 1 <= tokens.len() - 1 - pos <= copies + 1 + laps,
        copies_find(tokens, cond, pos, copies, laps) is Some ==> copies_find(
            tokens,
            cond,
            pos,
            copies,
            laps,
        ) == Some(tokens.len() as int),
    decreases copies,
{
    assert(tokens[tokens.len() - 1] == Token::End);
    if copies == 0 {
        lemma_body_finds(tokens, cond, pos, laps);
    } else if taken_at(tokens, cond, pos) {
        lemma_copies_find(tokens, cond, pos + 1, (copies - 1) as nat, laps);
        if all_taken(tokens, cond, pos + 1) {
            assert forall|i: int| pos <= i < tokens.len() - 1 implies taken_at(tokens, cond, i) by {
                if i > pos {
                    assert(taken_at(tokens, cond, i));
                }
            }
        }
        if all_taken(tokens, cond, pos) {
            assert forall|i: int| pos + 1 <= i < tokens.len() - 1 implies taken_at(
                tokens,
                cond,
                i,
            ) by {}
        }
    } else {
        if pos < tokens.len() - 1 && all_taken(tokens, cond, pos) {
            assert(taken_at(tokens, cond, pos));
        }
    }
}

/// The node of a condition that asks for one character.
pub open spec fn atom_of(cond: CondModel) -> AstModel {
    match cond {
        CondModel::Char(l) => AstModel::Char(l),
        CondModel::CharGroup { chars, is_negated } => AstModel::CharGroup { is_negated, chars },
        _ => AstModel::AnyChar,
    }
}

/// The graph of such a node is the one edge with the condition.
pub proof fn lemma_atom_graph(cond: CondModel, start: u64, end: u64, next: int)
    requires
        asks_one_char(cond),
    ensures
        graph_between(atom_of(cond), start, end, next).transitions == seq![
            TransitionModel::on(start, end, cond),
        ],
        graph_between(atom_of(cond), start, end, next).next == next,
        state_count(atom_of(cond)) == 0,
{
}

/// The unrolled copies of the node of `cond`.
pub open spec fn copies_of(cond: CondModel, copies: nat, first: u64, second: u64, next: int)
    -> Unrolled {
    unrolled_between(atom_of(cond), copies, first, second, next)
}

/// No edge of unrolled copies of one edge leaves one of the two states that the loop body
/// stands between behind them, and these two are not the same.
pub proof fn lemma_copies_leave_loop_free(
    cond: CondModel,
    copies: nat,
    first: u64,
    second: u64,
    next: int,
)
    requires
        asks_one_char(cond),
        first != second,
        first < next,
        second < next,
        next + copies <= u64::MAX,
    ensures
        ({
            let unrolled = copies_of(cond, copies, first, second, next);
            &&& !leaves(unrolled.transitions, unrolled.inner_start)
            &&& !leaves(unrolled.transitions, unrolled.inner_end)
            &&& unrolled.inner_start != unrolled.inner_end
            &&& (unrolled.inner_start == first || unrolled.inner_start == second || next
                <= unrolled.inner_start < next + copies)
            &&& (unrolled.inner_end == second || next <= unrolled.inner_end < next + copies)
            &&& (copies > 0 ==> unrolled.inner_start != first)
        }),
    decreases copies,
{
    let unrolled = copies_of(cond, copies, first, second, next);
    if copies > 0 {
        lemma_atom_graph(cond, first, second, next);
        let rest = copies_of(cond, (copies - 1) as nat, second, next as u64, next + 1);
        lemma_copies_leave_loop_free(cond, (copies - 1) as nat, second, next as u64, next + 1);
        let edge = TransitionModel::on(first, second, cond);
        assert(unrolled.transitions =~= seq![edge] + rest.transitions);
        assert forall|state: u64|
            state != first && !leaves(rest.transitions, state) implies !leaves(
            unrolled.transitions,
            state,
        ) by {
            if leaves(unrolled.transitions, state) {
                let i = choose|i: int|
                    0 <= i < unrolled.transitions.len() && (
                    #[trigger] unrolled.transitions[i]).from_state == state;
                if i > 0 {
                    assert(rest.transitions[i - 1].from_state == state);
                }
            }
        }
    }
}

/// Exploring a branch in front of unrolled copies of one edge and the loop behind them
/// finds the end state where `copies_find` says.
pub proof fn lemma_explore_copies(
    graph: Seq<TransitionModel>,
    tokens: Seq<Token>,
    cond: CondModel,
    copies: nat,
    first: u64,
    second: u64,
    next: int,
    cap: u64,
    exit: u64,
    below: Seq<FrameModel>,
    frame: FrameModel,
    visits: Map<u64, u64>,
    next_loop_id: u64,
) -> (result: Explored)
    requires
        asks_one_char(cond),
        first != second,
        first < next,
        second < next,
        next + copies <= u64::MAX,
        first != END_STATE,
        second != END_STATE,
        2 <= next,
        forall|state: u64|
            leaves(copies_of(cond, copies, first, second, next).transitions, state) ==> available(
                graph,
                state,
            ) == available(copies_of(cond, copies, first, second, next).transitions, state),
        holds_char_loop(
            graph,
            cond,
            cap,
            copies_of(cond, copies, first, second, next).inner_start,
            copies_of(cond, copies, first, second, next).inner_end,
            exit,
        ),
        frame.state == first,
        0 <= frame.pos <= tokens.len(),
    ensures
        explores(
            graph,
            tokens,
            SearchModel { stack: below.push(frame), visits, next_loop_id },
            below,
            result,
        ),
        result.found == copies_find(
            tokens,
            cond,
            frame.pos,
            copies,
            laps_left(visits, copies_of(cond, copies, first, second, next).inner_end, cap),
        ),
    decreases copies,
{
    let unrolled = copies_of(cond, copies, first, second, next);
    if copies == 0 {
        lemma_explore_body(
            graph,
            tokens,
            cond,
            cap,
            unrolled.inner_start,
            unrolled.inner_end,
            exit,
            below,
            frame,
            visits,
            next_loop_id,
        )
    } else {
        lemma_atom_graph(cond, first, second, next);
        let edge = TransitionModel::on(first, second, cond);
        let rest = copies_of(cond, (copies - 1) as nat, second, next as u64, next + 1);
        assert(unrolled.transitions =~= seq![edge] + rest.transitions);
        assert(unrolled.inner_start == rest.inner_start && unrolled.inner_end == rest.inner_end);
        lemma_unrolled_within(atom_of(cond), (copies - 1) as nat, second, next as u64, next + 1);
        assert((copies - 1) * (state_count(atom_of(cond)) + 1) == copies - 1) by (nonlinear_arith)
            requires
                state_count(atom_of(cond)) == 0,
        ;
        // Out of the first state leads the first copy alone.
        assert(!leaves(rest.transitions, first)) by {
            if leaves(rest.transitions, first) {
                let i = choose|i: int|
                    0 <= i < rest.transitions.len() && (#[trigger] rest.transitions[i]).from_state
                        == first;
            }
        }
        lemma_available_add(seq![edge], rest.transitions, first);
        lemma_available_none(rest.transitions, first);
        reveal_with_fuel(available, 2);
        assert(seq![edge].drop_last() =~= Seq::<TransitionModel>::empty());
        assert(available(seq![edge], first) =~= seq![edge]);
        assert(unrolled.transitions[0] == edge);
        assert(leaves(unrolled.transitions, first));
        assert(available(graph, first) =~= seq![edge]);
        // The states of the other copies have in the graph the edges of these copies.
        assert forall|state: u64| leaves(rest.transitions, state) implies available(graph, state)
            == available(rest.transitions, state) by {
            let i = choose|i: int|
                0 <= i < rest.transitions.len() && (#[trigger] rest.transitions[i]).from_state
                    == state;
            assert(unrolled.transitions[i + 1] == rest.transitions[i]);
            assert(leaves(unrolled.transitions, state));
            lemma_available_add(seq![edge], rest.transitions, state);
            assert(state != first);
            assert(available(seq![edge], state) =~= Seq::<TransitionModel>::empty());
            assert(available(seq![edge], state) + available(rest.transitions, state)
                =~= available(rest.transitions, state));
        }
        let before = SearchModel { stack: below.push(frame), visits, next_loop_id };
        lemma_step_one_edge(graph, tokens, below, frame, visits, next_loop_id, edge);
        let after = search_step(graph, tokens, before)->0;
        let rest_tokens = tokens.subrange(frame.pos, tokens.len() as int);
        if frame.pos < tokens.len() {
            assert(rest_tokens[0] == tokens[frame.pos]);
        }
        if taken_at(tokens, cond, frame.pos) {
            let child = after.stack.last();
            assert(after.stack =~= below.push(child));
            let inner = lemma_explore_copies(
                graph,
                tokens,
                cond,
                (copies - 1) as nat,
                second,
                next as u64,
                next + 1,
                cap,
                exit,
                below,
                child,
                visits,
                after.next_loop_id,
            );
            lemma_explores_step(graph, tokens, before, after, below, inner);
            Explored { fuel: inner.fuel + 1, ..inner }
        } else {
            assert(cond_match(cond, rest_tokens, frame.capturer.captures)
                == MatchResult::NoMatch);
            let inner = Explored {
                fuel: 0,
                found: None,
                visits,
                next_loop_id: after.next_loop_id,
            };
            assert forall|extra: nat| #[trigger]
                run_with(graph, tokens, after, 0, extra) == search_run(
                    graph,
                    tokens,
                    SearchModel { stack: below, visits, next_loop_id: after.next_loop_id },
                    extra,
                ) by {}
            lemma_explores_step(graph, tokens, before, after, below, inner);
            Explored { fuel: 1, ..inner }
        }
    }
}

/// The pattern `^X{min,max}$`, where `X` asks for one character.
pub open spec fn repeat_between_anchors(cond: CondModel, min: u64, max: u64) -> AstModel {
    pattern_of(
        seq![
            AstModel::Start,
            AstModel::Repeat { min: Some(min), max: Some(max), node: Box::new(atom_of(cond)) },
            AstModel::End,
        ],
    )
}

/// The edges of the graph of `^X{min,max}$` in front of the unrolled copies.
pub open spec fn anchored_head() -> Seq<TransitionModel> {
    seq![TransitionModel::on(START_STATE, 2, CondModel::Start), TransitionModel::epsilon(2, 4)]
}

/// The edges of the graph of `^X{min,max}$` behind the unrolled copies.
pub open spec fn anchored_tail(cond: CondModel, cap: u64, loop_start: u64, loop_end: u64) -> Seq<
    TransitionModel,
> {
    seq![
        back_edge(loop_end, loop_start, Some(cap)),
        TransitionModel::on(loop_start, loop_end, cond),
        TransitionModel::epsilon(loop_end, 3),
        TransitionModel::on(3, END_STATE, CondModel::End),
    ]
}

/// The graph of `^X{min,max}$`: the start anchor, the way into the repetition, the
/// unrolled copies, the loop, the way out, and the end anchor.
pub proof fn lemma_anchored_repeat_graph(cond: CondModel, min: u64, max: u64)
    requires
        asks_one_char(cond),
        1 <= min <= max,
    ensures
        ({
            let copies = copies_of(cond, (min - 1) as nat, 4, 5, 6);
            graph_of_pattern(repeat_between_anchors(cond, min, max)) == anchored_head()
                + copies.transitions + anchored_tail(
                cond,
                (max - min) as u64,
                copies.inner_start,
                copies.inner_end,
            )
        }),
{
    let atom = atom_of(cond);
    let repeat = AstModel::Repeat { min: Some(min), max: Some(max), node: Box::new(atom) };
    let items = seq![AstModel::Start, repeat, AstModel::End];
    let copies = copies_of(cond, (min - 1) as nat, 4, 5, 6);
    assert(required_copies(Some(min), Some(max)) == (min - 1) as nat);
    assert(optional_laps(Some(min), Some(max)) == Some((max - min) as u64));
    lemma_unrolled_next(atom, (min - 1) as nat, 4, 5, 6);
    lemma_atom_graph(cond, copies.inner_start, copies.inner_end, copies.next);
    let inner = graph_between(repeat, 2, 3, 4);
    assert(inner.transitions =~= seq![TransitionModel::epsilon(2, 4)] + copies.transitions + seq![
        back_edge(copies.inner_end, copies.inner_start, Some((max - min) as u64)),
        TransitionModel::on(copies.inner_start, copies.inner_end, cond),
        TransitionModel::epsilon(copies.inner_end, 3),
    ]);
    reveal_with_fuel(chain_between, 4);
    assert(items[0] == AstModel::Start);
    assert(items[1] == repeat);
    assert(items[2] == AstModel::End);
    let last = chain_between(items, 2, 3, END_STATE, inner.next);
    assert(last.transitions =~= seq![TransitionModel::on(3, END_STATE, CondModel::End)]);
    let middle = chain_between(items, 1, 2, END_STATE, 3);
    assert(middle.transitions =~= inner.transitions + last.transitions);
    let all = chain_between(items, 0, START_STATE, END_STATE, 2);
    assert(all.transitions =~= seq![TransitionModel::on(START_STATE, 2, CondModel::Start)]
        + middle.transitions);
    let sequence = AstModel::Sequence(items);
    assert(graph_between(sequence, START_STATE, END_STATE, 2) == all);
    assert(graph_between(repeat_between_anchors(cond, min, max), START_STATE, END_STATE, 2)
        == graph_between(sequence, START_STATE, END_STATE, 2));
    assert(all.transitions =~= anchored_head() + copies.transitions + anchored_tail(
        cond,
        (max - min) as u64,
        copies.inner_start,
        copies.inner_end,
    ));
}

/// The law of `lemma_repeated_character_between_anchors` where at least one character
/// is asked for.
proof fn lemma_required_repeat_between_anchors(
    cond: CondModel,
    min: u64,
    max: u64,
    subject: Seq<char>,
)
    requires
        asks_one_char(cond),
        1 <= min <= max,
        min + 5 <= u64::MAX,
        subject.len() + 2 <= usize::MAX,
    ensures
        scan_from(
            graph_of_pattern(repeat_between_anchors(cond, min, max)),
            tokens_of(subject),
            0,
        ) == Some(
            if min <= subject.len() <= max && (forall|i: int|
                0 <= i < subject.len() ==> takes(cond, #[trigger] subject[i])) {
                seq![(0usize, (subject.len() + 2) as usize)]
            } else {
                Seq::<(usize, usize)>::empty()
            },
        ),
{
    let graph = graph_of_pattern(repeat_between_anchors(cond, min, max));
    let tokens = tokens_of(subject);
    let count = (min - 1) as nat;
    let cap = (max - min) as u64;
    let copies = copies_of(cond, count, 4, 5, 6);
    let head = anchored_head();
    let tail = anchored_tail(cond, cap, copies.inner_start, copies.inner_end);
    lemma_anchored_repeat_graph(cond, min, max);
    lemma_copies_leave_loop_free(cond, count, 4, 5, 6);
    lemma_atom_graph(cond, 4, 5, 6);
    assert(count * (state_count(atom_of(cond)) + 1) == count) by (nonlinear_arith)
        requires
            state_count(atom_of(cond)) == 0,
    ;
    lemma_unrolled_within(atom_of(cond), count, 4, 5, 6);
    let loop_start = copies.inner_start;
    let loop_end = copies.inner_end;

    // The transitions that are available in each state.
    reveal_with_fuel(available, 5);
    assert forall|state: u64|
        available(graph, state) == available(head, state) + available(copies.transitions, state)
            + available(tail, state) by {
        lemma_available_add(head + copies.transitions, tail, state);
        lemma_available_add(head, copies.transitions, state);
    }
    assert(head.drop_last() =~= seq![head[0]]);
    assert(head.drop_last().drop_last() =~= Seq::<TransitionModel>::empty());
    assert(tail.drop_last() =~= seq![tail[0], tail[1], tail[2]]);
    assert(tail.drop_last().drop_last() =~= seq![tail[0], tail[1]]);
    assert(tail.drop_last().drop_last().drop_last() =~= seq![tail[0]]);
    assert(tail.drop_last().drop_last().drop_last().drop_last() =~= Seq::<
        TransitionModel,
    >::empty());
    assert forall|state: u64|
        state == START_STATE || state == 2 || state == 3 implies !leaves(
        copies.transitions,
        state,
    ) by {
        if leaves(copies.transitions, state) {
            let i = choose|i: int|
                0 <= i < copies.transitions.len() && (
                #[trigger] copies.transitions[i]).from_state == state;
        }
    }
    lemma_available_none(copies.transitions, START_STATE);
    lemma_available_none(copies.transitions, 2);
    lemma_available_none(copies.transitions, 3);
    lemma_available_none(copies.transitions, loop_start);
    lemma_available_none(copies.transitions, loop_end);
    assert(available(graph, START_STATE) =~= seq![head[0]]);
    assert(available(graph, 2) =~= seq![head[1]]);
    assert(available(graph, 3) =~= seq![tail[3]]);
    assert(available(graph, loop_start) =~= seq![tail[1]]);
    assert(available(graph, loop_end) =~= seq![tail[0], tail[2]]);
    assert(holds_char_loop(graph, cond, cap, loop_start, loop_end, 3));
    assert forall|state: u64| leaves(copies.transitions, state) implies available(graph, state)
        == available(copies.transitions, state) by {
        let i = choose|i: int|
            0 <= i < copies.transitions.len() && (#[trigger] copies.transitions[i]).from_state
                == state;
        assert(available(head, state) =~= Seq::<TransitionModel>::empty());
        assert(available(tail, state) =~= Seq::<TransitionModel>::empty());
        assert(available(head, state) + available(copies.transitions, state) + available(
            tail,
            state,
        ) =~= available(copies.transitions, state));
    }

    // The search from the first token.
    lemma_subject_sentinels(subject);
    let start = search_start(0);
    let frame = start.stack[0];
    let none = Seq::<FrameModel>::empty();
    assert(none.push(frame) =~= start.stack);
    lemma_step_one_edge(graph, tokens, none, frame, start.visits, start.next_loop_id, head[0]);
    let entered = search_step(graph, tokens, start)->0;
    assert(tokens.subrange(0, tokens.len() as int)[0] == tokens[0]);
    let second = entered.stack.last();
    assert(entered.stack =~= none.push(second));
    lemma_step_one_edge(
        graph,
        tokens,
        none,
        second,
        entered.visits,
        entered.next_loop_id,
        head[1],
    );
    let inside = search_step(graph, tokens, entered)->0;
    let third = inside.stack.last();
    assert(inside.stack =~= none.push(third));
    let explored = lemma_explore_copies(
        graph,
        tokens,
        cond,
        count,
        4,
        5,
        6,
        cap,
        3,
        none,
        third,
        inside.visits,
        inside.next_loop_id,
    );
    lemma_explores_step(graph, tokens, entered, inside, none, explored);
    let from_second = Explored { fuel: explored.fuel + 1, ..explored };
    lemma_explores_step(graph, tokens, start, entered, none, from_second);
    let whole = Explored { fuel: from_second.fuel + 1, ..from_second };
    assert(run_with(graph, tokens, start, whole.fuel, 0) == search_run(
        graph,
        tokens,
        start,
        whole.fuel,
    ));
    lemma_search_outcome(graph, tokens, 0, whole.fuel);

    // What it finds.
    assert(laps_left(inside.visits, loop_end, cap) == cap);
    lemma_copies_find(tokens, cond, 1, count, cap as nat);
    let fits = min <= subject.len() <= max && (forall|i: int|
        0 <= i < subject.len() ==> takes(cond, #[trigger] subject[i]));
    assert(all_taken(tokens, cond, 1) <==> (forall|i: int|
        0 <= i < subject.len() ==> takes(cond, #[trigger] subject[i]))) by {
        if all_taken(tokens, cond, 1) {
            assert forall|i: int| 0 <= i < subject.len() implies takes(
                cond,
                #[trigger] subject[i],
            ) by {
                assert(taken_at(tokens, cond, i + 1));
            }
        }
        if forall|i: int| 0 <= i < subject.len() ==> takes(cond, #[trigger] subject[i]) {
            assert forall|i: int| 1 <= i < tokens.len() - 1 implies taken_at(
                tokens,
                cond,
                i,
            ) by {
                assert(takes(cond, subject[i - 1]));
            }
        }
    }
    assert(explored.found is Some <==> fits);
    assert forall|i: int|
        0 <= i < graph.len() && (#[trigger] graph[i]).from_state
            == START_STATE implies graph[i].cond == CondModel::Start by {
        crate::walks::lemma_edge_is_available(graph, START_STATE, i);
    }
    lemma_anchored_scan_behind_start(graph, tokens, 1);
    if fits {
        assert(search_outcome(graph, tokens, 0) == SearchOutcome::Found(tokens.len() as int));
    } else {
        assert(search_outcome(graph, tokens, 0) == SearchOutcome::Exhausted);
    }
}

/// What one step comes to for a branch whose state has two edges out of it that ask for
/// nothing, without caps and without capture instructions: the branches behind the two
/// edges, the one behind the first edge on top.
pub proof fn lemma_step_two_edges(
    graph: Seq<TransitionModel>,
    tokens: Seq<Token>,
    below: Seq<FrameModel>,
    frame: FrameModel,
    visits: Map<u64, u64>,
    next_loop_id: u64,
    first: TransitionModel,
    second: TransitionModel,
)
    requires
        frame.state != END_STATE,
        available(graph, frame.state) == seq![first, second],
        first == TransitionModel::epsilon(frame.state, first.to_state),
        second == TransitionModel::epsilon(frame.state, second.to_state),
    ensures
        ({
            let before = SearchModel { stack: below.push(frame), visits, next_loop_id };
            let after = search_step(graph, tokens, before);
            &&& after is Some
            &&& after->0.visits == visits
            &&& after->0.stack.len() == below.len() + 2
            &&& after->0.stack.drop_last().drop_last() == below
            &&& after->0.stack[below.len() as int].pos == frame.pos
            &&& after->0.stack[below.len() as int].state == second.to_state
            &&& after->0.stack.last().pos == frame.pos
            &&& after->0.stack.last().state == first.to_state
        }),
{
    let before = SearchModel { stack: below.push(frame), visits, next_loop_id };
    let popped = SearchModel { stack: before.stack.drop_last(), ..before };
    assert(before.stack.drop_last() =~= below);
    let exits = available(graph, frame.state);
    reveal_with_fuel(try_transitions, 3);
    let middle = try_transition(graph, tokens, frame, exits[1], popped)->0;
    let after = try_transition(graph, tokens, frame, exits[0], middle)->0;
    assert(try_transitions(graph, tokens, frame, exits, 2, popped) == Some(after));
    assert(after.stack.drop_last().drop_last() =~= below);
}

/// The edges of the graph of `^X{0,max}$` in front of the loop: the start anchor, the
/// way into the repetition, and the way past it.
pub open spec fn optional_head() -> Seq<TransitionModel> {
    seq![
        TransitionModel::on(START_STATE, 2, CondModel::Start),
        TransitionModel::epsilon(2, 4),
        TransitionModel::epsilon(2, 3),
    ]
}

/// The graph of `^X{0,max}$`: the start anchor, the ways into the repetition and past
/// it, the loop, the way out, and the end anchor.
pub proof fn lemma_optional_repeat_graph(cond: CondModel, max: u64)
    requires
        asks_one_char(cond),
        1 <= max,
    ensures
        graph_of_pattern(repeat_between_anchors(cond, 0, max)) == optional_head() + anchored_tail(
            cond,
            (max - 1) as u64,
            4,
            5,
        ),
{
    let atom = atom_of(cond);
    let repeat = AstModel::Repeat { min: Some(0u64), max: Some(max), node: Box::new(atom) };
    let items = seq![AstModel::Start, repeat, AstModel::End];
    let copies = copies_of(cond, 0, 4, 5, 6);
    assert(required_copies(Some(0u64), Some(max)) == 0);
    assert(optional_laps(Some(0u64), Some(max)) == Some((max - 1) as u64));
    lemma_atom_graph(cond, 4, 5, 6);
    let inner = graph_between(repeat, 2, 3, 4);
    assert(inner.transitions =~= seq![
        TransitionModel::epsilon(2, 4),
        TransitionModel::epsilon(2, 3),
        back_edge(5, 4, Some((max - 1) as u64)),
        TransitionModel::on(4, 5, cond),
        TransitionModel::epsilon(5, 3),
    ]);
    reveal_with_fuel(chain_between, 4);
    assert(items[0] == AstModel::Start);
    assert(items[1] == repeat);
    assert(items[2] == AstModel::End);
    let last = chain_between(items, 2, 3, END_STATE, inner.next);
    assert(last.transitions =~= seq![TransitionModel::on(3, END_STATE, CondModel::End)]);
    let middle = chain_between(items, 1, 2, END_STATE, 3);
    assert(middle.transitions =~= inner.transitions + last.transitions);
    let all = chain_between(items, 0, START_STATE, END_STATE, 2);
    assert(all.transitions =~= seq![TransitionModel::on(START_STATE, 2, CondModel::Start)]
        + middle.transitions);
    let sequence = AstModel::Sequence(items);
    assert(graph_between(sequence, START_STATE, END_STATE, 2) == all);
    assert(graph_between(repeat_between_anchors(cond, 0, max), START_STATE, END_STATE, 2)
        == graph_between(sequence, START_STATE, END_STATE, 2));
    assert(all.transitions =~= optional_head() + anchored_tail(cond, (max - 1) as u64, 4, 5));
}

/// Whether the condition takes every character of the subject.
pub open spec fn takes_all(cond: CondModel, subject: Seq<char>) -> bool {
    forall|i: int| 0 <= i < subject.len() ==> takes(cond, #[trigger] subject[i])
}

/// The condition takes every character of a subject exactly where it takes every token
/// between the sentinels.
pub proof fn lemma_takes_all(cond: CondModel, subject: Seq<char>)
    ensures
        all_taken(tokens_of(subject), cond, 1) <==> takes_all(cond, subject),
{
    let tokens = tokens_of(subject);
    lemma_subject_sentinels(subject);
    if all_taken(tokens, cond, 1) {
        assert forall|i: int| 0 <= i < subject.len() implies takes(cond, #[trigger] subject[i]) by {
            assert(taken_at(tokens, cond, i + 1));
        }
    }
    if takes_all(cond, subject) {
        assert forall|i: int| 1 <= i < tokens.len() - 1 implies taken_at(tokens, cond, i) by {
            assert(takes(cond, subject[i - 1]));
        }
    }
}

/// The law of `lemma_repeated_character_between_anchors` where no character need be
/// there and some may.
proof fn lemma_optional_repeat_between_anchors(cond: CondModel, max: u64, subject: Seq<char>)
    requires
        asks_one_char(cond),
        1 <= max,
        subject.len() + 2 <= usize::MAX,
    ensures
        scan_from(
            graph_of_pattern(repeat_between_anchors(cond, 0, max)),
            tokens_of(subject),
            0,
        ) == Some(
            if subject.len() <= max && takes_all(cond, subject) {
                seq![(0usize, (subject.len() + 2) as usize)]
            } else {
                Seq::<(usize, usize)>::empty()
            },
        ),
{
    let graph = graph_of_pattern(repeat_between_anchors(cond, 0, max));
    let tokens = tokens_of(subject);
    let cap = (max - 1) as u64;
    let head = optional_head();
    let tail = anchored_tail(cond, cap, 4, 5);
    lemma_optional_repeat_graph(cond, max);

    // The transitions that are available in each state.
    reveal_with_fuel(available, 5);
    assert forall|state: u64|
        available(graph, state) == available(head, state) + available(tail, state) by {
        lemma_available_add(head, tail, state);
    }
    assert(head.drop_last() =~= seq![head[0], head[1]]);
    assert(head.drop_last().drop_last() =~= seq![head[0]]);
    assert(head.drop_last().drop_last().drop_last() =~= Seq::<TransitionModel>::empty());
    assert(tail.drop_last() =~= seq![tail[0], tail[1], tail[2]]);
    assert(tail.drop_last().drop_last() =~= seq![tail[0], tail[1]]);
    assert(tail.drop_last().drop_last().drop_last() =~= seq![tail[0]]);
    assert(tail.drop_last().drop_last().drop_last().drop_last() =~= Seq::<
        TransitionModel,
    >::empty());
    assert(available(graph, START_STATE) =~= seq![head[0]]);
    assert(available(graph, 2) =~= seq![head[1], head[2]]);
    assert(available(graph, 3) =~= seq![tail[3]]);
    assert(available(graph, 4) =~= seq![tail[1]]);
    assert(available(graph, 5) =~= seq![tail[0], tail[2]]);
    assert(holds_char_loop(graph, cond, cap, 4, 5, 3));

    // The search from the first token: into the loop first, then past it.
    lemma_subject_sentinels(subject);
    let start = search_start(0);
    let frame = start.stack[0];
    let none = Seq::<FrameModel>::empty();
    assert(none.push(frame) =~= start.stack);
    lemma_step_one_edge(graph, tokens, none, frame, start.visits, start.next_loop_id, head[0]);
    let entered = search_step(graph, tokens, start)->0;
    assert(tokens.subrange(0, tokens.len() as int)[0] == tokens[0]);
    let second = entered.stack.last();
    assert(entered.stack =~= none.push(second));
    lemma_step_two_edges(
        graph,
        tokens,
        none,
        second,
        entered.visits,
        entered.next_loop_id,
        head[1],
        head[2],
    );
    let inside = search_step(graph, tokens, entered)->0;
    let past = inside.stack[0];
    let body = inside.stack.last();
    let middle = none.push(past);
    assert(inside.stack =~= middle.push(body));
    let looped = lemma_explore_body(
        graph,
        tokens,
        cond,
        cap,
        4,
        5,
        3,
        middle,
        body,
        inside.visits,
        inside.next_loop_id,
    );
    assert(laps_left(inside.visits, 5, cap) == cap);
    lemma_body_finds(tokens, cond, 1, cap as nat);
    lemma_takes_all(cond, subject);
    let fits = subject.len() <= max && takes_all(cond, subject);
    let explored = if looped.found is Some {
        lemma_explores_found(graph, tokens, inside, middle, none, looped);
        looped
    } else {
        let left = lemma_explore_exit(
            graph,
            tokens,
            none,
            past,
            looped.visits,
            looped.next_loop_id,
        );
        lemma_explores_then(graph, tokens, inside, middle, none, looped, left);
        Explored { fuel: looped.fuel + left.fuel, ..left }
    };
    assert(end_at(tokens, 1) <==> subject.len() == 0);
    assert(explored.found is Some <==> fits);
    assert(explored.found is Some ==> explored.found == Some(tokens.len() as int));
    lemma_explores_step(graph, tokens, entered, inside, none, explored);
    let from_second = Explored { fuel: explored.fuel + 1, ..explored };
    lemma_explores_step(graph, tokens, start, entered, none, from_second);
    let whole = Explored { fuel: from_second.fuel + 1, ..from_second };
    assert(run_with(graph, tokens, start, whole.fuel, 0) == search_run(
        graph,
        tokens,
        start,
        whole.fuel,
    ));
    lemma_search_outcome(graph, tokens, 0, whole.fuel);
    assert forall|i: int|
        0 <= i < graph.len() && (#[trigger] graph[i]).from_state
            == START_STATE implies graph[i].cond == CondModel::Start by {
        crate::walks::lemma_edge_is_available(graph, START_STATE, i);
    }
    lemma_anchored_scan_behind_start(graph, tokens, 1);
    if fits {
        assert(search_outcome(graph, tokens, 0) == SearchOutcome::Found(tokens.len() as int));
    } else {
        assert(search_outcome(graph, tokens, 0) == SearchOutcome::Exhausted);
    }
}

/// The law of `lemma_repeated_character_between_anchors` where no character may be
/// there.
proof fn lemma_no_repeat_between_anchors(cond: CondModel, subject: Seq<char>)
    requires
        asks_one_char(cond),
        subject.len() + 2 <= usize::MAX,
    ensures
        scan_from(
            graph_of_pattern(repeat_between_anchors(cond, 0, 0)),
            tokens_of(subject),
            0,
        ) == Some(
            if subject.len() == 0 {
                seq![(0usize, 2usize)]
            } else {
                Seq::<(usize, usize)>::empty()
            },
        ),
{
    let repeat = AstModel::Repeat {
        min: Some(0u64),
        max: Some(0u64),
        node: Box::new(atom_of(cond)),
    };
    let items = seq![AstModel::Start, repeat, AstModel::End];
    let graph = graph_of_pattern(repeat_between_anchors(cond, 0, 0));
    let tokens = tokens_of(subject);
    let edges = seq![
        TransitionModel::on(START_STATE, 2, CondModel::Start),
        TransitionModel::epsilon(2, 3),
        TransitionModel::on(3, END_STATE, CondModel::End),
    ];
    reveal_with_fuel(chain_between, 4);
    assert(items[0] == AstModel::Start);
    assert(items[1] == repeat);
    assert(items[2] == AstModel::End);
    let inner = graph_between(repeat, 2, 3, 4);
    assert(inner.transitions =~= seq![TransitionModel::epsilon(2, 3)]);
    let last = chain_between(items, 2, 3, END_STATE, inner.next);
    assert(last.transitions =~= seq![TransitionModel::on(3, END_STATE, CondModel::End)]);
    let middle = chain_between(items, 1, 2, END_STATE, 3);
    assert(middle.transitions =~= inner.transitions + last.transitions);
    let all = chain_between(items, 0, START_STATE, END_STATE, 2);
    assert(all.transitions =~= seq![TransitionModel::on(START_STATE, 2, CondModel::Start)]
        + middle.transitions);
    let sequence = AstModel::Sequence(items);
    assert(graph_between(sequence, START_STATE, END_STATE, 2) == all);
    assert(graph_between(repeat_between_anchors(cond, 0, 0), START_STATE, END_STATE, 2)
        == graph_between(sequence, START_STATE, END_STATE, 2));
    assert(graph =~= edges);

    reveal_with_fuel(available, 4);
    assert(edges.drop_last() =~= seq![edges[0], edges[1]]);
    assert(edges.drop_last().drop_last() =~= seq![edges[0]]);
    assert(edges.drop_last().drop_last().drop_last() =~= Seq::<TransitionModel>::empty());
    assert(available(graph, START_STATE) =~= seq![edges[0]]);
    assert(available(graph, 2) =~= seq![edges[1]]);
    assert(available(graph, 3) =~= seq![edges[2]]);

    lemma_subject_sentinels(subject);
    let start = search_start(0);
    let frame = start.stack[0];
    let none = Seq::<FrameModel>::empty();
    assert(none.push(frame) =~= start.stack);
    lemma_step_one_edge(graph, tokens, none, frame, start.visits, start.next_loop_id, edges[0]);
    let entered = search_step(graph, tokens, start)->0;
    assert(tokens.subrange(0, tokens.len() as int)[0] == tokens[0]);
    let second = entered.stack.last();
    assert(entered.stack =~= none.push(second));
    lemma_step_one_edge(
        graph,
        tokens,
        none,
        second,
        entered.visits,
        entered.next_loop_id,
        edges[1],
    );
    let inside = search_step(graph, tokens, entered)->0;
    let third = inside.stack.last();
    assert(inside.stack =~= none.push(third));
    let explored = lemma_explore_exit(
        graph,
        tokens,
        none,
        third,
        inside.visits,
        inside.next_loop_id,
    );
    assert(end_at(tokens, 1) <==> subject.len() == 0);
    lemma_explores_step(graph, tokens, entered, inside, none, explored);
    let from_second = Explored { fuel: explored.fuel + 1, ..explored };
    lemma_explores_step(graph, tokens, start, entered, none, from_second);
    let whole = Explored { fuel: from_second.fuel + 1, ..from_second };
    assert(run_with(graph, tokens, start, whole.fuel, 0) == search_run(
        graph,
        tokens,
        start,
        whole.fuel,
    ));
    lemma_search_outcome(graph, tokens, 0, whole.fuel);
    assert forall|i: int|
        0 <= i < graph.len() && (#[trigger] graph[i]).from_state
            == START_STATE implies graph[i].cond == CondModel::Start by {
        crate::walks::lemma_edge_is_available(graph, START_STATE, i);
    }
    lemma_anchored_scan_behind_start(graph, tokens, 1);
    if subject.len() == 0 {
        assert(search_outcome(graph, tokens, 0) == SearchOutcome::Found(2));
    } else {
        assert(search_outcome(graph, tokens, 0) == SearchOutcome::Exhausted);
    }
}

/// The pattern `^X{min,max}$`, where `X` asks for one character, matches a subject
/// exactly where the subject has at least `min` and at most `max` characters and `X`
/// takes each of them; and then it matches the whole subject.
pub proof fn lemma_repeated_character_between_anchors(
    cond: CondModel,
    min: u64,
    max: u64,
    subject: Seq<char>,
)
    requires
        asks_one_char(cond),
        min <= max,
        min + 5 <= u64::MAX,
        subject.len() + 2 <= usize::MAX,
    ensures
        scan_from(
            graph_of_pattern(repeat_between_anchors(cond, min, max)),
            tokens_of(subject),
            0,
        ) == Some(
            if min <= subject.len() <= max && takes_all(cond, subject) {
                seq![(0usize, (subject.len() + 2) as usize)]
            } else {
                Seq::<(usize, usize)>::empty()
            },
        ),
{
    if min >= 1 {
        lemma_required_repeat_between_anchors(cond, min, max, subject);
    } else if max >= 1 {
        lemma_optional_repeat_between_anchors(cond, max, subject);
    } else {
        lemma_no_repeat_between_anchors(cond, subject);
    }
}

} // verus!
