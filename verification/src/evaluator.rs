//! The depth-first search through a graph of transitions against a token stream.
use vstd::prelude::*;
use std::collections::{HashMap, HashSet};
use crate::capturer::Capturer;
use crate::common::{END_STATE, Incrementer, START_STATE};
use crate::cond::{MatchResult, lemma_cond_match_in_bounds};
use crate::search::{
    FrameModel,
    SearchModel,
    SearchOutcome,
    available,
    has_capped_exit,
    is_loop_start,
    lemma_search_outcome,
    scan_from,
    search_completes,
    search_outcome,
    search_run,
    search_start,
    search_step,
    try_transition,
    try_transitions,
    visits_of,
};
use crate::token::Token;
use crate::transition::{CaptureGroupInstruction, Transition, TransitionModel, graph_of};

verus! {

/// What an evaluation reports.
#[derive(Debug)]
pub enum EvalMatchResult {
    /// No range of the stream matches.
    NoMatch,
    /// The matching ranges, as pairs of token indices, in the order they were found.
    Match { matches: Vec<(usize, usize)> },
}

impl EvalMatchResult {
    /// The ranges that were reported.
    pub open spec fn ranges(&self) -> Seq<(usize, usize)> {
        match self {
            EvalMatchResult::NoMatch => Seq::empty(),
            EvalMatchResult::Match { matches } => matches@,
        }
    }

    /// Whether some range matched.
    pub fn is_match(&self) -> (r: bool)
        ensures
            r == (*self is Match),
    {
        match self {
            Self::Match { .. } => true,
            _ => false,
        }
    }
}

/// One pending branch of a search.
#[derive(Debug)]
pub struct Frame {
    /// Index of the next token.
    pub pos: usize,
    pub loop_id: u64,
    pub state: u64,
    pub capturer: Capturer,
}

impl View for Frame {
    type V = FrameModel;

    open spec fn view(&self) -> FrameModel {
        FrameModel {
            pos: self.pos as int,
            loop_id: self.loop_id,
            state: self.state,
            capturer: self.capturer@,
        }
    }
}

/// The values of a stack of frames.
pub open spec fn frames_of(stack: Seq<Frame>) -> Seq<FrameModel> {
    Seq::new(stack.len(), |i: int| stack[i]@)
}

/// The values of a list of borrowed transitions.
pub open spec fn graph_of_refs(transitions: Seq<&Transition>) -> Seq<TransitionModel> {
    Seq::new(transitions.len(), |i: int| transitions[i]@)
}

/// Whether every branch of the stack stands inside the stream and holds a sound capturer.
pub open spec fn frames_in_bounds(stack: Seq<FrameModel>, len: int) -> bool {
    forall|i: int|
        0 <= i < stack.len() ==> 0 <= (#[trigger] stack[i]).pos <= len && stack[i].capturer.wf()
}

/// Whether `pairs` holds the pair `(from, to)`.
fn holds_pair(pairs: &Vec<(u64, u64)>, from: u64, to: u64) -> (r: bool)
    ensures
        r == pairs@.contains((from, to)),
{
    let mut i: usize = 0;
    while i < pairs.len()
        invariant
            i <= pairs.len(),
            forall|j: int| 0 <= j < i ==> pairs@[j] != (from, to),
        decreases pairs.len() - i,
    {
        if pairs[i].0 == from && pairs[i].1 == to {
            return true;
        }
        i += 1;
    }
    false
}

/// Runs a compiled pattern against token streams.
pub struct Evaluator {
    transitions: Vec<Transition>,
}

impl Evaluator {
    /// The graph that this evaluator runs.
    pub closed spec fn graph(&self) -> Seq<TransitionModel> {
        graph_of(self.transitions@)
    }

    /// An evaluator for the graph that `transitions` lists.
    pub fn new(transitions: Vec<Transition>) -> (r: Self)
        ensures
            r.graph() == graph_of(transitions@),
    {
        Self { transitions }
    }

    /// The transitions that leave `start_state`, in the order of the graph.
    pub fn get_available_transitions(&self, start_state: u64) -> (r: Vec<&Transition>)
        ensures
            graph_of_refs(r@) == available(self.graph(), start_state),
    {
        let mut transitions: Vec<&Transition> = Vec::new();
        let ghost graph = self.graph();
        let mut i: usize = 0;
        assert(graph.subrange(0, 0) =~= Seq::empty());
        assert(graph_of_refs(transitions@) =~= Seq::empty());
        while i < self.transitions.len()
            invariant
                i <= self.transitions.len(),
                graph == self.graph(),
                graph.len() == self.transitions.len(),
                graph_of_refs(transitions@) == available(graph.subrange(0, i as int), start_state),
            decreases self.transitions.len() - i,
        {
            let t = &self.transitions[i];
            proof {
                assert(graph.subrange(0, i + 1).drop_last() =~= graph.subrange(0, i as int));
                assert(graph.subrange(0, i + 1).last() == t@);
            }
            if t.from_state == start_state {
                let ghost before = transitions@;
                transitions.push(t);
                assert(graph_of_refs(transitions@) =~= graph_of_refs(before).push(t@));
            }
            i += 1;
        }
        assert(graph.subrange(0, i as int) =~= graph);
        transitions
    }

    /// The pairs of states between which an edge starts a loop, each once.
    pub fn get_loop_start_transitions(&self) -> (r: Vec<(u64, u64)>)
        ensures
            forall|from: u64, to: u64|
                r@.contains((from, to)) <==> is_loop_start(self.graph(), from, to),
            r@.no_duplicates(),
    {
        broadcast use vstd::std_specs::hash::group_hash_axioms;

        let ghost graph = self.graph();
        let mut loop_start_states: HashSet<u64> = HashSet::new();
        let mut i: usize = 0;
        while i < self.transitions.len()
            invariant
                i <= self.transitions.len(),
                graph == self.graph(),
                graph.len() == self.transitions.len(),
                forall|s: u64|
                    loop_start_states@.contains(s) <==> has_capped_exit(
                        graph.subrange(0, i as int),
                        s,
                    ),
            decreases self.transitions.len() - i,
        {
            let tr = &self.transitions[i];
            let ghost before = loop_start_states@;
            if tr.max_use.is_some() {
                loop_start_states.insert(tr.from_state);
            }
            proof {
                let shorter = graph.subrange(0, i as int);
                let longer = graph.subrange(0, i + 1);
                assert forall|s: u64|
                    loop_start_states@.contains(s) <==> has_capped_exit(longer, s) by {
                    if has_capped_exit(longer, s) {
                        let j = choose|j: int|
                            0 <= j < longer.len() && (#[trigger] longer[j]).max_use is Some
                                && longer[j].from_state == s;
                        if j < i {
                            assert(shorter[j] == longer[j]);
                        }
                    }
                    if before.contains(s) {
                        let j = choose|j: int|
                            0 <= j < shorter.len() && (#[trigger] shorter[j]).max_use is Some
                                && shorter[j].from_state == s;
                        assert(longer[j] == shorter[j]);
                    }
                    if tr.max_use is Some && s == tr.from_state {
                        assert(longer[i as int] == tr@);
                    }
                }
            }
            i += 1;
        }
        assert(graph.subrange(0, i as int) =~= graph);

        let mut loop_start_transitions: Vec<(u64, u64)> = Vec::new();
        let mut i: usize = 0;
        while i < self.transitions.len()
            invariant
                i <= self.transitions.len(),
                graph == self.graph(),
                graph.len() == self.transitions.len(),
                forall|s: u64| loop_start_states@.contains(s) <==> has_capped_exit(graph, s),
                loop_start_transitions@.no_duplicates(),
                forall|from: u64, to: u64|
                    loop_start_transitions@.contains((from, to)) <==> has_capped_exit(graph, to) && (
                    exists|j: int|
                        0 <= j < i && (#[trigger] graph[j]).max_use is None && graph[j].from_state
                            == from && graph[j].to_state == to),
            decreases self.transitions.len() - i,
        {
            let tr = &self.transitions[i];
            let ghost before = loop_start_transitions@;
            assert(graph[i as int] == tr@);
            if tr.max_use.is_none() && loop_start_states.contains(&tr.to_state) {
                if !holds_pair(&loop_start_transitions, tr.from_state, tr.to_state) {
                    loop_start_transitions.push((tr.from_state, tr.to_state));
                }
            }
            proof {
                let after = loop_start_transitions@;
                assert forall|from: u64, to: u64|
                    after.contains((from, to)) <==> has_capped_exit(graph, to) && (exists|j: int|
                        0 <= j < i + 1 && (#[trigger] graph[j]).max_use is None
                            && graph[j].from_state == from && graph[j].to_state == to) by {
                    if after.contains((from, to)) {
                        if before.contains((from, to)) {
                            let j = choose|j: int|
                                0 <= j < i && (#[trigger] graph[j]).max_use is None
                                    && graph[j].from_state == from && graph[j].to_state == to;
                            assert(0 <= j < i + 1);
                        } else {
                            let w = choose|w: int| 0 <= w < after.len() && after[w] == (from, to);
                            if w < before.len() {
                                assert(before[w] == (from, to));
                            }
                            assert((from, to) == (tr.from_state, tr.to_state));
                        }
                    }
                    if has_capped_exit(graph, to) && (exists|j: int|
                        0 <= j < i + 1 && (#[trigger] graph[j]).max_use is None
                            && graph[j].from_state == from && graph[j].to_state == to) {
                        let j = choose|j: int|
                            0 <= j < i + 1 && (#[trigger] graph[j]).max_use is None
                                && graph[j].from_state == from && graph[j].to_state == to;
                        if j < i {
                            assert(before.contains((from, to)));
                            let w = choose|w: int| 0 <= w < before.len() && before[w] == (from, to);
                            assert(after[w] == (from, to));
                        } else {
                            if before.contains((from, to)) {
                                let w = choose|w: int|
                                    0 <= w < before.len() && before[w] == (from, to);
                                assert(after[w] == (from, to));
                            } else {
                                assert(after[after.len() - 1] == (from, to));
                            }
                        }
                    }
                }
            }
            i += 1;
        }
        loop_start_transitions
    }

    /// One search: explores the graph depth first from the start state against the
    /// stream from `offset` on, and returns the index in front of which the end state
    /// was first reached, if it was.
    pub fn search_from(&self, chars: &[Token], offset: usize, loop_starts: &Vec<(u64, u64)>) -> (r:
        Option<usize>)
        requires
            offset <= chars@.len(),
            search_completes(self.graph(), chars@, offset as int),
            forall|from: u64, to: u64|
                loop_starts@.contains((from, to)) <==> is_loop_start(self.graph(), from, to),
        ensures
            match r {
                Some(end) => search_outcome(self.graph(), chars@, offset as int)
                    == SearchOutcome::Found(end as int) && end <= chars@.len(),
                None => search_outcome(self.graph(), chars@, offset as int)
                    == SearchOutcome::Exhausted,
            },
    {
        broadcast use vstd::std_specs::hash::group_hash_axioms;

        let ghost graph = self.graph();
        let ghost tokens = chars@;
        let ghost fuel0 = choose|fuel: nat|
            search_run(graph, tokens, search_start(offset as int), fuel) is Some;
        let ghost target = search_run(graph, tokens, search_start(offset as int), fuel0);
        proof {
            lemma_search_outcome(graph, tokens, offset as int, fuel0);
        }
        let mut visit_counter: HashMap<u64, u64> = HashMap::new();
        let mut id_provider = Incrementer::new();
        let first_id = id_provider.get();
        let mut stack: Vec<Frame> = Vec::new();
        stack.push(
            Frame { pos: offset, loop_id: first_id, state: START_STATE, capturer: Capturer::new() },
        );
        let ghost mut fuel = fuel0;
        let ghost mut search = search_start(offset as int);
        assert(frames_of(stack@) =~= search.stack);
        loop
            invariant
                graph == self.graph(),
                tokens == chars@,
                forall|from: u64, to: u64|
                    loop_starts@.contains((from, to)) <==> is_loop_start(graph, from, to),
                frames_of(stack@) == search.stack,
                visit_counter@ == search.visits,
                id_provider.next_value() == search.next_loop_id,
                frames_in_bounds(search.stack, tokens.len() as int),
                target is Some,
                search_run(graph, tokens, search, fuel) == target,
                search_outcome(graph, tokens, offset as int) == target->0,
            decreases fuel,
        {
            if stack.len() == 0 {
                return None;
            }
            let ghost top = search.stack.last();
            assert(top == stack@[stack@.len() - 1]@);
            let ghost below = stack@.drop_last();
            let frame = stack.pop().unwrap();
            assert(frame@ == top);
            assert(stack@ =~= below);
            assert(frames_of(stack@) =~= search.stack.drop_last());
            if frame.state == END_STATE {
                return Some(frame.pos);
            }
            assert(fuel > 0);
            let available_transitions = self.get_available_transitions(frame.state);
            let ghost exits = graph_of_refs(available_transitions@);
            let ghost stepped = search_step(graph, tokens, search);
            assert(stepped is Some);
            let ghost mut cur = SearchModel { stack: search.stack.drop_last(), ..search };
            let mut k: usize = available_transitions.len();
            while k > 0
                invariant
                    k <= available_transitions.len(),
                    graph == self.graph(),
                    tokens == chars@,
                    exits == graph_of_refs(available_transitions@),
                    forall|from: u64, to: u64|
                        loop_starts@.contains((from, to)) <==> is_loop_start(graph, from, to),
                    frame@ == top,
                    0 <= top.pos <= tokens.len(),
                    top.capturer.wf(),
                    frames_of(stack@) == cur.stack,
                    visit_counter@ == cur.visits,
                    id_provider.next_value() == cur.next_loop_id,
                    frames_in_bounds(cur.stack, tokens.len() as int),
                    stepped is Some,
                    try_transitions(graph, tokens, top, exits, k as int, cur) == stepped,
                decreases k,
            {
                k -= 1;
                let tr: &Transition = available_transitions[k];
                let ghost trm = exits[k as int];
                assert(trm == tr@);
                let ghost tried = try_transition(graph, tokens, top, trm, cur);
                assert(tried is Some);
                let loop_id = if holds_pair(loop_starts, tr.from_state, tr.to_state) {
                    id_provider.get_cyclic()
                } else {
                    frame.loop_id
                };
                let used: u64 = match visit_counter.get(&frame.state) {
                    Some(v) => *v,
                    None => 0,
                };
                assert(used == visits_of(cur.visits, top.state));
                let blocked = match tr.max_use {
                    Some(max_use) => used >= max_use,
                    None => false,
                };
                if !blocked {
                    let stream = &chars[frame.pos..chars.len()];
                    proof {
                        lemma_cond_match_in_bounds(trm.cond, stream@, top.capturer.captures);
                    }
                    match tr.cond.is_match(stream, &frame.capturer.captures) {
                        MatchResult::Match(step) => {
                            if tr.max_use.is_some() {
                                visit_counter.insert(frame.state, used + 1);
                            }
                            let mut new_capturer = frame.capturer.duplicate();
                            let consumed = &chars[frame.pos..frame.pos + step];
                            new_capturer.push(consumed);
                            match tr.capture_group_ins {
                                CaptureGroupInstruction::Start(id) => {
                                    new_capturer.start_capture(id);
                                },
                                CaptureGroupInstruction::End(id) => {
                                    new_capturer.end_capture(id);
                                },
                                CaptureGroupInstruction::Keep => {},
                            }
                            let ghost before = stack@;
                            let pushed = Frame {
                                pos: frame.pos + step,
                                loop_id,
                                state: tr.to_state,
                                capturer: new_capturer,
                            };
                            stack.push(pushed);
                            proof {
                                assert(frames_of(stack@) =~= frames_of(before).push(pushed@));
                            }
                        },
                        MatchResult::NoMatch => {},
                    }
                }
                proof {
                    cur = tried->0;
                }
            }
            proof {
                search = cur;
                fuel = (fuel - 1) as nat;
            }
        }
    }

    /// Scans the stream for the ranges that match the pattern.
    pub fn is_match(&self, chars: &[Token]) -> (r: EvalMatchResult)
        requires
            scan_from(self.graph(), chars@, 0) is Some,
        ensures
            r.ranges() == scan_from(self.graph(), chars@, 0)->0,
            r is NoMatch <==> r.ranges().len() == 0,
    {
        let loop_start_transitions = self.get_loop_start_transitions();
        let mut matches: Vec<(usize, usize)> = Vec::new();
        let ghost graph = self.graph();
        let ghost total = scan_from(graph, chars@, 0)->0;
        let mut offset: usize = 0;
        while offset < chars.len()
            invariant
                graph == self.graph(),
                forall|from: u64, to: u64|
                    loop_start_transitions@.contains((from, to)) <==> is_loop_start(
                        graph,
                        from,
                        to,
                    ),
                scan_from(graph, chars@, offset as int) is Some,
                total == matches@ + scan_from(graph, chars@, offset as int)->0,
            decreases chars.len() - offset,
        {
            match self.search_from(chars, offset, &loop_start_transitions) {
                Some(end) => {
                    matches.push((offset, end));
                    let next = if end > offset + 1 {
                        end
                    } else {
                        offset + 1
                    };
                    proof {
                        let rest = if next >= chars@.len() {
                            Seq::empty()
                        } else {
                            scan_from(graph, chars@, next as int)->0
                        };
                        assert(total =~= matches@ + rest);
                    }
                    offset = next;
                },
                None => {
                    offset += 1;
                },
            }
        }
        assert(total =~= matches@);
        if matches.len() == 0 {
            EvalMatchResult::NoMatch
        } else {
            EvalMatchResult::Match { matches }
        }
    }
}

} // verus!
