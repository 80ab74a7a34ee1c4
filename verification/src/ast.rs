//! The tree of a pattern, and its compilation into a graph of transitions.
use vstd::prelude::*;
use crate::common::{END_STATE, Incrementer, START_STATE};
use crate::cond::{Cond, CondModel, Literal};
use crate::transition::{CaptureGroupInstruction, Transition, TransitionModel, graph_of};

verus! {

/// A parsed pattern.
#[derive(Debug)]
pub enum AstNode {
    /// The whole pattern; wraps its top-level sequence.
    Root(Box<AstNode>),
    /// One character of a literal.
    Char(Literal),
    /// The children one after the other.
    Sequence(Vec<AstNode>),
    /// One of the options; the group captures what it matches under `id`.
    Alt { options: Vec<AstNode>, id: u64 },
    /// The child repeated between `min` and `max` times; `None` for no bound.
    Repeat { min: Option<u64>, max: Option<u64>, node: Box<AstNode> },
    /// The start of the subject.
    Start,
    /// The end of the subject.
    End,
    /// Any one character.
    AnyChar,
    /// One character of a class, or one outside it where negated.
    CharGroup { is_negated: bool, chars: Vec<Literal> },
    /// The text that the group of that id captured.
    CaptureRef(u64),
}

/// The mathematical value of an `AstNode`.
pub enum AstModel {
    Root(Box<AstModel>),
    Char(Literal),
    Sequence(Seq<AstModel>),
    Alt { options: Seq<AstModel>, id: u64 },
    Repeat { min: Option<u64>, max: Option<u64>, node: Box<AstModel> },
    Start,
    End,
    AnyChar,
    CharGroup { is_negated: bool, chars: Seq<Literal> },
    CaptureRef(u64),
}

/// The value of a node.
pub open spec fn model_of(node: AstNode) -> AstModel
    decreases node, 0nat,
{
    match node {
        AstNode::Root(inner) => AstModel::Root(Box::new(model_of(*inner))),
        AstNode::Char(l) => AstModel::Char(l),
        AstNode::Sequence(items) => AstModel::Sequence(models_of(items@)),
        AstNode::Alt { options, id } => AstModel::Alt { options: models_of(options@), id },
        AstNode::Repeat { min, max, node } => AstModel::Repeat {
            min,
            max,
            node: Box::new(model_of(*node)),
        },
        AstNode::Start => AstModel::Start,
        AstNode::End => AstModel::End,
        AstNode::AnyChar => AstModel::AnyChar,
        AstNode::CharGroup { is_negated, chars } => AstModel::CharGroup {
            is_negated,
            chars: chars@,
        },
        AstNode::CaptureRef(id) => AstModel::CaptureRef(id),
    }
}

/// The values of a list of nodes.
pub open spec fn models_of(nodes: Seq<AstNode>) -> Seq<AstModel>
    decreases nodes, 1nat,
{
    Seq::new(
        nodes.len(),
        |i: int|
            if 0 <= i < nodes.len() {
                model_of(nodes[i])
            } else {
                AstModel::Start
            },
    )
}

impl View for AstNode {
    type V = AstModel;

    open spec fn view(&self) -> AstModel {
        model_of(*self)
    }
}

/// The transitions of a piece of graph, and the first state id that is still free behind it.
pub struct Generated {
    pub transitions: Seq<TransitionModel>,
    pub next: int,
}

/// The unrolled copies of a repeated child: their transitions, the two states between
/// which the loop body stands behind them, and the first state id that is still free.
pub struct Unrolled {
    pub transitions: Seq<TransitionModel>,
    pub inner_start: u64,
    pub inner_end: u64,
    pub next: int,
}

/// How many copies of the child of a repetition are unrolled in front of its loop:
/// one less than the minimum, where the minimum is two or more.
pub open spec fn required_copies(min: Option<u64>, max: Option<u64>) -> nat {
    let m = match min {
        Some(v) => v,
        None => 0,
    };
    let in_order = match max {
        Some(v) => v >= m,
        None => true,
    };
    if in_order && m > 1 {
        (m - 1) as nat
    } else {
        0
    }
}

/// How often the loop of a repetition may be entered again: the maximum less the
/// unrolled copies and the first lap, or `None` for no bound.
pub open spec fn optional_laps(min: Option<u64>, max: Option<u64>) -> Option<u64> {
    match max {
        Some(v) => Some((v - required_copies(min, max) - 1) as u64),
        None => None,
    }
}

/// The edge that closes the loop of a repetition.
pub open spec fn back_edge(inner_end: u64, inner_start: u64, laps: Option<u64>) -> TransitionModel {
    TransitionModel {
        from_state: inner_end,
        to_state: inner_start,
        cond: CondModel::Epsilon,
        max_use: laps,
        capture_group_ins: CaptureGroupInstruction::Keep,
    }
}

/// The edge on which a group is entered.
pub open spec fn group_enter(from_state: u64, to_state: u64, id: u64) -> TransitionModel {
    TransitionModel {
        from_state,
        to_state,
        cond: CondModel::Epsilon,
        max_use: None,
        capture_group_ins: CaptureGroupInstruction::Start(id),
    }
}

/// The edge on which a group is left.
pub open spec fn group_leave(from_state: u64, to_state: u64, id: u64) -> TransitionModel {
    TransitionModel {
        from_state,
        to_state,
        cond: CondModel::Epsilon,
        max_use: None,
        capture_group_ins: CaptureGroupInstruction::End(id),
    }
}

/// The graph of `node` between the states `start` and `end`, with `next` the first free state id.
pub open spec fn graph_between(node: AstModel, start: u64, end: u64, next: int) -> Generated
    decreases node, 0nat,
{
    match node {
        AstModel::Root(inner) => graph_between(*inner, start, end, next),
        AstModel::Char(l) => Generated {
            transitions: seq![TransitionModel::on(start, end, CondModel::Char(l))],
            next,
        },
        AstModel::Sequence(items) => if items.len() == 0 {
            Generated { transitions: seq![TransitionModel::epsilon(start, end)], next }
        } else {
            chain_between(items, 0, start, end, next)
        },
        AstModel::Alt { options, id } => {
            let inner_start = next as u64;
            let inner_end = (next + 1) as u64;
            let inner = options_between(options, 0, inner_start, inner_end, next + 2);
            Generated {
                transitions: seq![group_enter(start, inner_start, id)] + inner.transitions
                    + seq![group_leave(inner_end, end, id)],
                next: inner.next,
            }
        },
        AstModel::Repeat { min, max, node } => if max == Some(0u64) {
            Generated { transitions: seq![TransitionModel::epsilon(start, end)], next }
        } else {
            let inner_start = next as u64;
            let inner_end = (next + 1) as u64;
            let skip = if min is None || min == Some(0u64) {
                seq![TransitionModel::epsilon(start, end)]
            } else {
                Seq::empty()
            };
            let copies = unrolled_between(
                *node,
                required_copies(min, max),
                inner_start,
                inner_end,
                next + 2,
            );
            let body = graph_between(*node, copies.inner_start, copies.inner_end, copies.next);
            Generated {
                transitions: seq![TransitionModel::epsilon(start, inner_start)] + skip
                    + copies.transitions + seq![
                    back_edge(copies.inner_end, copies.inner_start, optional_laps(min, max)),
                ] + body.transitions + seq![TransitionModel::epsilon(copies.inner_end, end)],
                next: body.next,
            }
        },
        AstModel::Start => Generated {
            transitions: seq![TransitionModel::on(start, end, CondModel::Start)],
            next,
        },
        AstModel::End => Generated {
            transitions: seq![TransitionModel::on(start, end, CondModel::End)],
            next,
        },
        AstModel::AnyChar => Generated {
            transitions: seq![TransitionModel::on(start, end, CondModel::AnyChar)],
            next,
        },
        AstModel::CharGroup { is_negated, chars } => Generated {
            transitions: seq![
                TransitionModel::on(start, end, CondModel::CharGroup { chars, is_negated }),
            ],
            next,
        },
        AstModel::CaptureRef(id) => Generated {
            transitions: seq![TransitionModel::on(start, end, CondModel::CaptureRef(id))],
            next,
        },
    }
}

/// The graphs of `items[i..]` one behind the other, from `from` to `end`, with a fresh
/// state between each two.
pub open spec fn chain_between(items: Seq<AstModel>, i: int, from: u64, end: u64, next: int)
    -> Generated
    decreases items, items.len() - i,
{
    if 0 <= i < items.len() {
        let last = i + 1 == items.len();
        let to = if last {
            end
        } else {
            next as u64
        };
        let first = graph_between(
            items[i],
            from,
            to,
            if last {
                next
            } else {
                next + 1
            },
        );
        let rest = chain_between(items, i + 1, to, end, first.next);
        Generated { transitions: first.transitions + rest.transitions, next: rest.next }
    } else {
        Generated { transitions: Seq::empty(), next }
    }
}

/// The graphs of `options[i..]` side by side between the same two states.
pub open spec fn options_between(options: Seq<AstModel>, i: int, start: u64, end: u64, next: int)
    -> Generated
    decreases options, options.len() - i,
{
    if 0 <= i < options.len() {
        let first = graph_between(options[i], start, end, next);
        let rest = options_between(options, i + 1, start, end, first.next);
        Generated { transitions: first.transitions + rest.transitions, next: rest.next }
    } else {
        Generated { transitions: Seq::empty(), next }
    }
}

/// `count` copies of the graph of `node` one behind the other, the first between
/// `inner_start` and `inner_end`, each further one ending in a fresh state.
pub open spec fn unrolled_between(
    node: AstModel,
    count: nat,
    inner_start: u64,
    inner_end: u64,
    next: int,
) -> Unrolled
    decreases node, count + 1,
{
    if count == 0 {
        Unrolled { transitions: Seq::empty(), inner_start, inner_end, next }
    } else {
        let first = graph_between(node, inner_start, inner_end, next);
        let rest = unrolled_between(
            node,
            (count - 1) as nat,
            inner_end,
            first.next as u64,
            first.next + 1,
        );
        Unrolled {
            transitions: first.transitions + rest.transitions,
            inner_start: rest.inner_start,
            inner_end: rest.inner_end,
            next: rest.next,
        }
    }
}

/// The whole graph of a pattern: from the start state to the end state, the
/// fresh states numbered from 2.
pub open spec fn graph_of_pattern(node: AstModel) -> Seq<TransitionModel> {
    graph_between(node, START_STATE, END_STATE, 2).transitions
}

/// How many fresh states the graph of `node` takes.
pub open spec fn state_count(node: AstModel) -> nat
    decreases node, 0nat,
{
    match node {
        AstModel::Root(inner) => state_count(*inner),
        AstModel::Sequence(items) => if items.len() == 0 {
            0
        } else {
            chain_state_count(items, 0)
        },
        AstModel::Alt { options, id } => 2 + options_state_count(options, 0),
        AstModel::Repeat { min, max, node } => if max == Some(0u64) {
            0
        } else {
            2 + required_copies(min, max) * (state_count(*node) + 1) + state_count(*node)
        },
        _ => 0,
    }
}

/// How many fresh states the chain of `items[i..]` takes.
pub open spec fn chain_state_count(items: Seq<AstModel>, i: int) -> nat
    decreases items, items.len() - i,
{
    if 0 <= i < items.len() {
        (if i + 1 == items.len() {
            0nat
        } else {
            1nat
        }) + state_count(items[i]) + chain_state_count(items, i + 1)
    } else {
        0
    }
}

/// How many fresh states the graphs of `options[i..]` take.
pub open spec fn options_state_count(options: Seq<AstModel>, i: int) -> nat
    decreases options, options.len() - i,
{
    if 0 <= i < options.len() {
        state_count(options[i]) + options_state_count(options, i + 1)
    } else {
        0
    }
}

/// No repetition in `node` has a maximum below its minimum, a maximum of zero aside.
pub open spec fn repeats_in_order(node: AstModel) -> bool
    decreases node,
{
    match node {
        AstModel::Root(inner) => repeats_in_order(*inner),
        AstModel::Sequence(items) => forall|i: int|
            0 <= i < items.len() ==> repeats_in_order(#[trigger] items[i]),
        AstModel::Alt { options, id } => forall|i: int|
            0 <= i < options.len() ==> repeats_in_order(#[trigger] options[i]),
        AstModel::Repeat { min, max, node } => max == Some(0u64) || ({
            &&& (min is Some && max is Some ==> min->0 <= max->0)
            &&& repeats_in_order(*node)
        }),
        _ => true,
    }
}

/// The first free state id behind a graph is the one before it plus the states it takes.
pub proof fn lemma_graph_next(node: AstModel, start: u64, end: u64, next: int)
    ensures
        graph_between(node, start, end, next).next == next + state_count(node),
    decreases node, 0nat,
{
    match node {
        AstModel::Root(inner) => {
            lemma_graph_next(*inner, start, end, next);
        },
        AstModel::Sequence(items) => {
            if items.len() > 0 {
                lemma_chain_next(items, 0, start, end, next);
            }
        },
        AstModel::Alt { options, id } => {
            lemma_options_next(options, 0, next as u64, (next + 1) as u64, next + 2);
        },
        AstModel::Repeat { min, max, node } => {
            if max != Some(0u64) {
                let copies = unrolled_between(
                    *node,
                    required_copies(min, max),
                    next as u64,
                    (next + 1) as u64,
                    next + 2,
                );
                lemma_unrolled_next(
                    *node,
                    required_copies(min, max),
                    next as u64,
                    (next + 1) as u64,
                    next + 2,
                );
                lemma_graph_next(*node, copies.inner_start, copies.inner_end, copies.next);
            }
        },
        _ => {},
    }
}

/// The first free state id behind a chain.
pub proof fn lemma_chain_next(items: Seq<AstModel>, i: int, from: u64, end: u64, next: int)
    ensures
        chain_between(items, i, from, end, next).next == next + chain_state_count(items, i),
    decreases items, items.len() - i,
{
    if 0 <= i < items.len() {
        let last = i + 1 == items.len();
        let to = if last {
            end
        } else {
            next as u64
        };
        let next1 = if last {
            next
        } else {
            next + 1
        };
        lemma_graph_next(items[i], from, to, next1);
        lemma_chain_next(items, i + 1, to, end, graph_between(items[i], from, to, next1).next);
    }
}

/// The first free state id behind a list of options.
pub proof fn lemma_options_next(options: Seq<AstModel>, i: int, start: u64, end: u64, next: int)
    ensures
        options_between(options, i, start, end, next).next == next + options_state_count(
            options,
            i,
        ),
    decreases options, options.len() - i,
{
    if 0 <= i < options.len() {
        lemma_graph_next(options[i], start, end, next);
        lemma_options_next(
            options,
            i + 1,
            start,
            end,
            graph_between(options[i], start, end, next).next,
        );
    }
}

/// The first free state id behind the unrolled copies of a repetition.
pub proof fn lemma_unrolled_next(
    node: AstModel,
    count: nat,
    inner_start: u64,
    inner_end: u64,
    next: int,
)
    ensures
        unrolled_between(node, count, inner_start, inner_end, next).next == next + count * (
        state_count(node) + 1),
    decreases node, count + 1,
{
    if count > 0 {
        let first = graph_between(node, inner_start, inner_end, next);
        lemma_graph_next(node, inner_start, inner_end, next);
        lemma_unrolled_next(node, (count - 1) as nat, inner_end, first.next as u64, first.next + 1);
        assert(count * (state_count(node) + 1) == (count - 1) * (state_count(node) + 1) + (
        state_count(node) + 1)) by (nonlinear_arith);
    } else {
        assert(count * (state_count(node) + 1) == 0) by (nonlinear_arith)
            requires
                count == 0,
        ;
    }
}

/// The value of a list of transitions with one more behind it.
pub proof fn lemma_graph_of_push(transitions: Seq<Transition>, t: Transition)
    ensures
        graph_of(transitions.push(t)) == graph_of(transitions).push(t@),
{
    assert(graph_of(transitions.push(t)) =~= graph_of(transitions).push(t@));
}

/// The value of two lists of transitions one behind the other.
pub proof fn lemma_graph_of_add(a: Seq<Transition>, b: Seq<Transition>)
    ensures
        graph_of(a + b) == graph_of(a) + graph_of(b),
{
    assert(graph_of(a + b) =~= graph_of(a) + graph_of(b));
}

/// A copy of a list of literals.
pub fn copy_literals(chars: &Vec<Literal>) -> (r: Vec<Literal>)
    ensures
        r@ == chars@,
{
    let mut out: Vec<Literal> = Vec::new();
    let mut i: usize = 0;
    while i < chars.len()
        invariant
            i <= chars.len(),
            out@ == chars@.subrange(0, i as int),
        decreases chars.len() - i,
    {
        out.push(chars[i]);
        assert(out@ =~= chars@.subrange(0, i + 1));
        i += 1;
    }
    assert(chars@.subrange(0, i as int) =~= chars@);
    out
}

/// A list that holds the one transition `t`.
fn single(t: Transition) -> (r: Vec<Transition>)
    ensures
        graph_of(r@) == seq![t@],
{
    let mut out: Vec<Transition> = Vec::new();
    out.push(t);
    assert(graph_of(out@) =~= seq![t@]);
    out
}

impl AstNode {
    /// Compiles the pattern into its graph, from the start state to the end state.
    pub fn generate(&self) -> (r: Vec<Transition>)
        requires
            repeats_in_order(self@),
            2 + state_count(self@) <= u64::MAX,
        ensures
            graph_of(r@) == graph_of_pattern(self@),
    {
        let mut id_provider = Incrementer::new_from(END_STATE + 1);
        self.__generate(&mut id_provider, START_STATE, END_STATE)
    }

    /// Compiles this node into a graph between two given states, taking fresh
    /// state ids from `id_provider`.
    pub fn __generate(&self, id_provider: &mut Incrementer, start_state: u64, end_state: u64) -> (r:
        Vec<Transition>)
        requires
            repeats_in_order(self@),
            old(id_provider).next_value() + state_count(self@) <= u64::MAX,
        ensures
            graph_of(r@) == graph_between(
                self@,
                start_state,
                end_state,
                old(id_provider).next_value() as int,
            ).transitions,
            final(id_provider).next_value() == old(id_provider).next_value() + state_count(self@),
        decreases self,
    {
        broadcast use vstd::std_specs::vec::axiom_vec_index_decreases;

        let ghost next0 = id_provider.next_value() as int;
        proof {
            lemma_graph_next(self@, start_state, end_state, next0);
        }
        match self {
            Self::Root(inner) => {
                assert(self@ == AstModel::Root(Box::new(inner@)));
                assert(state_count(self@) == state_count(inner@));
                assert(graph_between(self@, start_state, end_state, next0) == graph_between(
                    inner@,
                    start_state,
                    end_state,
                    next0,
                ));
                assert(repeats_in_order(inner@));
                let r = inner.__generate(id_provider, start_state, end_state);
                assert(graph_of(r@) == graph_between(
                    inner@,
                    start_state,
                    end_state,
                    next0,
                ).transitions);
                r
            },
            Self::Char(c) => single(Transition::new_cond(start_state, end_state, Cond::Char(*c))),
            Self::Sequence(seq) => {
                if seq.len() == 0 {
                    assert(self@ == AstModel::Sequence(models_of(seq@)));
                    single(Transition::new(start_state, end_state))
                } else {
                    let ghost items = models_of(seq@);
                    assert(self@ == AstModel::Sequence(items));
                    let ghost total = chain_between(items, 0, start_state, end_state, next0);
                    let mut transitions: Vec<Transition> = Vec::new();
                    let mut from_id = start_state;
                    let mut i: usize = 0;
                    assert(graph_of(transitions@) =~= Seq::empty());
                    proof {
                        lemma_chain_next(items, 0, start_state, end_state, next0);
                    }
                    while i < seq.len()
                        invariant
                            i <= seq.len(),
                            items == models_of(seq@),
                            decreases_to!(self => seq),
                            forall|j: int|
                                0 <= j < items.len() ==> repeats_in_order(#[trigger] items[j]),
                            id_provider.next_value() + chain_state_count(items, i as int)
                                <= u64::MAX,
                            total.transitions == graph_of(transitions@) + chain_between(
                                items,
                                i as int,
                                from_id,
                                end_state,
                                id_provider.next_value() as int,
                            ).transitions,
                            total.next == id_provider.next_value() + chain_state_count(
                                items,
                                i as int,
                            ),
                        decreases seq.len() - i,
                    {
                        let ghost next_i = id_provider.next_value() as int;
                        let to_id = if i + 1 == seq.len() {
                            end_state
                        } else {
                            id_provider.get()
                        };
                        assert(items[i as int] == seq[i as int]@);
                        assert(repeats_in_order(items[i as int]));
                        let ghost next_in = id_provider.next_value() as int;
                        let mut seq_transitions = seq[i].__generate(id_provider, from_id, to_id);
                        proof {
                            lemma_graph_next(items[i as int], from_id, to_id, next_in);
                        }
                        let ghost before = transitions@;
                        let ghost added = seq_transitions@;
                        transitions.append(&mut seq_transitions);
                        proof {
                            lemma_graph_of_add(before, added);
                            lemma_chain_next(
                                items,
                                i + 1,
                                to_id,
                                end_state,
                                id_provider.next_value() as int,
                            );
                            assert(total.transitions =~= graph_of(transitions@) + chain_between(
                                items,
                                i + 1,
                                to_id,
                                end_state,
                                id_provider.next_value() as int,
                            ).transitions);
                        }
                        from_id = to_id;
                        i += 1;
                    }
                    assert(total.transitions =~= graph_of(transitions@));
                    transitions
                }
            },
            Self::Alt { options, id } => {
                let ghost alts = models_of(options@);
                assert(self@ == (AstModel::Alt { options: alts, id: *id }));
                let mut transitions: Vec<Transition> = Vec::new();
                let inner_start = id_provider.get();
                let inner_end = id_provider.get();
                let ghost total = options_between(alts, 0, inner_start, inner_end, next0 + 2);
                transitions.push(
                    Transition::new_full(
                        start_state,
                        inner_start,
                        Cond::Epsilon,
                        None,
                        CaptureGroupInstruction::Start(*id),
                    ),
                );
                assert(graph_of(transitions@) =~= seq![group_enter(start_state, inner_start, *id)]);
                proof {
                    lemma_options_next(alts, 0, inner_start, inner_end, next0 + 2);
                }
                let mut i: usize = 0;
                while i < options.len()
                    invariant
                        i <= options.len(),
                        alts == models_of(options@),
                        decreases_to!(self => options),
                        forall|j: int|
                            0 <= j < alts.len() ==> repeats_in_order(#[trigger] alts[j]),
                        id_provider.next_value() + options_state_count(alts, i as int) <= u64::MAX,
                        seq![group_enter(start_state, inner_start, *id)] + total.transitions
                            == graph_of(transitions@) + options_between(
                            alts,
                            i as int,
                            inner_start,
                            inner_end,
                            id_provider.next_value() as int,
                        ).transitions,
                        total.next == id_provider.next_value() + options_state_count(
                            alts,
                            i as int,
                        ),
                    decreases options.len() - i,
                {
                    assert(alts[i as int] == options[i as int]@);
                    assert(repeats_in_order(alts[i as int]));
                    let ghost next_i = id_provider.next_value() as int;
                    let mut alt_transitions = options[i].__generate(
                        id_provider,
                        inner_start,
                        inner_end,
                    );
                    proof {
                        lemma_graph_next(alts[i as int], inner_start, inner_end, next_i);
                    }
                    let ghost before = transitions@;
                    let ghost added = alt_transitions@;
                        transitions.append(&mut alt_transitions);
                    proof {
                        lemma_graph_of_add(before, added);
                        lemma_options_next(
                            alts,
                            i + 1,
                            inner_start,
                            inner_end,
                            id_provider.next_value() as int,
                        );
                        assert(seq![group_enter(start_state, inner_start, *id)] + total.transitions
                            =~= graph_of(transitions@) + options_between(
                            alts,
                            i + 1,
                            inner_start,
                            inner_end,
                            id_provider.next_value() as int,
                        ).transitions);
                    }
                    i += 1;
                }
                let ghost before = transitions@;
                let leave = Transition::new_full(
                    inner_end,
                    end_state,
                    Cond::Epsilon,
                    None,
                    CaptureGroupInstruction::End(*id),
                );
                transitions.push(leave);
                proof {
                    lemma_graph_of_push(before, leave);
                    assert(graph_of(transitions@) =~= seq![
                        group_enter(start_state, inner_start, *id),
                    ] + total.transitions + seq![group_leave(inner_end, end_state, *id)]);
                }
                transitions
            },
            Self::Repeat { min, max, node } => {
                if let Some(0) = max {
                    return single(Transition::new(start_state, end_state));
                }
                let ghost child = node@;
                assert(self@ == (AstModel::Repeat { min: *min, max: *max, node: Box::new(child) }));
                let min_v: u64 = match min {
                    Some(v) => *v,
                    None => 0,
                };
                let in_order = match max {
                    Some(v) => *v >= min_v,
                    None => true,
                };
                let req_len: u64 = if in_order && min_v > 1 {
                    min_v - 1
                } else {
                    0
                };
                let optional_len: Option<u64> = match max {
                    Some(v) => Some(*v - req_len - 1),
                    None => None,
                };
                assert(req_len == required_copies(*min, *max));
                assert(optional_len == optional_laps(*min, *max));
                assert(req_len * (state_count(child) + 1) >= 0) by (nonlinear_arith);
                let mut transitions: Vec<Transition> = Vec::new();
                let mut inner_start = id_provider.get();
                let mut inner_end = id_provider.get();
                let ghost first_start = inner_start;
                let ghost first_end = inner_end;
                transitions.push(Transition::new(start_state, inner_start));
                if min_v == 0 {
                    transitions.push(Transition::new(start_state, end_state));
                }
                let ghost skip = if *min is None || *min == Some(0u64) {
                    seq![TransitionModel::epsilon(start_state, end_state)]
                } else {
                    Seq::empty()
                };
                let ghost head = seq![TransitionModel::epsilon(start_state, first_start)] + skip;
                assert(graph_of(transitions@) =~= head);
                let ghost total = unrolled_between(
                    child,
                    req_len as nat,
                    first_start,
                    first_end,
                    next0 + 2,
                );
                let mut k: u64 = 0;
                while k < req_len
                    invariant
                        k <= req_len,
                        child == node@,
                        decreases_to!(self => node),
                        repeats_in_order(child),
                        id_provider.next_value() + (req_len - k) * (state_count(child) + 1)
                            + state_count(child) <= u64::MAX,
                        ({
                            let rest = unrolled_between(
                                child,
                                (req_len - k) as nat,
                                inner_start,
                                inner_end,
                                id_provider.next_value() as int,
                            );
                            &&& head + total.transitions == graph_of(transitions@)
                                + rest.transitions
                            &&& total.inner_start == rest.inner_start
                            &&& total.inner_end == rest.inner_end
                            &&& total.next == rest.next
                        }),
                    decreases req_len - k,
                {
                    assert((req_len - k) * (state_count(child) + 1) == (req_len - k - 1) * (
                    state_count(child) + 1) + (state_count(child) + 1)) by (nonlinear_arith);
                    assert((req_len - k - 1) * (state_count(child) + 1) >= 0) by (nonlinear_arith)
                        requires
                            req_len - k - 1 >= 0,
                    ;
                    let mut inner_t = node.__generate(id_provider, inner_start, inner_end);
                    let ghost before = transitions@;
                    let ghost added = inner_t@;
                        transitions.append(&mut inner_t);
                    proof {
                        lemma_graph_of_add(before, added);
                    }
                    let ghost prev_start = inner_start;
                    let ghost prev_end = inner_end;
                    let ghost prev_next = id_provider.next_value() as int;
                    inner_start = inner_end;
                    inner_end = id_provider.get();
                    proof {
                        let rest_before = unrolled_between(
                            child,
                            (req_len - k) as nat,
                            prev_start,
                            prev_end,
                            prev_next - state_count(child),
                        );
                        let rest_after = unrolled_between(
                            child,
                            (req_len - k - 1) as nat,
                            inner_start,
                            inner_end,
                            id_provider.next_value() as int,
                        );
                        lemma_graph_next(
                            child,
                            prev_start,
                            prev_end,
                            prev_next - state_count(child),
                        );
                        assert(rest_before.transitions == graph_between(
                            child,
                            prev_start,
                            prev_end,
                            prev_next - state_count(child),
                        ).transitions + rest_after.transitions);
                        assert(head + total.transitions =~= graph_of(transitions@)
                            + rest_after.transitions);
                    }
                    k += 1;
                }
                let ghost before = transitions@;
                let back = Transition::new_full(
                    inner_end,
                    inner_start,
                    Cond::Epsilon,
                    optional_len,
                    CaptureGroupInstruction::Keep,
                );
                transitions.push(back);
                proof {
                    lemma_graph_of_push(before, back);
                }
                let ghost before_body = transitions@;
                let mut inner_t = node.__generate(id_provider, inner_start, inner_end);
                let ghost added = inner_t@;
                        transitions.append(&mut inner_t);
                proof {
                    lemma_graph_of_add(before_body, added);
                }
                let ghost before_exit = transitions@;
                let exit = Transition::new(inner_end, end_state);
                transitions.push(exit);
                proof {
                    lemma_graph_of_push(before_exit, exit);
                    lemma_unrolled_next(child, req_len as nat, first_start, first_end, next0 + 2);
                    let body = graph_between(child, total.inner_start, total.inner_end, total.next);
                    assert(graph_of(transitions@) =~= head + total.transitions + seq![
                        back_edge(total.inner_end, total.inner_start, optional_laps(*min, *max)),
                    ] + body.transitions + seq![
                        TransitionModel::epsilon(total.inner_end, end_state),
                    ]);
                }
                transitions
            },
            Self::Start => single(Transition::new_cond(start_state, end_state, Cond::Start)),
            Self::End => single(Transition::new_cond(start_state, end_state, Cond::End)),
            Self::AnyChar => single(Transition::new_cond(start_state, end_state, Cond::AnyChar)),
            Self::CharGroup { is_negated, chars } => single(
                Transition::new_cond(
                    start_state,
                    end_state,
                    Cond::CharGroup { chars: copy_literals(chars), is_negated: *is_negated },
                ),
            ),
            Self::CaptureRef(id) => single(
                Transition::new_cond(start_state, end_state, Cond::CaptureRef(*id)),
            ),
        }
    }
}

} // verus!
