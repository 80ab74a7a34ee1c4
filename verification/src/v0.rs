//! The first engine: literal characters, classes, sequences, alternatives and
//! repetitions, searched depth first without captures and without caps on edges.
use vstd::prelude::*;
use vstd::string::StringExecFns;
use crate::text::{decimal_digits, push_decimal, string_push};

verus! {

/// One element of the stream that patterns are matched against.
#[derive(Debug, Clone, Copy, PartialEq, Eq, Structural)]
pub enum Token {
    /// One character of the subject.
    Char(char),
    /// Sentinel in front of the first character.
    Start,
    /// Sentinel behind the last character.
    End,
}

impl Token {
    /// The token that carries the character `c`.
    pub fn from_char(c: char) -> (t: Token)
        ensures
            t == Token::Char(c),
    {
        Token::Char(c)
    }
}

/// Outcome of testing one condition on the token at the head of a stream.
#[derive(Debug, Clone, Copy, PartialEq, Eq, Structural)]
pub enum MatchResult {
    /// The condition holds and takes the token.
    MatchAndConsume,
    /// The condition holds and takes nothing.
    MatchNoConsume,
    /// The condition does not hold.
    NoMatch,
}

/// What a transition tests before it is taken.
#[derive(Debug)]
pub enum Cond {
    /// That character.
    Char(char),
    /// Any one character.
    AnyChar,
    /// One of these characters.
    CharGroup(Vec<char>),
    /// The sentinel at the start of the stream.
    Start,
    /// The sentinel at the end of the stream.
    End,
    /// The empty condition: always holds and takes nothing.
    Epsilon,
}

/// The mathematical value of a `Cond`.
pub enum CondModel {
    Char(char),
    AnyChar,
    CharGroup(Seq<char>),
    Start,
    End,
    Epsilon,
}

impl View for Cond {
    type V = CondModel;

    open spec fn view(&self) -> CondModel {
        match *self {
            Cond::Char(c) => CondModel::Char(c),
            Cond::AnyChar => CondModel::AnyChar,
            Cond::CharGroup(chars) => CondModel::CharGroup(chars@),
            Cond::Start => CondModel::Start,
            Cond::End => CondModel::End,
            Cond::Epsilon => CondModel::Epsilon,
        }
    }
}

/// The meaning of each condition on the token `head`, `None` standing for the end of
/// the stream.
pub open spec fn cond_match(cond: CondModel, head: Option<Token>) -> MatchResult {
    match cond {
        CondModel::Char(expected) => if head == Some(Token::Char(expected)) {
            MatchResult::MatchAndConsume
        } else {
            MatchResult::NoMatch
        },
        CondModel::Epsilon => MatchResult::MatchNoConsume,
        CondModel::CharGroup(chars) => match head {
            Some(Token::Char(c)) => if chars.contains(c) {
                MatchResult::MatchAndConsume
            } else {
                MatchResult::NoMatch
            },
            _ => MatchResult::NoMatch,
        },
        CondModel::Start => if head == Some(Token::Start) {
            MatchResult::MatchAndConsume
        } else {
            MatchResult::NoMatch
        },
        CondModel::End => if head == Some(Token::End) {
            MatchResult::MatchAndConsume
        } else {
            MatchResult::NoMatch
        },
        CondModel::AnyChar => match head {
            Some(Token::Char(_)) => MatchResult::MatchAndConsume,
            _ => MatchResult::NoMatch,
        },
    }
}

/// How a condition is written in a label.
pub open spec fn cond_label(cond: CondModel) -> Seq<char> {
    match cond {
        CondModel::Char(c) => "C("@ + seq![c] + ")"@,
        CondModel::CharGroup(chars) => chars,
        CondModel::Epsilon => "-"@,
        CondModel::Start => "^"@,
        CondModel::End => "$"@,
        CondModel::AnyChar => "."@,
    }
}

/// The token of an optional borrowed token.
pub open spec fn token_of(c: Option<&Token>) -> Option<Token> {
    match c {
        Some(t) => Some(*t),
        None => None,
    }
}

/// Whether the list holds the character `c`.
fn holds_char(chars: &Vec<char>, c: char) -> (r: bool)
    ensures
        r == chars@.contains(c),
{
    let mut i: usize = 0;
    while i < chars.len()
        invariant
            i <= chars.len(),
            forall|j: int| 0 <= j < i ==> chars@[j] != c,
        decreases chars.len() - i,
    {
        if chars[i] == c {
            return true;
        }
        i += 1;
    }
    false
}

impl Cond {
    /// How this condition is written in a label.
    pub fn to_label(&self) -> (r: String)
        ensures
            r@ == cond_label(self@),
    {
        broadcast use vstd::string::group_string_axioms;

        match self {
            Self::Char(c) => {
                let mut out = "C(".to_string();
                string_push(&mut out, *c);
                out.append(")");
                assert(out@ =~= cond_label(self@));
                out
            },
            Self::CharGroup(chars) => {
                let mut out = String::new();
                let mut i: usize = 0;
                while i < chars.len()
                    invariant
                        i <= chars.len(),
                        out@ == chars@.subrange(0, i as int),
                    decreases chars.len() - i,
                {
                    string_push(&mut out, chars[i]);
                    assert(out@ =~= chars@.subrange(0, i + 1));
                    i += 1;
                }
                assert(chars@.subrange(0, i as int) =~= chars@);
                out
            },
            Self::Epsilon => "-".to_string(),
            Self::Start => "^".to_string(),
            Self::End => "$".to_string(),
            Self::AnyChar => ".".to_string(),
        }
    }

    /// Tests the token at the head of a stream, `None` standing for its end.
    pub fn is_match(&self, c: Option<&Token>) -> (r: MatchResult)
        ensures
            r == cond_match(self@, token_of(c)),
    {
        match self {
            Self::Char(expected) => match c {
                Some(Token::Char(c)) => {
                    if *c == *expected {
                        MatchResult::MatchAndConsume
                    } else {
                        MatchResult::NoMatch
                    }
                },
                _ => MatchResult::NoMatch,
            },
            Self::Epsilon => MatchResult::MatchNoConsume,
            Self::CharGroup(chars) => match c {
                Some(Token::Char(c)) => {
                    if holds_char(chars, *c) {
                        MatchResult::MatchAndConsume
                    } else {
                        MatchResult::NoMatch
                    }
                },
                _ => MatchResult::NoMatch,
            },
            Self::Start => match c {
                Some(Token::Start) => MatchResult::MatchAndConsume,
                _ => MatchResult::NoMatch,
            },
            Self::End => match c {
                Some(Token::End) => MatchResult::MatchAndConsume,
                _ => MatchResult::NoMatch,
            },
            Self::AnyChar => match c {
                Some(Token::Char(_)) => MatchResult::MatchAndConsume,
                _ => MatchResult::NoMatch,
            },
        }
    }
}

/// A directed edge of the execution graph.
#[derive(Debug)]
pub struct Transition {
    pub from_state: u64,
    pub to_state: u64,
    pub cond: Cond,
    /// How often the edge may be taken; `None` for no limit. The search does not read it.
    pub max_use: Option<usize>,
}

/// The mathematical value of a `Transition`.
pub struct TransitionModel {
    pub from_state: u64,
    pub to_state: u64,
    pub cond: CondModel,
    pub max_use: Option<usize>,
}

impl TransitionModel {
    /// An edge with a condition and without limit.
    pub open spec fn on(from_state: u64, to_state: u64, cond: CondModel) -> TransitionModel {
        TransitionModel { from_state, to_state, cond, max_use: None }
    }

    /// An edge that is always free to take and takes nothing.
    pub open spec fn epsilon(from_state: u64, to_state: u64) -> TransitionModel {
        TransitionModel::on(from_state, to_state, CondModel::Epsilon)
    }
}

impl View for Transition {
    type V = TransitionModel;

    open spec fn view(&self) -> TransitionModel {
        TransitionModel {
            from_state: self.from_state,
            to_state: self.to_state,
            cond: self.cond@,
            max_use: self.max_use,
        }
    }
}

/// How a transition is written in a label: its condition, then its cap where it has one.
pub open spec fn transition_label(t: TransitionModel) -> Seq<char> {
    match t.max_use {
        Some(v) => cond_label(t.cond) + " (max "@ + decimal_digits(v as nat) + ")"@,
        None => cond_label(t.cond),
    }
}

impl Transition {
    /// How this transition is written in a label.
    pub fn to_label(&self) -> (r: String)
        ensures
            r@ == transition_label(self@),
    {
        broadcast use vstd::string::group_string_axioms;

        match self.max_use {
            Some(v) => {
                let mut out = self.cond.to_label();
                out.append(" (max ");
                push_decimal(&mut out, v as u64);
                out.append(")");
                out
            },
            None => self.cond.to_label(),
        }
    }
}

/// How a state is written in a label: the two ends by name, the others by number.
pub open spec fn state_label(id: u64) -> Seq<char> {
    if id == 0 {
        "Start"@
    } else if id == 1 {
        "End"@
    } else {
        decimal_digits(id as nat)
    }
}

/// How a state is written in a label.
pub fn state_id_to_label(id: u64) -> (r: String)
    ensures
        r@ == state_label(id),
{
    broadcast use vstd::string::group_string_axioms;

    if id == 0 {
        "Start".to_string()
    } else if id == 1 {
        "End".to_string()
    } else {
        let mut out = String::new();
        push_decimal(&mut out, id);
        assert(out@ =~= decimal_digits(id as nat));
        out
    }
}

/// The lines of a graph description for the transitions from index `i` on: each line
/// names the two states of a transition and labels the edge.
pub open spec fn dot_lines(graph: Seq<TransitionModel>, i: int) -> Seq<char>
    decreases graph.len() - i,
{
    if 0 <= i < graph.len() {
        "\t"@ + state_label(graph[i].from_state) + " -> "@ + state_label(graph[i].to_state)
            + " [label=\""@ + transition_label(graph[i]) + "\"]\n"@ + dot_lines(graph, i + 1)
    } else {
        Seq::empty()
    }
}

/// The description of a graph as a directed graph in the dot language.
pub open spec fn dot_text(graph: Seq<TransitionModel>) -> Seq<char> {
    "digraph {{\n"@ + dot_lines(graph, 0) + "}}\n"@
}

/// Describes the graph of `transitions` in the dot language.
pub fn dot_from_transitions(transitions: &Vec<Transition>) -> (r: String)
    ensures
        r@ == dot_text(graph_of(transitions@)),
{
    broadcast use vstd::string::group_string_axioms;

    let ghost graph = graph_of(transitions@);
    let mut out = "digraph {{\n".to_string();
    let ghost head = out@;
    let ghost mut done: Seq<char> = Seq::empty();
    let mut i: usize = 0;
    assert(out@ =~= head + done);
    while i < transitions.len()
        invariant
            i <= transitions.len(),
            graph == graph_of(transitions@),
            out@ == head + done,
            dot_lines(graph, 0) == done + dot_lines(graph, i as int),
        decreases transitions.len() - i,
    {
        let tr = &transitions[i];
        let ghost before = out@;
        out.append("\t");
        out.append(state_id_to_label(tr.from_state).as_str());
        out.append(" -> ");
        out.append(state_id_to_label(tr.to_state).as_str());
        out.append(" [label=\"");
        out.append(tr.to_label().as_str());
        out.append("\"]\n");
        proof {
            let line = "\t"@ + state_label(graph[i as int].from_state) + " -> "@ + state_label(
                graph[i as int].to_state,
            ) + " [label=\""@ + transition_label(graph[i as int]) + "\"]\n"@;
            assert(out@ =~= before + line);
            assert(dot_lines(graph, i as int) =~= line + dot_lines(graph, i + 1));
            done = done + line;
            assert(out@ =~= head + done);
            assert(dot_lines(graph, 0) =~= done + dot_lines(graph, i + 1));
        }
        i += 1;
    }
    out.append("}}\n");
    assert(out@ =~= dot_text(graph));
    out
}

/// The mathematical value of a list of transitions.
pub open spec fn graph_of(transitions: Seq<Transition>) -> Seq<TransitionModel> {
    Seq::new(transitions.len(), |i: int| transitions[i]@)
}

/// The mathematical value of a list of borrowed transitions.
pub open spec fn graph_of_refs(transitions: Seq<&Transition>) -> Seq<TransitionModel> {
    Seq::new(transitions.len(), |i: int| transitions[i]@)
}

/// A pattern.
#[derive(Debug)]
pub enum AstNode {
    /// The whole pattern.
    Root(Box<AstNode>),
    /// That character.
    Char(char),
    /// The children one after the other.
    Sequence(Vec<AstNode>),
    /// One of the children.
    Alt(Vec<AstNode>),
    /// The child repeated between `min` and `max` times; `None` for no bound.
    Repeat { min: Option<usize>, max: Option<usize>, node: Box<AstNode> },
}

/// The mathematical value of an `AstNode`.
pub enum AstModel {
    Root(Box<AstModel>),
    Char(char),
    Sequence(Seq<AstModel>),
    Alt(Seq<AstModel>),
    Repeat { min: Option<usize>, max: Option<usize>, node: Box<AstModel> },
}

/// The value of a node.
pub open spec fn model_of(node: AstNode) -> AstModel
    decreases node, 0nat,
{
    match node {
        AstNode::Root(inner) => AstModel::Root(Box::new(model_of(*inner))),
        AstNode::Char(c) => AstModel::Char(c),
        AstNode::Sequence(items) => AstModel::Sequence(models_of(items@)),
        AstNode::Alt(options) => AstModel::Alt(models_of(options@)),
        AstNode::Repeat { min, max, node } => AstModel::Repeat {
            min,
            max,
            node: Box::new(model_of(*node)),
        },
    }
}

/// The values of a list of nodes.
pub open spec fn models_of(nodes: Seq<AstNode>) -> Seq<AstModel>
    decreases nodes, 1nat,
{
    Seq::new(
        nodes.len(),
        |i: int|
            if 0 <= i < nodes.len() {
                model_of(nodes[i])
            } else {
                AstModel::Sequence(Seq::empty())
            },
    )
}

impl View for AstNode {
    type V = AstModel;

    open spec fn view(&self) -> AstModel {
        model_of(*self)
    }
}

/// The transitions of a piece of graph, and the first state id that is still free behind it.
pub struct Generated {
    pub transitions: Seq<TransitionModel>,
    pub next: int,
}

/// The unrolled copies of a repeated child: their transitions, the two states between
/// which the loop body stands behind them, and the first state id that is still free.
pub struct Unrolled {
    pub transitions: Seq<TransitionModel>,
    pub inner_start: u64,
    pub inner_end: u64,
    pub next: int,
}

/// How many copies of the child of a repetition are unrolled in front of its loop:
/// one less than the minimum, where the minimum is two or more.
pub open spec fn required_copies(min: Option<usize>, max: Option<usize>) -> nat {
    let m = match min {
        Some(v) => v,
        None => 0,
    };
    let in_order = match max {
        Some(v) => v >= m,
        None => true,
    };
    if in_order && m > 1 {
        (m - 1) as nat
    } else {
        0
    }
}

/// How often the loop of a repetition is meant to be entered again: the maximum less
/// the unrolled copies and the first lap, or `None` for no bound.
pub open spec fn optional_laps(min: Option<usize>, max: Option<usize>) -> Option<usize> {
    match max {
        Some(v) => Some((v - required_copies(min, max) - 1) as usize),
        None => None,
    }
}

/// The graph of `node` between the states `start` and `end`, with `next` the first free state id.
pub open spec fn graph_between(node: AstModel, start: u64, end: u64, next: int) -> Generated
    decreases node, 0nat,
{
    match node {
        AstModel::Root(inner) => graph_between(*inner, start, end, next),
        AstModel::Char(c) => Generated {
            transitions: seq![TransitionModel::on(start, end, CondModel::Char(c))],
            next,
        },
        AstModel::Sequence(items) => if items.len() == 0 {
            Generated { transitions: seq![TransitionModel::epsilon(start, end)], next }
        } else {
            chain_between(items, 0, start, end, next)
        },
        AstModel::Alt(options) => options_between(options, 0, start, end, next),
        AstModel::Repeat { min, max, node } => if max == Some(0usize) {
            Generated { transitions: seq![TransitionModel::epsilon(start, end)], next }
        } else {
            let inner_start = next as u64;
            let inner_end = (next + 1) as u64;
            let skip = if min is None || min == Some(0usize) {
                seq![TransitionModel::epsilon(start, end)]
            } else {
                Seq::empty()
            };
            let copies = unrolled_between(
                *node,
                required_copies(min, max),
                inner_start,
                inner_end,
                next + 2,
            );
            let body = graph_between(*node, copies.inner_start, copies.inner_end, copies.next);
            Generated {
                transitions: seq![TransitionModel::epsilon(start, inner_start)] + skip
                    + copies.transitions + seq![TransitionModel::epsilon(copies.inner_end, end)]
                    + body.transitions + seq![
                    TransitionModel {
                        from_state: copies.inner_end,
                        to_state: copies.inner_start,
                        cond: CondModel::Epsilon,
                        max_use: optional_laps(min, max),
                    },
                ],
                next: body.next,
            }
        },
    }
}

/// The graphs of `items[i..]` one behind the other, from `from` to `end`, with a fresh
/// state between each two.
pub open spec fn chain_between(items: Seq<AstModel>, i: int, from: u64, end: u64, next: int)
    -> Generated
    decreases items, items.len() - i,
{
    if 0 <= i < items.len() {
        let last = i + 1 == items.len();
        let to = if last {
            end
        } else {
            next as u64
        };
        let first = graph_between(
            items[i],
            from,
            to,
            if last {
                next
            } else {
                next + 1
            },
        );
        let rest = chain_between(items, i + 1, to, end, first.next);
        Generated { transitions: first.transitions + rest.transitions, next: rest.next }
    } else {
        Generated { transitions: Seq::empty(), next }
    }
}

/// The graphs of `options[i..]` side by side between the same two states.
pub open spec fn options_between(options: Seq<AstModel>, i: int, start: u64, end: u64, next: int)
    -> Generated
    decreases options, options.len() - i,
{
    if 0 <= i < options.len() {
        let first = graph_between(options[i], start, end, next);
        let rest = options_between(options, i + 1, start, end, first.next);
        Generated { transitions: first.transitions + rest.transitions, next: rest.next }
    } else {
        Generated { transitions: Seq::empty(), next }
    }
}

/// `count` copies of the graph of `node` one behind the other, the first between
/// `inner_start` and `inner_end`, each further one ending in a fresh state.
pub open spec fn unrolled_between(
    node: AstModel,
    count: nat,
    inner_start: u64,
    inner_end: u64,
    next: int,
) -> Unrolled
    decreases node, count + 1,
{
    if count == 0 {
        Unrolled { transitions: Seq::empty(), inner_start, inner_end, next }
    } else {
        let first = graph_between(node, inner_start, inner_end, next);
        let rest = unrolled_between(
            node,
            (count - 1) as nat,
            inner_end,
            first.next as u64,
            first.next + 1,
        );
        Unrolled {
            transitions: first.transitions + rest.transitions,
            inner_start: rest.inner_start,
            inner_end: rest.inner_end,
            next: rest.next,
        }
    }
}

/// How many fresh states the graph of `node` takes.
pub open spec fn state_count(node: AstModel) -> nat
    decreases node, 0nat,
{
    match node {
        AstModel::Root(inner) => state_count(*inner),
        AstModel::Char(_) => 0,
        AstModel::Sequence(items) => if items.len() == 0 {
            0
        } else {
            chain_state_count(items, 0)
        },
        AstModel::Alt(options) => options_state_count(options, 0),
        AstModel::Repeat { min, max, node } => if max == Some(0usize) {
            0
        } else {
            2 + required_copies(min, max) * (state_count(*node) + 1) + state_count(*node)
        },
    }
}

/// How many fresh states the chain of `items[i..]` takes.
pub open spec fn chain_state_count(items: Seq<AstModel>, i: int) -> nat
    decreases items, items.len() - i,
{
    if 0 <= i < items.len() {
        (if i + 1 == items.len() {
            0nat
        } else {
            1nat
        }) + state_count(items[i]) + chain_state_count(items, i + 1)
    } else {
        0
    }
}

/// How many fresh states the graphs of `options[i..]` take.
pub open spec fn options_state_count(options: Seq<AstModel>, i: int) -> nat
    decreases options, options.len() - i,
{
    if 0 <= i < options.len() {
        state_count(options[i]) + options_state_count(options, i + 1)
    } else {
        0
    }
}

/// No repetition in `node` has a maximum below its minimum, a maximum of zero aside.
pub open spec fn repeats_in_order(node: AstModel) -> bool
    decreases node,
{
    match node {
        AstModel::Root(inner) => repeats_in_order(*inner),
        AstModel::Char(_) => true,
        AstModel::Sequence(items) => forall|i: int|
            0 <= i < items.len() ==> repeats_in_order(#[trigger] items[i]),
        AstModel::Alt(options) => forall|i: int|
            0 <= i < options.len() ==> repeats_in_order(#[trigger] options[i]),
        AstModel::Repeat { min, max, node } => max == Some(0usize) || ({
            &&& (min is Some && max is Some ==> min->0 <= max->0)
            &&& repeats_in_order(*node)
        }),
    }
}

/// The first free state id behind a graph is the one before it plus the states it takes.
pub proof fn lemma_graph_next(node: AstModel, start: u64, end: u64, next: int)
    ensures
        graph_between(node, start, end, next).next == next + state_count(node),
    decreases node, 0nat,
{
    match node {
        AstModel::Root(inner) => {
            lemma_graph_next(*inner, start, end, next);
        },
        AstModel::Char(_) => {},
        AstModel::Sequence(items) => {
            if items.len() > 0 {
                lemma_chain_next(items, 0, start, end, next);
            }
        },
        AstModel::Alt(options) => {
            lemma_options_next(options, 0, start, end, next);
        },
        AstModel::Repeat { min, max, node } => {
            if max != Some(0usize) {
                let copies = unrolled_between(
                    *node,
                    required_copies(min, max),
                    next as u64,
                    (next + 1) as u64,
                    next + 2,
                );
                lemma_unrolled_next(
                    *node,
                    required_copies(min, max),
                    next as u64,
                    (next + 1) as u64,
                    next + 2,
                );
                lemma_graph_next(*node, copies.inner_start, copies.inner_end, copies.next);
            }
        },
    }
}

/// The first free state id behind a chain.
pub proof fn lemma_chain_next(items: Seq<AstModel>, i: int, from: u64, end: u64, next: int)
    ensures
        chain_between(items, i, from, end, next).next == next + chain_state_count(items, i),
    decreases items, items.len() - i,
{
    if 0 <= i < items.len() {
        let last = i + 1 == items.len();
        let to = if last {
            end
        } else {
            next as u64
        };
        let next1 = if last {
            next
        } else {
            next + 1
        };
        lemma_graph_next(items[i], from, to, next1);
        lemma_chain_next(items, i + 1, to, end, graph_between(items[i], from, to, next1).next);
    }
}

/// The first free state id behind a list of options.
pub proof fn lemma_options_next(options: Seq<AstModel>, i: int, start: u64, end: u64, next: int)
    ensures
        options_between(options, i, start, end, next).next == next + options_state_count(
            options,
            i,
        ),
    decreases options, options.len() - i,
{
    if 0 <= i < options.len() {
        lemma_graph_next(options[i], start, end, next);
        lemma_options_next(
            options,
            i + 1,
            start,
            end,
            graph_between(options[i], start, end, next).next,
        );
    }
}

/// The first free state id behind the unrolled copies of a repetition.
pub proof fn lemma_unrolled_next(
    node: AstModel,
    count: nat,
    inner_start: u64,
    inner_end: u64,
    next: int,
)
    ensures
        unrolled_between(node, count, inner_start, inner_end, next).next == next + count * (
        state_count(node) + 1),
    decreases node, count + 1,
{
    if count > 0 {
        let first = graph_between(node, inner_start, inner_end, next);
        lemma_graph_next(node, inner_start, inner_end, next);
        lemma_unrolled_next(node, (count - 1) as nat, inner_end, first.next as u64, first.next + 1);
        assert(count * (state_count(node) + 1) == (count - 1) * (state_count(node) + 1) + (
        state_count(node) + 1)) by (nonlinear_arith);
    } else {
        assert(count * (state_count(node) + 1) == 0) by (nonlinear_arith)
            requires
                count == 0,
        ;
    }
}

/// The value of a list of transitions with one more behind it.
pub proof fn lemma_graph_of_push(transitions: Seq<Transition>, t: Transition)
    ensures
        graph_of(transitions.push(t)) == graph_of(transitions).push(t@),
{
    assert(graph_of(transitions.push(t)) =~= graph_of(transitions).push(t@));
}

/// The value of two lists of transitions one behind the other.
pub proof fn lemma_graph_of_add(a: Seq<Transition>, b: Seq<Transition>)
    ensures
        graph_of(a + b) == graph_of(a) + graph_of(b),
{
    assert(graph_of(a + b) =~= graph_of(a) + graph_of(b));
}

/// A list that holds the one transition `t`.
fn single(t: Transition) -> (r: Vec<Transition>)
    ensures
        graph_of(r@) == seq![t@],
{
    let mut out: Vec<Transition> = Vec::new();
    out.push(t);
    assert(graph_of(out@) =~= seq![t@]);
    out
}

/// An edge that is always free to take and takes nothing.
fn epsilon(from_state: u64, to_state: u64) -> (r: Transition)
    ensures
        r@ == TransitionModel::epsilon(from_state, to_state),
{
    Transition { from_state, to_state, cond: Cond::Epsilon, max_use: None }
}

/// Takes the next state id.
fn fresh(id_provider: &mut u64) -> (r: u64)
    requires
        *old(id_provider) < u64::MAX,
    ensures
        r == *old(id_provider),
        *final(id_provider) == *old(id_provider) + 1,
{
    *id_provider += 1;
    *id_provider - 1
}

impl AstNode {
    /// Compiles this node into a graph between two given states, taking fresh state
    /// ids from `id_provider`.
    pub fn generate(&self, id_provider: &mut u64, start_state: u64, end_state: u64) -> (r: Vec<
        Transition,
    >)
        requires
            repeats_in_order(self@),
            *old(id_provider) + state_count(self@) <= u64::MAX,
        ensures
            graph_of(r@) == graph_between(
                self@,
                start_state,
                end_state,
                *old(id_provider) as int,
            ).transitions,
            *final(id_provider) == *old(id_provider) + state_count(self@),
        decreases self,
    {
        broadcast use vstd::std_specs::vec::axiom_vec_index_decreases;

        let ghost next0 = *id_provider as int;
        proof {
            lemma_graph_next(self@, start_state, end_state, next0);
        }
        match self {
            Self::Root(inner) => {
                assert(self@ == AstModel::Root(Box::new(inner@)));
                inner.generate(id_provider, start_state, end_state)
            },
            Self::Char(c) => single(
                Transition {
                    from_state: start_state,
                    to_state: end_state,
                    cond: Cond::Char(*c),
                    max_use: None,
                },
            ),
            Self::Sequence(seq) => {
                if seq.len() == 0 {
                    assert(self@ == AstModel::Sequence(models_of(seq@)));
                    single(epsilon(start_state, end_state))
                } else {
                    let ghost items = models_of(seq@);
                    assert(self@ == AstModel::Sequence(items));
                    let ghost total = chain_between(items, 0, start_state, end_state, next0);
                    let mut transitions: Vec<Transition> = Vec::new();
                    let mut from_id = start_state;
                    let mut i: usize = 0;
                    assert(graph_of(transitions@) =~= Seq::empty());
                    proof {
                        lemma_chain_next(items, 0, start_state, end_state, next0);
                    }
                    while i < seq.len()
                        invariant
                            i <= seq.len(),
                            items == models_of(seq@),
                            decreases_to!(self => seq),
                            forall|j: int|
                                0 <= j < items.len() ==> repeats_in_order(#[trigger] items[j]),
                            *id_provider + chain_state_count(items, i as int) <= u64::MAX,
                            total.transitions == graph_of(transitions@) + chain_between(
                                items,
                                i as int,
                                from_id,
                                end_state,
                                *id_provider as int,
                            ).transitions,
                            total.next == *id_provider + chain_state_count(items, i as int),
                        decreases seq.len() - i,
                    {
                        let to_id = if i + 1 == seq.len() {
                            end_state
                        } else {
                            fresh(id_provider)
                        };
                        assert(items[i as int] == seq[i as int]@);
                        assert(repeats_in_order(items[i as int]));
                        let ghost next_in = *id_provider as int;
                        let mut seq_transitions = seq[i].generate(id_provider, from_id, to_id);
                        proof {
                            lemma_graph_next(items[i as int], from_id, to_id, next_in);
                        }
                        let ghost before = transitions@;
                        let ghost added = seq_transitions@;
                        transitions.append(&mut seq_transitions);
                        proof {
                            lemma_graph_of_add(before, added);
                            lemma_chain_next(items, i + 1, to_id, end_state, *id_provider as int);
                            assert(total.transitions =~= graph_of(transitions@) + chain_between(
                                items,
                                i + 1,
                                to_id,
                                end_state,
                                *id_provider as int,
                            ).transitions);
                        }
                        from_id = to_id;
                        i += 1;
                    }
                    assert(total.transitions =~= graph_of(transitions@));
                    transitions
                }
            },
            Self::Alt(alts) => {
                let ghost options = models_of(alts@);
                assert(self@ == AstModel::Alt(options));
                let ghost total = options_between(options, 0, start_state, end_state, next0);
                let mut transitions: Vec<Transition> = Vec::new();
                assert(graph_of(transitions@) =~= Seq::empty());
                proof {
                    lemma_options_next(options, 0, start_state, end_state, next0);
                }
                let mut i: usize = 0;
                while i < alts.len()
                    invariant
                        i <= alts.len(),
                        options == models_of(alts@),
                        decreases_to!(self => alts),
                        forall|j: int|
                            0 <= j < options.len() ==> repeats_in_order(#[trigger] options[j]),
                        *id_provider + options_state_count(options, i as int) <= u64::MAX,
                        total.transitions == graph_of(transitions@) + options_between(
                            options,
                            i as int,
                            start_state,
                            end_state,
                            *id_provider as int,
                        ).transitions,
                        total.next == *id_provider + options_state_count(options, i as int),
                    decreases alts.len() - i,
                {
                    assert(options[i as int] == alts[i as int]@);
                    assert(repeats_in_order(options[i as int]));
                    let ghost next_i = *id_provider as int;
                    let mut alt_transitions = alts[i].generate(id_provider, start_state, end_state);
                    proof {
                        lemma_graph_next(options[i as int], start_state, end_state, next_i);
                    }
                    let ghost before = transitions@;
                    let ghost added = alt_transitions@;
                    transitions.append(&mut alt_transitions);
                    proof {
                        lemma_graph_of_add(before, added);
                        lemma_options_next(
                            options,
                            i + 1,
                            start_state,
                            end_state,
                            *id_provider as int,
                        );
                        assert(total.transitions =~= graph_of(transitions@) + options_between(
                            options,
                            i + 1,
                            start_state,
                            end_state,
                            *id_provider as int,
                        ).transitions);
                    }
                    i += 1;
                }
                assert(total.transitions =~= graph_of(transitions@));
                transitions
            },
            Self::Repeat { min, max, node } => {
                if let Some(0) = max {
                    return single(epsilon(start_state, end_state));
                }
                let ghost child = node@;
                assert(self@ == (AstModel::Repeat { min: *min, max: *max, node: Box::new(child) }));
                let min_v: usize = match min {
                    Some(v) => *v,
                    None => 0,
                };
                let in_order = match max {
                    Some(v) => *v >= min_v,
                    None => true,
                };
                let req_len: usize = if in_order && min_v > 1 {
                    min_v - 1
                } else {
                    0
                };
                let optional_len: Option<usize> = match max {
                    Some(v) => Some(*v - req_len - 1),
                    None => None,
                };
                assert(req_len == required_copies(*min, *max));
                assert(optional_len == optional_laps(*min, *max));
                assert(req_len * (state_count(child) + 1) >= 0) by (nonlinear_arith);
                let mut transitions: Vec<Transition> = Vec::new();
                let mut inner_start = fresh(id_provider);
                let mut inner_end = fresh(id_provider);
                let ghost first_start = inner_start;
                let ghost first_end = inner_end;
                transitions.push(epsilon(start_state, inner_start));
                if min_v == 0 {
                    transitions.push(epsilon(start_state, end_state));
                }
                let ghost skip = if *min is None || *min == Some(0usize) {
                    seq![TransitionModel::epsilon(start_state, end_state)]
                } else {
                    Seq::empty()
                };
                let ghost head = seq![TransitionModel::epsilon(start_state, first_start)] + skip;
                assert(graph_of(transitions@) =~= head);
                let ghost total = unrolled_between(
                    child,
                    req_len as nat,
                    first_start,
                    first_end,
                    next0 + 2,
                );
                let mut k: usize = 0;
                while k < req_len
                    invariant
                        k <= req_len,
                        child == node@,
                        decreases_to!(self => node),
                        repeats_in_order(child),
                        *id_provider + (req_len - k) * (state_count(child) + 1) + state_count(child)
                            <= u64::MAX,
                        ({
                            let rest = unrolled_between(
                                child,
                                (req_len - k) as nat,
                                inner_start,
                                inner_end,
                                *id_provider as int,
                            );
                            &&& head + total.transitions == graph_of(transitions@)
                                + rest.transitions
                            &&& total.inner_start == rest.inner_start
                            &&& total.inner_end == rest.inner_end
                            &&& total.next == rest.next
                        }),
                    decreases req_len - k,
                {
                    assert((req_len - k) * (state_count(child) + 1) == (req_len - k - 1) * (
                    state_count(child) + 1) + (state_count(child) + 1)) by (nonlinear_arith);
                    assert((req_len - k - 1) * (state_count(child) + 1) >= 0) by (nonlinear_arith)
                        requires
                            req_len - k - 1 >= 0,
                    ;
                    let mut inner_t = node.generate(id_provider, inner_start, inner_end);
                    let ghost before = transitions@;
                    let ghost added = inner_t@;
                    transitions.append(&mut inner_t);
                    proof {
                        lemma_graph_of_add(before, added);
                    }
                    let ghost prev_start = inner_start;
                    let ghost prev_end = inner_end;
                    let ghost prev_next = *id_provider as int;
                    inner_start = inner_end;
                    inner_end = fresh(id_provider);
                    proof {
                        let rest_before = unrolled_between(
                            child,
                            (req_len - k) as nat,
                            prev_start,
                            prev_end,
                            prev_next - state_count(child),
                        );
                        let rest_after = unrolled_between(
                            child,
                            (req_len - k - 1) as nat,
                            inner_start,
                            inner_end,
                            *id_provider as int,
                        );
                        lemma_graph_next(
                            child,
                            prev_start,
                            prev_end,
                            prev_next - state_count(child),
                        );
                        assert(rest_before.transitions == graph_between(
                            child,
                            prev_start,
                            prev_end,
                            prev_next - state_count(child),
                        ).transitions + rest_after.transitions);
                        assert(head + total.transitions =~= graph_of(transitions@)
                            + rest_after.transitions);
                    }
                    k += 1;
                }
                let ghost before_exit = transitions@;
                let exit = epsilon(inner_end, end_state);
                transitions.push(exit);
                proof {
                    lemma_graph_of_push(before_exit, exit);
                }
                let ghost before_body = transitions@;
                let mut inner_t = node.generate(id_provider, inner_start, inner_end);
                let ghost added = inner_t@;
                transitions.append(&mut inner_t);
                proof {
                    lemma_graph_of_add(before_body, added);
                }
                let ghost before_back = transitions@;
                let back = Transition {
                    from_state: inner_end,
                    to_state: inner_start,
                    cond: Cond::Epsilon,
                    max_use: optional_len,
                };
                transitions.push(back);
                proof {
                    lemma_graph_of_push(before_back, back);
                    lemma_unrolled_next(child, req_len as nat, first_start, first_end, next0 + 2);
                    let body = graph_between(child, total.inner_start, total.inner_end, total.next);
                    assert(graph_of(transitions@) =~= head + total.transitions + seq![
                        TransitionModel::epsilon(total.inner_end, end_state),
                    ] + body.transitions + seq![
                        TransitionModel {
                            from_state: total.inner_end,
                            to_state: total.inner_start,
                            cond: CondModel::Epsilon,
                            max_use: optional_laps(*min, *max),
                        },
                    ]);
                }
                transitions
            },
        }
    }
}

/// One pending branch of a search: the index of its next token and its state.
pub struct Branch {
    pub pos: int,
    pub state: u64,
}

/// The token at `pos`, or `None` behind the end of the stream.
pub open spec fn head_at(tokens: Seq<Token>, pos: int) -> Option<Token> {
    if 0 <= pos < tokens.len() {
        Some(tokens[pos])
    } else {
        None
    }
}

/// Where the transition `tr` leads a branch that stands at `pos`, if its condition holds.
pub open spec fn target_of(tokens: Seq<Token>, pos: int, tr: TransitionModel) -> Option<Branch> {
    match cond_match(tr.cond, head_at(tokens, pos)) {
        MatchResult::MatchAndConsume => Some(Branch { pos: pos + 1, state: tr.to_state }),
        MatchResult::MatchNoConsume => Some(Branch { pos, state: tr.to_state }),
        MatchResult::NoMatch => None,
    }
}

/// Whether the end state can be reached from the branch `b` over at most `steps`
/// transitions whose conditions hold.
pub open spec fn accepts_within(
    graph: Seq<TransitionModel>,
    tokens: Seq<Token>,
    b: Branch,
    steps: nat,
) -> bool
    decreases steps,
{
    b.state == 1 || (steps > 0 && exists|i: int|
        0 <= i < graph.len() && (#[trigger] graph[i]).from_state == b.state && target_of(
            tokens,
            b.pos,
            graph[i],
        ) is Some && accepts_within(
            graph,
            tokens,
            target_of(tokens, b.pos, graph[i])->0,
            (steps - 1) as nat,
        ))
}

/// Whether the end state can be reached from the branch `b`.
pub open spec fn accepts(graph: Seq<TransitionModel>, tokens: Seq<Token>, b: Branch) -> bool {
    exists|steps: nat| accepts_within(graph, tokens, b, steps)
}

/// Whether the pattern matches a run of tokens that starts at `offset`.
pub open spec fn matches_at(graph: Seq<TransitionModel>, tokens: Seq<Token>, offset: int) -> bool {
    accepts(graph, tokens, Branch { pos: offset, state: 0 })
}

/// The transitions that leave `state`, in the order of the graph.
pub open spec fn available(graph: Seq<TransitionModel>, state: u64) -> Seq<TransitionModel>
    decreases graph.len(),
{
    if graph.len() == 0 {
        Seq::empty()
    } else {
        let rest = available(graph.drop_last(), state);
        if graph.last().from_state == state {
            rest.push(graph.last())
        } else {
            rest
        }
    }
}

/// The branches behind those of the transitions `exits` whose conditions hold at `pos`.
pub open spec fn targets(tokens: Seq<Token>, pos: int, exits: Seq<TransitionModel>) -> Seq<Branch>
    decreases exits.len(),
{
    if exits.len() == 0 {
        Seq::empty()
    } else {
        let rest = targets(tokens, pos, exits.drop_last());
        match target_of(tokens, pos, exits.last()) {
            Some(b) => rest.push(b),
            None => rest,
        }
    }
}

/// Whether the search finds the end state where it takes at most `fuel` steps; `None`
/// where it takes more. A step takes the innermost branch off the stack and puts the
/// branches behind the transitions that leave its state in its place.
pub open spec fn search_run(
    graph: Seq<TransitionModel>,
    tokens: Seq<Token>,
    stack: Seq<Branch>,
    fuel: nat,
) -> Option<bool>
    decreases fuel,
{
    if stack.len() == 0 {
        Some(false)
    } else if stack.last().state == 1 {
        Some(true)
    } else if fuel == 0 {
        None
    } else {
        search_run(
            graph,
            tokens,
            stack.drop_last() + targets(
                tokens,
                stack.last().pos,
                available(graph, stack.last().state),
            ),
            (fuel - 1) as nat,
        )
    }
}

/// The stack of a search as it starts at `offset`.
pub open spec fn search_start(offset: int) -> Seq<Branch> {
    seq![Branch { pos: offset, state: 0 }]
}

/// Whether the search from `offset` comes to an end.
pub open spec fn search_halts(graph: Seq<TransitionModel>, tokens: Seq<Token>, offset: int)
    -> bool {
    exists|fuel: nat| search_run(graph, tokens, search_start(offset), fuel) is Some
}

/// Whether the searches from `offset` on come to an end, up to the first that finds
/// the end state.
pub open spec fn scan_halts(graph: Seq<TransitionModel>, tokens: Seq<Token>, offset: int) -> bool
    decreases tokens.len() - offset,
{
    offset < 0 || offset >= tokens.len() || (search_halts(graph, tokens, offset) && (matches_at(
        graph,
        tokens,
        offset,
    ) || scan_halts(graph, tokens, offset + 1)))
}

/// Every transition that leaves `state` is among the available ones, and no other.
pub proof fn lemma_available(graph: Seq<TransitionModel>, state: u64)
    ensures
        forall|j: int|
            0 <= j < available(graph, state).len() ==> (#[trigger] available(
                graph,
                state,
            )[j]).from_state == state && graph.contains(available(graph, state)[j]),
        forall|i: int|
            0 <= i < graph.len() && (#[trigger] graph[i]).from_state == state ==> available(
                graph,
                state,
            ).contains(graph[i]),
    decreases graph.len(),
{
    if graph.len() > 0 {
        let front = graph.drop_last();
        lemma_available(front, state);
        let rest = available(front, state);
        let all = available(graph, state);
        assert forall|j: int| 0 <= j < all.len() implies (#[trigger] all[j]).from_state == state
            && graph.contains(all[j]) by {
            if j < rest.len() {
                assert(all[j] == rest[j]);
                let w = choose|w: int| 0 <= w < front.len() && front[w] == rest[j];
                assert(graph[w] == all[j]);
            } else {
                assert(graph[graph.len() - 1] == all[j]);
            }
        }
        assert forall|i: int|
            0 <= i < graph.len() && (#[trigger] graph[i]).from_state == state implies all.contains(
            graph[i],
        ) by {
            if i < front.len() {
                assert(front[i] == graph[i]);
                let w = choose|w: int| 0 <= w < rest.len() && rest[w] == front[i];
                assert(all[w] == graph[i]);
            } else {
                assert(all[all.len() - 1] == graph[i]);
            }
        }
    }
}

/// The targets are the branches behind the transitions whose conditions hold.
pub proof fn lemma_targets(tokens: Seq<Token>, pos: int, exits: Seq<TransitionModel>)
    ensures
        forall|j: int|
            0 <= j < targets(tokens, pos, exits).len() ==> exists|i: int|
                0 <= i < exits.len() && target_of(tokens, pos, #[trigger] exits[i]) == Some(
                    #[trigger] targets(tokens, pos, exits)[j],
                ),
        forall|i: int|
            0 <= i < exits.len() && target_of(tokens, pos, #[trigger] exits[i]) is Some
                ==> targets(tokens, pos, exits).contains(target_of(tokens, pos, exits[i])->0),
    decreases exits.len(),
{
    if exits.len() > 0 {
        let front = exits.drop_last();
        lemma_targets(tokens, pos, front);
        let rest = targets(tokens, pos, front);
        let all = targets(tokens, pos, exits);
        assert forall|j: int| 0 <= j < all.len() implies exists|i: int|
            0 <= i < exits.len() && target_of(tokens, pos, #[trigger] exits[i]) == Some(
                #[trigger] all[j],
            ) by {
            if j < rest.len() {
                assert(all[j] == rest[j]);
                let w = choose|w: int|
                    0 <= w < front.len() && target_of(tokens, pos, #[trigger] front[w]) == Some(
                        rest[j],
                    );
                assert(exits[w] == front[w]);
            } else {
                assert(target_of(tokens, pos, exits[exits.len() - 1]) == Some(all[j]));
            }
        }
        assert forall|i: int|
            0 <= i < exits.len() && target_of(
                tokens,
                pos,
                #[trigger] exits[i],
            ) is Some implies all.contains(target_of(tokens, pos, exits[i])->0) by {
            if i < front.len() {
                assert(front[i] == exits[i]);
                let w = choose|w: int|
                    0 <= w < rest.len() && rest[w] == target_of(tokens, pos, front[i])->0;
                assert(all[w] == rest[w]);
            } else {
                assert(all[all.len() - 1] == target_of(tokens, pos, exits[i])->0);
            }
        }
    }
}

/// A search that comes to an end finds the end state exactly where the end state can
/// be reached from one of the branches on its stack.
pub proof fn lemma_search_decides(
    graph: Seq<TransitionModel>,
    tokens: Seq<Token>,
    stack: Seq<Branch>,
    fuel: nat,
)
    requires
        search_run(graph, tokens, stack, fuel) is Some,
    ensures
        search_run(graph, tokens, stack, fuel)->0 <==> exists|k: int|
            0 <= k < stack.len() && accepts(graph, tokens, #[trigger] stack[k]),
    decreases fuel,
{
    if stack.len() == 0 {
    } else if stack.last().state == 1 {
        assert(accepts_within(graph, tokens, stack[stack.len() - 1], 0));
    } else {
        let top = stack.last();
        let exits = available(graph, top.state);
        let pushed = targets(tokens, top.pos, exits);
        let next = stack.drop_last() + pushed;
        lemma_search_decides(graph, tokens, next, (fuel - 1) as nat);
        lemma_available(graph, top.state);
        lemma_targets(tokens, top.pos, exits);
        if exists|k: int| 0 <= k < next.len() && accepts(graph, tokens, #[trigger] next[k]) {
            let k = choose|k: int| 0 <= k < next.len() && accepts(graph, tokens, #[trigger] next[k]);
            if k < stack.len() - 1 {
                assert(stack[k] == next[k]);
            } else {
                let j = k - (stack.len() - 1);
                assert(next[k] == pushed[j]);
                let e = choose|e: int|
                    0 <= e < exits.len() && target_of(tokens, top.pos, #[trigger] exits[e])
                        == Some(pushed[j]);
                assert(graph.contains(exits[e]));
                let i = choose|i: int| 0 <= i < graph.len() && graph[i] == exits[e];
                let steps = choose|steps: nat| accepts_within(graph, tokens, pushed[j], steps);
                assert(accepts_within(graph, tokens, top, steps + 1)) by {
                    assert(graph[i].from_state == top.state);
                    assert(target_of(tokens, top.pos, graph[i]) is Some);
                }
                assert(accepts(graph, tokens, stack[stack.len() - 1]));
            }
        }
        if exists|k: int| 0 <= k < stack.len() && accepts(graph, tokens, #[trigger] stack[k]) {
            let k = choose|k: int|
                0 <= k < stack.len() && accepts(graph, tokens, #[trigger] stack[k]);
            if k < stack.len() - 1 {
                assert(next[k] == stack[k]);
            } else {
                let steps = choose|steps: nat| accepts_within(graph, tokens, top, steps);
                let i = choose|i: int|
                    0 <= i < graph.len() && (#[trigger] graph[i]).from_state == top.state
                        && target_of(tokens, top.pos, graph[i]) is Some && accepts_within(
                        graph,
                        tokens,
                        target_of(tokens, top.pos, graph[i])->0,
                        (steps - 1) as nat,
                    );
                let child = target_of(tokens, top.pos, graph[i])->0;
                assert(exits.contains(graph[i]));
                let e = choose|e: int| 0 <= e < exits.len() && exits[e] == graph[i];
                assert(target_of(tokens, top.pos, exits[e]) is Some);
                assert(pushed.contains(child));
                let j = choose|j: int| 0 <= j < pushed.len() && pushed[j] == child;
                assert(next[stack.len() - 1 + j] == child);
                assert(accepts(graph, tokens, next[stack.len() - 1 + j]));
            }
        }
    }
}

/// The values of a stack of branches.
pub open spec fn branches_of(stack: Seq<(usize, u64)>) -> Seq<Branch> {
    Seq::new(stack.len(), |i: int| Branch { pos: stack[i].0 as int, state: stack[i].1 })
}

/// Runs a compiled pattern against token streams.
pub struct Evaluator {
    transitions: Vec<Transition>,
}

impl Evaluator {
    /// The graph that this evaluator runs.
    pub closed spec fn graph(&self) -> Seq<TransitionModel> {
        graph_of(self.transitions@)
    }

    /// An evaluator for the graph that `transitions` lists.
    pub fn new(transitions: Vec<Transition>) -> (r: Self)
        ensures
            r.graph() == graph_of(transitions@),
    {
        Self { transitions }
    }

    /// The transitions that leave `start_state`, in the order of the graph.
    pub fn get_available_transitions(&self, start_state: u64) -> (r: Vec<&Transition>)
        ensures
            graph_of_refs(r@) == available(self.graph(), start_state),
    {
        let mut transitions: Vec<&Transition> = Vec::new();
        let ghost graph = self.graph();
        let mut i: usize = 0;
        assert(graph.subrange(0, 0) =~= Seq::empty());
        assert(graph_of_refs(transitions@) =~= Seq::empty());
        while i < self.transitions.len()
            invariant
                i <= self.transitions.len(),
                graph == self.graph(),
                graph.len() == self.transitions.len(),
                graph_of_refs(transitions@) == available(graph.subrange(0, i as int), start_state),
            decreases self.transitions.len() - i,
        {
            let t = &self.transitions[i];
            proof {
                assert(graph.subrange(0, i + 1).drop_last() =~= graph.subrange(0, i as int));
                assert(graph.subrange(0, i + 1).last() == t@);
            }
            if t.from_state == start_state {
                let ghost before = transitions@;
                transitions.push(t);
                assert(graph_of_refs(transitions@) =~= graph_of_refs(before).push(t@));
            }
            i += 1;
        }
        assert(graph.subrange(0, i as int) =~= graph);
        transitions
    }

    /// One search: whether the end state can be reached from the start state against
    /// the stream from `offset` on.
    pub fn search_from(&self, chars: &[Token], offset: usize) -> (r: bool)
        requires
            offset <= chars@.len(),
            search_halts(self.graph(), chars@, offset as int),
        ensures
            r == matches_at(self.graph(), chars@, offset as int),
    {
        let ghost graph = self.graph();
        let ghost tokens = chars@;
        let ghost fuel0 = choose|fuel: nat|
            search_run(graph, tokens, search_start(offset as int), fuel) is Some;
        let ghost target = search_run(graph, tokens, search_start(offset as int), fuel0);
        proof {
            lemma_search_decides(graph, tokens, search_start(offset as int), fuel0);
            if matches_at(graph, tokens, offset as int) {
                assert(accepts(graph, tokens, search_start(offset as int)[0]));
            }
        }
        let mut stack: Vec<(usize, u64)> = Vec::new();
        stack.push((offset, 0u64));
        let ghost mut fuel = fuel0;
        assert(branches_of(stack@) =~= search_start(offset as int));
        loop
            invariant
                graph == self.graph(),
                tokens == chars@,
                target is Some,
                target->0 == matches_at(graph, tokens, offset as int),
                search_run(graph, tokens, branches_of(stack@), fuel) == target,
                forall|i: int| 0 <= i < stack@.len() ==> (#[trigger] stack@[i]).0 <= tokens.len(),
            decreases fuel,
        {
            if stack.len() == 0 {
                return false;
            }
            let ghost before_pop = stack@;
            let (pos, current_state) = stack.pop().unwrap();
            assert(branches_of(before_pop).last() == (Branch {
                pos: pos as int,
                state: current_state,
            }));
            assert(branches_of(stack@) =~= branches_of(before_pop).drop_last());
            if current_state == 1 {
                return true;
            }
            let available_transitions = self.get_available_transitions(current_state);
            let ghost exits = graph_of_refs(available_transitions@);
            let ghost base = branches_of(stack@);
            let mut k: usize = 0;
            assert(exits.subrange(0, 0) =~= Seq::empty());
            assert(base + Seq::<Branch>::empty() =~= base);
            while k < available_transitions.len()
                invariant
                    k <= available_transitions.len(),
                    tokens == chars@,
                    pos <= tokens.len(),
                    exits == graph_of_refs(available_transitions@),
                    branches_of(stack@) == base + targets(
                        tokens,
                        pos as int,
                        exits.subrange(0, k as int),
                    ),
                    forall|i: int|
                        0 <= i < stack@.len() ==> (#[trigger] stack@[i]).0 <= tokens.len(),
                decreases available_transitions.len() - k,
            {
                let tr: &Transition = available_transitions[k];
                proof {
                    assert(exits.subrange(0, k + 1).drop_last() =~= exits.subrange(0, k as int));
                    assert(exits.subrange(0, k + 1).last() == tr@);
                }
                let head = if pos < chars.len() {
                    Some(&chars[pos])
                } else {
                    None
                };
                let ghost before = stack@;
                match tr.cond.is_match(head) {
                    MatchResult::MatchAndConsume => {
                        stack.push((pos + 1, tr.to_state));
                        assert(branches_of(stack@) =~= branches_of(before).push(
                            Branch { pos: pos + 1, state: tr.to_state },
                        ));
                    },
                    MatchResult::MatchNoConsume => {
                        stack.push((pos, tr.to_state));
                        assert(branches_of(stack@) =~= branches_of(before).push(
                            Branch { pos: pos as int, state: tr.to_state },
                        ));
                    },
                    MatchResult::NoMatch => {},
                }
                assert(branches_of(stack@) =~= base + targets(
                    tokens,
                    pos as int,
                    exits.subrange(0, k + 1),
                ));
                k += 1;
            }
            proof {
                assert(exits.subrange(0, k as int) =~= exits);
                fuel = (fuel - 1) as nat;
            }
        }
    }

    /// Whether the pattern matches some run of tokens of the stream.
    pub fn is_match(&self, chars: &[Token]) -> (r: bool)
        requires
            scan_halts(self.graph(), chars@, 0),
        ensures
            r == exists|offset: int|
                0 <= offset < chars@.len() && matches_at(self.graph(), chars@, offset),
    {
        let mut offset: usize = 0;
        while offset < chars.len()
            invariant
                offset <= chars.len(),
                scan_halts(self.graph(), chars@, offset as int),
                forall|o: int| 0 <= o < offset ==> !matches_at(self.graph(), chars@, o),
            decreases chars.len() - offset,
        {
            if self.search_from(chars, offset) {
                return true;
            }
            offset += 1;
        }
        false
    }
}

} // verus!
