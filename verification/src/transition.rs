//! The edges of the execution graph, their labels, and the description of a graph in
//! the dot language.
use vstd::prelude::*;
use vstd::string::StringExecFns;
use crate::cond::{Cond, CondModel, cond_label};
use crate::text::{decimal_digits, push_decimal};

verus! {

/// How a state is written in a label: the two ends by name, the others by number.
pub open spec fn state_label(id: u64) -> Seq<char> {
    if id == 0 {
        "Start"@
    } else if id == 1 {
        "End"@
    } else {
        decimal_digits(id as nat)
    }
}

/// How a state is written in a label.
pub fn state_id_to_label(id: u64) -> (r: String)
    ensures
        r@ == state_label(id),
{
    broadcast use vstd::string::group_string_axioms;

    if id == 0 {
        "Start".to_string()
    } else if id == 1 {
        "End".to_string()
    } else {
        let mut out = String::new();
        push_decimal(&mut out, id);
        assert(out@ =~= decimal_digits(id as nat));
        out
    }
}

/// What a transition does to the capture groups when it is taken.
#[derive(Debug, Clone, Copy, PartialEq, Eq, Structural)]
pub enum CaptureGroupInstruction {
    /// Opens the group of that id.
    Start(u64),
    /// Closes the group of that id, which is the innermost open one.
    End(u64),
    /// Leaves the groups as they are.
    Keep,
}

/// How a capture instruction is written in a label; nothing for `Keep`.
pub open spec fn instruction_label(ins: CaptureGroupInstruction) -> Seq<char> {
    match ins {
        CaptureGroupInstruction::Start(id) => "CapS["@ + decimal_digits(id as nat) + "]"@,
        CaptureGroupInstruction::End(id) => "CapE["@ + decimal_digits(id as nat) + "]"@,
        CaptureGroupInstruction::Keep => Seq::empty(),
    }
}

impl CaptureGroupInstruction {
    /// How this instruction is written in a label.
    pub fn to_label(&self) -> (r: String)
        ensures
            r@ == instruction_label(*self),
    {
        broadcast use vstd::string::group_string_axioms;

        match self {
            Self::Start(id) => {
                let mut out = "CapS[".to_string();
                push_decimal(&mut out, *id);
                out.append("]");
                out
            },
            Self::End(id) => {
                let mut out = "CapE[".to_string();
                push_decimal(&mut out, *id);
                out.append("]");
                out
            },
            Self::Keep => String::new(),
        }
    }
}

/// A directed edge of the execution graph.
#[derive(Debug)]
pub struct Transition {
    pub from_state: u64,
    pub to_state: u64,
    pub cond: Cond,
    /// How often the edge may be taken; `None` for no limit.
    pub max_use: Option<u64>,
    pub capture_group_ins: CaptureGroupInstruction,
}

/// The mathematical value of a `Transition`.
pub struct TransitionModel {
    pub from_state: u64,
    pub to_state: u64,
    pub cond: CondModel,
    pub max_use: Option<u64>,
    pub capture_group_ins: CaptureGroupInstruction,
}

impl TransitionModel {
    /// An edge with a condition, without limit or instruction.
    pub open spec fn on(from_state: u64, to_state: u64, cond: CondModel) -> TransitionModel {
        TransitionModel {
            from_state,
            to_state,
            cond,
            max_use: None,
            capture_group_ins: CaptureGroupInstruction::Keep,
        }
    }

    /// An edge that is always free to take and consumes nothing.
    pub open spec fn epsilon(from_state: u64, to_state: u64) -> TransitionModel {
        TransitionModel::on(from_state, to_state, CondModel::Epsilon)
    }
}

impl View for Transition {
    type V = TransitionModel;

    open spec fn view(&self) -> TransitionModel {
        TransitionModel {
            from_state: self.from_state,
            to_state: self.to_state,
            cond: self.cond@,
            max_use: self.max_use,
            capture_group_ins: self.capture_group_ins,
        }
    }
}

/// How a transition is written in a label: its condition, then its cap and its capture
/// instruction where it has them, with a blank between the parts.
pub open spec fn transition_label(t: TransitionModel) -> Seq<char> {
    cond_label(t.cond) + (match t.max_use {
        Some(v) => " (max "@ + decimal_digits(v as nat) + ")"@,
        None => Seq::empty(),
    }) + (if instruction_label(t.capture_group_ins).len() > 0 {
        " "@ + instruction_label(t.capture_group_ins)
    } else {
        Seq::empty()
    })
}

/// The mathematical value of a list of transitions.
pub open spec fn graph_of(transitions: Seq<Transition>) -> Seq<TransitionModel> {
    Seq::new(transitions.len(), |i: int| transitions[i]@)
}

impl Transition {
    /// How this transition is written in a label.
    pub fn to_label(&self) -> (r: String)
        ensures
            r@ == transition_label(self@),
    {
        broadcast use vstd::string::group_string_axioms;

        let mut out = self.cond.to_label();
        if let Some(v) = self.max_use {
            out.append(" (max ");
            push_decimal(&mut out, v);
            out.append(")");
        }
        let capture_part = self.capture_group_ins.to_label();
        if !capture_part.as_str().is_empty() {
            out.append(" ");
            out.append(capture_part.as_str());
        }
        assert(out@ =~= transition_label(self@));
        out
    }

    /// An edge with every field given.
    pub fn new_full(
        from_state: u64,
        to_state: u64,
        cond: Cond,
        max_use: Option<u64>,
        capture_group_ins: CaptureGroupInstruction,
    ) -> (r: Self)
        ensures
            r@ == (TransitionModel { from_state, to_state, cond: cond@, max_use, capture_group_ins }),
    {
        Self { from_state, to_state, cond, max_use, capture_group_ins }
    }

    /// An edge with a condition, without limit or instruction.
    pub fn new_cond(from_state: u64, to_state: u64, cond: Cond) -> (r: Self)
        ensures
            r@ == TransitionModel::on(from_state, to_state, cond@),
    {
        Self {
            from_state,
            to_state,
            cond,
            max_use: None,
            capture_group_ins: CaptureGroupInstruction::Keep,
        }
    }

    /// An edge that is always free to take and consumes nothing.
    pub fn new(from_state: u64, to_state: u64) -> (r: Self)
        ensures
            r@ == TransitionModel::epsilon(from_state, to_state),
    {
        Self {
            from_state,
            to_state,
            cond: Cond::Epsilon,
            max_use: None,
            capture_group_ins: CaptureGroupInstruction::Keep,
        }
    }
}

/// The lines of a graph description for the transitions from index `i` on: each line
/// names the two states of a transition and labels the edge with the index of the
/// transition and, on a line of its own, its label.
pub open spec fn dot_lines(graph: Seq<TransitionModel>, i: int) -> Seq<char>
    decreases graph.len() - i,
{
    if 0 <= i < graph.len() {
        "\t"@ + state_label(graph[i].from_state) + " -> "@ + state_label(graph[i].to_state)
            + " [label=\"#"@ + decimal_digits(i as nat) + "\n"@ + transition_label(graph[i])
            + "\"]\n"@ + dot_lines(graph, i + 1)
    } else {
        Seq::empty()
    }
}

/// The description of a graph as a directed graph in the dot language.
pub open spec fn dot_text(graph: Seq<TransitionModel>) -> Seq<char> {
    "digraph {{\n"@ + dot_lines(graph, 0) + "}}\n"@
}

/// Describes the graph of `transitions` in the dot language.
pub fn dot_from_transitions(transitions: &Vec<Transition>) -> (r: String)
    ensures
        r@ == dot_text(graph_of(transitions@)),
{
    broadcast use vstd::string::group_string_axioms;

    let ghost graph = graph_of(transitions@);
    let mut out = "digraph {{\n".to_string();
    let ghost head = out@;
    let ghost mut done: Seq<char> = Seq::empty();
    let mut i: usize = 0;
    assert(out@ =~= head + done);
    while i < transitions.len()
        invariant
            i <= transitions.len(),
            graph == graph_of(transitions@),
            out@ == head + done,
            dot_lines(graph, 0) == done + dot_lines(graph, i as int),
        decreases transitions.len() - i,
    {
        let tr = &transitions[i];
        let ghost before = out@;
        out.append("\t");
        out.append(state_id_to_label(tr.from_state).as_str());
        out.append(" -> ");
        out.append(state_id_to_label(tr.to_state).as_str());
        out.append(" [label=\"#");
        push_decimal(&mut out, i as u64);
        out.append("\n");
        out.append(tr.to_label().as_str());
        out.append("\"]\n");
        proof {
            let line = "\t"@ + state_label(graph[i as int].from_state) + " -> "@ + state_label(
                graph[i as int].to_state,
            ) + " [label=\"#"@ + decimal_digits(i as nat) + "\n"@ + transition_label(
                graph[i as int],
            ) + "\"]\n"@;
            assert(out@ =~= before + line);
            assert(dot_lines(graph, i as int) =~= line + dot_lines(graph, i + 1));
            done = done + line;
            assert(out@ =~= head + done);
            assert(dot_lines(graph, 0) =~= done + dot_lines(graph, i + 1));
        }
        i += 1;
    }
    out.append("}}\n");
    assert(out@ =~= dot_text(graph));
    out
}

} // verus!
