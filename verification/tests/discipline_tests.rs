use peter_grep::common::{str_to_tokens, END_STATE, START_STATE};
use peter_grep::evaluator::Evaluator;
use peter_grep::parser::Parser;
use peter_grep::transition::{CaptureGroupInstruction, Transition};

/// Follows every walk of at most `depth` edges from the start state and keeps the stack
/// of open groups as the capture instructions ask for it.
fn follow(graph: &[Transition], state: u64, open: &mut Vec<u64>, depth: usize, ends: &mut usize) {
    if state == END_STATE {
        assert!(open.is_empty(), "a group is left open in the end state: {:?}", open);
        *ends += 1;
    }
    if depth == 0 {
        return;
    }
    for edge in graph.iter().filter(|t| t.from_state == state) {
        match edge.capture_group_ins {
            CaptureGroupInstruction::Start(id) => {
                assert!(!open.contains(&id), "group {} is opened twice", id);
                open.push(id);
                follow(graph, edge.to_state, open, depth - 1, ends);
                open.pop();
            }
            CaptureGroupInstruction::End(id) => {
                assert_eq!(open.last(), Some(&id), "group {} is not the innermost one", id);
                open.pop();
                follow(graph, edge.to_state, open, depth - 1, ends);
                open.push(id);
            }
            CaptureGroupInstruction::Keep => follow(graph, edge.to_state, open, depth - 1, ends),
        }
    }
}

#[test]
fn groups_are_closed_innermost_first_along_every_walk() {
    for pattern in ["(a)", "(a(b|c)d)+(e)", "((a)|(b(c)))*x", "(x{3,6}|y){2,4}", "(cat|dog) and \\1", "()"] {
        let graph = Parser::parse_regex_str(pattern).unwrap().generate();
        let mut ends = 0;
        follow(&graph, START_STATE, &mut vec![], 14, &mut ends);
        assert!(ends > 0, "{}", pattern);
    }
}

#[test]
fn loop_start_transitions_lead_to_states_with_capped_edges() {
    let evaluator = Evaluator::new(Parser::parse_regex_str("ab{2,4}c*").unwrap().generate());
    // b{2,4}: the states 4 and 5 hold the unrolled copy, 5 and 6 the loop, whose capped
    // edge leaves 6; the edge of the body from 5 to 6 starts the loop.
    assert_eq!(evaluator.get_loop_start_transitions(), vec![(5, 6)]);
    let out_of_start: Vec<_> = evaluator
        .get_available_transitions(START_STATE)
        .iter()
        .map(|t| (t.from_state, t.to_state))
        .collect();
    assert_eq!(out_of_start, vec![(0, 2)]);
    assert!(evaluator.get_available_transitions(END_STATE).is_empty());
    let star = Evaluator::new(Parser::parse_regex_str("c*").unwrap().generate());
    assert!(star.get_loop_start_transitions().is_empty());
    assert_eq!(star.search_from(&str_to_tokens("cc")[..], 1, &vec![]), Some(3));
    assert_eq!(star.search_from(&str_to_tokens("cc")[..], 3, &vec![]), Some(3));
}
