use peter_grep::ast::AstNode;
use peter_grep::cond::{Cond, Literal};
use peter_grep::parser::Parser;
use peter_grep::transition::{
    dot_from_transitions, state_id_to_label, CaptureGroupInstruction, Transition,
};

#[test]
fn state_labels() {
    assert_eq!(state_id_to_label(0), "Start");
    assert_eq!(state_id_to_label(1), "End");
    assert_eq!(state_id_to_label(2), "2");
    assert_eq!(state_id_to_label(10), "10");
    assert_eq!(state_id_to_label(907), "907");
    assert_eq!(state_id_to_label(u64::MAX), "18446744073709551615");
}

#[test]
fn literal_and_condition_labels() {
    assert_eq!(Literal::Alphanumeric.to_label(), "\\w");
    assert_eq!(Literal::Numeric.to_label(), "\\d");
    assert_eq!(Literal::Char('q').to_label(), "q");
    assert_eq!(Literal::Range { start: 'a', end: 'f' }.to_label(), "a-f");
    assert_eq!(Cond::Epsilon.to_label(), "-");
    assert_eq!(Cond::Start.to_label(), "^");
    assert_eq!(Cond::End.to_label(), "$");
    assert_eq!(Cond::AnyChar.to_label(), ".");
    assert_eq!(Cond::CaptureRef(12).to_label(), "ref12");
    assert_eq!(Cond::Char(Literal::Numeric).to_label(), "\\d");
    let class = vec![Literal::Char('x'), Literal::Range { start: '0', end: '9' }];
    assert_eq!(Cond::CharGroup { chars: class.clone(), is_negated: false }.to_label(), "[x0-9]");
    assert_eq!(Cond::CharGroup { chars: class, is_negated: true }.to_label(), "[^x0-9]");
    assert_eq!(Cond::CharGroup { chars: vec![], is_negated: false }.to_label(), "[]");
}

#[test]
fn instruction_and_transition_labels() {
    assert_eq!(CaptureGroupInstruction::Start(3).to_label(), "CapS[3]");
    assert_eq!(CaptureGroupInstruction::End(40).to_label(), "CapE[40]");
    assert_eq!(CaptureGroupInstruction::Keep.to_label(), "");
    assert_eq!(Transition::new(0, 1).to_label(), "-");
    assert_eq!(Transition::new_cond(0, 1, Cond::AnyChar).to_label(), ".");
    assert_eq!(
        Transition::new_full(4, 3, Cond::Epsilon, Some(2), CaptureGroupInstruction::Keep).to_label(),
        "- (max 2)"
    );
    assert_eq!(
        Transition::new_full(0, 2, Cond::Epsilon, None, CaptureGroupInstruction::Start(1)).to_label(),
        "- CapS[1]"
    );
    assert_eq!(
        Transition::new_full(0, 2, Cond::Start, Some(0), CaptureGroupInstruction::End(7)).to_label(),
        "^ (max 0) CapE[7]"
    );
}

#[test]
fn ast_test_repeat() {
    let root = AstNode::Root(Box::new(AstNode::Sequence(vec![
        AstNode::Alt {
            options: vec![
                AstNode::Repeat {
                    min: Some(0),
                    max: Some(0),
                    node: Box::new(AstNode::Char(Literal::Char('a'))),
                },
                AstNode::Char(Literal::Char('b')),
                AstNode::Sequence(vec![
                    AstNode::Char(Literal::Char('x')),
                    AstNode::Char(Literal::Char('y')),
                ]),
            ],
            id: 1,
        },
        AstNode::Alt {
            options: vec![
                AstNode::Sequence(vec![
                    AstNode::Char(Literal::Char('1')),
                    AstNode::Char(Literal::Char('1')),
                ]),
                AstNode::Sequence(vec![
                    AstNode::Char(Literal::Char('2')),
                    AstNode::Char(Literal::Char('2')),
                ]),
            ],
            id: 2,
        },
        AstNode::Char(Literal::Char('c')),
    ])));

    let transitions = root.generate();
    println!("{:?}", &transitions);
    let dot = dot_from_transitions(&transitions);
    assert!(dot.starts_with("digraph {{\n\tStart -> 3 [label=\"#0\n- CapS[1]\"]\n\t3 -> 4 [label=\"#1\n-\"]\n"));
    assert!(dot.ends_with("\t6 -> End [label=\"#12\nc\"]\n}}\n"));
}

#[test]
fn test_transition_for_loop() {
    let ast = Parser::parse_regex_str("x{2}").unwrap();
    assert_eq!(
        dot_from_transitions(&ast.generate()),
        "digraph {{\n\
         \tStart -> 2 [label=\"#0\n-\"]\n\
         \t2 -> 3 [label=\"#1\nx\"]\n\
         \t4 -> 3 [label=\"#2\n- (max 0)\"]\n\
         \t3 -> 4 [label=\"#3\nx\"]\n\
         \t4 -> End [label=\"#4\n-\"]\n\
         }}\n"
    );
}

#[test]
fn test_transition_for_optional() {
    let ast = Parser::parse_regex_str("(cat|dog) and \\1").unwrap();
    let dot = dot_from_transitions(&ast.generate());
    assert!(dot.starts_with("digraph {{\n\tStart -> 3 [label=\"#0\n- CapS[1]\"]\n"));
    assert!(dot.contains(" [label=\"#7\n- CapE[1]\"]\n"));
    assert!(dot.ends_with(" -> End [label=\"#13\nref1\"]\n}}\n"));
    assert_eq!(dot.lines().count(), 2 + 2 * 14);
}

#[test]
fn test_nested_repeat() {
    let dot = dot_from_transitions(
        &Parser::parse_regex_str("(x{3,6}|y){2,4}").unwrap().generate(),
    );
    assert!(dot.starts_with("digraph {{\n\tStart -> 2 [label=\"#0\n-\"]\n"));
    assert!(dot.contains("- (max 2)"));
    assert!(dot.contains("- (max 3)"));
    assert!(dot.ends_with("}}\n"));
}

#[test]
fn empty_graph_description() {
    assert_eq!(dot_from_transitions(&vec![]), "digraph {{\n}}\n");
}
