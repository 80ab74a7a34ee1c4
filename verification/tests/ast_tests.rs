use peter_grep::ast::AstNode;
use peter_grep::common::str_to_tokens;
use peter_grep::cond::{Cond, Literal};
use peter_grep::evaluator::Evaluator;
use peter_grep::parser::Parser;
use peter_grep::transition::{CaptureGroupInstruction, Transition};

fn summary(t: &Transition) -> (u64, u64, String, Option<u64>, CaptureGroupInstruction) {
    (t.from_state, t.to_state, format!("{:?}", t.cond), t.max_use, t.capture_group_ins)
}

#[test]
fn ast_test_generation() {
    let root = AstNode::Root(Box::new(AstNode::Sequence(vec![
        AstNode::Alt {
            options: vec![
                AstNode::Char(Literal::Char('a')),
                AstNode::Char(Literal::Char('b')),
                AstNode::Sequence(vec![
                    AstNode::Char(Literal::Char('x')),
                    AstNode::Char(Literal::Char('y')),
                ]),
            ],
            id: 1,
        },
        AstNode::Alt {
            options: vec![
                AstNode::Sequence(vec![
                    AstNode::Char(Literal::Char('1')),
                    AstNode::Char(Literal::Char('1')),
                ]),
                AstNode::Sequence(vec![
                    AstNode::Char(Literal::Char('2')),
                    AstNode::Char(Literal::Char('2')),
                ]),
            ],
            id: 2,
        },
        AstNode::Char(Literal::Char('c')),
    ])));

    let transitions = root.generate();
    println!("{:?}", &transitions);
    assert_eq!(transitions.len(), 13);
    assert_eq!(
        summary(&transitions[0]),
        (0, 3, "Epsilon".to_string(), None, CaptureGroupInstruction::Start(1))
    );
    assert_eq!(
        summary(&transitions[1]),
        (3, 4, "Char(Char('a'))".to_string(), None, CaptureGroupInstruction::Keep)
    );
    assert_eq!(
        summary(&transitions[3]),
        (3, 5, "Char(Char('x'))".to_string(), None, CaptureGroupInstruction::Keep)
    );
    assert_eq!(
        summary(&transitions[5]),
        (4, 2, "Epsilon".to_string(), None, CaptureGroupInstruction::End(1))
    );
    assert_eq!(
        summary(&transitions[12]),
        (6, 1, "Char(Char('c'))".to_string(), None, CaptureGroupInstruction::Keep)
    );
}

#[test]
fn ast_test_complex() {
    let root = AstNode::Root(Box::new(AstNode::Sequence(vec![
        AstNode::Alt {
            options: vec![
                AstNode::Sequence(vec![
                    AstNode::Char(Literal::Char('x')),
                    AstNode::Char(Literal::Char('x')),
                    AstNode::Char(Literal::Char('1')),
                ]),
                AstNode::Sequence(vec![
                    AstNode::Char(Literal::Char('x')),
                    AstNode::Char(Literal::Char('x')),
                ]),
            ],
            id: 1,
        },
        AstNode::Alt {
            options: vec![
                AstNode::Sequence(vec![
                    AstNode::Char(Literal::Char('1')),
                    AstNode::Char(Literal::Char('1')),
                ]),
                AstNode::Sequence(vec![
                    AstNode::Char(Literal::Char('2')),
                    AstNode::Char(Literal::Char('2')),
                ]),
            ],
            id: 2,
        },
        AstNode::Char(Literal::Char('c')),
    ])));

    let transitions = root.generate();
    println!("{:?}", &transitions);

    let evaluator = Evaluator::new(transitions);
    assert!(evaluator.is_match(&str_to_tokens("xx11c")[..]).is_match());
    assert!(evaluator.is_match(&str_to_tokens("__xx11c")[..]).is_match());
    assert!(!evaluator.is_match(&str_to_tokens("__xx11")[..]).is_match());
}

#[test]
fn single_character_graph() {
    let root = AstNode::Root(Box::new(AstNode::Sequence(vec![AstNode::Char(Literal::Char('a'))])));
    let transitions = root.generate();
    assert_eq!(transitions.len(), 1);
    assert_eq!(
        summary(&transitions[0]),
        (0, 1, "Char(Char('a'))".to_string(), None, CaptureGroupInstruction::Keep)
    );
    assert!(matches!(transitions[0].cond, Cond::Char(Literal::Char('a'))));
}

#[test]
fn bounded_repeat_graph() {
    // x{2,4}: one unrolled copy, then the loop whose back edge may be taken twice.
    let ast = Parser::parse_regex_str("x{2,4}").unwrap();
    let transitions = ast.generate();
    let got: Vec<_> = transitions.iter().map(summary).collect();
    let x = "Char(Char('x'))".to_string();
    let eps = "Epsilon".to_string();
    let keep = CaptureGroupInstruction::Keep;
    assert_eq!(
        got,
        vec![
            (0, 2, eps.clone(), None, keep),
            (2, 3, x.clone(), None, keep),
            (4, 3, eps.clone(), Some(2), keep),
            (3, 4, x.clone(), None, keep),
            (4, 1, eps.clone(), None, keep),
        ]
    );
}
