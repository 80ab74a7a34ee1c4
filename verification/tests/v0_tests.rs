use peter_grep::v0_halting::try_match;
use peter_grep::v0::{
    dot_from_transitions, state_id_to_label, AstNode, Cond, Evaluator, MatchResult, Token,
    Transition,
};

fn str_to_tokens(s: &str) -> Vec<Token> {
    let mut out = s.chars().map(|c| Token::Char(c)).collect::<Vec<_>>();

    out.insert(0, Token::Start);
    out.push(Token::End);

    out
}

fn summary(t: &Transition) -> (u64, u64, String, Option<usize>) {
    (t.from_state, t.to_state, format!("{:?}", t.cond), t.max_use)
}

#[test]
fn v0_test_generation() {
    let root = AstNode::Root(Box::new(AstNode::Sequence(vec![
        AstNode::Alt(vec![
            AstNode::Char('a'),
            AstNode::Char('b'),
            AstNode::Sequence(vec![AstNode::Char('x'), AstNode::Char('y')]),
        ]),
        AstNode::Alt(vec![
            AstNode::Sequence(vec![AstNode::Char('1'), AstNode::Char('1')]),
            AstNode::Sequence(vec![AstNode::Char('2'), AstNode::Char('2')]),
        ]),
        AstNode::Char('c'),
    ])));

    let transitions = root.generate(&mut 2, 0, 1);
    println!("{:?}", &transitions);
    let got: Vec<_> = transitions.iter().map(summary).collect();
    let on = |from: u64, to: u64, c: char| (from, to, format!("Char({:?})", c), None);
    assert_eq!(
        got,
        vec![
            on(0, 2, 'a'),
            on(0, 2, 'b'),
            on(0, 3, 'x'),
            on(3, 2, 'y'),
            on(2, 5, '1'),
            on(5, 4, '1'),
            on(2, 6, '2'),
            on(6, 4, '2'),
            on(4, 1, 'c'),
        ]
    );
}

#[test]
fn v0_test_complex() {
    let root = AstNode::Root(Box::new(AstNode::Sequence(vec![
        AstNode::Alt(vec![
            AstNode::Sequence(vec![
                AstNode::Char('x'),
                AstNode::Char('x'),
                AstNode::Char('1'),
            ]),
            AstNode::Sequence(vec![AstNode::Char('x'), AstNode::Char('x')]),
        ]),
        AstNode::Alt(vec![
            AstNode::Sequence(vec![AstNode::Char('1'), AstNode::Char('1')]),
            AstNode::Sequence(vec![AstNode::Char('2'), AstNode::Char('2')]),
        ]),
        AstNode::Char('c'),
    ])));

    let transitions = root.generate(&mut 2, 0, 1);
    println!("{:?}", &transitions);

    let evaluator = Evaluator::new(transitions);
    assert!(evaluator.is_match(&str_to_tokens("xx11c")[..]));
    assert!(evaluator.is_match(&str_to_tokens("__xx11c")[..]));
    assert!(!evaluator.is_match(&str_to_tokens("__xx11")[..]));
}

#[test]
fn v0_repeat_graph_lists_exit_body_and_back_edge() {
    // a{2,3}: one unrolled copy, then the exit, the loop body and the back edge.
    let root = AstNode::Repeat {
        min: Some(2),
        max: Some(3),
        node: Box::new(AstNode::Char('a')),
    };
    let mut next = 2;
    let transitions = root.generate(&mut next, 0, 1);
    assert_eq!(next, 5);
    let got: Vec<_> = transitions.iter().map(summary).collect();
    let eps = "Epsilon".to_string();
    let a = "Char('a')".to_string();
    assert_eq!(
        got,
        vec![
            (0, 2, eps.clone(), None),
            (2, 3, a.clone(), None),
            (4, 1, eps.clone(), None),
            (3, 4, a.clone(), None),
            (4, 3, eps.clone(), Some(1)),
        ]
    );
}

#[test]
fn v0_search_ignores_caps_and_finds_any_walk() {
    // a{2,3} between anchors: the cap on the back edge is not read, so any
    // number of laps from two on matches.
    let transitions = vec![
        Transition { from_state: 0, to_state: 2, cond: Cond::Start, max_use: None },
        Transition { from_state: 2, to_state: 3, cond: Cond::Char('a'), max_use: None },
        Transition { from_state: 3, to_state: 4, cond: Cond::Char('a'), max_use: None },
        Transition { from_state: 4, to_state: 3, cond: Cond::Epsilon, max_use: Some(1) },
        Transition { from_state: 4, to_state: 5, cond: Cond::Epsilon, max_use: None },
        Transition { from_state: 5, to_state: 1, cond: Cond::End, max_use: None },
    ];
    let evaluator = Evaluator::new(transitions);
    assert!(!evaluator.is_match(&str_to_tokens("a")[..]));
    assert!(evaluator.is_match(&str_to_tokens("aa")[..]));
    assert!(evaluator.is_match(&str_to_tokens("aaa")[..]));
    assert!(evaluator.is_match(&str_to_tokens("aaaaa")[..]));
    assert!(!evaluator.is_match(&str_to_tokens("aab")[..]));
    assert!(!evaluator.is_match(&[]));
}

#[test]
fn v0_conditions() {
    let group = Cond::CharGroup(vec!['a', 'b']);
    assert_eq!(group.is_match(Some(&Token::Char('b'))), MatchResult::MatchAndConsume);
    assert_eq!(group.is_match(Some(&Token::Char('c'))), MatchResult::NoMatch);
    assert_eq!(group.is_match(Some(&Token::Start)), MatchResult::NoMatch);
    assert_eq!(Cond::Epsilon.is_match(None), MatchResult::MatchNoConsume);
    assert_eq!(Cond::AnyChar.is_match(Some(&Token::End)), MatchResult::NoMatch);
    assert_eq!(Cond::AnyChar.is_match(Some(&Token::Char('z'))), MatchResult::MatchAndConsume);
    assert_eq!(Cond::Start.is_match(Some(&Token::Start)), MatchResult::MatchAndConsume);
    assert_eq!(Cond::End.is_match(Some(&Token::End)), MatchResult::MatchAndConsume);
    assert_eq!(Cond::End.is_match(None), MatchResult::NoMatch);
    assert_eq!(Cond::Char('q').is_match(Some(&Token::Char('q'))), MatchResult::MatchAndConsume);
}

#[test]
fn v0_test_repeat() {
    let root = AstNode::Root(Box::new(AstNode::Sequence(vec![
        AstNode::Alt(vec![
            AstNode::Repeat {
                min: Some(0),
                max: Some(0),
                node: Box::new(AstNode::Char('a')),
            },
            AstNode::Char('b'),
            AstNode::Sequence(vec![AstNode::Char('x'), AstNode::Char('y')]),
        ]),
        AstNode::Alt(vec![
            AstNode::Sequence(vec![AstNode::Char('1'), AstNode::Char('1')]),
            AstNode::Sequence(vec![AstNode::Char('2'), AstNode::Char('2')]),
        ]),
        AstNode::Char('c'),
    ])));

    let transitions = root.generate(&mut 2, 0, 1);
    println!("{:?}", &transitions);
    assert_eq!(
        dot_from_transitions(&transitions),
        "digraph {{\n\
         \tStart -> 2 [label=\"-\"]\n\
         \tStart -> 2 [label=\"C(b)\"]\n\
         \tStart -> 3 [label=\"C(x)\"]\n\
         \t3 -> 2 [label=\"C(y)\"]\n\
         \t2 -> 5 [label=\"C(1)\"]\n\
         \t5 -> 4 [label=\"C(1)\"]\n\
         \t2 -> 6 [label=\"C(2)\"]\n\
         \t6 -> 4 [label=\"C(2)\"]\n\
         \t4 -> End [label=\"C(c)\"]\n\
         }}\n"
    );
}

#[test]
fn v0_labels() {
    assert_eq!(Cond::Char('a').to_label(), "C(a)");
    assert_eq!(Cond::CharGroup(vec!['x', 'y']).to_label(), "xy");
    assert_eq!(Cond::Epsilon.to_label(), "-");
    assert_eq!(Cond::Start.to_label(), "^");
    assert_eq!(Cond::End.to_label(), "$");
    assert_eq!(Cond::AnyChar.to_label(), ".");
    let capped = Transition { from_state: 4, to_state: 3, cond: Cond::Epsilon, max_use: Some(12) };
    assert_eq!(capped.to_label(), "- (max 12)");
    let free = Transition { from_state: 4, to_state: 3, cond: Cond::Char('z'), max_use: None };
    assert_eq!(free.to_label(), "C(z)");
    assert_eq!(state_id_to_label(0), "Start");
    assert_eq!(state_id_to_label(1), "End");
    assert_eq!(state_id_to_label(25), "25");
}

fn v0_char(c: char) -> AstNode {
    AstNode::Char(c)
}

fn v0_repeat(min: Option<usize>, max: Option<usize>, node: AstNode) -> AstNode {
    AstNode::Repeat { min, max, node: Box::new(node) }
}

#[test]
fn v0_searchable_patterns() {
    let star = v0_repeat(None, None, v0_char('a'));
    assert!(star.repeats_are_in_order());
    assert!(star.is_nullable());
    assert!(star.is_productive());
    assert!(star.is_searchable());
    assert_eq!(star.checked_state_count(), Some(2));

    let nested = v0_repeat(None, None, v0_repeat(None, None, v0_char('a')));
    assert!(!nested.is_productive());
    assert!(!nested.is_searchable());

    // A cap does not help here: this search does not read it.
    let capped = v0_repeat(Some(2), Some(3), v0_repeat(None, Some(1), v0_char('a')));
    assert!(!capped.is_productive());

    let empty_option = v0_repeat(Some(1), None, AstNode::Alt(vec![v0_char('a'), AstNode::Sequence(vec![])]));
    assert!(!empty_option.is_productive());
    assert!(AstNode::Alt(vec![]).is_productive());
    assert!(!AstNode::Alt(vec![]).is_nullable());
    assert!(AstNode::Sequence(vec![]).is_nullable());

    assert!(!v0_repeat(Some(3), Some(2), v0_char('a')).repeats_are_in_order());
    assert!(v0_repeat(Some(3), Some(0), nested).is_searchable());
    assert_eq!(v0_repeat(Some(3), Some(5), v0_char('a')).checked_state_count(), Some(4));
    assert_eq!(v0_repeat(Some(usize::MAX), None, v0_char('a')).checked_state_count(), None);
}

#[test]
fn v0_try_match_searches_with_searchable_patterns_only() {
    let pattern = AstNode::Root(Box::new(AstNode::Sequence(vec![
        v0_char('a'),
        v0_repeat(Some(1), None, AstNode::Alt(vec![v0_char('b'), v0_char('c')])),
        v0_char('d'),
    ])));
    assert_eq!(try_match(&pattern, &str_to_tokens("xabcbd")[..]), Some(true));
    assert_eq!(try_match(&pattern, &str_to_tokens("ad")[..]), Some(false));
    assert_eq!(try_match(&pattern, &str_to_tokens("abcb")[..]), Some(false));
    assert_eq!(try_match(&pattern, &[]), Some(false));
    let looping = v0_repeat(None, None, v0_repeat(None, None, v0_char('a')));
    assert_eq!(try_match(&looping, &str_to_tokens("b")[..]), None);
    assert_eq!(try_match(&v0_repeat(Some(3), Some(2), v0_char('a')), &str_to_tokens("aaa")[..]), None);
    // The empty pattern matches the empty run at the first offset.
    assert_eq!(try_match(&AstNode::Sequence(vec![]), &str_to_tokens("")[..]), Some(true));
}
