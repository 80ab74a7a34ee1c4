use peter_grep::v1::{Pattern, State};

#[test]
fn test() {
    let state = State {
        pattern: Pattern::Start,
        next: Some(Box::new(State {
            pattern: Pattern::Alt(vec![
                State { pattern: Pattern::Char('x'), next: None },
                State { pattern: Pattern::Char('y'), next: None },
            ]),
            next: Some(Box::new(State { pattern: Pattern::End, next: None })),
        })),
    };
    assert!(matches!(state.pattern, Pattern::Start));
    let second = state.next.unwrap();
    match &second.pattern {
        Pattern::Alt(options) => {
            assert_eq!(options.len(), 2);
            assert!(matches!(options[0].pattern, Pattern::Char('x')));
            assert!(matches!(options[1].pattern, Pattern::Char('y')));
            assert!(options[0].next.is_none());
        }
        _ => panic!("the second state is an alternation"),
    }
    assert!(matches!(second.next.unwrap().pattern, Pattern::End));
}
