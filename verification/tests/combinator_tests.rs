use errgonomic::combinators::{
    any, between, commit, consumed, eoi, id, is, many, many_m_n, many_n, many_until, maybe,
    panic_recover, separated, then,
};
use errgonomic::errors::{Error, ErrorKind, ExpectedError};
use errgonomic::parser::Output;
use errgonomic::span::Span;
use errgonomic::state::State;

fn comb_state(s: &str) -> State {
    State::new(s.as_bytes().to_vec())
}

fn comb_bytes(s: &str) -> Vec<u8> {
    s.as_bytes().to_vec()
}

fn comb_got(o: Output) -> Vec<u8> {
    o.into_matched().unwrap().as_inner()
}

fn comb_list(o: Output) -> Vec<Output> {
    o.into_list().unwrap()
}

#[test]
fn any_can_parse_any() {
    let (state, parsed) = any(vec![is(comb_bytes("x")), is(comb_bytes("test"))])
        .process(comb_state("test123"))
        .unwrap();
    assert_eq!(comb_got(parsed), comb_bytes("test"));
    assert_eq!(state.as_input().as_inner(), comb_bytes("123"));
    assert!(!state.is_err());

    let parsed = any(vec![id(), is(comb_bytes("test"))])
        .parse(comb_bytes("test123"))
        .unwrap();
    assert_eq!(comb_got(parsed), comb_bytes("test123"));

    let state = any(vec![is(comb_bytes("done")), is(comb_bytes("test"))])
        .process(comb_state("123test"))
        .unwrap_err();
    assert!(state.is_err());
    println!("{:#?}", state.errors());
    assert_eq!(state.errors().len(), 2);
    assert_eq!(
        state.errors(),
        &Error::new(
            ErrorKind::All(vec![
                Error::new(
                    ErrorKind::Expected(ExpectedError::Is(comb_bytes("done"))),
                    Span::new(0, 1)
                ),
                Error::new(
                    ErrorKind::Expected(ExpectedError::Is(comb_bytes("test"))),
                    Span::new(0, 1)
                ),
            ]),
            Span::new(0, 1)
        )
    );
}

#[test]
fn test_basic_commit() {
    let (state, parsed) = commit(is(comb_bytes("test")))
        .process(comb_state("test123"))
        .unwrap();
    assert_eq!(comb_got(parsed), comb_bytes("test"));
    assert_eq!(state.as_input().as_inner(), comb_bytes("123"));
    assert!(!state.is_err());
}

#[test]
fn test_commit_error() {
    let error_state = commit(is(comb_bytes("test")))
        .process(comb_state("xyz123"))
        .unwrap_err();

    assert!(error_state.is_err());
    assert!(error_state.errors().is_committed());
    assert_eq!(
        error_state.errors(),
        &Error::new(
            ErrorKind::Committed(Box::new(Error::new(
                ErrorKind::Expected(ExpectedError::Is(comb_bytes("test"))),
                Span::new(0, 1)
            ))),
            Span::new(0, 1)
        )
    );
}

#[test]
fn test_commit_with_any() {
    let error_state = any(vec![commit(is(comb_bytes("hello"))), is(comb_bytes("xyz"))])
        .process(comb_state("abc123"))
        .unwrap_err();

    assert!(error_state.is_err());
    assert!(error_state.errors().is_committed());
    assert_eq!(error_state.errors().len(), 1);
    assert_eq!(
        error_state.errors(),
        &Error::new(
            ErrorKind::Committed(Box::new(Error::new(
                ErrorKind::Expected(ExpectedError::Is(comb_bytes("hello"))),
                Span::new(0, 1)
            ))),
            Span::new(0, 1)
        )
    );
}

#[test]
fn test_nested_commit() {
    let error_state = commit(commit(is(comb_bytes("test"))))
        .process(comb_state("xyz123"))
        .unwrap_err();

    assert!(error_state.is_err());
    assert!(error_state.errors().is_committed());
    assert_eq!(
        error_state.errors(),
        &Error::new(
            ErrorKind::Committed(Box::new(Error::new(
                ErrorKind::Expected(ExpectedError::Is(comb_bytes("test"))),
                Span::new(0, 1)
            ))),
            Span::new(0, 1)
        )
    );
}

#[test]
fn test_commit_with_complex_parser() {
    let complex_parser = then(is(comb_bytes("test")), is(comb_bytes("123")));

    let error_state = commit(complex_parser)
        .process(comb_state("test456"))
        .unwrap_err();

    assert!(error_state.is_err());
    assert!(error_state.errors().is_committed());
    assert_eq!(
        error_state.errors(),
        &Error::new(
            ErrorKind::Committed(Box::new(Error::new(
                ErrorKind::Expected(ExpectedError::Is(comb_bytes("123"))),
                Span::new(4, 5)
            ))),
            Span::new(4, 5)
        )
    );
    assert_eq!(error_state.as_input().as_inner(), comb_bytes("456"));
}

#[test]
fn test_any_with_one_committed_error() {
    let committed_parser = commit(is(comb_bytes("hello")));
    let normal_parser = is(comb_bytes("world"));

    let error_state = any(vec![committed_parser, normal_parser])
        .process(comb_state("xyz123"))
        .unwrap_err();

    assert!(error_state.is_err());
    assert!(error_state.errors().is_committed());
    assert_eq!(
        error_state.errors(),
        &Error::new(
            ErrorKind::Committed(Box::new(Error::new(
                ErrorKind::Expected(ExpectedError::Is(comb_bytes("hello"))),
                Span::new(0, 1)
            ))),
            Span::new(0, 1)
        )
    );
}

#[test]
fn test_any_with_multiple_committed_errors() {
    let first_committed = commit(is(comb_bytes("first")));
    let second_committed = commit(is(comb_bytes("second")));

    let error_state = any(vec![first_committed, second_committed])
        .process(comb_state("xyz123"))
        .unwrap_err();

    assert!(error_state.is_err());
    assert!(error_state.errors().is_committed());
    assert_eq!(
        error_state.errors(),
        &Error::new(
            ErrorKind::Committed(Box::new(Error::new(
                ErrorKind::Expected(ExpectedError::Is(comb_bytes("first"))),
                Span::new(0, 1)
            ))),
            Span::new(0, 1)
        )
    );

    let error_info = format!("{:?}", error_state.errors());
    assert!(!error_info.contains("second"));
}

#[test]
fn between_can_parse_between() {
    let (state, parsed) = between(
        is(comb_bytes("test")),
        is(comb_bytes("123")),
        is(comb_bytes("456")),
    )
        .process(comb_state("test123456789"))
        .unwrap();

    assert_eq!(comb_got(parsed), comb_bytes("123"));
    assert!(!state.is_err());
    assert_eq!(state.errors().len(), 0);
    assert_eq!(state.as_input().as_inner(), comb_bytes("789"));
}

#[test]
fn sequence_can_parse_between() {
    let (state, parsed) = between(
        is(comb_bytes("test")),
        is(comb_bytes("123")),
        is(comb_bytes("456")),
    )
        .process(comb_state("test123456789"))
        .unwrap();

    assert_eq!(comb_got(parsed), comb_bytes("123"));
    assert!(!state.is_err());
    assert_eq!(state.as_input().as_inner(), comb_bytes("789"));
}

#[test]
fn can_parse_consumed() {
    let (state, parsed) = consumed(is(comb_bytes("te")))
        .process(comb_state("test"))
        .unwrap();
    assert_eq!(comb_got(parsed), comb_bytes("te"));
    assert_eq!(state.as_input().as_inner(), comb_bytes("st"));
    assert!(!state.is_err());
}

#[test]
fn can_parse_consumed_eoi() {
    let (state, parsed) = consumed(eoi()).process(comb_state("")).unwrap();
    assert_eq!(comb_got(parsed), comb_bytes(""));
    assert_eq!(state.as_input().as_inner(), comb_bytes(""));
    assert!(!state.is_err());

    let state = consumed(eoi()).process(comb_state("test")).unwrap_err();
    assert!(state.is_err());
    assert_eq!(
        state.errors(),
        &Error::new(ErrorKind::Expected(ExpectedError::Nothing), Span::new(0, 4))
    );
}

#[test]
fn many_can_parse_many_once() {
    let (state, parsed) = many(is(comb_bytes("test"))).process(comb_state("test")).unwrap();

    let items = comb_list(parsed);
    assert_eq!(items.len(), 1);
    let mut it = items.into_iter();
    assert_eq!(comb_got(it.next().unwrap()), comb_bytes("test"));
    assert!(!state.is_err());
    assert_eq!(state.errors().len(), 0);
    assert_eq!(state.as_input().as_inner(), comb_bytes(""));
}

#[test]
fn many_can_parse_many() {
    let (state, parsed) = many(is(comb_bytes("test")))
        .process(comb_state("testtest123"))
        .unwrap();

    let items = comb_list(parsed);
    assert_eq!(items.len(), 2);
    let mut it = items.into_iter();
    assert_eq!(comb_got(it.next().unwrap()), comb_bytes("test"));
    assert_eq!(comb_got(it.next().unwrap()), comb_bytes("test"));
    assert!(!state.is_err());
    assert_eq!(state.as_input().as_inner(), comb_bytes("123"));
}

#[test]
fn can_parse_many_n() {
    let (state, parsed) = many_n(1, is(comb_bytes("test")))
        .process(comb_state("testtest123"))
        .unwrap();
    let items = comb_list(parsed);
    assert_eq!(items.len(), 1);
    assert!(!state.is_err());
    assert_eq!(state.as_input().as_inner(), comb_bytes("test123"));

    let (state, parsed) = many_n(2, is(comb_bytes("test")))
        .process(comb_state("testtest123"))
        .unwrap();
    let items = comb_list(parsed);
    assert_eq!(items.len(), 2);
    assert!(!state.is_err());
    assert_eq!(state.as_input().as_inner(), comb_bytes("123"));

    let state = many_n(3, is(comb_bytes("test")))
        .process(comb_state("testtest123"))
        .unwrap_err();
    assert!(state.is_err());
    assert_eq!(state.errors().len(), 1);
    assert_eq!(
        state.errors(),
        &Error::new(
            ErrorKind::Expected(ExpectedError::Is(comb_bytes("test"))),
            Span::new(8, 9)
        )
    );
}

#[test]
fn can_parse_many_m_n() {
    let state = many_m_n(1, 2, is(comb_bytes("hello")))
        .process(comb_state(", world!"))
        .unwrap_err();
    assert!(state.is_err());
    assert_eq!(state.as_input().as_inner(), comb_bytes(", world!"));
    assert_eq!(
        state.errors(),
        &Error::new(
            ErrorKind::Expected(ExpectedError::Is(comb_bytes("hello"))),
            Span::new(0, 1)
        )
    );

    let (state, parsed) = many_m_n(1, 2, is(comb_bytes("hello")))
        .process(comb_state("hello, world!"))
        .unwrap();
    assert_eq!(comb_list(parsed).len(), 1);
    assert!(!state.is_err());
    assert_eq!(state.as_input().as_inner(), comb_bytes(", world!"));

    let (state, parsed) = many_m_n(1, 2, is(comb_bytes("hello")))
        .process(comb_state("hellohello, world!"))
        .unwrap();
    assert_eq!(comb_list(parsed).len(), 2);
    assert!(!state.is_err());
    assert_eq!(state.as_input().as_inner(), comb_bytes(", world!"));

    let (state, parsed) = many_m_n(1, 2, is(comb_bytes("hello")))
        .process(comb_state("hellohellohello, world!"))
        .unwrap();
    assert_eq!(comb_list(parsed).len(), 2);
    assert!(!state.is_err());
    assert_eq!(state.as_input().as_inner(), comb_bytes("hello, world!"));
}

#[test]
fn many_can_parse_many_until() {
    let (state, parsed) = many_until(is(comb_bytes("test")), is(comb_bytes("123")))
        .process(comb_state("testtest123"))
        .unwrap();

    let (items, until) = parsed.into_pair().unwrap();
    let items = comb_list(items);
    assert_eq!(items.len(), 2);
    let mut it = items.into_iter();
    assert_eq!(comb_got(it.next().unwrap()), comb_bytes("test"));
    assert_eq!(comb_got(it.next().unwrap()), comb_bytes("test"));
    assert_eq!(comb_got(until), comb_bytes("123"));
    assert!(!state.is_err());
    assert_eq!(state.as_input().as_inner(), comb_bytes(""));
}

#[test]
fn can_parse_maybe() {
    let (state, parsed) = maybe(is(comb_bytes("te"))).process(comb_state("test")).unwrap();
    let inner = parsed.into_maybe().unwrap();
    assert_eq!(comb_got(inner.unwrap()), comb_bytes("te"));
    assert_eq!(state.as_input().as_inner(), comb_bytes("st"));
    assert!(!state.is_err());

    let (state, parsed) = maybe(is(comb_bytes("st"))).process(comb_state("test")).unwrap();
    let inner = parsed.into_maybe().unwrap();
    assert!(inner.is_none());
    assert_eq!(state.as_input().as_inner(), comb_bytes("test"));
    assert!(!state.is_err());
}

#[test]
fn can_parse_separated() {
    let (state, parsed) = separated(is(comb_bytes("hello")), is(comb_bytes(",")), true)
        .process(comb_state("hello,hello,hello, world!"))
        .unwrap();
    assert_eq!(comb_list(parsed).len(), 3);
    assert_eq!(state.as_input().as_inner(), comb_bytes(" world!"));
    assert!(!state.is_err());

    let (state, parsed) = separated(is(comb_bytes("hello")), is(comb_bytes(",")), true)
        .process(comb_state("hello,hello,hello world!"))
        .unwrap();
    assert_eq!(comb_list(parsed).len(), 3);
    assert_eq!(state.as_input().as_inner(), comb_bytes(" world!"));
    assert!(!state.is_err());

    let (state, parsed) = separated(is(comb_bytes("hello")), is(comb_bytes(",")), false)
        .process(comb_state("hello,hello,hello world!"))
        .unwrap();
    assert_eq!(comb_list(parsed).len(), 3);
    assert_eq!(state.as_input().as_inner(), comb_bytes(" world!"));
    assert!(!state.is_err());

    let state = separated(is(comb_bytes("hello")), is(comb_bytes(",")), false)
        .process(comb_state("hello,hello,hello, world!"))
        .unwrap_err();
    assert!(state.is_err());
    assert_eq!(state.errors().len(), 1);
    assert_eq!(state.as_input().as_inner(), comb_bytes(" world!"));
    assert_eq!(
        state.errors(),
        &Error::new(
            ErrorKind::Expected(ExpectedError::Is(comb_bytes("hello"))),
            Span::new(18, 19)
        )
    );
}

#[test]
fn can_panic_recover() {
    let (state, parsed) = panic_recover(is(comb_bytes("world")), is(comb_bytes("world")))
        .process(comb_state("hellohellohelloworld!"))
        .unwrap();
    assert!(parsed.into_maybe().unwrap().is_none());
    assert_eq!(state.as_input().as_inner(), comb_bytes("!"));
    assert!(state.is_err());
    assert_eq!(state.errors().len(), 1);
    assert_eq!(
        state.errors(),
        &Error::new(
            ErrorKind::Expected(ExpectedError::Is(comb_bytes("world"))),
            Span::new(0, 1)
        )
    );

    let (state, parsed) = panic_recover(is(comb_bytes("world")), is(comb_bytes("world")))
        .process(comb_state("worldhellohelloworld!"))
        .unwrap();
    let inner = parsed.into_maybe().unwrap().unwrap();
    assert_eq!(comb_got(inner), comb_bytes("world"));
    assert_eq!(state.as_input().as_inner(), comb_bytes("hellohelloworld!"));
    assert!(!state.is_err());
    assert_eq!(state.errors().len(), 0);
}

#[test]
fn can_panic_recoverto_eoi() {
    let (state, parsed) = panic_recover(is(comb_bytes("world")), eoi())
        .process(comb_state("hellohellohelloworld!"))
        .unwrap();
    assert!(parsed.into_maybe().unwrap().is_none());
    assert_eq!(state.as_input().as_inner(), comb_bytes(""));
    assert!(state.is_err());
    println!("{:#?}", state.errors());
    assert_eq!(state.errors().len(), 1);
    assert_eq!(
        state.errors(),
        &Error::new(
            ErrorKind::Expected(ExpectedError::Is(comb_bytes("world"))),
            Span::new(0, 1)
        )
    );

    let (state, parsed) = panic_recover(is(comb_bytes("world")), eoi())
        .process(comb_state("worldhellohelloworld!"))
        .unwrap();
    let inner = parsed.into_maybe().unwrap().unwrap();
    assert_eq!(comb_got(inner), comb_bytes("world"));
    assert_eq!(state.as_input().as_inner(), comb_bytes("hellohelloworld!"));
    assert!(!state.is_err());
    assert_eq!(state.errors().len(), 0);
}

#[test]
fn sequence_can_parse_any() {
    let (state, parsed) = any(vec![is(comb_bytes("test"))]).process(comb_state("test")).unwrap();
    assert_eq!(comb_got(parsed), comb_bytes("test"));
    assert!(!state.is_err());
    assert_eq!(state.errors().len(), 0);
    assert_eq!(state.as_input().as_inner(), comb_bytes(""));

    let (state, parsed) = any(vec![is(comb_bytes("x")), is(comb_bytes("test"))])
        .process(comb_state("test123"))
        .unwrap();
    assert_eq!(comb_got(parsed), comb_bytes("test"));
    assert!(!state.is_err());
    assert_eq!(state.as_input().as_inner(), comb_bytes("123"));

    let parsed = any(vec![id(), is(comb_bytes("test"))])
        .parse(comb_bytes("test123"))
        .unwrap();
    assert_eq!(comb_got(parsed), comb_bytes("test123"));

    let result = any(vec![is(comb_bytes("test"))]).process(comb_state("123test")).unwrap_err();
    assert!(result.is_err());
    assert_eq!(result.errors().len(), 1);
    assert_eq!(
        result.errors(),
        &Error::new(
            ErrorKind::All(vec![Error::new(
                ErrorKind::Expected(ExpectedError::Is(comb_bytes("test"))),
                Span::new(0, 1)
            )]),
            Span::new(0, 1)
        )
    );
}

#[test]
fn sequence_can_parse_many_once() {
    let (state, parsed) = many(is(comb_bytes("test"))).process(comb_state("test")).unwrap();

    let items = comb_list(parsed);
    assert_eq!(items.len(), 1);
    let mut it = items.into_iter();
    assert_eq!(comb_got(it.next().unwrap()), comb_bytes("test"));
    assert!(!state.is_err());
    assert_eq!(state.as_input().as_inner(), comb_bytes(""));
}

#[test]
fn sequence_can_parse_many() {
    let (state, parsed) = many(is(comb_bytes("test")))
        .process(comb_state("testtest123"))
        .unwrap();

    let items = comb_list(parsed);
    assert_eq!(items.len(), 2);
    let mut it = items.into_iter();
    assert_eq!(comb_got(it.next().unwrap()), comb_bytes("test"));
    assert_eq!(comb_got(it.next().unwrap()), comb_bytes("test"));
    assert!(!state.is_err());
    assert_eq!(state.as_input().as_inner(), comb_bytes("123"));
}

#[test]
fn sequence_can_parse_many_until() {
    let (state, parsed) = many_until(is(comb_bytes("test")), is(comb_bytes("123")))
        .process(comb_state("testtest123"))
        .unwrap();

    let (items, until) = parsed.into_pair().unwrap();
    let items = comb_list(items);
    assert_eq!(items.len(), 2);
    let mut it = items.into_iter();
    assert_eq!(comb_got(it.next().unwrap()), comb_bytes("test"));
    assert_eq!(comb_got(it.next().unwrap()), comb_bytes("test"));
    assert_eq!(comb_got(until), comb_bytes("123"));
    assert!(!state.is_err());
    assert_eq!(state.errors().len(), 0);
    assert_eq!(state.as_input().as_inner(), comb_bytes(""));
}

#[test]
fn separated_round_trip_scenario() {
    let (state, parsed) = separated(is(comb_bytes("x")), is(comb_bytes(",")), true)
        .process(comb_state("x,x,x,"))
        .unwrap();
    assert_eq!(comb_list(parsed).len(), 3);
    assert_eq!(state.as_input().as_inner(), comb_bytes(""));
    assert!(!state.is_err());

    let state = separated(is(comb_bytes("x")), is(comb_bytes(",")), false)
        .process(comb_state("x,x,x,"))
        .unwrap_err();
    assert!(state.is_err());
    assert_eq!(
        state.errors(),
        &Error::new(
            ErrorKind::Expected(ExpectedError::Is(comb_bytes("x"))),
            Span::new(6, 6)
        )
    );
}

#[test]
fn recovery_scenario_keeps_error_and_rest() {
    let (state, parsed) = panic_recover(is(comb_bytes("END")), is(comb_bytes("END")))
        .process(comb_state("garbageEND!"))
        .unwrap();
    assert!(parsed.into_maybe().unwrap().is_none());
    assert_eq!(state.as_input().as_inner(), comb_bytes("!"));
    assert!(state.is_err());
    assert_eq!(
        state.errors(),
        &Error::new(
            ErrorKind::Expected(ExpectedError::Is(comb_bytes("END"))),
            Span::new(0, 1)
        )
    );
}

#[test]
fn many_never_fails_on_unmatched_input() {
    let (state, parsed) = many(is(comb_bytes("nope"))).process(comb_state("something")).unwrap();
    assert_eq!(comb_list(parsed).len(), 0);
    assert_eq!(state.as_input().as_inner(), comb_bytes("something"));
    assert!(!state.is_err());
}

#[test]
fn fork_independence_of_states() {
    let state = comb_state("abcdef");
    let fork = state.fork();
    let skipped = fork.as_input().skip(3);
    let narrowed = fork.with_input(skipped);
    assert_eq!(narrowed.as_input().as_inner(), comb_bytes("def"));
    assert_eq!(state.as_input().as_inner(), comb_bytes("abcdef"));
    assert_eq!(state.as_input().span().head(), 0);
    assert_eq!(state.as_input().span().tail(), 6);
}
