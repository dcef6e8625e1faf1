use errgonomic::combinators::{is, panic_recover};
use errgonomic::errors::{Error, ErrorKind, ExpectedError};
use errgonomic::span::Span;
use errgonomic::state::State;

fn err_bytes(s: &str) -> Vec<u8> {
    s.as_bytes().to_vec()
}

#[test]
fn error_empty_has_no_diagnostics() {
    let e = Error::empty(Span::new(0, 4));
    assert!(e.is_empty());
    assert_eq!(e.len(), 0);
    assert_eq!(e.from(), Span::new(0, 4));
    assert!(!e.is_committed());
}

#[test]
fn error_commit_is_idempotent() {
    let base = Error::new(
        ErrorKind::Expected(ExpectedError::Alpha),
        Span::new(1, 2),
    );
    let once = base.commit();
    assert!(once.is_committed());
    let twice = once.clone().commit();
    assert_eq!(once, twice);
    assert_eq!(once.len(), 1);
}

#[test]
fn error_push_accumulates_a_sequence() {
    let e1 = Error::new(
        ErrorKind::Expected(ExpectedError::Digit(10)),
        Span::new(0, 1),
    );
    let e2 = Error::new(
        ErrorKind::Expected(ExpectedError::Whitespace),
        Span::new(3, 4),
    );
    let mut acc = Error::empty(Span::new(0, 0));
    acc.push(e1.clone());
    assert_eq!(acc, e1);
    acc.push(e2.clone());
    assert_eq!(
        acc,
        Error::new(ErrorKind::Sequence(vec![e1, e2]), Span::new(0, 4))
    );
    assert_eq!(acc.len(), 2);
}

#[test]
fn error_custom_kind_counts_once() {
    let e = Error::new(ErrorKind::custom(7), Span::new(2, 3));
    assert_eq!(e.len(), 1);
    assert!(!e.is_empty());
    assert_eq!(e, Error::new(ErrorKind::Custom(7), Span::new(2, 3)));
}

#[test]
fn parse_reports_residual_errors() {
    let err = panic_recover(is(err_bytes("END")), is(err_bytes("END")))
        .parse(err_bytes("garbageEND!"))
        .unwrap_err();
    assert_eq!(
        err,
        Error::new(
            ErrorKind::Expected(ExpectedError::Is(err_bytes("END"))),
            Span::new(0, 1)
        )
    );

    let ok = is(err_bytes("garbage")).parse(err_bytes("garbageEND!")).unwrap();
    assert_eq!(ok.into_matched().unwrap().as_inner(), err_bytes("garbage"));
}

#[test]
fn state_tracks_errors_after_with_error() {
    let st = State::new(err_bytes("abc"));
    assert!(!st.is_err());
    let st = st.with_error(Error::new(
        ErrorKind::Expected(ExpectedError::Nothing),
        Span::new(0, 3),
    ));
    assert!(st.is_err());
    assert_eq!(st.errors().len(), 1);
}
