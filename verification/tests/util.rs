use forward::util::async_drop::Dropper;
use forward::util::error::StrError;
use forward::util::io::{ignore_unexpected_eof, CopyAction, CopyState, Fault};
use forward::util::select::{guard_select, select, Either};

#[test]
fn error_says_its_words() {
    assert_eq!(StrError::new("message").as_str(), "message");
    assert_eq!(StrError::new("message").clone().as_str(), "message");
}

#[test]
fn right_of_either() {
    assert_eq!(Either::<u8, u8>::Right(1).right(), Some(1));
    assert_eq!(Either::<u8, u8>::Left(1).right(), None);
}

#[test]
fn select_prefers_the_first() {
    assert!(matches!(select(|| Some(1), || Some('b')), Some(Either::Left(1))));
    assert!(matches!(select(|| None::<u8>, || Some('b')), Some(Either::Right('b'))));
    assert!(select(|| None::<u8>, || None::<u8>).is_none());
}

#[test]
fn select_asks_the_second_only_if_needed() {
    let mut asked = false;
    select(|| Some(1), || {
        asked = true;
        Some(2)
    });
    assert!(!asked);
}

#[test]
fn guard_select_leaves_out_what_is_disabled() {
    assert!(matches!(
        guard_select((|| Some(1), false), (|| Some(2), true)),
        Some(Either::Right(2))
    ));
    assert!(matches!(guard_select((|| Some(1), true), (|| Some(2), true)), Some(Either::Left(1))));
    assert!(matches!(
        guard_select((|| None::<u8>, true), (|| Some(2), true)),
        Some(Either::Right(2))
    ));
    assert!(guard_select((|| None::<u8>, true), (|| Some(2), false)).is_none());
}

#[test]
fn guard_select_asks_nothing_that_is_disabled() {
    let mut asked = false;
    let got = guard_select((|| {
        asked = true;
        Some(1)
    }, false), (|| Some(2), true));
    assert!(matches!(got, Some(Either::Right(2))));
    assert!(!asked);

    let got = guard_select((|| None::<u8>, true), (|| {
        asked = true;
        Some(2)
    }, false));
    assert!(got.is_none());
    assert!(!asked);
}

#[test]
fn guard_select_asks_the_second_only_if_needed() {
    let mut asked = false;
    let got = guard_select((|| Some(1), true), (|| {
        asked = true;
        Some(2)
    }, true));
    assert!(matches!(got, Some(Either::Left(1))));
    assert!(!asked);
}

#[test]
fn dropper_gives_its_value_back_once() {
    let mut d = Dropper::new(5);
    assert_eq!(*d.deref(), 5);
    *d.deref_mut() = 6;
    assert_eq!(d.drop(), Some(6));
    assert_eq!(d.drop(), None);
}

#[test]
fn unexpected_eof_is_an_end() {
    assert!(matches!(ignore_unexpected_eof::<u8>(Ok(3)), Ok(3)));
    assert!(matches!(ignore_unexpected_eof(Err(Fault::UnexpectedEof(1))), Ok(0)));
    assert!(matches!(ignore_unexpected_eof(Err(Fault::Other(1))), Err(Fault::Other(1))));
}

#[test]
fn copying_counts_and_ends() {
    let mut s = CopyState::new();
    assert!(!s.finished());
    assert_eq!(s.copy_bidirectional::<()>(Either::Left(Ok(10))).unwrap(), CopyAction::WriteB(10));
    assert_eq!(s.copy_bidirectional::<()>(Either::Right(Ok(3))).unwrap(), CopyAction::WriteA(3));
    assert_eq!(s.copy_bidirectional::<()>(Either::Left(Ok(5))).unwrap(), CopyAction::WriteB(5));
    assert_eq!(s.copy_bidirectional::<()>(Either::Left(Ok(0))).unwrap(), CopyAction::ShutdownB);
    assert!(!s.finished());
    assert_eq!(
        s.copy_bidirectional(Either::Right(Err(Fault::UnexpectedEof(())))).unwrap(),
        CopyAction::ShutdownA
    );
    assert!(s.finished());
    assert_eq!((s.a_to_b, s.b_to_a), (15, 3));
}

#[test]
fn copying_fails_with_a_read() {
    let mut s = CopyState::new();
    assert!(matches!(
        s.copy_bidirectional(Either::Left(Err(Fault::Other(4)))),
        Err(Fault::Other(4))
    ));
    assert_eq!(s, CopyState::new());
}
