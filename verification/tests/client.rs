use forward::client::options::{named_server, split_forward, ForwardOption, Options};
use forward::client::run::{
    accept_cmd, forward_inner, register, register_cmd, reject_cmd, ForwardStep, Run, RunAction,
    RunEvent,
};
use forward::protocol::{Command, Id};
use forward::util::error::StrError;

fn options() -> Options<u16> {
    Options {
        server: "a.foo.com:4431".to_string(),
        forward: vec![
            ForwardOption { domain: "a.foo.com".to_string(), destination: 8080 },
            ForwardOption { domain: "b.foo.com".to_string(), destination: 8081 },
            ForwardOption { domain: "a.foo.com".to_string(), destination: 9 },
        ],
        secret: "s".to_string(),
    }
}

fn id(v: u64) -> Id {
    Id::from_u64(v).unwrap()
}

fn error_text(cmd: Command) -> String {
    match cmd {
        Command::Error(e) => e.as_str().to_string(),
        _ => panic!("not an error"),
    }
}

#[test]
fn entry_is_divided_at_the_first_colon() {
    assert_eq!(split_forward("a.foo.com:127.0.0.1:80"), Ok(("a.foo.com", "127.0.0.1:80")));
    assert_eq!(split_forward(":"), Ok(("", "")));
    assert_eq!(split_forward("a.foo.com"), Err("a.foo.com: invalid format".to_string()));
}

#[test]
fn entry_takes_a_destination() {
    let entry = ForwardOption::from_str("a", "1", Ok(1u16)).unwrap();
    assert_eq!(entry.domain, "a");
    assert_eq!(entry.destination, 1);
    let err = ForwardOption::<u16>::from_str("a", "x", Err("bad".to_string())).unwrap_err();
    assert_eq!(err, "x: bad");
}

#[test]
fn server_name_is_the_part_before_the_port() {
    assert_eq!(options().server_domain(), "a.foo.com");
    assert_eq!(options().server_name(), Ok("a.foo.com".to_string()));
    let mut o = options();
    o.server = "127.0.0.1:4431".to_string();
    assert_eq!(o.server_name(), Ok("127.0.0.1".to_string()));
    o.server = "localhost".to_string();
    assert_eq!(o.server_name(), Ok("localhost".to_string()));
}

#[test]
fn server_name_has_to_be_one() {
    let mut o = options();
    o.server = "no name:1".to_string();
    assert_eq!(o.server_name(), Err("no name: invalid dns name".to_string()));
    assert_eq!(named_server("d", Err("e".to_string())), Err("d: e".to_string()));
    assert_eq!(named_server("d", Ok("n".to_string())), Ok("n".to_string()));
}

#[test]
fn domains_and_destinations() {
    let o = options();
    assert_eq!(o.domain(), vec!["a.foo.com", "b.foo.com", "a.foo.com"]);
    assert_eq!(o.dest("a.foo.com"), Some(8080));
    assert_eq!(o.dest("b.foo.com"), Some(8081));
    assert_eq!(o.dest("c.foo.com"), None);
}

#[test]
fn client_needs_a_domain() {
    assert!(options().start().is_ok());
    let mut o = options();
    o.forward.clear();
    assert_eq!(
        o.start().unwrap_err().as_str(),
        "missing required argument --forward <forward>"
    );
}

#[test]
fn registration_is_signed() {
    match register_cmd(&options()) {
        Command::Register(r) => {
            assert_eq!(r.domain, options().domain());
            assert!(r.verify_sign("s"));
        }
        _ => panic!("no registration"),
    }
}

#[test]
fn registration_succeeds_or_fails() {
    assert!(register(Some(Command::Okay)).is_ok());
    let err = register(Some(Command::Error(StrError::new("domain a exists")))).unwrap_err();
    assert_eq!(err.as_str(), "domain a exists");
    let err = register(Some(Command::Forward { id: id(3), domain: "d".to_string() })).unwrap_err();
    assert_eq!(err.as_str(), "unexpected cmd Forward { id: Id(3), domain: \"d\" }");
    assert_eq!(register(None).unwrap_err().as_str(), "server shutdown");
}

#[test]
fn requests_go_to_their_destination() {
    let mut run = Run::new();
    let cmd = Command::Forward { id: id(3), domain: "b.foo.com".to_string() };
    match run.run(&options(), RunEvent::Received(Some(cmd))) {
        RunAction::Forward(dst, number) => {
            assert_eq!(dst, 8081);
            assert_eq!(number, id(3));
        }
        _ => panic!("not forwarded"),
    }
    let cmd = Command::Forward { id: id(3), domain: "x".to_string() };
    match run.run(&options(), RunEvent::Received(Some(cmd))) {
        RunAction::UnexpectedDomain(u) => {
            assert_eq!(u.report, "unexpected domain: x");
            assert_eq!(error_text(u.answer), "unexpected domain");
        }
        _ => panic!("no answer"),
    }
}

#[test]
fn client_gives_up_after_three_pings() {
    let mut run = Run::new();
    for _ in 0..3 {
        assert!(matches!(
            run.run(&options(), RunEvent::Silence),
            RunAction::Write(Command::Ping)
        ));
    }
    assert!(matches!(run.run(&options(), RunEvent::Rejected(None)), RunAction::Wait));
    match run.run(&options(), RunEvent::Silence) {
        RunAction::Fail(e) => assert_eq!(e.as_str(), "server not responding"),
        _ => panic!("not given up"),
    }
}

#[test]
fn answer_starts_the_count_again() {
    let mut run = Run { ping: 3 };
    assert!(matches!(
        run.run(&options(), RunEvent::Received(Some(Command::Pong))),
        RunAction::Wait
    ));
    assert_eq!(run.ping, 0);
    assert!(matches!(run.run(&options(), RunEvent::Silence), RunAction::Write(Command::Ping)));
}

#[test]
fn other_events_of_a_client() {
    let mut run = Run::new();
    match run.run(&options(), RunEvent::Received(Some(Command::Ping))) {
        RunAction::Unexpected(u) => {
            assert_eq!(u.report, "unexpected cmd: Ping");
            assert_eq!(error_text(u.answer), "unexpected cmd");
        }
        _ => panic!("no answer"),
    }
    assert!(matches!(run.run(&options(), RunEvent::Received(None)), RunAction::Finish));
    match run.run(&options(), RunEvent::Rejected(Some(reject_cmd("refused")))) {
        RunAction::Write(cmd) => assert_eq!(error_text(cmd), "refused"),
        _ => panic!("server not told"),
    }
}

#[test]
fn offer_is_signed() {
    match accept_cmd(&options(), id(6)) {
        Command::Accept(a) => {
            assert_eq!(a.id, id(6));
            assert!(a.verify_sign("s"));
        }
        _ => panic!("no offer"),
    }
}

#[test]
fn answers_to_an_offer() {
    assert!(matches!(forward_inner(Some(Command::Okay)), ForwardStep::Join));
    match forward_inner(Some(Command::Error(StrError::new("bad signature")))) {
        ForwardStep::Refused(e) => assert_eq!(e.as_str(), "bad signature"),
        _ => panic!("not refused"),
    }
    match forward_inner(Some(Command::Pong)) {
        ForwardStep::Unexpected(u) => {
            assert_eq!(u.report, "unexpected cmd: Pong");
            assert_eq!(error_text(u.answer), "unexpected cmd");
        }
        _ => panic!("no answer"),
    }
    assert!(matches!(forward_inner(None), ForwardStep::Close));
}
