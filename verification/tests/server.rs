use forward::protocol::{Accept, Command, Id, Register};
use forward::server::coordinator::{
    Coordinator, ForwardRequest, Forwarding, RequestForward,
};
use forward::server::host::HostError;
use forward::server::response::{bad_gateway, gateway_timeout, Response};
use forward::server::serve::{
    serve_client, serve_client_start, serve_http, serve_http_start, ClientAction, ClientEvent,
    ClientStart, HttpAction, HttpStart,
};
use forward::util::select::Either;

type Table = Coordinator<u32, &'static str, &'static str>;

fn id(v: u64) -> Id {
    Id::from_u64(v).unwrap()
}

fn names(v: &[&str]) -> Vec<String> {
    v.iter().map(|s| s.to_string()).collect()
}

fn error_of(cmd: Command) -> String {
    match cmd {
        Command::Error(e) => e.as_str().to_string(),
        _ => panic!("not an error"),
    }
}

fn sender(table: &Table, domain: &str) -> Option<u32> {
    table.notify_client(id(1), domain).map(|(tx, _)| *tx)
}

#[test]
fn client_is_told_of_requests_for_its_domains() {
    let mut table = Table::new();
    assert!(table.add_client(&names(&["a", "b"]), &7).is_ok());
    assert!(table.add_client(&names(&["c"]), &8).is_ok());
    let (tx, req) = table.notify_client(id(3), "b").unwrap();
    assert_eq!(*tx, 7);
    assert_eq!(req.id, id(3));
    assert_eq!(req.domain, "b");
    assert_eq!(sender(&table, "c"), Some(8));
    assert_eq!(sender(&table, "d"), None);
}

#[test]
fn domain_has_one_client() {
    let mut table = Table::new();
    assert!(table.add_client(&names(&["a", "b"]), &7).is_ok());
    let err = table.add_client(&names(&["x", "b", "a"]), &8).unwrap_err();
    assert_eq!(err.as_str(), "domain b exists");
    assert_eq!(sender(&table, "x"), None);
    assert_eq!(sender(&table, "b"), Some(7));
}

#[test]
fn removing_undoes_adding() {
    let mut table = Table::new();
    assert!(table.add_client(&names(&["a"]), &7).is_ok());
    assert!(table.add_client(&names(&["b", "c", "b"]), &8).is_ok());
    table.remove_client(&names(&["b", "c", "b"]));
    assert_eq!(sender(&table, "a"), Some(7));
    assert_eq!(sender(&table, "b"), None);
    assert_eq!(sender(&table, "c"), None);
    assert!(table.add_client(&names(&["c"]), &9).is_ok());
}

#[test]
fn offer_reaches_request() {
    let mut table = Table::new();
    let mut req = table.request_forward("a").unwrap();
    assert_eq!(req.domain, "a");
    let number = req.id.unwrap();
    assert!(table.waker(number).is_none());
    assert!(matches!(req.poll(&mut table, "w1", false), Forwarding::Notify));
    assert!(matches!(req.notified(&mut table, true), Forwarding::Pending));
    assert_eq!(table.waker(number), Some(&"w1"));
    assert!(matches!(req.poll(&mut table, "w2", true), Forwarding::Pending));
    assert_eq!(table.waker(number), Some(&"w1"));
    assert!(matches!(req.poll(&mut table, "w3", false), Forwarding::Pending));
    assert_eq!(table.waker(number), Some(&"w3"));
    assert_eq!(table.accept_forward(number, "stream"), Some("w3"));
    assert!(matches!(req.poll(&mut table, "w4", false), Forwarding::Ready(Some("stream"))));
    assert!(req.id.is_none());
    assert_eq!(table.accept_forward(number, "late"), None);
}

#[test]
fn requests_have_different_numbers() {
    let mut table = Table::new();
    let a = table.request_forward("a").unwrap().id.unwrap();
    let b = table.request_forward("a").unwrap().id.unwrap();
    assert_eq!(a.get() >> 32, 0);
    assert_eq!(b.get() >> 32, 1);
}

#[test]
fn request_without_client_is_over() {
    let mut table = Table::new();
    let mut req = table.request_forward("a").unwrap();
    let number = req.id.unwrap();
    assert!(matches!(req.poll(&mut table, "w", false), Forwarding::Notify));
    assert!(table.notify_client(number, &req.domain).is_none());
    assert!(matches!(req.notified(&mut table, false), Forwarding::Ready(None)));
    assert!(req.id.is_none());
    assert_eq!(table.accept_forward(number, "s"), None);
}

#[test]
fn second_offer_ends_both() {
    let mut table = Table::new();
    let mut req = table.request_forward("a").unwrap();
    let number = req.id.unwrap();
    req.poll(&mut table, "w", false);
    assert_eq!(table.accept_forward(number, "one"), Some("w"));
    assert_eq!(table.accept_forward(number, "two"), None);
    assert!(matches!(req.poll(&mut table, "w", false), Forwarding::Notify));
}

#[test]
fn request_that_is_given_up_takes_no_offer() {
    let mut table = Table::new();
    let mut req = table.request_forward("a").unwrap();
    let number = req.id.unwrap();
    req.poll(&mut table, "w", false);
    req.drop(&mut table);
    assert_eq!(table.accept_forward(number, "s"), None);
}

#[test]
fn registration_is_served() {
    let mut table = Table::new();
    let cmd = Command::Register(Register::new(names(&["a", "b"]), "s"));
    match serve_client_start(&mut table, "s", Some(cmd), &5) {
        ClientStart::Serve { answer, domain } => {
            assert!(matches!(answer, Command::Okay));
            assert_eq!(domain, names(&["a", "b"]));
        }
        _ => panic!("not served"),
    }
    assert_eq!(sender(&table, "a"), Some(5));
}

#[test]
fn registration_of_a_taken_domain_is_refused() {
    let mut table = Table::new();
    assert!(table.add_client(&names(&["a"]), &7).is_ok());
    let cmd = Command::Register(Register::new(names(&["a"]), "s"));
    match serve_client_start(&mut table, "s", Some(cmd), &5) {
        ClientStart::Refuse(answer) => assert_eq!(error_of(answer), "domain a exists"),
        _ => panic!("not refused"),
    }
    assert_eq!(sender(&table, "a"), Some(7));
}

#[test]
fn registration_with_bad_signature_changes_nothing() {
    let mut table = Table::new();
    let cmd = Command::Register(Register::new(names(&["a"]), "t"));
    match serve_client_start(&mut table, "s", Some(cmd), &5) {
        ClientStart::Refuse(answer) => assert_eq!(error_of(answer), "bad signature"),
        _ => panic!("not refused"),
    }
    assert_eq!(sender(&table, "a"), None);
}

#[test]
fn offers_are_checked() {
    let mut table = Table::new();
    let cmd = Command::Accept(Accept::new("s", id(9)));
    assert!(matches!(
        serve_client_start(&mut table, "s", Some(cmd), &5),
        ClientStart::Offer { answer: Command::Okay, id: number } if number == id(9)
    ));
    let cmd = Command::Accept(Accept::new("t", id(9)));
    match serve_client_start(&mut table, "s", Some(cmd), &5) {
        ClientStart::Refuse(answer) => assert_eq!(error_of(answer), "bad signature"),
        _ => panic!("not refused"),
    }
}

#[test]
fn other_first_commands_are_refused() {
    let mut table = Table::new();
    for cmd in [Command::Ping, Command::Okay, Command::Forward { id: id(1), domain: "a".to_string() }] {
        match serve_client_start(&mut table, "s", Some(cmd), &5) {
            ClientStart::Unexpected(u) => {
                assert!(u.report.starts_with("unexpected cmd: "));
                assert_eq!(error_of(u.answer), "unexpected cmd");
            }
            _ => panic!("not refused"),
        }
    }
    assert!(matches!(serve_client_start(&mut table, "s", None, &5), ClientStart::Close));
}

#[test]
fn registered_client_is_served() {
    assert!(matches!(
        serve_client(ClientEvent::Command(Some(Command::Ping))),
        ClientAction::Write(Command::Pong)
    ));
    match serve_client(ClientEvent::Command(Some(Command::Pong))) {
        ClientAction::Unexpected(u) => {
            assert_eq!(u.report, "unexpected cmd: Pong");
            assert_eq!(error_of(u.answer), "unexpected cmd");
        }
        _ => panic!("no answer"),
    }
    assert!(matches!(serve_client(ClientEvent::Command(None)), ClientAction::Stop));
    assert!(matches!(serve_client(ClientEvent::Inactive), ClientAction::Stop));
    assert!(matches!(serve_client(ClientEvent::Request(None)), ClientAction::Wait));
    let req = ForwardRequest { id: id(4), domain: "a".to_string() };
    match serve_client(ClientEvent::Request(Some(req))) {
        ClientAction::Write(Command::Forward { id: number, domain }) => {
            assert_eq!(number, id(4));
            assert_eq!(domain, "a");
        }
        _ => panic!("not forwarded"),
    }
}

#[test]
fn http_connection_is_forwarded_or_closed() {
    match serve_http_start(Either::Left(Ok(Some((vec![1], "h".to_string()))))) {
        HttpStart::Forward(buf, host) => {
            assert_eq!(buf, vec![1]);
            assert_eq!(host, "h");
        }
        _ => panic!("not forwarded"),
    }
    assert!(matches!(serve_http_start(Either::Left(Ok(None))), HttpStart::Close));
    assert!(matches!(serve_http_start(Either::Right(())), HttpStart::TimedOut));
    assert!(matches!(
        serve_http_start(Either::Left(Err(HostError::UnexpectedEof))),
        HttpStart::Fail(HostError::UnexpectedEof)
    ));
}

#[test]
fn http_connection_is_joined_or_answered() {
    assert!(matches!(serve_http(Either::Left(Some("d")), vec![]), HttpAction::Join("d", None)));
    match serve_http(Either::Left(Some("d")), vec![1, 2]) {
        HttpAction::Join("d", Some(head)) => assert_eq!(head, vec![1, 2]),
        _ => panic!("not joined"),
    }
    match serve_http::<u8>(Either::Left(None), vec![1]) {
        HttpAction::Answer(r) => assert_eq!(r.code, 502),
        _ => panic!("no answer"),
    }
    match serve_http::<u8>(Either::Right(()), vec![1]) {
        HttpAction::Answer(r) => assert_eq!(r.code, 504),
        _ => panic!("no answer"),
    }
}

#[test]
fn responses_are_written() {
    assert_eq!(bad_gateway().write(), "HTTP/1.1 502 Bad Gateway\r\ncontent-length: 0\r\n\r\n");
    assert_eq!(
        gateway_timeout().write(),
        "HTTP/1.1 504 Gateway Timeout\r\ncontent-length: 0\r\n\r\n"
    );
    let r = Response { code: 7, reason_phrase: "" };
    assert_eq!(r.write(), "HTTP/1.1 7 \r\ncontent-length: 0\r\n\r\n");
}

#[test]
fn request_needs_a_number() {
    let req = RequestForward::of("a", Some(id(5))).unwrap();
    assert_eq!(req.domain, "a");
    assert_eq!(req.id, Some(id(5)));
    assert!(RequestForward::of("a", None).is_none());
}

#[test]
fn request_may_be_given_up_in_any_state() {
    let mut table = Table::new();
    let mut other = RequestForward::of("b", Some(id(6))).unwrap();
    other.poll(&mut table, "w6", false);

    let req = RequestForward::of("a", Some(id(5))).unwrap();
    req.drop(&mut table);
    assert_eq!(table.accept_forward(id(5), "s"), None);

    let mut req = RequestForward::of("a", Some(id(5))).unwrap();
    req.poll(&mut table, "w", false);
    assert_eq!(table.accept_forward(id(5), "s"), Some("w"));
    req.drop(&mut table);
    assert_eq!(table.accept_forward(id(5), "t"), None);

    let mut req = RequestForward::of("a", Some(id(5))).unwrap();
    req.poll(&mut table, "w", false);
    assert_eq!(table.accept_forward(id(5), "s"), Some("w"));
    assert!(matches!(req.poll(&mut table, "w", false), Forwarding::Ready(Some("s"))));
    req.drop(&mut table);
    assert_eq!(table.accept_forward(id(5), "t"), None);

    assert_eq!(table.accept_forward(id(6), "u"), Some("w6"));
}
