use forward::client::options::{ForwardOption, Options};
use forward::client::run::{
    accept_cmd, forward_inner, register, register_cmd, ForwardStep, Run, RunAction, RunEvent,
};
use forward::server::coordinator::{Coordinator, Forwarding};
use forward::server::host::{HostRead, HostReader};
use forward::server::serve::{
    serve_client, serve_client_start, serve_http, serve_http_start, ClientAction, ClientEvent,
    ClientStart, HttpAction, HttpStart,
};
use forward::util::select::Either;

#[test]
fn request_reaches_its_destination() {
    let options = Options {
        server: "a.foo.com:4431".to_string(),
        forward: vec![
            ForwardOption { domain: "a.foo.com".to_string(), destination: 8080u16 },
            ForwardOption { domain: "b.foo.com".to_string(), destination: 8081u16 },
        ],
        secret: "key".to_string(),
    };
    let mut table: Coordinator<&'static str, &'static str, &'static str> = Coordinator::new();

    let first = serve_client_start(&mut table, "key", Some(register_cmd(&options)), &"way");
    match first {
        ClientStart::Serve { answer, .. } => assert!(register(Some(answer)).is_ok()),
        _ => panic!("not served"),
    }

    let head: &[u8] = b"GET / HTTP/1.1\r\nHost: b.foo.com:4430\r\n\r\n";
    let read = match HostReader::new().read_host(head) {
        HostRead::Done(read) => read,
        HostRead::More(_) => panic!("no host"),
    };
    let (buf, host) = match serve_http_start(Either::Left(read)) {
        HttpStart::Forward(buf, host) => (buf, host),
        _ => panic!("not forwarded"),
    };
    let mut request = table.request_forward(&host).unwrap();
    let id = request.id.unwrap();
    assert!(matches!(request.poll(&mut table, "waker", false), Forwarding::Notify));
    let (way, told) = table.notify_client(id, &request.domain).unwrap();
    assert_eq!(*way, "way");
    assert!(matches!(request.notified(&mut table, true), Forwarding::Pending));

    let sent = match serve_client(ClientEvent::Request(Some(told))) {
        ClientAction::Write(cmd) => cmd,
        _ => panic!("client not told"),
    };
    let number = match Run::new().run(&options, RunEvent::Received(Some(sent))) {
        RunAction::Forward(dst, number) => {
            assert_eq!(dst, 8081);
            number
        }
        _ => panic!("not taken"),
    };
    let offer = Some(accept_cmd(&options, number));
    let offered = match serve_client_start(&mut table, "key", offer, &"other") {
        ClientStart::Offer { answer, id } => {
            assert!(matches!(forward_inner(Some(answer)), ForwardStep::Join));
            id
        }
        _ => panic!("not offered"),
    };
    assert_eq!(table.accept_forward(offered, "stream"), Some("waker"));
    let stream = match request.poll(&mut table, "waker", true) {
        Forwarding::Ready(stream) => stream,
        _ => panic!("not reached"),
    };
    match serve_http(Either::Left(stream), buf) {
        HttpAction::Join("stream", Some(sent_first)) => assert_eq!(sent_first, head),
        _ => panic!("not joined"),
    }
}
