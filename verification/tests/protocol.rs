use forward::protocol::{unexpected_cmd, Accept, Command, Id, IdCounter, Register};
use forward::util::error::StrError;

fn id(v: u64) -> Id {
    Id::from_u64(v).unwrap()
}

#[test]
fn id_of_count_and_time() {
    assert_eq!(Id::at(2, 5).unwrap().get(), 0x2_0000_0005);
    assert_eq!(Id::at(0, 0x7_0000_0009).unwrap().get(), 9);
    assert_eq!(Id::at(u32::MAX, u64::MAX).unwrap().get(), u64::MAX);
    assert!(Id::at(0, 0x1_0000_0000).is_none());
}

#[test]
fn id_is_not_zero() {
    assert!(Id::from_u64(0).is_none());
    assert_eq!(id(1).get(), 1);
}

#[test]
fn ids_of_one_counter_differ() {
    let mut counter = IdCounter::new();
    let a = Id::new(&mut counter).unwrap();
    let b = Id::new(&mut counter).unwrap();
    assert_eq!(a.get() >> 32, 0);
    assert_eq!(b.get() >> 32, 1);
    assert_ne!(a, b);
}

#[test]
fn id_holds_the_time() {
    let before = std::time::SystemTime::now()
        .duration_since(std::time::UNIX_EPOCH)
        .unwrap()
        .as_secs();
    let low = Id::new(&mut IdCounter::new()).unwrap().get() & 0xffff_ffff;
    assert!(low >= before & 0xffff_ffff && low < (before & 0xffff_ffff) + 20);
}

#[test]
fn accept_signature() {
    let accept = Accept::new("secret", id(0x2_0000_0005));
    assert_eq!(accept.id, id(0x2_0000_0005));
    assert_eq!(
        accept.sign,
        vec![
            53, 96, 97, 135, 102, 84, 113, 52, 27, 4, 185, 255, 252, 222, 219, 211, 60, 183, 60,
            252, 84, 109, 31, 71, 91, 103, 100, 239, 6, 212, 88, 187
        ]
    );
    assert!(accept.verify_sign("secret"));
    assert!(!accept.verify_sign("Secret"));
}

#[test]
fn accept_for_another_request_is_refused() {
    let mut accept = Accept::new("secret", id(1));
    accept.id = id(2);
    assert!(!accept.verify_sign("secret"));
}

#[test]
fn register_signature() {
    let domain = vec!["a.foo.com".to_string(), "b.foo.com".to_string()];
    let register = Register::new(domain.clone(), "密钥");
    assert_eq!(register.domain, domain);
    assert_eq!(
        register.sign,
        vec![
            251, 248, 201, 140, 239, 68, 77, 54, 43, 248, 230, 227, 221, 153, 21, 132, 236, 20,
            179, 1, 228, 133, 247, 56, 185, 208, 145, 34, 6, 56, 144, 139
        ]
    );
    assert!(register.verify_sign("密钥"));
    assert!(!register.verify_sign("other"));
}

#[test]
fn register_of_other_domains_is_refused() {
    let mut register = Register::new(vec!["a".to_string()], "s");
    register.domain.push("b".to_string());
    assert!(!register.verify_sign("s"));
}

#[test]
fn signature_of_another_length_is_refused() {
    let mut register = Register::new(vec![], "s");
    assert_eq!(register.sign.len(), 32);
    register.sign.pop();
    assert!(!register.verify_sign("s"));
    register.sign.clear();
    assert!(!register.verify_sign("s"));
    let mut accept = Accept::new("", id(1));
    assert_eq!(accept.sign.len(), 32);
    assert!(accept.verify_sign(""));
    accept.sign.push(0);
    assert!(!accept.verify_sign(""));
}

#[test]
fn commands_are_shown() {
    let register = Command::Register(Register {
        domain: vec!["a".to_string(), "b\"c".to_string()],
        sign: vec![1, 20, 255],
    });
    assert_eq!(
        register.show(),
        "Register(Register { domain: [\"a\", \"b\\\"c\"], sign: [1, 20, 255] })"
    );
    let forward = Command::Forward { id: id(4294967296), domain: "x\n".to_string() };
    assert_eq!(forward.show(), "Forward { id: Id(4294967296), domain: \"x\\n\" }");
    let accept = Command::Accept(Accept { id: id(7), sign: vec![] });
    assert_eq!(accept.show(), "Accept(Accept { id: Id(7), sign: [] })");
    let accept = Command::Accept(Accept { id: id(u64::MAX), sign: vec![0, 100] });
    assert_eq!(accept.show(), "Accept(Accept { id: Id(18446744073709551615), sign: [0, 100] })");
    assert_eq!(Command::Ping.show(), "Ping");
    assert_eq!(Command::Pong.show(), "Pong");
    assert_eq!(Command::Okay.show(), "Ok");
    assert_eq!(Command::Error(StrError::new("oh")).show(), "Error(StrError(\"oh\"))");
}

#[test]
fn answer_to_unexpected_command() {
    let forward = Command::Forward { id: id(3), domain: "d".to_string() };
    let unexpected = unexpected_cmd(&forward);
    assert_eq!(unexpected.report, "unexpected cmd: Forward { id: Id(3), domain: \"d\" }");
    match unexpected.answer {
        Command::Error(e) => assert_eq!(e.as_str(), "unexpected cmd"),
        _ => panic!("not an error"),
    }
}
