use forward::frame::{Connection, ReadStep, Reader, UnexpectedEof, Writer, MAX_MESSAGE_SIZE};

fn read_all(bytes: &[u8], step: usize) -> Vec<Vec<u8>> {
    let mut reader = Reader::new(());
    let mut messages = Vec::new();
    let mut rest = bytes;
    while !rest.is_empty() {
        let n = reader.want().unwrap().min(step).min(rest.len());
        match reader.read(&rest[..n]) {
            Ok(ReadStep::Message(m)) => messages.push(m),
            Ok(ReadStep::More) => {}
            _ => panic!("ended early"),
        }
        rest = &rest[n..];
    }
    messages
}

#[test]
fn frame_has_length_in_front() {
    assert_eq!(Writer::new(()).write(&[7, 8]), vec![0, 0, 0, 2, 7, 8]);
    assert_eq!(Writer::new(()).write(&[]), vec![0, 0, 0, 0]);
    assert_eq!(Writer::new(()).write(&[1; 0x1234])[..4], [0, 0, 0x12, 0x34]);
}

#[test]
fn read_gives_what_was_written() {
    let messages: Vec<Vec<u8>> = vec![vec![1], vec![2; 300], vec![0, 0, 0, 1], vec![9; 70000]];
    let mut bytes = Vec::new();
    for m in &messages {
        bytes.extend(Writer::new(()).write(m));
    }
    for step in [1, 2, 3, 4, 5, 7, 1000, 100000] {
        assert_eq!(read_all(&bytes, step), messages);
    }
}

#[test]
fn longest_message_is_read() {
    let message = vec![5; MAX_MESSAGE_SIZE];
    assert_eq!(read_all(&Writer::new(()).write(&message), 1 << 20), vec![message]);
}

#[test]
fn longer_message_is_refused() {
    let mut reader = Reader::new(());
    assert!(matches!(reader.read(&[0, 0x10, 0, 1]), Ok(ReadStep::More)));
    assert_eq!(reader.want().unwrap_err().as_str(), "message too large");
    assert_eq!(reader.want().unwrap_err().as_str(), "message too large");
}

#[test]
fn end_between_messages() {
    let mut reader = Reader::new(());
    assert!(matches!(reader.read(&[]), Ok(ReadStep::Closed)));
    assert!(matches!(reader.read(&[0, 0, 0, 1]), Ok(ReadStep::More)));
    assert!(matches!(reader.read(&[3]), Ok(ReadStep::Message(_))));
    assert!(matches!(reader.read(&[]), Ok(ReadStep::Closed)));
}

#[test]
fn end_inside_length() {
    let mut reader = Reader::new(());
    assert!(matches!(reader.read(&[0]), Ok(ReadStep::More)));
    assert!(matches!(reader.read(&[]), Err(UnexpectedEof)));
}

#[test]
fn end_inside_payload() {
    let mut reader = Reader::new(());
    assert!(matches!(reader.read(&[0, 0, 0, 2]), Ok(ReadStep::More)));
    assert!(matches!(reader.read(&[1]), Ok(ReadStep::More)));
    assert!(matches!(reader.read(&[]), Err(UnexpectedEof)));
}

#[test]
fn empty_message_ends_the_stream() {
    let mut reader = Reader::new(());
    assert!(matches!(reader.read(&[0, 0, 0, 0]), Ok(ReadStep::More)));
    assert_eq!(reader.want().unwrap(), 0);
    assert!(matches!(reader.read(&[]), Err(UnexpectedEof)));
}

#[test]
fn streams_come_back() {
    assert_eq!(Reader::new(5).unwrap(), 5);
    assert_eq!(Writer::new("w").unwrap(), "w");
    assert_eq!(Connection::new(1, 2).unwrap(), (1, 2));
}

#[test]
fn reader_asks_for_no_more_than_is_to_come() {
    let mut bytes = Writer::new(()).write(&[1, 2, 3]);
    bytes.extend(Writer::new(()).write(&[4]));
    let mut reader = Reader::new(());
    let mut messages = Vec::new();
    let mut done = 0;
    while done < bytes.len() {
        let n = reader.want().unwrap();
        assert!(0 < n && done + n <= bytes.len());
        if let Ok(ReadStep::Message(m)) = reader.read(&bytes[done..done + n]) {
            messages.push(m);
        }
        done += n;
    }
    assert_eq!(messages, vec![vec![1, 2, 3], vec![4]]);
    assert_eq!(reader.want().unwrap(), 4);
}

#[test]
fn cutting_of_a_stream_does_not_matter() {
    let mut bytes = Writer::new(()).write(&[1, 2, 3]);
    bytes.extend([0, 0, 0, 9, 7]);
    for step in [1, 2, 3, 5, 100] {
        assert_eq!(read_all(&bytes, step), vec![vec![1, 2, 3]]);
    }
    let mut reader = Reader::new(());
    let mut rest = &bytes[..];
    while !rest.is_empty() {
        let n = reader.want().unwrap().min(rest.len());
        assert!(reader.read(&rest[..n]).is_ok());
        rest = &rest[n..];
    }
    assert_eq!(reader.want().unwrap(), 8);
}
