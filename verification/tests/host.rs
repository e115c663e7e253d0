use forward::server::host::{find_host, HostError, HostRead, HostReader};

fn feed(chunks: &[&[u8]]) -> HostRead {
    let mut reader = HostReader::new();
    for chunk in chunks {
        assert!(chunk.len() <= reader.want());
        match reader.read_host(chunk) {
            HostRead::More(next) => reader = next,
            done => return done,
        }
    }
    HostRead::More(reader)
}

fn host_of(chunks: &[&[u8]]) -> String {
    match feed(chunks) {
        HostRead::Done(Ok(Some((_, host)))) => host,
        _ => panic!("no host"),
    }
}

#[test]
fn finds_host_up_to_end_of_line() {
    assert_eq!(find_host(b"GET / HTTP/1.1\r\nHost: a.foo.com\r\n"), Ok(&b" a.foo.com"[..]));
}

#[test]
fn finds_host_in_any_case() {
    assert_eq!(find_host(b"hOsT:x\r"), Ok(&b"x"[..]));
}

#[test]
fn leaves_out_the_port() {
    assert_eq!(find_host(b"Host: a.foo.com:4430\r\n"), Ok(&b" a.foo.com"[..]));
}

#[test]
fn last_colon_ends_the_name() {
    assert_eq!(find_host(b"Host: [::1]:80\r\n"), Ok(&b" [::1]"[..]));
}

#[test]
fn word_without_colon_is_skipped() {
    assert_eq!(find_host(b"GET /hosts\r\nHost: b\r\n"), Ok(&b" b"[..]));
}

#[test]
fn word_right_behind_word_is_found() {
    assert_eq!(find_host(b"hosthost:c\r"), Ok(&b"c"[..]));
}

#[test]
fn mismatching_letter_is_not_looked_at_again() {
    assert_eq!(find_host(b"hhost:c\r"), Err(8));
}

#[test]
fn empty_name() {
    assert_eq!(find_host(b"host:\r"), Ok(&b""[..]));
}

#[test]
fn nothing_to_find() {
    assert_eq!(find_host(b""), Err(0));
    assert_eq!(find_host(b"GET / HTTP/1.1\r\n"), Err(16));
}

#[test]
fn resume_offset_is_the_start_of_the_word() {
    assert_eq!(find_host(b"ab ho"), Err(3));
    assert_eq!(find_host(b"ab host"), Err(3));
    assert_eq!(find_host(b"ab host:"), Err(3));
    assert_eq!(find_host(b"ab host: x:1"), Err(3));
}

#[test]
fn host_is_trimmed() {
    assert_eq!(host_of(&[b"Host: \t a.foo.com \r\n"]), "a.foo.com");
    assert_eq!(host_of(&["Host:\u{3000}b\u{2003}\r\n".as_bytes()]), "b");
}

#[test]
fn host_outside_ascii_is_decoded() {
    assert_eq!(host_of(&["Host: 例え.jp\r\n".as_bytes()]), "例え.jp");
}

#[test]
fn chunks_make_no_difference() {
    let head: &[u8] = b"GET /ghost HTTP/1.1\r\nAccept: */*\r\nHost: a.foo.com:4430\r\n";
    for i in 1..head.len() - 1 {
        for j in [i + 1, head.len() - 1] {
            if j > i && j < head.len() {
                assert_eq!(host_of(&[&head[..i], &head[i..j], &head[j..]]), "a.foo.com");
            }
        }
    }
}

#[test]
fn all_bytes_are_handed_on() {
    match feed(&[b"Host: x", b"\r\nabc"]) {
        HostRead::Done(Ok(Some((buf, host)))) => {
            assert_eq!(buf, b"Host: x\r\nabc");
            assert_eq!(host, "x");
        }
        _ => panic!("no host"),
    }
}

#[test]
fn end_before_first_byte() {
    assert!(matches!(feed(&[b""]), HostRead::Done(Ok(None))));
}

#[test]
fn end_inside_head() {
    assert!(matches!(feed(&[b"Host", b""]), HostRead::Done(Err(HostError::UnexpectedEof))));
}

#[test]
fn host_that_is_not_utf8() {
    assert!(matches!(feed(&[b"Host: \xff\r\n"]), HostRead::Done(Err(HostError::NotUtf8(_)))));
}

#[test]
fn head_too_large() {
    let block = [b'x'; 1024];
    let mut reader = HostReader::new();
    for _ in 0..7 {
        assert_eq!(reader.want(), 1024);
        reader = match reader.read_host(&block) {
            HostRead::More(next) => next,
            _ => panic!("ended early"),
        };
    }
    match reader.read_host(&block) {
        HostRead::Done(Err(HostError::Plain(e))) => assert_eq!(e.as_str(), "header too large"),
        _ => panic!("too much was taken"),
    }
}

#[test]
fn buffer_grows_in_steps() {
    let reader = match HostReader::new().read_host(&[b'x'; 1000]) {
        HostRead::More(next) => next,
        _ => panic!("ended early"),
    };
    assert_eq!(reader.want(), 24);
    let reader = match reader.read_host(&[b'x'; 24]) {
        HostRead::More(next) => next,
        _ => panic!("ended early"),
    };
    assert_eq!(reader.want(), 1024);
}

#[test]
fn host_line_is_not_missed() {
    let head = b"GET /hosts HTTP/1.1\r\nX: hhosthos\r\nhOsT: b.foo.com:80\r\n";
    assert_eq!(find_host(head), Ok(&b" b.foo.com"[..]));
    let head = b"GET /host: HTTP/1.1\r\nHost: b.foo.com\r\n";
    assert_eq!(find_host(head), Ok(&b" HTTP/1.1"[..]));
}
