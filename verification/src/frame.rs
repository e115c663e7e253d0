//! Messages on a stream of bytes: each has its length in front.
use crate::util::error::StrError;
use vstd::prelude::*;

verus! {

/// The longest message that is read.
pub const MAX_MESSAGE_SIZE: usize = 1024 * 1024;

/// `x` as four bytes, the highest first.
pub open spec fn be_bytes_32(x: u32) -> Seq<u8> {
    seq![
        (x / 0x100_0000) as u8,
        (x / 0x1_0000 % 0x100) as u8,
        (x / 0x100 % 0x100) as u8,
        (x % 0x100) as u8,
    ]
}

/// The number whose four bytes, the highest first, `s` starts with.
pub open spec fn be_value_32(s: Seq<u8>) -> int {
    s[0] * 0x100_0000 + s[1] * 0x1_0000 + s[2] * 0x100 + s[3]
}

/// What is written for `payload`: its length, cut to 32 bits, and the payload.
pub open spec fn framed(payload: Seq<u8>) -> Seq<u8> {
    be_bytes_32((payload.len() % 0x1_0000_0000) as u32) + payload
}

/// How many bytes may be read next when `pending` has come of a message: the rest of the length,
/// or of the payload. `None` where the message is too long.
pub open spec fn wanted(pending: Seq<u8>) -> Option<int> {
    if pending.len() < 4 {
        Some(4 - pending.len())
    } else if be_value_32(pending) > MAX_MESSAGE_SIZE {
        None
    } else {
        Some(be_value_32(pending) + 4 - pending.len())
    }
}

/// Whether `s` is a message with its length in front. The length alone is none.
pub open spec fn is_complete(s: Seq<u8>) -> bool {
    s.len() > 4 && s.len() == 4 + be_value_32(s)
}

/// The stream ended inside a message.
#[derive(Clone, Copy, Debug, PartialEq, Eq, Structural)]
pub struct UnexpectedEof;

/// What some bytes lead to.
pub enum ReadStep {
    /// The message is not complete yet.
    More,
    /// The stream ended between two messages.
    Closed,
    /// A message.
    Message(Vec<u8>),
}

enum State {
    ReadLen,
    ReadPayload { len: usize },
}

/// What has come of a message that is not complete.
pub struct Partial {
    buf: Vec<u8>,
    state: State,
}

impl Partial {
    /// The part of the length or the payload that has come is not complete.
    pub closed spec fn wf(&self) -> bool {
        match self.state {
            State::ReadLen => self.buf@.len() < 4,
            State::ReadPayload { len } => {
                &&& len <= u32::MAX
                &&& self.buf@.len() == 0 || self.buf@.len() < len <= MAX_MESSAGE_SIZE
            },
        }
    }
}

impl View for Partial {
    type V = Seq<u8>;

    /// The bytes that have come.
    closed spec fn view(&self) -> Seq<u8> {
        match self.state {
            State::ReadLen => self.buf@,
            State::ReadPayload { len } => be_bytes_32(len as u32) + self.buf@,
        }
    }
}

/// Reads messages from a stream. Between two reads nothing is lost, so waiting for bytes may be
/// given up at any time.
pub struct Reader<T> {
    pub stream: T,
    pub partial: Partial,
}

impl<T> Reader<T> {
    /// What has come of a message is not complete.
    pub open spec fn wf(&self) -> bool {
        self.partial.wf()
    }

    /// The bytes that have come of a message that is not complete.
    pub open spec fn pending(&self) -> Seq<u8> {
        self.partial@
    }

    /// Reads from `stream`; nothing has come yet.
    pub fn new(stream: T) -> (r: Reader<T>)
        ensures
            r.wf(),
            r.stream == stream,
            r.pending() == Seq::<u8>::empty(),
    {
        Reader { stream, partial: Partial { buf: Vec::with_capacity(128), state: State::ReadLen } }
    }

    /// The stream.
    pub fn unwrap(self) -> (r: T)
        ensures
            r == self.stream,
    {
        self.stream
    }

    /// How many bytes may be read next. A message that is too long is an error, now and ever after.
    pub fn want(&self) -> (r: Result<usize, StrError>)
        requires
            self.wf(),
        ensures
            match wanted(self.pending()) {
                Some(n) => r matches Ok(m) && m == n,
                None => r matches Err(e) && e@ == "message too large"@,
            },
    {
        match self.partial.state {
            State::ReadLen => Ok(4 - self.partial.buf.len()),
            State::ReadPayload { len } => {
                proof {
                    lemma_be_32(len as u32);
                    assert(be_value_32(self.pending()) == be_value_32(be_bytes_32(len as u32)));
                }
                if len > MAX_MESSAGE_SIZE {
                    Err(StrError::new("message too large"))
                } else {
                    Ok(len - self.partial.buf.len())
                }
            },
        }
    }

    /// Takes the bytes that one read gave; no bytes mean that the stream has ended. A message of
    /// length zero ends the stream too: nothing can be read of it.
    pub fn read(&mut self, chunk: &[u8]) -> (r: Result<ReadStep, UnexpectedEof>)
        requires
            old(self).wf(),
            wanted(old(self).pending()) matches Some(n) && chunk@.len() <= n,
        ensures
            final(self).wf(),
            final(self).stream == old(self).stream,
            ({
                let all = old(self).pending() + chunk@;
                if chunk@.len() == 0 {
                    &&& final(self).pending() == old(self).pending()
                    &&& if all.len() == 0 {
                        r == Ok::<ReadStep, UnexpectedEof>(ReadStep::Closed)
                    } else {
                        r == Err::<ReadStep, UnexpectedEof>(UnexpectedEof)
                    }
                } else if is_complete(all) {
                    &&& final(self).pending() == left_over(old(self).pending(), chunk@)
                    &&& r matches Ok(ReadStep::Message(m)) && m@ == all.skip(4)
                } else {
                    &&& final(self).pending() == left_over(old(self).pending(), chunk@)
                    &&& r == Ok::<ReadStep, UnexpectedEof>(ReadStep::More)
                }
            }),
            chunk@.len() > 0 ==> match r {
                Ok(ReadStep::Message(m)) => {
                    &&& old(self).pending() + chunk@ == framed(m@)
                    &&& 0 < m@.len() <= 1024 * 1024
                    &&& final(self).pending() == Seq::<u8>::empty()
                },
                Ok(ReadStep::More) => final(self).pending() == old(self).pending() + chunk@,
                _ => false,
            },
    {
        let ghost all = self.pending() + chunk@;
        match self.partial.state {
            State::ReadLen => {
                if chunk.len() == 0 {
                    if self.partial.buf.len() > 0 {
                        return Err(UnexpectedEof);
                    }
                    return Ok(ReadStep::Closed);
                }
                self.partial.buf.extend_from_slice(chunk);
                assert(self.partial.buf@ == all);
                if self.partial.buf.len() == 4 {
                    let b: &Vec<u8> = &self.partial.buf;
                    let len: usize = b[0] as usize * 0x100_0000 + b[1] as usize * 0x1_0000
                        + b[2] as usize * 0x100 + b[3] as usize;
                    self.partial.state = State::ReadPayload { len };
                    self.partial.buf.clear();
                    proof {
                        lemma_be_32_of(all);
                        assert(self.pending() == all);
                    }
                }
                Ok(ReadStep::More)
            },
            State::ReadPayload { len } => {
                if chunk.len() == 0 {
                    return Err(UnexpectedEof);
                }
                let ghost before = self.partial.buf@;
                self.partial.buf.extend_from_slice(chunk);
                proof {
                    lemma_be_32(len as u32);
                    assert(self.partial.buf@ == before + chunk@);
                    assert(all == be_bytes_32(len as u32) + self.partial.buf@);
                    assert(be_value_32(all) == be_value_32(be_bytes_32(len as u32)));
                }
                if self.partial.buf.len() == len {
                    self.partial.state = State::ReadLen;
                    let mut message: Vec<u8> = Vec::new();
                    std::mem::swap(&mut message, &mut self.partial.buf);
                    assert(message@ == all.skip(4));
                    assert(all =~= framed(message@));
                    Ok(ReadStep::Message(message))
                } else {
                    Ok(ReadStep::More)
                }
            },
        }
    }
}

proof fn lemma_be_32(x: u32)
    ensures
        be_value_32(be_bytes_32(x)) == x,
        be_bytes_32(x).len() == 4,
{
}

proof fn lemma_be_32_of(s: Seq<u8>)
    requires
        s.len() == 4,
    ensures
        0 <= be_value_32(s) <= u32::MAX,
        be_bytes_32(be_value_32(s) as u32) == s,
{
    let (a, b, c, d) = (s[0] as int, s[1] as int, s[2] as int, s[3] as int);
    let x = be_value_32(s);
    assert(x == 0x100_0000 * a + (0x1_0000 * b + 0x100 * c + d));
    assert(x / 0x100_0000 == a);
    assert(x / 0x1_0000 == 0x100 * a + b);
    assert(x / 0x100 == 0x1_0000 * a + 0x100 * b + c);
    assert((0x100 * a + b) % 0x100 == b);
    assert((0x1_0000 * a + 0x100 * b + c) % 0x100 == c);
    assert(x % 0x100 == d);
    let bytes = be_bytes_32(x as u32);
    assert(bytes[0] == s[0] && bytes[1] == s[1] && bytes[2] == s[2] && bytes[3] == s[3]);
    assert(bytes =~= s);
}

/// Writes messages to a stream.
pub struct Writer<T> {
    pub stream: T,
}

impl<T> Writer<T> {
    /// Writes to `stream`.
    pub fn new(stream: T) -> (r: Writer<T>)
        ensures
            r.stream == stream,
    {
        Writer { stream }
    }

    /// The stream.
    pub fn unwrap(self) -> (r: T)
        ensures
            r == self.stream,
    {
        self.stream
    }

    /// The bytes to write for `payload`.
    pub fn write(&self, payload: &[u8]) -> (r: Vec<u8>)
        ensures
            r@ == framed(payload@),
    {
        let len: u32 = (payload.len() as u64 % 0x1_0000_0000) as u32;
        let mut out: Vec<u8> = Vec::new();
        out.push((len / 0x100_0000) as u8);
        out.push((len / 0x1_0000 % 0x100) as u8);
        out.push((len / 0x100 % 0x100) as u8);
        out.push((len % 0x100) as u8);
        assert(out@ == be_bytes_32(len));
        out.extend_from_slice(payload);
        assert(out@ == framed(payload@));
        out
    }
}

/// The two directions of a connection.
pub struct Connection<R, W> {
    pub input: Reader<R>,
    pub output: Writer<W>,
}

impl<R, W> Connection<R, W> {
    /// Reads from `r` and writes to `w`.
    pub fn new(r: R, w: W) -> (c: Connection<R, W>)
        ensures
            c.input.wf(),
            c.input.stream == r,
            c.input.pending() == Seq::<u8>::empty(),
            c.output.stream == w,
    {
        Connection { input: Reader::new(r), output: Writer::new(w) }
    }

    /// The two streams.
    pub fn unwrap(self) -> (r: (R, W))
        ensures
            r == (self.input.stream, self.output.stream),
    {
        (self.input.unwrap(), self.output.unwrap())
    }
}

/// The bytes that are left of a message after `chunk` has come behind `pending`.
pub open spec fn left_over(pending: Seq<u8>, chunk: Seq<u8>) -> Seq<u8> {
    if is_complete(pending + chunk) {
        seq![]
    } else {
        pending + chunk
    }
}

/// Whether a reader that holds `pending` can be given `chunks` one after the other, none of them
/// empty.
pub open spec fn readable(pending: Seq<u8>, chunks: Seq<Seq<u8>>) -> bool
    decreases chunks.len(),
{
    chunks.len() > 0 ==> {
        &&& chunks[0].len() > 0
        &&& wanted(pending) matches Some(n) && chunks[0].len() <= n
        &&& readable(left_over(pending, chunks[0]), chunks.drop_first())
    }
}

/// The messages that a reader that holds `pending` gives while it takes `chunks`.
pub open spec fn delivered(pending: Seq<u8>, chunks: Seq<Seq<u8>>) -> Seq<Seq<u8>>
    decreases chunks.len(),
{
    if chunks.len() == 0 {
        seq![]
    } else {
        let all = pending + chunks[0];
        let rest = delivered(left_over(pending, chunks[0]), chunks.drop_first());
        if is_complete(all) {
            seq![all.skip(4)] + rest
        } else {
            rest
        }
    }
}

/// The bytes that a reader that held `pending` holds after it has taken `chunks`.
pub open spec fn held(pending: Seq<u8>, chunks: Seq<Seq<u8>>) -> Seq<u8>
    decreases chunks.len(),
{
    if chunks.len() == 0 {
        pending
    } else {
        held(left_over(pending, chunks[0]), chunks.drop_first())
    }
}

/// The bytes one behind the other.
pub open spec fn concatenated(parts: Seq<Seq<u8>>) -> Seq<u8>
    decreases parts.len(),
{
    if parts.len() == 0 {
        seq![]
    } else {
        parts[0] + concatenated(parts.drop_first())
    }
}

/// What is written for `messages`, one after the other.
pub open spec fn written(messages: Seq<Seq<u8>>) -> Seq<u8>
    decreases messages.len(),
{
    if messages.len() == 0 {
        seq![]
    } else {
        framed(messages[0]) + written(messages.drop_first())
    }
}

/// Whether `s` starts with a message with its length in front.
pub open spec fn has_message(s: Seq<u8>) -> bool {
    s.len() > 4 && 0 < be_value_32(s) <= s.len() - 4
}

/// The messages that stand, one behind the other, at the start of the bytes `s`.
pub open spec fn messages_in(s: Seq<u8>) -> Seq<Seq<u8>>
    decreases s.len(),
{
    if has_message(s) {
        let end = 4 + be_value_32(s);
        seq![s.subrange(4, end)] + messages_in(s.skip(end))
    } else {
        seq![]
    }
}

/// What stands behind the messages at the start of the bytes `s`.
pub open spec fn rest_of(s: Seq<u8>) -> Seq<u8>
    decreases s.len(),
{
    if has_message(s) {
        rest_of(s.skip(4 + be_value_32(s)))
    } else {
        s
    }
}

/// Whether a reader can hold `pending`.
spec fn unfinished(pending: Seq<u8>) -> bool {
    pending.len() <= 4 || pending.len() < 4 + be_value_32(pending)
}

proof fn lemma_framed(m: Seq<u8>)
    requires
        0 < m.len() <= MAX_MESSAGE_SIZE,
    ensures
        framed(m).len() == 4 + m.len(),
        be_value_32(framed(m)) == m.len(),
        framed(m).skip(4) == m,
{
    lemma_be_32(m.len() as u32);
    assert(framed(m).skip(4) =~= m);
    assert(framed(m).take(4) =~= be_bytes_32(m.len() as u32));
    assert(be_value_32(framed(m)) == be_value_32(be_bytes_32(m.len() as u32)));
}

proof fn lemma_delivered(pending: Seq<u8>, chunks: Seq<Seq<u8>>, messages: Seq<Seq<u8>>)
    requires
        unfinished(pending),
        readable(pending, chunks),
        pending + concatenated(chunks) == written(messages),
        forall|i: int|
            0 <= i < messages.len() ==> 0 < (#[trigger] messages[i]).len() <= MAX_MESSAGE_SIZE,
    ensures
        delivered(pending, chunks) == messages,
    decreases chunks.len(),
{
    let stream = written(messages);
    if messages.len() > 0 {
        let m = messages[0];
        lemma_framed(m);
        assert(stream.take(4 + m.len() as int) =~= framed(m));
        assert(be_value_32(stream) == be_value_32(framed(m)));
        if pending.len() >= 4 {
            assert(pending =~= stream.take(pending.len() as int));
            assert(be_value_32(pending) == be_value_32(stream));
        }
        if chunks.len() == 0 {
            assert(pending =~= stream);
            assert(false);
        }
    }
    if chunks.len() > 0 {
        let c = chunks[0];
        let all = pending + c;
        assert(concatenated(chunks) == c + concatenated(chunks.drop_first()));
        assert(all + concatenated(chunks.drop_first()) =~= stream);
        assert(messages.len() > 0);
        let m = messages[0];
        assert(all.len() <= 4 + m.len());
        assert(all =~= stream.take(all.len() as int));
        if all.len() >= 4 {
            assert(be_value_32(all) == be_value_32(stream));
        }
        if is_complete(all) {
            assert(all =~= framed(m));
            let rest = messages.drop_first();
            assert(concatenated(chunks.drop_first()) =~= written(rest)) by {
                assert(stream == framed(m) + written(rest));
                assert(stream.skip(4 + m.len() as int) =~= written(rest));
                assert(stream.skip(all.len() as int) =~= concatenated(chunks.drop_first()));
            }
            assert(Seq::<u8>::empty() + concatenated(chunks.drop_first()) =~= written(rest));
            lemma_delivered(seq![], chunks.drop_first(), rest);
            assert(seq![m] + rest =~= messages);
        } else {
            lemma_delivered(all, chunks.drop_first(), messages);
        }
    }
}

/// What is read is what was written: in whatever chunks the bytes of some messages arrive, the
/// reader gives these messages, in their order and no others. It holds of messages that are not
/// empty and not longer than `MAX_MESSAGE_SIZE`.
pub proof fn law_read_gives_what_was_written(messages: Seq<Seq<u8>>, chunks: Seq<Seq<u8>>)
    requires
        forall|i: int|
            0 <= i < messages.len() ==> 0 < (#[trigger] messages[i]).len() <= MAX_MESSAGE_SIZE,
        readable(seq![], chunks),
        concatenated(chunks) == written(messages),
    ensures
        delivered(seq![], chunks) == messages,
{
    assert(Seq::<u8>::empty() + concatenated(chunks) =~= written(messages));
    lemma_delivered(seq![], chunks, messages);
}

proof fn lemma_held(pending: Seq<u8>, chunks: Seq<Seq<u8>>, messages: Seq<Seq<u8>>)
    requires
        unfinished(pending),
        readable(pending, chunks),
        (pending + concatenated(chunks)).is_prefix_of(written(messages)),
        forall|i: int|
            0 <= i < messages.len() ==> 0 < (#[trigger] messages[i]).len() <= MAX_MESSAGE_SIZE,
    ensures
        delivered(pending, chunks).is_prefix_of(messages),
        wanted(held(pending, chunks)) matches Some(n) && 0 < n && (pending.len() + concatenated(
            chunks,
        ).len() < written(messages).len() ==> pending.len() + concatenated(chunks).len() + n
            <= written(messages).len()),
    decreases chunks.len(),
{
    let stream = written(messages);
    let come = pending + concatenated(chunks);
    assert(come =~= stream.take(come.len() as int));
    assert(pending =~= come.take(pending.len() as int));
    if messages.len() > 0 {
        let m = messages[0];
        lemma_framed(m);
        assert(stream.take(4 + m.len() as int) =~= framed(m));
        assert(be_value_32(stream) == be_value_32(framed(m)));
        if pending.len() >= 4 {
            assert(be_value_32(pending) == be_value_32(stream));
        }
    }
    if chunks.len() > 0 {
        let c = chunks[0];
        let all = pending + c;
        let later = chunks.drop_first();
        assert(all + concatenated(later) =~= come);
        assert(messages.len() > 0);
        let m = messages[0];
        assert(all.len() <= 4 + m.len());
        assert(all =~= stream.take(all.len() as int));
        if all.len() >= 4 {
            assert(be_value_32(all) == be_value_32(stream));
        }
        if is_complete(all) {
            let rest = messages.drop_first();
            assert(stream.skip(4 + m.len() as int) =~= written(rest));
            assert(come.skip(all.len() as int) =~= Seq::<u8>::empty() + concatenated(later));
            assert((Seq::<u8>::empty() + concatenated(later)).is_prefix_of(written(rest)));
            lemma_held(seq![], later, rest);
            assert(all.skip(4) =~= m) by {
                assert(all =~= framed(m));
            }
            assert(delivered(pending, chunks).is_prefix_of(seq![m] + rest));
            assert(seq![m] + rest =~= messages);
        } else {
            lemma_held(all, later, messages);
        }
    }
}

/// While the bytes of some messages arrive, the reader has given the first of these messages and
/// no others, it asks for more, and it never asks for more than is still to come. It holds of
/// messages that are not empty and not longer than `MAX_MESSAGE_SIZE`.
pub proof fn law_reader_keeps_up(messages: Seq<Seq<u8>>, chunks: Seq<Seq<u8>>)
    requires
        forall|i: int|
            0 <= i < messages.len() ==> 0 < (#[trigger] messages[i]).len() <= MAX_MESSAGE_SIZE,
        readable(seq![], chunks),
        concatenated(chunks).is_prefix_of(written(messages)),
    ensures
        delivered(seq![], chunks).is_prefix_of(messages),
        wanted(held(seq![], chunks)) matches Some(n) && 0 < n && (concatenated(chunks).len()
            < written(messages).len() ==> concatenated(chunks).len() + n
            <= written(messages).len()),
{
    assert(Seq::<u8>::empty() + concatenated(chunks) =~= concatenated(chunks));
    lemma_held(seq![], chunks, messages);
}

proof fn lemma_any_stream(pending: Seq<u8>, chunks: Seq<Seq<u8>>)
    requires
        unfinished(pending),
        readable(pending, chunks),
    ensures
        delivered(pending, chunks) == messages_in(pending + concatenated(chunks)),
        held(pending, chunks) == rest_of(pending + concatenated(chunks)),
    decreases chunks.len(),
{
    let come = pending + concatenated(chunks);
    if chunks.len() == 0 {
        assert(come =~= pending);
    } else {
        let all = pending + chunks[0];
        let later = chunks.drop_first();
        assert(all + concatenated(later) =~= come);
        if pending.len() >= 4 {
            assert(be_value_32(all) == be_value_32(pending));
        }
        if all.len() >= 4 {
            assert(be_value_32(come) == be_value_32(all));
        }
        if is_complete(all) {
            assert(come.subrange(4, all.len() as int) =~= all.skip(4));
            assert(come.skip(all.len() as int) =~= Seq::<u8>::empty() + concatenated(later));
            lemma_any_stream(seq![], later);
        } else {
            lemma_any_stream(all, later);
        }
    }
}

/// A reader takes any stream of bytes apart in the same way, however the stream is cut: what it has
/// given are the messages at the start of the bytes that have come, and it holds the rest.
pub proof fn law_any_stream_is_taken_apart(chunks: Seq<Seq<u8>>)
    requires
        readable(seq![], chunks),
    ensures
        delivered(seq![], chunks) == messages_in(concatenated(chunks)),
        held(seq![], chunks) == rest_of(concatenated(chunks)),
{
    assert(Seq::<u8>::empty() + concatenated(chunks) =~= concatenated(chunks));
    lemma_any_stream(seq![], chunks);
}

/// However any stream of bytes is cut, the reader gives the same messages and holds the same rest.
pub proof fn law_chunks_do_not_matter(chunks: Seq<Seq<u8>>, others: Seq<Seq<u8>>)
    requires
        readable(seq![], chunks),
        readable(seq![], others),
        concatenated(chunks) == concatenated(others),
    ensures
        delivered(seq![], chunks) == delivered(seq![], others),
        held(seq![], chunks) == held(seq![], others),
{
    law_any_stream_is_taken_apart(chunks);
    law_any_stream_is_taken_apart(others);
}

/// Every message that a reader gives holds something, and no more than a mebibyte.
pub proof fn law_given_messages_fit(pending: Seq<u8>, chunks: Seq<Seq<u8>>)
    requires
        readable(pending, chunks),
    ensures
        forall|i: int|
            0 <= i < delivered(pending, chunks).len() ==> 0 < (#[trigger] delivered(
                pending,
                chunks,
            )[i]).len() <= 1024 * 1024,
    decreases chunks.len(),
{
    if chunks.len() > 0 {
        let later = left_over(pending, chunks[0]);
        let rest = delivered(later, chunks.drop_first());
        law_given_messages_fit(later, chunks.drop_first());
        let all = pending + chunks[0];
        if pending.len() >= 4 {
            assert(be_value_32(all) == be_value_32(pending));
        }
        assert forall|i: int| 0 <= i < delivered(pending, chunks).len() implies 0 < (
        #[trigger] delivered(pending, chunks)[i]).len() <= 1024 * 1024 by {
            if is_complete(all) {
                if i > 0 {
                    assert(delivered(pending, chunks)[i] == rest[i - 1]);
                }
            } else {
                assert(delivered(pending, chunks)[i] == rest[i]);
            }
        }
    }
}

/// What is written is the length of the payload in four bytes, the highest first, and the payload.
pub proof fn law_length_is_in_front(payload: Seq<u8>)
    ensures
        ({
            let f = framed(payload);
            &&& f.len() == payload.len() + 4
            &&& f.skip(4) == payload
            &&& f[0] * 0x100_0000 + f[1] * 0x1_0000 + f[2] * 0x100 + f[3] == payload.len() as int
                % 0x1_0000_0000
        }),
{
    let f = framed(payload);
    lemma_be_32((payload.len() % 0x1_0000_0000) as u32);
    assert(f.skip(4) =~= payload);
}

/// When `k` bytes of a message have come, the reader asks for the rest of its length, then for the
/// rest of its payload, and for nothing beyond; and it holds the message complete when all of it has
/// come and not before. A message of more than a mebibyte is refused once its length has come.
pub proof fn law_reader_asks_for_the_rest(message: Seq<u8>, k: int)
    requires
        message.len() <= u32::MAX,
        0 <= k <= 4 + message.len(),
    ensures
        ({
            let pending = framed(message).take(k);
            &&& k < 4 ==> wanted(pending) == Some(4 - k)
            &&& k >= 4 && message.len() <= 1024 * 1024 ==> wanted(pending) == Some(
                4 + message.len() - k,
            )
            &&& k >= 4 && message.len() > 1024 * 1024 ==> wanted(pending) is None
            &&& is_complete(pending) <==> k == 4 + message.len() && message.len() > 0
        }),
{
    let pending = framed(message).take(k);
    lemma_be_32(message.len() as u32);
    assert(framed(message).take(4) =~= be_bytes_32(message.len() as u32));
    if k >= 4 {
        assert(be_value_32(pending) == be_value_32(be_bytes_32(message.len() as u32)));
    }
}

/// A message that is longer than `MAX_MESSAGE_SIZE` is refused as soon as its length has come.
pub proof fn law_long_messages_are_refused(message: Seq<u8>)
    requires
        MAX_MESSAGE_SIZE < message.len() <= u32::MAX,
    ensures
        wanted(framed(message).take(4)) is None,
{
    lemma_be_32(message.len() as u32);
    assert(framed(message).take(4) =~= be_bytes_32(message.len() as u32));
}

} // verus!
