//! The commands that client and server exchange.
use crate::text::{decimal_text, list_bytes, list_texts, quote};
use crate::util::error::StrError;
use sha2::{Digest, Sha256};
use std::time::{Duration, SystemTime, SystemTimeError};
use vstd::prelude::*;

verus! {

/// A command of the protocol.
#[derive(Debug)]
pub enum Command {
    /// The client asks for the requests of some domains.
    Register(Register),
    /// The server has a request for a domain and waits for a connection under this number.
    Forward { id: Id, domain: String },
    /// The client offers a connection for a request.
    Accept(Accept),
    /// Asks for a sign of life.
    Ping,
    /// Answers `Ping`.
    Pong,
    /// The last command was carried out.
    Okay,
    /// Something went wrong.
    Error(StrError),
}

/// The number of a request that waits for its connection. It is not zero.
#[derive(Clone, Copy, Debug, PartialEq, Eq, Hash, Structural)]
pub struct Id(u64);

/// Counts the numbers given out; it starts again when the count is full.
#[derive(Clone, Copy, Debug, PartialEq, Eq, Structural)]
pub struct IdCounter(u32);

impl View for Id {
    type V = u64;

    closed spec fn view(&self) -> u64 {
        self.0
    }
}

impl View for IdCounter {
    type V = u32;

    /// The count that the next number takes.
    closed spec fn view(&self) -> u32 {
        self.0
    }
}

impl IdCounter {
    /// Starts at zero.
    pub fn new() -> (r: IdCounter)
        ensures
            r@ == 0,
    {
        IdCounter(0)
    }
}

/// The declaration of a point in time of the standard library.
#[verifier::external_type_specification]
#[verifier::external_body]
pub struct ExSystemTime(SystemTime);

/// The declaration of the error of a time before another.
#[verifier::external_type_specification]
#[verifier::external_body]
pub struct ExSystemTimeError(SystemTimeError);

/// `SystemTime::now`: what the clock shows. Nothing can be said of it.
#[verifier::external_body]
fn now() -> SystemTime {
    SystemTime::now()
}

/// `SystemTime::duration_since` the Unix epoch. As the time is not known, neither is the result.
#[verifier::external_body]
fn since_epoch(t: SystemTime) -> Result<Duration, SystemTimeError> {
    t.duration_since(SystemTime::UNIX_EPOCH)
}

/// `Duration::as_secs`: the whole seconds of a duration, which is not known here.
#[verifier::external_body]
fn whole_secs(d: Duration) -> u64 {
    d.as_secs()
}

/// Calls `f`, and lets the caller know that what comes back is a result of `f`.
fn ask<R, F: FnOnce() -> R>(f: F) -> (r: R)
    requires
        f.requires(()),
    ensures
        f.ensures((), r),
{
    f()
}

/// Calls `f` with `x`, and lets the caller know that what comes back is a result of `f` for `x`.
fn ask_of<X, R, F: FnOnce(X) -> R>(f: F, x: X) -> (r: R)
    requires
        f.requires((x,)),
    ensures
        f.ensures((x,), r),
{
    f(x)
}

/// A reading of the clock gave a time so many whole seconds behind the Unix epoch. Only a reading of
/// the clock can show this.
pub closed spec fn clock_shows(secs: u64) -> bool {
    exists|t: SystemTime, d: Duration|
        {
            &&& #[trigger] now.ensures((), t)
            &&& #[trigger] since_epoch.ensures((t,), Ok(d))
            &&& whole_secs.ensures((d,), secs)
        }
}

/// A reading of the clock gave a time before the Unix epoch. Only a reading of the clock can show
/// this.
pub closed spec fn clock_before_epoch() -> bool {
    exists|t: SystemTime, e: SystemTimeError|
        #[trigger] now.ensures((), t) && #[trigger] since_epoch.ensures((t,), Err(e))
}

/// What is said of the clock rests on a reading of it: on a time that it gave, and on what that time
/// is behind the epoch, or on the error of a time before the epoch.
proof fn law_clock_is_read(secs: u64)
    ensures
        clock_shows(secs) ==> exists|t: SystemTime, d: Duration|
            {
                &&& #[trigger] now.ensures((), t)
                &&& #[trigger] since_epoch.ensures((t,), Ok(d))
                &&& whole_secs.ensures((d,), secs)
            },
        clock_before_epoch() ==> exists|t: SystemTime, e: SystemTimeError|
            #[trigger] now.ensures((), t) && #[trigger] since_epoch.ensures((t,), Err(e)),
{
}

/// Whether the number `r` may have been taken with the count `count`: it is made of the count and of
/// the time that the clock showed. There is none only where the clock showed a time before the
/// epoch, or a time with which the number would be zero.
pub open spec fn id_taken(count: u32, r: Option<Id>) -> bool {
    match r {
        Some(id) => exists|secs: u64| #[trigger]
            clock_shows(secs) && id@ == count * 0x1_0000_0000 + secs % 0x1_0000_0000 && id@ != 0,
        None => clock_before_epoch() || exists|secs: u64| #[trigger]
            clock_shows(secs) && count == 0 && secs % 0x1_0000_0000 == 0,
    }
}

/// The number made of a count and a time in seconds: the count in the high half, the time, cut to
/// 32 bits, in the low half.
pub open spec fn id_number(count: u32, secs: u64) -> int {
    count * 0x1_0000_0000 + secs as int % 0x1_0000_0000
}

impl Id {
    /// A number is never zero.
    #[verifier::type_invariant]
    spec fn inv(self) -> bool {
        self.0 != 0
    }

    /// The next number: it takes a count from `counter` and the time from the clock. `None` where
    /// the clock shows a time before the Unix epoch, or the number would be zero.
    pub fn new(counter: &mut IdCounter) -> (r: Option<Id>)
        ensures
            final(counter)@ == (old(counter)@ + 1) % 0x1_0000_0000,
            r matches Some(id) ==> id@ / 0x1_0000_0000 == old(counter)@ && id@ != 0,
            id_taken(old(counter)@, r),
            r is None && old(counter)@ != 0 ==> clock_before_epoch(),
    {
        let count: u32 = counter.0;
        counter.0 = count.wrapping_add(1);
        let t = ask(now);
        match ask_of(since_epoch, t) {
            Ok(d) => {
                let secs: u64 = ask_of(whole_secs, d);
                assert(clock_shows(secs));
                Id::at(count, secs)
            },
            Err(e) => {
                assert(since_epoch.ensures((t,), Err(e)));
                assert(clock_before_epoch());
                None
            },
        }
    }

    /// The number made of `count` and the time `secs`, unless it would be zero.
    pub fn at(count: u32, secs: u64) -> (r: Option<Id>)
        ensures
            match r {
                Some(id) => id@ == id_number(count, secs) && id@ != 0,
                None => id_number(count, secs) == 0,
            },
    {
        let high: u64 = count as u64 * 0x1_0000_0000;
        let low: u64 = secs % 0x1_0000_0000;
        Id::from_u64(high + low)
    }

    /// The number `v`, unless it is zero.
    pub fn from_u64(v: u64) -> (r: Option<Id>)
        ensures
            match r {
                Some(id) => id@ == v && v != 0,
                None => v == 0,
            },
    {
        if v == 0 {
            None
        } else {
            Some(Id(v))
        }
    }

    /// The number itself.
    pub fn get(self) -> (r: u64)
        ensures
            r == self@,
            r != 0,
    {
        proof {
            use_type_invariant(&self);
        }
        self.0
    }
}

/// The high half of a number is the count, its low half the low half of the time.
pub proof fn law_number_has_two_halves(count: u32, secs: u64)
    ensures
        id_number(count, secs) / 0x1_0000_0000 == count,
        id_number(count, secs) % 0x1_0000_0000 == secs as int % 0x1_0000_0000,
        0 <= id_number(count, secs) <= u64::MAX,
        id_number(count, secs) == 0 <==> count == 0 && secs % 0x1_0000_0000 == 0,
{
}

/// A number is refused only where the clock showed a time before the epoch, or where count and time
/// are both zero; any other number holds the count and the time that the clock showed.
pub proof fn law_only_the_clock_refuses_a_number(count: u32, r: Option<Id>)
    requires
        id_taken(count, r),
    ensures
        r is Some || clock_before_epoch() || exists|secs: u64| #[trigger]
            clock_shows(secs) && count == 0 && secs % 0x1_0000_0000 == 0,
        count != 0 && !clock_before_epoch() ==> r is Some,
        r matches Some(id) ==> id@ / 0x1_0000_0000 == count && exists|secs: u64| #[trigger]
            clock_shows(secs) && id@ % 0x1_0000_0000 == secs % 0x1_0000_0000,
{
}

/// Numbers made of different counts, or within one count at times that differ in their low 32
/// bits, are different.
pub proof fn law_ids_differ(c1: u32, s1: u64, c2: u32, s2: u64)
    requires
        c1 != c2 || s1 % 0x1_0000_0000 != s2 % 0x1_0000_0000,
    ensures
        id_number(c1, s1) != id_number(c2, s2),
{
}

/// The numbers that two calls take from one counter differ as long as fewer than 2^32 calls lie
/// between them, whatever the clock shows: `a` took the count `c`, `b` the one that `k` calls later
/// is due.
pub proof fn law_ids_of_a_counter_differ(a: Id, b: Id, c: u32, k: nat)
    requires
        0 < k < 0x1_0000_0000,
        a@ / 0x1_0000_0000 == c,
        b@ / 0x1_0000_0000 == (c + k) % 0x1_0000_0000,
    ensures
        a != b,
{
}

/// `x` as eight bytes, the highest first.
pub open spec fn be_bytes_64(x: u64) -> Seq<u8> {
    seq![
        (x / 0x100_0000_0000_0000) as u8,
        (x / 0x1_0000_0000_0000 % 0x100) as u8,
        (x / 0x100_0000_0000 % 0x100) as u8,
        (x / 0x1_0000_0000 % 0x100) as u8,
        (x / 0x100_0000 % 0x100) as u8,
        (x / 0x1_0000 % 0x100) as u8,
        (x / 0x100 % 0x100) as u8,
        (x % 0x100) as u8,
    ]
}

fn push_be_64(out: &mut Vec<u8>, x: u64)
    ensures
        final(out)@ == old(out)@ + be_bytes_64(x),
{
    out.push((x / 0x100_0000_0000_0000) as u8);
    out.push((x / 0x1_0000_0000_0000 % 0x100) as u8);
    out.push((x / 0x100_0000_0000 % 0x100) as u8);
    out.push((x / 0x1_0000_0000 % 0x100) as u8);
    out.push((x / 0x100_0000 % 0x100) as u8);
    out.push((x / 0x1_0000 % 0x100) as u8);
    out.push((x / 0x100 % 0x100) as u8);
    out.push((x % 0x100) as u8);
    assert(out@ == old(out)@ + be_bytes_64(x));
}

/// The SHA-256 digest of `data`.
pub uninterp spec fn sha256(data: Seq<u8>) -> Seq<u8>;

/// `Sha256::digest` of the crate `sha2`: a digest of 32 bytes that depends on the data alone.
#[verifier::external_body]
fn digest(data: &[u8]) -> (r: Vec<u8>)
    ensures
        r@ == sha256(data@),
        r@.len() == 32,
{
    Sha256::digest(data).to_vec()
}

fn same_bytes(a: &Vec<u8>, b: &Vec<u8>) -> (r: bool)
    ensures
        r == (a@ == b@),
{
    if a.len() != b.len() {
        return false;
    }
    let mut i: usize = 0;
    while i < a.len()
        invariant
            a.len() == b.len(),
            i <= a.len(),
            forall|j: int| 0 <= j < i ==> a[j] == b[j],
        decreases a.len() - i,
    {
        if a[i] != b[i] {
            return false;
        }
        i = i + 1;
    }
    assert(a@ == b@);
    true
}

/// Offers a connection for the request `id`.
#[derive(Debug)]
pub struct Accept {
    pub id: Id,
    pub sign: Vec<u8>,
}

/// What the signature of the offer for request number `id` is made of: the number and the secret.
pub open spec fn accept_data(secret: Seq<char>, id: u64) -> Seq<u8> {
    be_bytes_64(id) + vstd::utf8::encode_utf8(secret)
}

/// The signature of the offer for request number `id`.
pub open spec fn accept_sign(secret: Seq<char>, id: u64) -> Seq<u8> {
    sha256(accept_data(secret, id))
}

impl Accept {
    /// Carries the signature that `secret` gives.
    pub open spec fn signed_with(&self, secret: Seq<char>) -> bool {
        self.sign@ == accept_sign(secret, self.id@)
    }

    /// The offer for `id`, signed with `secret`: one that `verify_sign` accepts under that secret.
    pub fn new(secret: &str, id: Id) -> (r: Accept)
        ensures
            r.id == id,
            r.sign@ == accept_sign(secret@, id@),
            r.signed_with(secret@),
            r.sign@ == sha256(be_bytes_64(id@) + vstd::utf8::encode_utf8(secret@)),
            r.sign@.len() == 32,
    {
        let sign = Self::sign(secret, id);
        Accept { id, sign }
    }

    /// Whether the signature is the one that `secret` gives. One of another length is not.
    pub fn verify_sign(&self, secret: &str) -> (r: bool)
        ensures
            r == self.signed_with(secret@),
            r == (self.sign@ == sha256(
                be_bytes_64(self.id@) + vstd::utf8::encode_utf8(secret@),
            )),
            r ==> self.sign@.len() == 32,
    {
        let sign = Self::sign(secret, self.id);
        same_bytes(&sign, &self.sign)
    }

    fn sign(secret: &str, id: Id) -> (r: Vec<u8>)
        ensures
            r@ == accept_sign(secret@, id@),
            r@ == sha256(be_bytes_64(id@) + vstd::utf8::encode_utf8(secret@)),
            r@.len() == 32,
    {
        let mut data: Vec<u8> = Vec::new();
        push_be_64(&mut data, id.get());
        data.extend_from_slice(secret.as_bytes());
        assert(data@ == be_bytes_64(id@) + vstd::utf8::encode_utf8(secret@));
        digest(data.as_slice())
    }
}

/// Asks for the requests of some domains.
#[derive(Debug)]
pub struct Register {
    pub domain: Vec<String>,
    pub sign: Vec<u8>,
}

/// The bytes of the names, one behind the other.
pub open spec fn name_bytes(domain: Seq<Seq<char>>) -> Seq<u8>
    decreases domain.len(),
{
    if domain.len() == 0 {
        seq![]
    } else {
        name_bytes(domain.drop_last()) + vstd::utf8::encode_utf8(domain.last())
    }
}

/// What the signature of a registration of `domain` is made of: the names and the secret.
pub open spec fn register_data(secret: Seq<char>, domain: Seq<Seq<char>>) -> Seq<u8> {
    name_bytes(domain) + vstd::utf8::encode_utf8(secret)
}

/// The signature of a registration of `domain`.
pub open spec fn register_sign(secret: Seq<char>, domain: Seq<Seq<char>>) -> Seq<u8> {
    sha256(register_data(secret, domain))
}

impl Register {
    /// Carries the signature that `secret` gives.
    pub open spec fn signed_with(&self, secret: Seq<char>) -> bool {
        self.sign@ == register_sign(secret, self.domain.deep_view())
    }

    /// The registration of `domain`, signed with `secret`: one that `verify_sign` accepts under that
    /// secret.
    pub fn new(domain: Vec<String>, secret: &str) -> (r: Register)
        ensures
            r.domain == domain,
            r.sign@ == register_sign(secret@, domain.deep_view()),
            r.signed_with(secret@),
            r.sign@ == sha256(vstd::utf8::encode_utf8(domain.deep_view().flatten() + secret@)),
            r.sign@.len() == 32,
    {
        let sign = Self::sign(secret, &domain);
        Register { domain, sign }
    }

    /// Whether the signature is the one that `secret` gives. One of another length is not.
    pub fn verify_sign(&self, secret: &str) -> (r: bool)
        ensures
            r == self.signed_with(secret@),
            r == (self.sign@ == sha256(
                vstd::utf8::encode_utf8(self.domain.deep_view().flatten() + secret@),
            )),
            r ==> self.sign@.len() == 32,
    {
        let sign = Self::sign(secret, &self.domain);
        same_bytes(&sign, &self.sign)
    }

    fn sign(secret: &str, domain: &Vec<String>) -> (r: Vec<u8>)
        ensures
            r@ == register_sign(secret@, domain.deep_view()),
            r@ == sha256(vstd::utf8::encode_utf8(domain.deep_view().flatten() + secret@)),
            r@.len() == 32,
    {
        proof {
            law_registration_signs_all_names(secret@, domain.deep_view());
        }
        let ghost names = domain.deep_view();
        let mut data: Vec<u8> = Vec::new();
        let mut i: usize = 0;
        assert(names.take(0) == Seq::<Seq<char>>::empty());
        while i < domain.len()
            invariant
                i <= domain.len(),
                names == domain.deep_view(),
                data@ == name_bytes(names.take(i as int)),
            decreases domain.len() - i,
        {
            let ghost before = data@;
            data.extend_from_slice(domain[i].as_str().as_bytes());
            assert(data@ == before + vstd::utf8::encode_utf8(names[i as int]));
            assert(names.take(i + 1).drop_last() == names.take(i as int));
            i = i + 1;
        }
        assert(names.take(domain.len() as int) == names);
        let ghost before = data@;
        data.extend_from_slice(secret.as_bytes());
        assert(data@ == before + vstd::utf8::encode_utf8(secret@));
        digest(data.as_slice())
    }
}

proof fn lemma_be_64(x: u64, y: u64)
    requires
        be_bytes_64(x) == be_bytes_64(y),
    ensures
        x == y,
{
    let (a, b) = (be_bytes_64(x), be_bytes_64(y));
    assert(a[0] == b[0] && a[1] == b[1] && a[2] == b[2] && a[3] == b[3]);
    assert(a[4] == b[4] && a[5] == b[5] && a[6] == b[6] && a[7] == b[7]);
    assert(x == y) by (bit_vector)
        requires
            (x / 0x100_0000_0000_0000u64) == (y / 0x100_0000_0000_0000u64),
            (x / 0x1_0000_0000_0000u64 % 0x100u64) == (y / 0x1_0000_0000_0000u64 % 0x100u64),
            (x / 0x100_0000_0000u64 % 0x100u64) == (y / 0x100_0000_0000u64 % 0x100u64),
            (x / 0x1_0000_0000u64 % 0x100u64) == (y / 0x1_0000_0000u64 % 0x100u64),
            (x / 0x100_0000u64 % 0x100u64) == (y / 0x100_0000u64 % 0x100u64),
            (x / 0x1_0000u64 % 0x100u64) == (y / 0x1_0000u64 % 0x100u64),
            (x / 0x100u64 % 0x100u64) == (y / 0x100u64 % 0x100u64),
            (x % 0x100u64) == (y % 0x100u64),
    ;
}

/// Equal bytes behind parts of one length are equal, and so are the texts that they encode.
proof fn lemma_same_text(x: Seq<u8>, s: Seq<char>, y: Seq<u8>, t: Seq<char>)
    requires
        x.len() == y.len(),
        x + vstd::utf8::encode_utf8(s) == y + vstd::utf8::encode_utf8(t),
    ensures
        x == y,
        s == t,
{
    let (a, b) = (x + vstd::utf8::encode_utf8(s), y + vstd::utf8::encode_utf8(t));
    let n = x.len() as int;
    assert(a.take(n) =~= x);
    assert(b.take(n) =~= y);
    assert(a.skip(n) =~= vstd::utf8::encode_utf8(s));
    assert(b.skip(n) =~= vstd::utf8::encode_utf8(t));
    vstd::utf8::encode_utf8_decode_utf8(s);
    vstd::utf8::encode_utf8_decode_utf8(t);
}

/// The signature of an offer holds for another number, or under another secret, only if two
/// different texts have the same digest.
pub proof fn law_offers_are_bound(a: Accept, id: u64, secret: Seq<char>, other: Seq<char>)
    requires
        a.signed_with(secret),
        a.sign@ == accept_sign(other, id),
        id != a.id@ || other != secret,
    ensures
        accept_data(secret, a.id@) != accept_data(other, id),
        sha256(accept_data(secret, a.id@)) == sha256(accept_data(other, id)),
{
    if accept_data(secret, a.id@) == accept_data(other, id) {
        lemma_same_text(be_bytes_64(a.id@), secret, be_bytes_64(id), other);
        lemma_be_64(a.id@, id);
    }
}

proof fn lemma_encode_concat(a: Seq<char>, b: Seq<char>)
    ensures
        vstd::utf8::encode_utf8(a + b) == vstd::utf8::encode_utf8(a) + vstd::utf8::encode_utf8(b),
    decreases a.len(),
{
    if a.len() == 0 {
        assert(a + b =~= b);
        assert(vstd::utf8::encode_utf8(a) + vstd::utf8::encode_utf8(b) =~= vstd::utf8::encode_utf8(
            b,
        ));
    } else {
        lemma_encode_concat(a.drop_first(), b);
        assert((a + b).drop_first() =~= a.drop_first() + b);
        assert(vstd::utf8::encode_utf8(a + b) =~= vstd::utf8::encode_utf8(a)
            + vstd::utf8::encode_utf8(b));
    }
}

proof fn lemma_name_bytes(domain: Seq<Seq<char>>)
    ensures
        name_bytes(domain) == vstd::utf8::encode_utf8(domain.flatten()),
    decreases domain.len(),
{
    if domain.len() > 0 {
        lemma_name_bytes(domain.drop_last());
        domain.drop_last().lemma_flatten_push(domain.last());
        assert(domain.drop_last().push(domain.last()) =~= domain);
        lemma_encode_concat(domain.drop_last().flatten(), domain.last());
    }
}

/// Signed are all the names of a registration, one behind the other, and then the secret.
pub proof fn law_registration_signs_all_names(secret: Seq<char>, domain: Seq<Seq<char>>)
    ensures
        register_data(secret, domain) == vstd::utf8::encode_utf8(domain.flatten() + secret),
        register_sign(secret, domain) == sha256(
            vstd::utf8::encode_utf8(domain.flatten() + secret),
        ),
{
    lemma_name_bytes(domain);
    lemma_encode_concat(domain.flatten(), secret);
}

/// The signature of a registration fits another one, whatever names and secret that is made with,
/// exactly if names and secret, one behind the other, are the same text, or two different texts have
/// the same digest.
pub proof fn law_registrations_are_bound_to_their_names(
    r: Register,
    secret: Seq<char>,
    domain: Seq<Seq<char>>,
    other: Seq<char>,
)
    requires
        r.signed_with(secret),
    ensures
        ({
            let x = r.domain.deep_view().flatten() + secret;
            let y = domain.flatten() + other;
            let (ex, ey) = (vstd::utf8::encode_utf8(x), vstd::utf8::encode_utf8(y));
            &&& r.sign@ == sha256(ex)
            &&& r.sign@ == register_sign(other, domain) <==> sha256(ex) == sha256(ey)
            &&& x == y <==> ex == ey
        }),
{
    let x = r.domain.deep_view().flatten() + secret;
    let y = domain.flatten() + other;
    law_registration_signs_all_names(secret, r.domain.deep_view());
    law_registration_signs_all_names(other, domain);
    vstd::utf8::encode_utf8_decode_utf8(x);
    vstd::utf8::encode_utf8_decode_utf8(y);
}

/// The signature of a registration of one domain fits another domain, under the same secret, only if
/// two different texts have the same digest.
pub proof fn law_one_domain_is_not_another(
    r: Register,
    a: Seq<char>,
    b: Seq<char>,
    secret: Seq<char>,
)
    requires
        r.domain.deep_view() == seq![a],
        r.signed_with(secret),
        r.sign@ == register_sign(secret, seq![b]),
        a != b,
    ensures
        ({
            let x = vstd::utf8::encode_utf8(a + secret);
            let y = vstd::utf8::encode_utf8(b + secret);
            x != y && sha256(x) == sha256(y)
        }),
{
    law_registrations_are_bound_to_their_names(r, secret, seq![b], secret);
    seq![a].lemma_flatten_one_element();
    seq![b].lemma_flatten_one_element();
    if a + secret == b + secret {
        let (x, y) = (a + secret, b + secret);
        assert(a.len() == b.len());
        assert(a =~= x.take(a.len() as int));
        assert(b =~= y.take(b.len() as int));
    }
}

/// Signed is, for an offer, its number in eight bytes, the highest first, and then the secret.
pub proof fn law_offer_signs_number_and_secret(secret: Seq<char>, id: u64)
    ensures
        ({
            let d = accept_data(secret, id);
            &&& accept_sign(secret, id) == sha256(d)
            &&& d.len() >= 8
            &&& id == d[0] * 0x100_0000_0000_0000 + d[1] * 0x1_0000_0000_0000 + d[2]
                * 0x100_0000_0000 + d[3] * 0x1_0000_0000 + d[4] * 0x100_0000 + d[5] * 0x1_0000
                + d[6] * 0x100 + d[7]
            &&& d.skip(8) == vstd::utf8::encode_utf8(secret)
        }),
{
    let d = accept_data(secret, id);
    lemma_be_64_value(id);
    assert(d.skip(8) =~= vstd::utf8::encode_utf8(secret));
}

proof fn lemma_be_64_value(x: u64)
    ensures
        ({
            let d = be_bytes_64(x);
            x == d[0] * 0x100_0000_0000_0000 + d[1] * 0x1_0000_0000_0000 + d[2] * 0x100_0000_0000
                + d[3] * 0x1_0000_0000 + d[4] * 0x100_0000 + d[5] * 0x1_0000 + d[6] * 0x100 + d[7]
        }),
{
    assert(x / 0x100_0000_0000_0000u64 < 0x100u64) by (bit_vector);
    assert(x == (x / 0x100_0000_0000_0000u64) * 0x100_0000_0000_0000u64 + (x
        / 0x1_0000_0000_0000u64 % 0x100u64) * 0x1_0000_0000_0000u64 + (x / 0x100_0000_0000u64
        % 0x100u64) * 0x100_0000_0000u64 + (x / 0x1_0000_0000u64 % 0x100u64) * 0x1_0000_0000u64 + (x
        / 0x100_0000u64 % 0x100u64) * 0x100_0000u64 + (x / 0x1_0000u64 % 0x100u64) * 0x1_0000u64 + (x
        / 0x100u64 % 0x100u64) * 0x100u64 + x % 0x100u64) by (bit_vector);
}

/// Only one signature fits: two offers for one number, or two registrations of the same names, that
/// hold under one secret carry the same bytes.
pub proof fn law_one_signature_fits(
    a: Accept,
    b: Accept,
    r: Register,
    q: Register,
    secret: Seq<char>,
)
    ensures
        a.id == b.id && a.signed_with(secret) && b.signed_with(secret) ==> a.sign@ == b.sign@,
        a.id == b.id && a.signed_with(secret) && a.sign@ == b.sign@ ==> b.signed_with(secret),
        r.domain.deep_view() == q.domain.deep_view() && r.signed_with(secret) && q.signed_with(
            secret,
        ) ==> r.sign@ == q.sign@,
        r.domain.deep_view() == q.domain.deep_view() && r.signed_with(secret) && r.sign@ == q.sign@
            ==> q.signed_with(secret),
{
}

/// The signature of a registration holds under another secret only if two different texts have the
/// same digest.
pub proof fn law_registrations_are_bound(r: Register, secret: Seq<char>, other: Seq<char>)
    requires
        r.signed_with(secret),
        r.signed_with(other),
        other != secret,
    ensures
        register_data(secret, r.domain.deep_view()) != register_data(other, r.domain.deep_view()),
        sha256(register_data(secret, r.domain.deep_view())) == sha256(
            register_data(other, r.domain.deep_view()),
        ),
{
    let names = name_bytes(r.domain.deep_view());
    if register_data(secret, r.domain.deep_view()) == register_data(other, r.domain.deep_view()) {
        lemma_same_text(names, secret, names, other);
    }
}

/// A command as a diagnostic shows it.
pub open spec fn shown(cmd: Command) -> Seq<char> {
    match cmd {
        Command::Register(r) => "Register(Register { domain: "@ + crate::text::listed_texts(
            r.domain.deep_view(),
        ) + ", sign: "@ + crate::text::listed_bytes(r.sign@) + " })"@,
        Command::Forward { id, domain } => "Forward { id: Id("@ + crate::text::decimal(id@ as nat)
            + "), domain: "@ + crate::text::quoted(domain@) + " }"@,
        Command::Accept(a) => "Accept(Accept { id: Id("@ + crate::text::decimal(a.id@ as nat)
            + "), sign: "@ + crate::text::listed_bytes(a.sign@) + " })"@,
        Command::Ping => "Ping"@,
        Command::Pong => "Pong"@,
        Command::Okay => "Ok"@,
        Command::Error(e) => "Error(StrError("@ + crate::text::quoted(e@) + "))"@,
    }
}

impl Command {
    /// Shows the command in a diagnostic.
    pub fn show(&self) -> (r: String)
        ensures
            r@ == shown(*self),
    {
        match self {
            Command::Register(r) => {
                let mut s = "Register(Register { domain: ".to_owned();
                s.append(list_texts(&r.domain).as_str());
                s.append(", sign: ");
                s.append(list_bytes(&r.sign).as_str());
                s.append(" })");
                s
            },
            Command::Forward { id, domain } => {
                let mut s = "Forward { id: Id(".to_owned();
                s.append(decimal_text(id.get()).as_str());
                s.append("), domain: ");
                s.append(quote(domain.as_str()).as_str());
                s.append(" }");
                s
            },
            Command::Accept(a) => {
                let mut s = "Accept(Accept { id: Id(".to_owned();
                s.append(decimal_text(a.id.get()).as_str());
                s.append("), sign: ");
                s.append(list_bytes(&a.sign).as_str());
                s.append(" })");
                s
            },
            Command::Ping => "Ping".to_owned(),
            Command::Pong => "Pong".to_owned(),
            Command::Okay => "Ok".to_owned(),
            Command::Error(e) => {
                let mut s = "Error(StrError(".to_owned();
                s.append(quote(e.as_str()).as_str());
                s.append("))");
                s
            },
        }
    }

    /// Whether the command is an error that says `text`.
    pub open spec fn is_error(&self, text: Seq<char>) -> bool {
        *self matches Command::Error(e) && e@ == text
    }

    /// The error command that says `text`.
    pub fn error(text: &str) -> (r: Command)
        ensures
            r.is_error(text@),
            r matches Command::Error(e) && e@ == text@,
    {
        Command::Error(StrError::new(text))
    }
}

/// How something is met that has no place where it came: with a line for the log, and an answer.
#[derive(Debug)]
pub struct Unexpected {
    pub report: String,
    pub answer: Command,
}

impl Unexpected {
    /// Whether this is how the command `cmd` is met.
    pub open spec fn is_cmd(&self, cmd: Command) -> bool {
        &&& self.report@ == "unexpected cmd: "@ + shown(cmd)
        &&& self.answer.is_error("unexpected cmd"@)
    }

    /// Whether this is how a request for `domain` is met.
    pub open spec fn is_domain(&self, domain: Seq<char>) -> bool {
        &&& self.report@ == "unexpected domain: "@ + domain
        &&& self.answer.is_error("unexpected domain"@)
    }
}

/// Meets a command that has no place where it came.
pub fn unexpected_cmd(cmd: &Command) -> (r: Unexpected)
    ensures
        r.is_cmd(*cmd),
        r.report@ == "unexpected cmd: "@ + shown(*cmd),
        r.answer matches Command::Error(e) && e@ == "unexpected cmd"@,
{
    Unexpected {
        report: "unexpected cmd: ".to_owned().concat(cmd.show().as_str()),
        answer: Command::error("unexpected cmd"),
    }
}

/// Meets a request for a domain that is not served.
pub fn unexpected_domain(domain: &str) -> (r: Unexpected)
    ensures
        r.is_domain(domain@),
        r.report@ == "unexpected domain: "@ + domain@,
        r.answer matches Command::Error(e) && e@ == "unexpected domain"@,
{
    Unexpected {
        report: "unexpected domain: ".to_owned().concat(domain),
        answer: Command::error("unexpected domain"),
    }
}

/// What says a text is an error with that text, and no other command says one. What is not expected
/// is told apart in the log by what came, and answered with what was wrong with it.
pub proof fn law_answers_say_what_is_wrong(
    cmd: Command,
    text: Seq<char>,
    u: Unexpected,
    came: Command,
    domain: Seq<char>,
)
    ensures
        cmd.is_error(text) <==> match cmd {
            Command::Error(e) => e@ == text,
            _ => false,
        },
        u.is_cmd(came) ==> u.answer is Error && u.answer->Error_0@ == "unexpected cmd"@
            && u.report@ == "unexpected cmd: "@ + shown(came),
        u.is_domain(domain) ==> u.answer is Error && u.answer->Error_0@ == "unexpected domain"@
            && u.report@ == "unexpected domain: "@ + domain,
{
}

/// A command is shown with its name and with all that it holds: numbers by digits that stand for
/// them, texts in quotes, lists with all their members.
pub proof fn law_commands_show_what_they_hold(cmd: Command)
    ensures
        match cmd {
            Command::Register(r) => shown(cmd) == "Register(Register { domain: "@
                + crate::text::listed_texts(r.domain.deep_view()) + ", sign: "@
                + crate::text::listed_bytes(r.sign@) + " })"@,
            Command::Forward { id, domain } => exists|n: Seq<char>|
                crate::text::number_of(n) == id@ && shown(cmd) == #[trigger] ("Forward { id: Id("@
                    + n) + "), domain: "@ + crate::text::quoted(domain@) + " }"@,
            Command::Accept(a) => exists|n: Seq<char>|
                crate::text::number_of(n) == a.id@ && shown(cmd) == #[trigger] (
                "Accept(Accept { id: Id("@ + n) + "), sign: "@ + crate::text::listed_bytes(a.sign@)
                    + " })"@,
            Command::Ping => shown(cmd) == "Ping"@,
            Command::Pong => shown(cmd) == "Pong"@,
            Command::Okay => shown(cmd) == "Ok"@,
            Command::Error(e) => shown(cmd) == "Error(StrError("@ + crate::text::quoted(e@)
                + "))"@,
        },
{
    match cmd {
        Command::Forward { id, domain } => {
            let n = crate::text::decimal(id@ as nat);
            crate::text::law_decimal_stands_for_the_number(id@ as nat);
            assert(shown(cmd) == ("Forward { id: Id("@ + n) + "), domain: "@ + crate::text::quoted(
                domain@,
            ) + " }"@);
        },
        Command::Accept(a) => {
            let n = crate::text::decimal(a.id@ as nat);
            crate::text::law_decimal_stands_for_the_number(a.id@ as nat);
            assert(shown(cmd) == ("Accept(Accept { id: Id("@ + n) + "), sign: "@
                + crate::text::listed_bytes(a.sign@) + " })"@);
        },
        _ => {},
    }
}

} // verus!
