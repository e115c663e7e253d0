//! Finding the host name in the head of an HTTP request.
use crate::text::{decode, is_core, law_trimming_takes_white_space_only, trim, trimmed};
use crate::util::error::StrError;
use std::str::Utf8Error;
use vstd::prelude::*;
use vstd::utf8::{decode_utf8, encode_utf8, valid_utf8};

verus! {

/// By how many bytes the buffer for the head of a request grows.
pub const BUF_SIZE: usize = 1024;

/// The head of a request in which the host name has to appear.
pub const MAX_BUF_SIZE: usize = 8 * BUF_SIZE;

/// A colon.
pub const COLON: u8 = 58;

/// A carriage return, which ends a line.
pub const RETURN: u8 = 13;

/// A line feed, behind which a line starts.
pub const LINE_FEED: u8 = 10;

/// Whether `b` is letter number `k` of the word "host", in either case.
pub open spec fn is_host_letter(k: int, b: u8) -> bool {
    if k == 0 {
        // h
        b == 104 || b == 72
    } else if k == 1 {
        // o
        b == 111 || b == 79
    } else if k == 2 {
        // s
        b == 115 || b == 83
    } else {
        // t
        b == 116 || b == 84
    }
}

/// How many letters of "host" `s` spells from `p` on, given that the first `k` are there.
pub open spec fn letters_from(s: Seq<u8>, p: int, k: nat) -> nat
    decreases 4 - k,
{
    if k < 4 && p + k < s.len() && is_host_letter(k as int, s[p + k]) {
        letters_from(s, p, k + 1)
    } else {
        k
    }
}

proof fn lemma_letters_range(s: Seq<u8>, p: int, k: nat)
    requires
        0 <= k <= 4,
    ensures
        k <= letters_from(s, p, k) <= 4,
        letters_from(s, p, k) > k ==> p + letters_from(s, p, k) <= s.len(),
    decreases 4 - k,
{
    if k < 4 && p + k < s.len() && is_host_letter(k as int, s[p + k]) {
        lemma_letters_range(s, p, k + 1);
    }
}

/// The position of the first carriage return at or behind `i`, or the length of `s`.
pub open spec fn first_return(s: Seq<u8>, i: int) -> int
    decreases s.len() - i,
{
    if i < s.len() && s[i] != RETURN {
        first_return(s, i + 1)
    } else {
        i
    }
}

/// The position of the last colon of `s` in `from..to`, or `to` where there is none.
pub open spec fn last_colon(s: Seq<u8>, from: int, to: int) -> int {
    last_colon_before(s, from, to, to)
}

/// The position of the last colon of `s` in `from..i`, or `none` where there is none.
pub open spec fn last_colon_before(s: Seq<u8>, from: int, i: int, none: int) -> int
    decreases i - from,
{
    if i <= from {
        none
    } else if s[i - 1] == COLON {
        i - 1
    } else {
        last_colon_before(s, from, i - 1, none)
    }
}

/// What a scan of `s` for the host name finds from `p` on.
///
/// At each position the scan compares with "host". On a mismatch it goes on behind the byte
/// that did not match; a word that is not followed by a colon is skipped. Behind "host:" the
/// name ends at the last colon before the carriage return, or at the return itself.
/// `Ok` holds the bounds of the name, `Err` the position from which a scan has to be taken up
/// again when more bytes have come.
pub open spec fn scan_host(s: Seq<u8>, p: int) -> Result<(int, int), int>
    decreases s.len() - p,
{
    let k = letters_from(s, p, 0);
    if p + k >= s.len() {
        Err(p)
    } else if k < 4 {
        scan_host(s, p + k + 1)
    } else if s[p + 4] != COLON {
        scan_host(s, p + 4)
    } else {
        let cr = first_return(s, p + 5);
        if cr < s.len() {
            Ok((p + 5, last_colon(s, p + 5, cr)))
        } else {
            Err(p)
        }
    }
}

/// Where the first `k` letters from `p` on are those of "host", counting may start behind them.
proof fn lemma_letters_skip(s: Seq<u8>, p: int, k: nat)
    requires
        0 <= k <= 4,
        0 <= p,
        p + k <= s.len(),
        forall|j: int| 0 <= j < k ==> is_host_letter(j, #[trigger] s[p + j]),
    ensures
        letters_from(s, p, 0) == letters_from(s, p, k),
    decreases k,
{
    if k > 0 {
        lemma_letters_skip(s, p, (k - 1) as nat);
        assert(is_host_letter(k - 1, s[p + (k - 1)]));
    }
}

proof fn lemma_last_colon_none(s: Seq<u8>, from: int, i: int, none: int)
    requires
        forall|j: int| from <= j < i ==> s[j] != COLON,
    ensures
        last_colon_before(s, from, i, none) == none,
    decreases i - from,
{
    if i > from {
        lemma_last_colon_none(s, from, i - 1, none);
    }
}

proof fn lemma_last_colon_at(s: Seq<u8>, from: int, at: int, i: int, none: int)
    requires
        from <= at < i,
        s[at] == COLON,
        forall|j: int| at < j < i ==> s[j] != COLON,
    ensures
        last_colon_before(s, from, i, none) == at,
    decreases i - at,
{
    if i - 1 > at {
        lemma_last_colon_at(s, from, at, i - 1, none);
    }
}

proof fn lemma_first_return(s: Seq<u8>, i: int, j: int)
    requires
        0 <= i <= j <= s.len(),
        forall|m: int| i <= m < j ==> s[m] != RETURN,
    ensures
        first_return(s, i) == first_return(s, j),
    decreases j - i,
{
    if i < j {
        lemma_first_return(s, i + 1, j);
    }
}

/// A word that ends inside `s` is not changed by what follows `s`.
proof fn lemma_letters_grow(s: Seq<u8>, u: Seq<u8>, p: int, k: nat)
    requires
        s.is_prefix_of(u),
        0 <= p,
        p + letters_from(s, p, k) < s.len(),
        k <= 4,
    ensures
        letters_from(u, p, k) == letters_from(s, p, k),
    decreases 4 - k,
{
    lemma_letters_range(s, p, k);
    if k < 4 && p + k < s.len() && is_host_letter(k as int, s[p + k]) {
        lemma_letters_grow(s, u, p, k + 1);
    }
    assert(s[p + k] == u[p + k]);
}

proof fn lemma_first_return_grow(s: Seq<u8>, u: Seq<u8>, i: int)
    requires
        s.is_prefix_of(u),
        0 <= i,
        first_return(s, i) < s.len(),
    ensures
        i <= first_return(s, i),
        first_return(u, i) == first_return(s, i),
    decreases s.len() - i,
{
    if i < s.len() {
        assert(s[i] == u[i]);
        if s[i] != RETURN {
            lemma_first_return_grow(s, u, i + 1);
        }
    }
}

proof fn lemma_last_colon_grow(s: Seq<u8>, u: Seq<u8>, from: int, i: int, none: int)
    requires
        s.is_prefix_of(u),
        0 <= from,
        i <= s.len(),
    ensures
        last_colon_before(u, from, i, none) == last_colon_before(s, from, i, none),
        last_colon_before(s, from, i, none) == none || from <= last_colon_before(s, from, i, none)
            < i,
    decreases i - from,
{
    if i > from {
        assert(s[i - 1] == u[i - 1]);
        lemma_last_colon_grow(s, u, from, i - 1, none);
    }
}

/// How a scan of `s` and a scan of a longer `u` that starts with `s` are related.
proof fn lemma_scan_grow(s: Seq<u8>, u: Seq<u8>, p: int)
    requires
        s.is_prefix_of(u),
        0 <= p <= s.len(),
    ensures
        match scan_host(s, p) {
            Ok((a, b)) => scan_host(u, p) == Ok::<(int, int), int>((a, b)) && p <= a <= b
                < s.len(),
            Err(q) => scan_host(u, p) == scan_host(u, q) && p <= q <= s.len(),
        },
    decreases s.len() - p,
{
    let k = letters_from(s, p, 0);
    lemma_letters_range(s, p, 0);
    if p + k < s.len() {
        lemma_letters_grow(s, u, p, 0);
        assert(s[p + k] == u[p + k]);
        if k < 4 {
            lemma_scan_grow(s, u, p + k + 1);
        } else if s[p + 4] != COLON {
            lemma_scan_grow(s, u, p + 4);
        } else {
            let cr = first_return(s, p + 5);
            if cr < s.len() {
                lemma_first_return_grow(s, u, p + 5);
                lemma_last_colon_grow(s, u, p + 5, cr, cr);
            }
        }
    }
}

proof fn lemma_letters_shift(u: Seq<u8>, q: int, p: int, k: nat)
    requires
        0 <= q <= u.len(),
        0 <= p,
        k <= 4,
    ensures
        letters_from(u.skip(q), p, k) == letters_from(u, q + p, k),
    decreases 4 - k,
{
    if k < 4 {
        if p + k < u.skip(q).len() {
            assert(u.skip(q)[p + k] == u[q + p + k]);
        }
        lemma_letters_shift(u, q, p, k + 1);
    }
}

proof fn lemma_first_return_shift(u: Seq<u8>, q: int, i: int)
    requires
        0 <= q <= u.len(),
        0 <= i,
    ensures
        first_return(u.skip(q), i) + q == first_return(u, q + i),
    decreases u.len() - i,
{
    if i < u.skip(q).len() {
        assert(u.skip(q)[i] == u[q + i]);
        lemma_first_return_shift(u, q, i + 1);
    }
}

proof fn lemma_last_colon_shift(u: Seq<u8>, q: int, from: int, i: int, none: int)
    requires
        0 <= q <= u.len(),
        0 <= from,
        i <= u.len() - q,
    ensures
        last_colon_before(u.skip(q), from, i, none) + q == last_colon_before(
            u,
            q + from,
            q + i,
            q + none,
        ),
    decreases i - from,
{
    if i > from {
        assert(u.skip(q)[i - 1] == u[q + i - 1]);
        lemma_last_colon_shift(u, q, from, i - 1, none);
    }
}

/// A scan from `q + p` sees what a scan of the bytes behind `q` sees from `p`.
proof fn lemma_scan_shift(u: Seq<u8>, q: int, p: int)
    requires
        0 <= q,
        0 <= p,
        q + p <= u.len(),
    ensures
        match scan_host(u.skip(q), p) {
            Ok((a, b)) => scan_host(u, q + p) == Ok::<(int, int), int>((q + a, q + b)),
            Err(r) => scan_host(u, q + p) == Err::<(int, int), int>(q + r),
        },
    decreases u.len() - p,
{
    let s = u.skip(q);
    let k = letters_from(s, p, 0);
    lemma_letters_range(s, p, 0);
    lemma_letters_shift(u, q, p, 0);
    if p + k < s.len() {
        assert(s[p + k] == u[q + p + k]);
        if k < 4 {
            lemma_scan_shift(u, q, p + k + 1);
        } else if s[p + 4] != COLON {
            lemma_scan_shift(u, q, p + 4);
        } else {
            let cr = first_return(s, p + 5);
            lemma_first_return_shift(u, q, p + 5);
            lemma_first_return_is(s, p + 5);
            if cr < s.len() {
                lemma_last_colon_shift(u, q, p + 5, cr, cr);
            }
        }
    }
}

proof fn lemma_letters_are(s: Seq<u8>, p: int)
    requires
        0 <= p,
        letters_from(s, p, 0) == 4,
    ensures
        p + 4 <= s.len(),
        is_host_letter(0, s[p]),
        is_host_letter(1, s[p + 1]),
        is_host_letter(2, s[p + 2]),
        is_host_letter(3, s[p + 3]),
{
    reveal_with_fuel(letters_from, 5);
}

proof fn lemma_first_return_is(s: Seq<u8>, i: int)
    requires
        0 <= i <= s.len(),
    ensures
        i <= first_return(s, i) <= s.len(),
        first_return(s, i) < s.len() ==> s[first_return(s, i)] == RETURN,
        forall|j: int| i <= j < first_return(s, i) ==> s[j] != RETURN,
    decreases s.len() - i,
{
    if i < s.len() && s[i] != RETURN {
        lemma_first_return_is(s, i + 1);
    }
}

proof fn lemma_last_colon_is(s: Seq<u8>, from: int, i: int, none: int)
    requires
        from <= i <= none,
    ensures
        ({
            let c = last_colon_before(s, from, i, none);
            ||| c == none && forall|j: int| from <= j < i ==> s[j] != COLON
            ||| from <= c < i && s[c] == COLON && forall|j: int| c < j < i ==> s[j] != COLON
        }),
    decreases i - from,
{
    if i > from && s[i - 1] != COLON {
        lemma_last_colon_is(s, from, i - 1, none);
    }
}

/// Whether the bytes of `s` in `a..b` are what stands behind "host:" up to the last colon of the
/// line, or up to its end where it has none; `cr` is the end of the line.
pub open spec fn is_host_value(s: Seq<u8>, a: int, b: int, cr: int) -> bool {
    &&& 5 <= a <= b <= cr < s.len()
    &&& is_host_letter(0, s[a - 5])
    &&& is_host_letter(1, s[a - 4])
    &&& is_host_letter(2, s[a - 3])
    &&& is_host_letter(3, s[a - 2])
    &&& s[a - 1] == COLON
    &&& s[cr] == RETURN
    &&& forall|j: int| a <= j < cr ==> s[j] != RETURN
    &&& b < cr ==> s[b] == COLON
    &&& forall|j: int| a <= j < cr && b < j ==> s[j] != COLON
    &&& b == cr ==> forall|j: int| a <= j < cr ==> s[j] != COLON
}

proof fn lemma_scan_value(s: Seq<u8>, p: int)
    requires
        0 <= p <= s.len(),
        scan_host(s, p) is Ok,
    ensures
        ({
            let (a, b) = scan_host(s, p)->Ok_0;
            exists|cr: int| is_host_value(s, a, b, cr)
        }),
    decreases s.len() - p,
{
    let k = letters_from(s, p, 0);
    lemma_letters_range(s, p, 0);
    if k < 4 {
        lemma_scan_value(s, p + k + 1);
    } else if s[p + 4] != COLON {
        lemma_scan_value(s, p + 4);
    } else {
        let cr = first_return(s, p + 5);
        lemma_letters_are(s, p);
        lemma_first_return_is(s, p + 5);
        lemma_last_colon_is(s, p + 5, cr, cr);
        let (a, b) = scan_host(s, p)->Ok_0;
        assert(is_host_value(s, a, b, cr));
    }
}

/// What is found is what stands behind "host:" in a line, without a port.
pub proof fn law_found_name_is_host_value(s: Seq<u8>)
    requires
        scan_host(s, 0) is Ok,
    ensures
        ({
            let (a, b) = scan_host(s, 0)->Ok_0;
            exists|cr: int| is_host_value(s, a, b, cr)
        }),
{
    lemma_scan_value(s, 0);
}

/// A host name, once found, is the same whatever bytes follow: it does not matter in what chunks
/// the head of a request arrives.
pub proof fn law_host_is_stable(s: Seq<u8>, t: Seq<u8>)
    requires
        scan_host(s, 0) is Ok,
    ensures
        scan_host(s + t, 0) == scan_host(s, 0),
        ({
            let (a, b) = scan_host(s, 0)->Ok_0;
            (s + t).subrange(a, b) == s.subrange(a, b)
        }),
{
    lemma_scan_grow(s, s + t, 0);
    let (a, b) = scan_host(s, 0)->Ok_0;
    assert((s + t).subrange(a, b) =~= s.subrange(a, b));
}

/// A search that was given up at an offset may be taken up there when more bytes have come: it
/// finds what a search of all the bytes finds.
pub proof fn law_search_resumes(s: Seq<u8>, t: Seq<u8>)
    requires
        scan_host(s, 0) is Err,
    ensures
        ({
            let q = scan_host(s, 0)->Err_0;
            &&& 0 <= q <= s.len()
            &&& scan_host(s + t, 0) == match scan_host((s + t).skip(q), 0) {
                Ok((a, b)) => Ok::<(int, int), int>((q + a, q + b)),
                Err(r) => Err(q + r),
            }
        }),
{
    let q = scan_host(s, 0)->Err_0;
    lemma_scan_grow(s, s + t, 0);
    lemma_scan_shift(s + t, q, 0);
}

/// Whether a line of `s` starts at `p` with "host:", and comes to an end.
pub open spec fn is_host_line(s: Seq<u8>, p: int) -> bool {
    &&& 0 <= p
    &&& p + 5 <= s.len()
    &&& p > 0 ==> s[p - 1] == LINE_FEED
    &&& is_host_letter(0, s[p])
    &&& is_host_letter(1, s[p + 1])
    &&& is_host_letter(2, s[p + 2])
    &&& is_host_letter(3, s[p + 3])
    &&& s[p + 4] == COLON
    &&& exists|cr: int| p + 5 <= cr < s.len() && s[cr] == RETURN
}

/// Whether `b` is, in either case, the letter of "host" at the index `k`.
pub open spec fn fits(b: u8, k: int) -> bool {
    b as char == "host"@[k] || b as char == "HOST"@[k]
}

proof fn lemma_fits()
    ensures
        forall|b: u8, k: int| 0 <= k < 4 ==> #[trigger] fits(b, k) == is_host_letter(k, b),
        COLON as char == ':',
        RETURN as char == '\r',
        LINE_FEED as char == '\n',
        forall|b: u8| #![trigger b as char] b as char == ':' ==> b == COLON,
        forall|b: u8| #![trigger b as char] b as char == '\r' ==> b == RETURN,
{
    reveal_strlit("host");
    reveal_strlit("HOST");
}

/// Whether "host:" stands at `p`, in a line that comes to an end, and not behind one of the letters
/// with which "host" might begin or go on.
pub open spec fn is_host_word(s: Seq<u8>, p: int) -> bool {
    &&& 0 <= p
    &&& p + 5 <= s.len()
    &&& p > 0 ==> !fits(s[p - 1], 0) && !fits(s[p - 1], 1) && !fits(s[p - 1], 2)
    &&& fits(s[p], 0) && fits(s[p + 1], 1) && fits(s[p + 2], 2) && fits(s[p + 3], 3)
    &&& s[p + 4] as char == ':'
    &&& exists|cr: int| p + 5 <= cr < s.len() && #[trigger] s[cr] as char == '\r'
}

proof fn lemma_letters_before_word(s: Seq<u8>, q: int, p: int, k: nat)
    requires
        0 <= q,
        q + k <= p < s.len(),
        !is_host_letter(0, s[p]) && !is_host_letter(1, s[p]) && !is_host_letter(2, s[p]),
        k <= 4,
    ensures
        q + letters_from(s, q, k) <= p || (q + 3 == p && letters_from(s, q, k) == 4),
    decreases 4 - k,
{
    if k < 4 && q + k < s.len() && is_host_letter(k as int, s[q + k]) {
        if q + k < p {
            lemma_letters_before_word(s, q, p, k + 1);
        } else {
            assert(k == 3);
            reveal_with_fuel(letters_from, 2);
        }
    }
}

proof fn lemma_scan_reaches_word(s: Seq<u8>, q: int, p: int)
    requires
        0 <= q <= p,
        is_host_word(s, p),
    ensures
        scan_host(s, q) matches Ok((a, _)) && a <= p + 5,
    decreases p - q,
{
    lemma_fits();
    let k = letters_from(s, q, 0);
    lemma_letters_range(s, q, 0);
    let cr = choose|cr: int| p + 5 <= cr < s.len() && #[trigger] s[cr] as char == '\r';
    assert(s[cr] == RETURN);
    if q == p {
        reveal_with_fuel(letters_from, 5);
        assert(is_host_letter(0, s[q]) && is_host_letter(1, s[q + 1]));
        assert(is_host_letter(2, s[q + 2]) && is_host_letter(3, s[q + 3]));
        lemma_first_return_is(s, p + 5);
    } else {
        lemma_letters_before_word(s, q, p - 1, 0);
        if q + k > p - 1 {
            assert(s[q + 4] == s[p]);
            lemma_scan_reaches_word(s, p, p);
        } else if k < 4 {
            lemma_scan_reaches_word(s, q + k + 1, p);
        } else if s[q + 4] != COLON {
            lemma_scan_reaches_word(s, q + 4, p);
        } else {
            lemma_first_return_is(s, q + 5);
        }
    }
}

/// A complete "host:" is never missed, wherever in the head it stands, unless the letter before it
/// belongs to that word: a name is found there or before it.
pub proof fn law_host_word_is_not_missed(s: Seq<u8>, p: int)
    requires
        is_host_word(s, p),
    ensures
        scan_host(s, 0) matches Ok((a, _)) && a <= p + 5,
{
    lemma_scan_reaches_word(s, 0, p);
}

/// What is found lies behind the word "host" and a colon, reaches to the last colon of its line, or
/// to the end of the line if there is none in it, and does not reach over the end of the line.
pub proof fn law_found_name_has_its_place(s: Seq<u8>)
    requires
        scan_host(s, 0) is Ok,
    ensures
        ({
            let (a, b) = scan_host(s, 0)->Ok_0;
            &&& 5 <= a <= b < s.len()
            &&& fits(s[a - 5], 0) && fits(s[a - 4], 1) && fits(s[a - 3], 2) && fits(s[a - 2], 3)
            &&& s[a - 1] as char == ':'
            &&& s[b] as char == ':' || s[b] as char == '\r'
            &&& forall|j: int| a <= j < b ==> #[trigger] s[j] as char != '\r'
            &&& exists|cr: int|
                {
                    &&& b <= cr < s.len()
                    &&& #[trigger] s[cr] as char == '\r'
                    &&& forall|j: int|
                        b < j < cr ==> #[trigger] s[j] as char != ':' && s[j] as char != '\r'
                    &&& s[b] as char == '\r' ==> forall|j: int|
                        a <= j < b ==> #[trigger] s[j] as char != ':'
                }
        }),
{
    lemma_fits();
    law_found_name_is_host_value(s);
    let (a, b) = scan_host(s, 0)->Ok_0;
    let cr = choose|cr: int| is_host_value(s, a, b, cr);
    assert(s[cr] as char == '\r');
    assert forall|j: int| a <= j < b implies #[trigger] s[j] as char != '\r' by {
        assert(s[j] != RETURN);
    }
    assert forall|j: int| b < j < cr implies #[trigger] s[j] as char != ':' && s[j] as char
        != '\r' by {
        assert(s[j] != COLON && s[j] != RETURN);
    }
    if s[b] as char == '\r' {
        assert(s[b] == RETURN);
        assert(b == cr);
    }
}

/// What a search finds in bytes of which `n` more stand in front.
pub open spec fn shifted(found: Result<(int, int), int>, n: int) -> Result<(int, int), int> {
    match found {
        Ok((a, b)) => Ok((a + n, b + n)),
        Err(q) => Err(q + n),
    }
}

/// Where the first `k` bytes begin the word "host" and the next does not go on with it, a search
/// finds what a search behind that byte finds.
pub proof fn law_search_goes_on_behind_a_mismatch(s: Seq<u8>, k: int)
    requires
        0 <= k < 4,
        k < s.len(),
        forall|j: int| 0 <= j < k ==> fits(#[trigger] s[j], j),
        !fits(s[k], k),
    ensures
        scan_host(s, 0) == shifted(scan_host(s.skip(k + 1), 0), k + 1),
{
    lemma_fits();
    assert forall|j: int| 0 <= j < k implies is_host_letter(j, #[trigger] s[0 + j]) by {
        assert(fits(s[j], j));
    }
    lemma_letters_skip(s, 0, k as nat);
    assert(letters_from(s, 0, k as nat) == k);
    lemma_scan_shift(s, k + 1, 0);
}

/// Where the first bytes are the word "host" without a colon behind it, a search finds what a search
/// behind the word finds.
pub proof fn law_search_goes_on_behind_a_word(s: Seq<u8>)
    requires
        s.len() > 4,
        forall|j: int| 0 <= j < 4 ==> fits(#[trigger] s[j], j),
        s[4] as char != ':',
    ensures
        scan_host(s, 0) == shifted(scan_host(s.skip(4), 0), 4),
{
    lemma_fits();
    assert forall|j: int| 0 <= j < 4 implies is_host_letter(j, #[trigger] s[0 + j]) by {
        assert(fits(s[j], j));
    }
    lemma_letters_skip(s, 0, 4);
    lemma_scan_shift(s, 4, 0);
}

/// Where the first bytes are "host:" and the line ends at `cr`, the name lies behind the colon and
/// reaches to the last colon of the line, or to its end.
pub proof fn law_search_finds_the_first_word(s: Seq<u8>, cr: int, b: int)
    requires
        5 <= b <= cr < s.len(),
        forall|j: int| 0 <= j < 4 ==> fits(#[trigger] s[j], j),
        s[4] as char == ':',
        s[cr] as char == '\r',
        forall|j: int| 5 <= j < cr ==> #[trigger] s[j] as char != '\r',
        b < cr ==> s[b] as char == ':',
        forall|j: int| b < j < cr ==> #[trigger] s[j] as char != ':',
        b == cr ==> forall|j: int| 5 <= j < cr ==> #[trigger] s[j] as char != ':',
    ensures
        scan_host(s, 0) == Ok::<(int, int), int>((5, b)),
{
    lemma_fits();
    assert forall|j: int| 0 <= j < 4 implies is_host_letter(j, #[trigger] s[0 + j]) by {
        assert(fits(s[j], j));
    }
    lemma_letters_skip(s, 0, 4);
    assert forall|m: int| 5 <= m < cr implies s[m] != RETURN by {
        assert(s[m] as char != '\r');
    }
    assert(s[cr] == RETURN);
    lemma_first_return(s, 5, cr);
    if b < cr {
        assert(s[b] == COLON);
        assert forall|m: int| b < m < cr implies s[m] != COLON by {
            assert(s[m] as char != ':');
        }
        lemma_last_colon_at(s, 5, b, cr, cr);
    } else {
        assert forall|m: int| 5 <= m < cr implies s[m] != COLON by {
            assert(s[m] as char != ':');
        }
        lemma_last_colon_none(s, 5, cr, cr);
    }
}

/// Bytes that may still become the word "host", or a line that begins with "host:" and has not ended,
/// are kept from their first byte on.
pub proof fn law_search_waits_for_the_rest(s: Seq<u8>)
    requires
        forall|j: int| 0 <= j < s.len() && j < 4 ==> fits(#[trigger] s[j], j),
        s.len() > 4 ==> s[4] as char == ':',
        forall|j: int| 5 <= j < s.len() ==> #[trigger] s[j] as char != '\r',
    ensures
        scan_host(s, 0) == Err::<(int, int), int>(0),
{
    lemma_fits();
    let k: int = if s.len() < 4 {
        s.len() as int
    } else {
        4
    };
    assert forall|j: int| 0 <= j < k implies is_host_letter(j, #[trigger] s[0 + j]) by {
        assert(fits(s[j], j));
    }
    lemma_letters_skip(s, 0, k as nat);
    if s.len() > 4 {
        assert forall|m: int| 5 <= m < s.len() implies s[m] != RETURN by {
            assert(s[m] as char != '\r');
        }
        lemma_first_return(s, 5, s.len() as int);
    }
}

/// Whether `name` stands in `s` as the value of a host line.
pub open spec fn is_name_in(s: Seq<u8>, name: Seq<u8>) -> bool {
    exists|a: int, b: int, cr: int| #[trigger]
        is_host_value(s, a, b, cr) && name == s.subrange(a, b)
}

/// A search that finds something finds a name that stands in a host line; one that finds nothing has
/// seen no complete host line.
proof fn lemma_search(s: Seq<u8>)
    ensures
        match scan_host(s, 0) {
            Ok((a, b)) => is_name_in(s, s.subrange(a, b)),
            Err(q) => 0 <= q <= s.len() && forall|p: int| !#[trigger] is_host_word(s, p),
        },
{
    if scan_host(s, 0) is Ok {
        law_found_name_is_host_value(s);
        let (a, b) = scan_host(s, 0)->Ok_0;
        let cr = choose|cr: int| is_host_value(s, a, b, cr);
        assert(is_host_value(s, a, b, cr) && s.subrange(a, b) == s.subrange(a, b));
    } else {
        lemma_scan_grow(s, s, 0);
        assert forall|p: int| !#[trigger] is_host_word(s, p) by {
            if is_host_word(s, p) {
                lemma_scan_reaches_word(s, 0, p);
            }
        }
    }
}

proof fn lemma_letters_stop(s: Seq<u8>, q: int, p: int, k: nat)
    requires
        0 <= q,
        q + k <= p < s.len(),
        s[p] == LINE_FEED,
        k <= 4,
    ensures
        q + letters_from(s, q, k) <= p,
    decreases 4 - k,
{
    if k < 4 && q + k < s.len() && is_host_letter(k as int, s[q + k]) {
        lemma_letters_stop(s, q, p, k + 1);
    }
}

proof fn lemma_scan_reaches(s: Seq<u8>, q: int, p: int)
    requires
        0 <= q <= p,
        is_host_line(s, p),
    ensures
        scan_host(s, q) matches Ok((a, _)) && a <= p + 5,
    decreases p - q,
{
    let k = letters_from(s, q, 0);
    lemma_letters_range(s, q, 0);
    if q == p {
        reveal_with_fuel(letters_from, 5);
        assert(is_host_letter(2, s[q + 2]) && is_host_letter(3, s[q + 3]));
        lemma_first_return_is(s, p + 5);
    } else {
        lemma_letters_stop(s, q, p - 1, 0);
        if k < 4 {
            lemma_scan_reaches(s, q + k + 1, p);
        } else if s[q + 4] != COLON {
            lemma_scan_reaches(s, q + 4, p);
        } else {
            lemma_first_return_is(s, q + 5);
        }
    }
}

/// A host line is never missed: where a complete one starts at `p`, a name is found, in that line or
/// before it.
pub proof fn law_host_line_is_not_missed(s: Seq<u8>, p: int)
    requires
        is_host_line(s, p),
    ensures
        scan_host(s, 0) matches Ok((a, _)) && a <= p + 5,
{
    lemma_scan_reaches(s, 0, p);
}

/// Looks for the host name in `buf`.
///
/// Returns the bytes of the name, or the offset from which the search has to be taken up again
/// once more bytes follow.
pub fn find_host(buf: &[u8]) -> (r: Result<&[u8], usize>)
    ensures
        match r {
            Ok(name) => scan_host(buf@, 0) matches Ok((a, b)) && name@ == buf@.subrange(a, b),
            Err(offset) => scan_host(buf@, 0) == Err::<(int, int), int>(offset as int),
        },
        match r {
            Ok(name) => is_name_in(buf@, name@),
            Err(offset) => offset <= buf@.len() && forall|p: int| !#[trigger]
                is_host_word(buf@, p),
        },
{
    let search: [u8; 4] = [104, 111, 115, 116];
    let mut offset: usize = 0;
    let mut i: usize = 0;
    let ghost s = buf@;
    while i < buf.len()
        invariant
            s == buf@,
            search@ == seq![104u8, 111, 115, 116],
            offset < 4,
            offset <= i <= buf.len(),
            forall|j: int| 0 <= j < offset ==> is_host_letter(j, #[trigger] s[i - offset + j]),
            scan_host(s, 0) == scan_host(s, i - offset),
        decreases buf.len() - i,
    {
        let ghost p: int = i - offset;
        proof {
            lemma_letters_skip(s, p, offset as nat);
            lemma_letters_range(s, p, offset as nat);
            lemma_search(s);
        }
        if buf[i] == search[offset] || buf[i] == search[offset] - 32 {
            assert(is_host_letter(offset as int, s[p + offset]));
            if offset == 3 {
                assert(letters_from(s, p, 4) == 4);
                assert(letters_from(s, p, 0) == 4);
                if i == buf.len() - 1 {
                    return Err(i - offset);
                }
                if buf[i + 1] != COLON {
                    offset = 0;
                    i = i + 1;
                    continue;
                }
                let mut colon: usize = 0;
                let mut j: usize = i + 2;
                while j < buf.len()
                    invariant
                        s == buf@,
                        i + 2 <= j <= buf.len(),
                        forall|m: int| i + 2 <= m < j ==> s[m] != RETURN,
                        colon == 0 ==> forall|m: int| i + 2 <= m < j ==> s[m] != COLON,
                        colon != 0 ==> i + 2 <= colon < j && s[colon as int] == COLON && forall|m: int|
                            colon < m < j ==> s[m] != COLON,
                        p == i - 3,
                        0 <= p,
                        letters_from(s, p, 0) == 4,
                        s[p + 4] == COLON,
                        scan_host(s, 0) == scan_host(s, p),
                    decreases buf.len() - j,
                {
                    if buf[j] == COLON {
                        colon = j;
                    } else if buf[j] == RETURN {
                        proof {
                            lemma_search(s);
                            lemma_first_return(s, p + 5, j as int);
                            if colon == 0 {
                                lemma_last_colon_none(s, p + 5, j as int, j as int);
                            } else {
                                lemma_last_colon_at(s, p + 5, colon as int, j as int, j as int);
                            }
                        }
                        if colon == 0 {
                            colon = j;
                        }
                        return Ok(&buf[i + 2..colon]);
                    }
                    j = j + 1;
                }
                proof {
                    lemma_first_return(s, p + 5, s.len() as int);
                }
                return Err(i - offset);
            }
            offset = offset + 1;
        } else {
            assert(letters_from(s, p, offset as nat) == offset);
            offset = 0;
        }
        i = i + 1;
    }
    proof {
        lemma_search(s);
        lemma_letters_skip(s, i - offset, offset as nat);
    }
    Err(buf.len() - offset)
}

/// Why a host name could not be read.
#[derive(Debug)]
pub enum HostError {
    /// The connection ended inside the head of the request.
    UnexpectedEof,
    /// The name is not UTF-8.
    NotUtf8(Utf8Error),
    /// The head is full and holds no name.
    Plain(StrError),
}

/// The state of reading a host name after some bytes have come.
pub enum HostRead {
    /// More bytes are needed.
    More(HostReader),
    /// Reading is over: with all bytes received and the name in them, with nothing where the
    /// connection ended before its first byte, or with an error.
    Done(Result<Option<(Vec<u8>, String)>, HostError>),
}

/// Collects the head of a request until it holds a host name.
pub struct HostReader {
    buf: Vec<u8>,
    from: usize,
}

impl View for HostReader {
    type V = Seq<u8>;

    /// The bytes received so far.
    closed spec fn view(&self) -> Seq<u8> {
        self.buf@
    }
}

/// What reading gives when the connection ended after the bytes `all`.
pub open spec fn host_at_end(all: Seq<u8>, r: HostRead) -> bool {
    if all.len() == 0 {
        r matches HostRead::Done(Ok(None))
    } else {
        r == HostRead::Done(Err(HostError::UnexpectedEof))
    }
}

/// What reading gives when the bytes received so far are `all`.
pub open spec fn host_after(all: Seq<u8>, r: HostRead) -> bool {
    match scan_host(all, 0) {
        Ok((a, b)) => if valid_utf8(all.subrange(a, b)) {
            r matches HostRead::Done(Ok(Some((buf, host)))) && buf@ == all && host@ == trimmed(
                decode_utf8(all.subrange(a, b)),
            )
        } else {
            r matches HostRead::Done(Err(HostError::NotUtf8(_)))
        },
        Err(_) => if all.len() < MAX_BUF_SIZE {
            r matches HostRead::More(next) && next@ == all
        } else {
            r matches HostRead::Done(Err(HostError::Plain(e))) && e@ == "header too large"@
        },
    }
}

/// Whether `host` is the name that the head `all` of a request gives: what stands in a host line,
/// as text, without the white space around it.
pub open spec fn is_name_of_head(all: Seq<u8>, host: Seq<char>) -> bool {
    exists|text: Seq<char>, i: int, j: int| #[trigger]
        is_core(text, host, i, j) && is_name_in(all, encode_utf8(text))
}

proof fn lemma_name_of_head(all: Seq<u8>)
    ensures
        match scan_host(all, 0) {
            Ok((a, b)) => valid_utf8(all.subrange(a, b)) ==> is_name_of_head(
                all,
                trimmed(decode_utf8(all.subrange(a, b))),
            ),
            Err(_) => true,
        },
{
    lemma_search(all);
    if let Ok((a, b)) = scan_host(all, 0) {
        let name = all.subrange(a, b);
        if valid_utf8(name) {
            let text = decode_utf8(name);
            vstd::utf8::decode_utf8_encode_utf8(name);
            law_trimming_takes_white_space_only(text);
            let (i, j) = choose|i: int, j: int| is_core(text, trimmed(text), i, j);
            assert(is_core(text, trimmed(text), i, j) && is_name_in(all, encode_utf8(text)));
        }
    }
}

/// Whether reading may have come to `r` after a reader that held `held` was given `chunks`, one after
/// the other.
pub open spec fn host_reading(held: Seq<u8>, chunks: Seq<Seq<u8>>, r: HostRead) -> bool
    decreases chunks.len(),
{
    if chunks.len() == 0 {
        false
    } else if chunks.len() == 1 {
        host_after(held + chunks[0], r)
    } else {
        exists|next: HostReader| #[trigger]
            host_after(held + chunks[0], HostRead::More(next)) && host_reading(
                next@,
                chunks.drop_first(),
                r,
            )
    }
}

proof fn lemma_host_reading(held: Seq<u8>, chunks: Seq<Seq<u8>>, r: HostRead)
    requires
        host_reading(held, chunks, r),
    ensures
        host_after(held + chunks.flatten(), r),
    decreases chunks.len(),
{
    let rest = chunks.drop_first();
    assert(chunks.flatten() == chunks[0] + rest.flatten());
    if chunks.len() == 1 {
        assert(rest.flatten() =~= Seq::<u8>::empty());
        assert(held + chunks.flatten() =~= held + chunks[0]);
    } else {
        let next = choose|next: HostReader| #[trigger]
            host_after(held + chunks[0], HostRead::More(next)) && host_reading(next@, rest, r);
        lemma_host_reading(next@, rest, r);
        assert(next@ == held + chunks[0]);
        assert(next@ + rest.flatten() =~= held + chunks.flatten());
    }
}

/// No byte is lost, added or moved, in whatever chunks the head of a request arrives: what is handed
/// on with the name are all the bytes received, and so is what a reader holds that needs more. The
/// name is one that stands in them.
pub proof fn law_all_bytes_are_handed_on(chunks: Seq<Seq<u8>>, r: HostRead)
    requires
        host_reading(seq![], chunks, r),
    ensures
        match r {
            HostRead::More(next) => next@ == chunks.flatten() && next@.len() < 8 * 1024,
            HostRead::Done(Ok(Some((buf, host)))) => {
                &&& buf@ == chunks.flatten()
                &&& is_name_of_head(chunks.flatten(), host@)
            },
            HostRead::Done(Ok(None)) => false,
            HostRead::Done(Err(HostError::UnexpectedEof)) => false,
            HostRead::Done(Err(HostError::NotUtf8(_))) => exists|name: Seq<u8>| #[trigger]
                is_name_in(chunks.flatten(), name) && !valid_utf8(name),
            HostRead::Done(Err(HostError::Plain(e))) => {
                &&& chunks.flatten().len() >= 8 * 1024
                &&& e@ == "header too large"@
                &&& forall|p: int| !#[trigger] is_host_word(chunks.flatten(), p)
            },
        },
{
    let all = chunks.flatten();
    lemma_host_reading(seq![], chunks, r);
    assert(Seq::<u8>::empty() + all =~= all);
    lemma_name_of_head(all);
    lemma_search(all);
}

/// In whatever chunks the head of a request arrives, the name that is given is the one that a search
/// of all its bytes at once finds, as text and without the white space around it.
pub proof fn law_name_is_found_as_in_one_search(chunks: Seq<Seq<u8>>, buf: Vec<u8>, host: String)
    requires
        host_reading(seq![], chunks, HostRead::Done(Ok(Some((buf, host))))),
    ensures
        scan_host(chunks.flatten(), 0) matches Ok((a, b)) && exists|text: Seq<char>, i: int, j: int|
            #[trigger]
            is_core(text, host@, i, j) && encode_utf8(text) == chunks.flatten().subrange(a, b),
{
    let all = chunks.flatten();
    lemma_host_reading(seq![], chunks, HostRead::Done(Ok(Some((buf, host)))));
    assert(Seq::<u8>::empty() + all =~= all);
    let (a, b) = scan_host(all, 0)->Ok_0;
    let text = decode_utf8(all.subrange(a, b));
    vstd::utf8::decode_utf8_encode_utf8(all.subrange(a, b));
    law_trimming_takes_white_space_only(text);
    let (i, j) = choose|i: int, j: int| is_core(text, trimmed(text), i, j);
    assert(is_core(text, host@, i, j) && encode_utf8(text) == all.subrange(a, b));
}

/// A reader that needs more has seen no complete host line.
pub proof fn law_reader_waits_only_without_a_host_line(chunks: Seq<Seq<u8>>, next: HostReader)
    requires
        host_reading(seq![], chunks, HostRead::More(next)),
    ensures
        forall|p: int| !#[trigger] is_host_word(chunks.flatten(), p),
{
    let all = chunks.flatten();
    lemma_host_reading(seq![], chunks, HostRead::More(next));
    assert(Seq::<u8>::empty() + all =~= all);
    lemma_search(all);
}

/// In whatever chunks the same bytes arrive, the same name is found in them.
pub proof fn law_chunks_of_a_head_do_not_matter(
    chunks: Seq<Seq<u8>>,
    others: Seq<Seq<u8>>,
    r: HostRead,
    q: HostRead,
)
    requires
        host_reading(seq![], chunks, r),
        host_reading(seq![], others, q),
        chunks.flatten() == others.flatten(),
    ensures
        r is More <==> q is More,
        r matches HostRead::Done(Ok(Some((buf, host)))) ==> (q matches HostRead::Done(
            Ok(Some((b, h))),
        ) && b@ == buf@ && h@ == host@),
        r matches HostRead::Done(Err(HostError::NotUtf8(_))) ==> (q matches HostRead::Done(
            Err(HostError::NotUtf8(_)),
        )),
        r matches HostRead::Done(Err(HostError::Plain(_))) ==> (q matches HostRead::Done(
            Err(HostError::Plain(_)),
        )),
{
    lemma_host_reading(seq![], chunks, r);
    lemma_host_reading(seq![], others, q);
}

/// A connection that ends before its first byte asks for nothing; one that ends later has broken off.
pub proof fn law_early_end_is_no_request(all: Seq<u8>, r: HostRead)
    requires
        host_at_end(all, r),
    ensures
        match r {
            HostRead::Done(Ok(None)) => all.len() == 0,
            HostRead::Done(Err(HostError::UnexpectedEof)) => all.len() > 0,
            _ => false,
        },
{
}

impl HostReader {
    /// The search has been given up at `from`, and there is room for more.
    #[verifier::type_invariant]
    spec fn inv(self) -> bool {
        &&& self.buf@.len() < MAX_BUF_SIZE
        &&& scan_host(self.buf@, 0) == Err::<(int, int), int>(self.from as int)
    }

    /// Starts with nothing received.
    pub fn new() -> (r: HostReader)
        ensures
            r@ == Seq::<u8>::empty(),
    {
        HostReader { buf: Vec::new(), from: 0 }
    }

    /// How many bytes may be read next: what is left of the buffer, which grows in steps.
    pub fn want(&self) -> (r: usize)
        ensures
            r == BUF_SIZE - self@.len() % (BUF_SIZE as nat),
            r == 1024 - self@.len() % 1024,
            0 < r <= BUF_SIZE,
            self@.len() + r <= MAX_BUF_SIZE,
    {
        proof {
            use_type_invariant(self);
        }
        BUF_SIZE - self.buf.len() % BUF_SIZE
    }

    /// Takes the bytes that one read gave; no bytes mean that the connection has ended.
    pub fn read_host(self, chunk: &[u8]) -> (r: HostRead)
        requires
            chunk@.len() <= BUF_SIZE - self@.len() % (BUF_SIZE as nat),
        ensures
            if chunk@.len() == 0 {
                host_at_end(self@, r)
            } else {
                host_after(self@ + chunk@, r)
            },
            chunk@.len() == 0 ==> match r {
                HostRead::Done(Ok(None)) => self@.len() == 0,
                HostRead::Done(Err(HostError::UnexpectedEof)) => self@.len() > 0,
                _ => false,
            },
            chunk@.len() > 0 ==> match r {
                HostRead::More(next) => next@ == self@ + chunk@ && next@.len() < 8 * 1024,
                HostRead::Done(Ok(Some((buf, host)))) => {
                    &&& buf@ == self@ + chunk@
                    &&& is_name_of_head(self@ + chunk@, host@)
                },
                HostRead::Done(Ok(None)) => false,
                HostRead::Done(Err(HostError::UnexpectedEof)) => false,
                HostRead::Done(Err(HostError::NotUtf8(_))) => true,
                HostRead::Done(Err(HostError::Plain(e))) => {
                    &&& self@.len() + chunk@.len() >= 8 * 1024
                    &&& e@ == "header too large"@
                },
            },
    {
        proof {
            lemma_name_of_head(self@ + chunk@);
        }
        proof {
            use_type_invariant(&self);
        }
        if chunk.len() == 0 {
            if self.buf.len() == 0 {
                return HostRead::Done(Ok(None));
            }
            return HostRead::Done(Err(HostError::UnexpectedEof));
        }
        let ghost before = self.buf@;
        let ghost all = before + chunk@;
        let HostReader { mut buf, from } = self;
        proof {
            law_search_resumes(before, chunk@);
        }
        buf.extend_from_slice(chunk);
        assert(buf@ == all);
        let found: Result<Result<String, Utf8Error>, usize> = match find_host(&buf[from..buf.len()]) {
            Ok(name) => {
                proof {
                    let tail = all.skip(from as int);
                    lemma_scan_grow(tail, tail, 0);
                    let (a, b) = scan_host(tail, 0)->Ok_0;
                    assert(tail == all.subrange(from as int, all.len() as int));
                    assert(tail.subrange(a, b) == all.subrange(from + a, from + b));
                }
                match decode(name) {
                    Ok(text) => Ok(Ok(trim(text).to_owned())),
                    Err(e) => Ok(Err(e)),
                }
            },
            Err(offset) => Err(offset),
        };
        assert(all.skip(from as int) == all.subrange(from as int, all.len() as int));
        match found {
            Ok(Ok(host)) => HostRead::Done(Ok(Some((buf, host)))),
            Ok(Err(e)) => HostRead::Done(Err(HostError::NotUtf8(e))),
            Err(offset) => {
                if buf.len() < MAX_BUF_SIZE {
                    proof {
                        lemma_scan_grow(all, all, 0);
                    }
                    HostRead::More(HostReader { buf, from: from + offset })
                } else {
                    HostRead::Done(Err(HostError::Plain(StrError::new("header too large"))))
                }
            },
        }
    }
}

} // verus!
