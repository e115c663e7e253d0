//! Text that the tunnel takes apart or puts together.
use std::str::Utf8Error;
use vstd::prelude::*;
use vstd::utf8::{decode_utf8, encode_utf8, valid_utf8};

verus! {

/// Whether `c` is a white space character in the sense of Unicode.
pub open spec fn is_white_space(c: char) -> bool {
    let n = c as u32;
    ||| 0x9 <= n <= 0xd
    ||| n == 0x20
    ||| n == 0x85
    ||| n == 0xa0
    ||| n == 0x1680
    ||| 0x2000 <= n <= 0x200a
    ||| n == 0x2028
    ||| n == 0x2029
    ||| n == 0x202f
    ||| n == 0x205f
    ||| n == 0x3000
}

/// `s` without the white space at its start.
pub open spec fn trim_start(s: Seq<char>) -> Seq<char>
    decreases s.len(),
{
    if s.len() > 0 && is_white_space(s.first()) {
        trim_start(s.drop_first())
    } else {
        s
    }
}

/// `s` without the white space at its end.
pub open spec fn trim_end(s: Seq<char>) -> Seq<char>
    decreases s.len(),
{
    if s.len() > 0 && is_white_space(s.last()) {
        trim_end(s.drop_last())
    } else {
        s
    }
}

/// `s` without the white space at its start and at its end.
pub open spec fn trimmed(s: Seq<char>) -> Seq<char> {
    trim_end(trim_start(s))
}

/// `str::trim` of the standard library: the text without leading and trailing white space, as
/// Unicode defines white space.
#[verifier::external_body]
pub(crate) fn trim(s: &str) -> (r: &str)
    ensures
        r@ == trimmed(s@),
{
    s.trim()
}

/// The declaration of the error of bytes that are not UTF-8.
#[verifier::external_type_specification]
#[verifier::external_body]
pub struct ExUtf8Error(Utf8Error);

/// `std::str::from_utf8`: succeeds exactly on well-formed UTF-8, with the text whose encoding
/// the bytes are. Nothing is said of what the error holds.
#[verifier::external_body]
fn text_of_utf8(bytes: &[u8]) -> (r: Result<&str, Utf8Error>)
    ensures
        r is Ok <==> valid_utf8(bytes@),
        r matches Ok(s) ==> encode_utf8(s@) == bytes@,
{
    std::str::from_utf8(bytes)
}

/// Decodes UTF-8; an error where the bytes are not well-formed.
pub(crate) fn decode(bytes: &[u8]) -> (r: Result<&str, Utf8Error>)
    ensures
        r is Ok <==> valid_utf8(bytes@),
        r matches Ok(s) ==> s@ == decode_utf8(bytes@),
{
    match text_of_utf8(bytes) {
        Ok(s) => {
            proof {
                vstd::utf8::encode_utf8_decode_utf8(s@);
            }
            Ok(s)
        },
        Err(e) => Err(e),
    }
}

/// The first index of `c` in `s` from `i` on, or the length of `s`.
pub open spec fn position(s: Seq<char>, c: char, i: int) -> int
    decreases s.len() - i,
{
    if i < s.len() && s[i] != c {
        position(s, c, i + 1)
    } else {
        i
    }
}

pub(crate) proof fn lemma_position(s: Seq<char>, c: char, i: int)
    requires
        0 <= i <= s.len(),
    ensures
        i <= position(s, c, i) <= s.len(),
    decreases s.len() - i,
{
    if i < s.len() && s[i] != c {
        lemma_position(s, c, i + 1);
    }
}

/// `str::split_once` with a character: the text before and the text behind its first occurrence.
#[verifier::external_body]
pub(crate) fn split_once(s: &str, c: char) -> (r: Option<(&str, &str)>)
    ensures
        ({
            let i = position(s@, c, 0);
            if i < s@.len() {
                r matches Some((a, b)) && a@ == s@.take(i) && b@ == s@.skip(i + 1)
            } else {
                r is None
            }
        }),
{
    s.split_once(c)
}

/// The decimal digit `d`.
pub open spec fn digit(d: nat) -> char {
    (48 + d) as char
}

/// `n` in decimal.
pub open spec fn decimal(n: nat) -> Seq<char>
    decreases n,
{
    if n < 10 {
        seq![digit(n)]
    } else {
        decimal(n / 10).push(digit(n % 10))
    }
}

fn digit_text(d: u64) -> (r: &'static str)
    requires
        d < 10,
    ensures
        r@ == seq![digit(d as nat)],
{
    proof {
        reveal_strlit("0");
        reveal_strlit("1");
        reveal_strlit("2");
        reveal_strlit("3");
        reveal_strlit("4");
        reveal_strlit("5");
        reveal_strlit("6");
        reveal_strlit("7");
        reveal_strlit("8");
        reveal_strlit("9");
    }
    match d {
        0 => "0",
        1 => "1",
        2 => "2",
        3 => "3",
        4 => "4",
        5 => "5",
        6 => "6",
        7 => "7",
        8 => "8",
        _ => "9",
    }
}

/// Writes `n` in decimal.
pub(crate) fn decimal_text(n: u64) -> (r: String)
    ensures
        r@ == decimal(n as nat),
    decreases n,
{
    if n < 10 {
        digit_text(n).to_owned()
    } else {
        let mut s = decimal_text(n / 10);
        s.append(digit_text(n % 10));
        s
    }
}

/// `s` as it stands in a program: in quotes, and with escapes where it needs them.
pub uninterp spec fn quoted(s: Seq<char>) -> Seq<char>;

/// The `Debug` form of `str` in the standard library. That the text is the same for the same
/// `s` is all that is claimed of it.
#[verifier::external_body]
pub(crate) fn quote(s: &str) -> (r: String)
    ensures
        r@ == quoted(s@),
{
    format!("{:?}", s)
}

/// The texts one after the other, with a comma and a blank between them.
pub open spec fn joined(items: Seq<Seq<char>>) -> Seq<char>
    decreases items.len(),
{
    if items.len() == 0 {
        seq![]
    } else if items.len() == 1 {
        items[0]
    } else {
        joined(items.drop_last()) + ", "@ + items.last()
    }
}

/// The texts of a list, in brackets.
pub open spec fn listed(items: Seq<Seq<char>>) -> Seq<char> {
    "["@ + joined(items) + "]"@
}

/// A list of texts as it stands in a program.
pub open spec fn listed_texts(items: Seq<Seq<char>>) -> Seq<char> {
    listed(items.map_values(|s: Seq<char>| quoted(s)))
}

/// A list of bytes, in decimal.
pub open spec fn listed_bytes(items: Seq<u8>) -> Seq<char> {
    listed(items.map_values(|b: u8| decimal(b as nat)))
}

/// Writes a list of texts as it stands in a program.
pub(crate) fn list_texts(items: &Vec<String>) -> (r: String)
    ensures
        r@ == listed_texts(items.deep_view()),
{
    let ghost all = items.deep_view().map_values(|s: Seq<char>| quoted(s));
    let mut out = "[".to_owned();
    let mut i: usize = 0;
    assert(all.take(0) == Seq::<Seq<char>>::empty());
    while i < items.len()
        invariant
            i <= items.len(),
            all == items.deep_view().map_values(|s: Seq<char>| quoted(s)),
            out@ == "["@ + joined(all.take(i as int)),
        decreases items.len() - i,
    {
        let q = quote(items[i].as_str());
        assert(items.deep_view()[i as int] == items[i as int]@);
        assert(all[i as int] == q@);
        assert(all.take(i + 1).drop_last() == all.take(i as int));
        if i > 0 {
            out.append(", ");
        }
        out.append(q.as_str());
        i = i + 1;
        assert(out@ == "["@ + joined(all.take(i as int)));
    }
    assert(all.take(items.len() as int) == all);
    out.append("]");
    out
}

/// Writes a list of bytes in decimal.
pub(crate) fn list_bytes(items: &Vec<u8>) -> (r: String)
    ensures
        r@ == listed_bytes(items@),
{
    let ghost all = items@.map_values(|b: u8| decimal(b as nat));
    let mut out = "[".to_owned();
    let mut i: usize = 0;
    assert(all.take(0) == Seq::<Seq<char>>::empty());
    while i < items.len()
        invariant
            i <= items.len(),
            all == items@.map_values(|b: u8| decimal(b as nat)),
            out@ == "["@ + joined(all.take(i as int)),
        decreases items.len() - i,
    {
        let d = decimal_text(items[i] as u64);
        assert(all[i as int] == d@);
        assert(all.take(i + 1).drop_last() == all.take(i as int));
        if i > 0 {
            out.append(", ");
        }
        out.append(d.as_str());
        i = i + 1;
        assert(out@ == "["@ + joined(all.take(i as int)));
    }
    assert(all.take(items.len() as int) == all);
    out.append("]");
    out
}

proof fn lemma_trim_start(s: Seq<char>)
    ensures
        exists|i: int|
            {
                &&& 0 <= i <= s.len()
                &&& trim_start(s) == #[trigger] s.subrange(i, s.len() as int)
                &&& forall|j: int| 0 <= j < i ==> is_white_space(s[j])
                &&& i < s.len() ==> !is_white_space(s[i])
            },
    decreases s.len(),
{
    if s.len() > 0 && is_white_space(s.first()) {
        let t = s.drop_first();
        lemma_trim_start(t);
        let i = choose|i: int|
            {
                &&& 0 <= i <= t.len()
                &&& trim_start(t) == #[trigger] t.subrange(i, t.len() as int)
                &&& forall|j: int| 0 <= j < i ==> is_white_space(t[j])
                &&& i < t.len() ==> !is_white_space(t[i])
            };
        assert(t.subrange(i, t.len() as int) =~= s.subrange(i + 1, s.len() as int));
        assert forall|j: int| 0 <= j < i + 1 implies is_white_space(s[j]) by {
            if j > 0 {
                assert(s[j] == t[j - 1]);
            }
        }
        assert(i < t.len() ==> s[i + 1] == t[i]);
    } else {
        assert(s.subrange(0, s.len() as int) =~= s);
    }
}

proof fn lemma_trim_end(s: Seq<char>)
    ensures
        exists|i: int|
            {
                &&& 0 <= i <= s.len()
                &&& trim_end(s) == #[trigger] s.subrange(0, i)
                &&& forall|j: int| i <= j < s.len() ==> is_white_space(s[j])
                &&& i > 0 ==> !is_white_space(s[i - 1])
            },
    decreases s.len(),
{
    if s.len() > 0 && is_white_space(s.last()) {
        let t = s.drop_last();
        lemma_trim_end(t);
        let i = choose|i: int|
            {
                &&& 0 <= i <= t.len()
                &&& trim_end(t) == #[trigger] t.subrange(0, i)
                &&& forall|j: int| i <= j < t.len() ==> is_white_space(t[j])
                &&& i > 0 ==> !is_white_space(t[i - 1])
            };
        assert(t.subrange(0, i) =~= s.subrange(0, i));
        assert forall|j: int| i <= j < s.len() implies is_white_space(s[j]) by {
            if j < t.len() {
                assert(s[j] == t[j]);
            }
        }
    } else {
        assert(s.subrange(0, s.len() as int) =~= s);
    }
}

/// Whether `t` is the part of `s` from `i` to `j`, with nothing but white space around it and none at
/// its own ends.
pub open spec fn is_core(s: Seq<char>, t: Seq<char>, i: int, j: int) -> bool {
    &&& 0 <= i <= j <= s.len()
    &&& t == s.subrange(i, j)
    &&& forall|k: int| 0 <= k < i || j <= k < s.len() ==> is_white_space(#[trigger] s[k])
    &&& t.len() > 0 ==> !is_white_space(t.first()) && !is_white_space(t.last())
}

/// Trimming takes white space away at both ends, all of it, and nothing else.
pub proof fn law_trimming_takes_white_space_only(s: Seq<char>)
    ensures
        exists|i: int, j: int| is_core(s, trimmed(s), i, j),
{
    lemma_trim_start(s);
    let i = choose|i: int|
        {
            &&& 0 <= i <= s.len()
            &&& trim_start(s) == #[trigger] s.subrange(i, s.len() as int)
            &&& forall|j: int| 0 <= j < i ==> is_white_space(s[j])
            &&& i < s.len() ==> !is_white_space(s[i])
        };
    let t = trim_start(s);
    lemma_trim_end(t);
    let n = choose|n: int|
        {
            &&& 0 <= n <= t.len()
            &&& trim_end(t) == #[trigger] t.subrange(0, n)
            &&& forall|j: int| n <= j < t.len() ==> is_white_space(t[j])
            &&& n > 0 ==> !is_white_space(t[n - 1])
        };
    assert(t.subrange(0, n) =~= s.subrange(i, i + n));
    assert forall|k: int| 0 <= k < i || i + n <= k < s.len() implies is_white_space(
        #[trigger] s[k],
    ) by {
        if k >= i {
            assert(s[k] == t[k - i]);
        }
    }
    assert(is_core(s, trimmed(s), i, i + n));
}

/// The number that the decimal digits `s` stand for.
pub open spec fn number_of(s: Seq<char>) -> int
    decreases s.len(),
{
    if s.len() == 0 {
        0
    } else {
        number_of(s.drop_last()) * 10 + (s.last() as int - '0' as int)
    }
}

/// A number is written with the digits that stand for it, without needless zeros.
pub proof fn law_decimal_stands_for_the_number(n: nat)
    ensures
        number_of(decimal(n)) == n,
        decimal(n).len() > 0,
        forall|i: int| 0 <= i < decimal(n).len() ==> '0' <= #[trigger] decimal(n)[i] <= '9',
        decimal(n)[0] == '0' ==> decimal(n).len() == 1,
        n > 0 ==> decimal(n)[0] != '0',
    decreases n,
{
    if n < 10 {
        assert(decimal(n).drop_last() =~= Seq::<char>::empty());
        assert(number_of(Seq::<char>::empty()) == 0);
    } else {
        law_decimal_stands_for_the_number(n / 10);
        assert(decimal(n).drop_last() =~= decimal(n / 10));
        assert(decimal(n)[0] == decimal(n / 10)[0]);
        assert forall|i: int| 0 <= i < decimal(n).len() implies '0' <= #[trigger] decimal(n)[i]
            <= '9' by {
            if i < decimal(n / 10).len() {
                assert(decimal(n)[i] == decimal(n / 10)[i]);
            }
        }
    }
}

/// The members of a list stand one after the other, whatever they are, with a comma and a blank
/// between any two: the text of two lists is that of the one, the comma, and that of the other.
pub proof fn law_lists_are_joined(items: Seq<Seq<char>>, more: Seq<Seq<char>>, one: Seq<char>)
    requires
        items.len() > 0,
        more.len() > 0,
    ensures
        joined(items + more) == joined(items) + ", "@ + joined(more),
        joined(seq![one]) == one,
        joined(seq![]) == Seq::<char>::empty(),
    decreases more.len(),
{
    let all = items + more;
    assert(all.drop_last() =~= items + more.drop_last());
    if more.len() == 1 {
        assert(all.drop_last() =~= items);
    } else {
        law_lists_are_joined(items, more.drop_last(), one);
        assert(joined(all) =~= joined(items) + ", "@ + joined(more));
    }
}

/// A list shows all its members, in their order and in brackets: bytes in decimal, texts in quotes.
pub proof fn law_lists_show_their_members(texts: Seq<Seq<char>>, bytes: Seq<u8>)
    ensures
        exists|m: Seq<Seq<char>>|
            {
                &&& listed_texts(texts) == "["@ + #[trigger] joined(m) + "]"@
                &&& m.len() == texts.len()
                &&& forall|i: int| 0 <= i < m.len() ==> #[trigger] m[i] == quoted(texts[i])
            },
        exists|m: Seq<Seq<char>>|
            {
                &&& listed_bytes(bytes) == "["@ + #[trigger] joined(m) + "]"@
                &&& m.len() == bytes.len()
                &&& forall|i: int| 0 <= i < m.len() ==> number_of(#[trigger] m[i]) == bytes[i]
            },
{
    let t = texts.map_values(|s: Seq<char>| quoted(s));
    assert(listed_texts(texts) == "["@ + joined(t) + "]"@);
    let b = bytes.map_values(|b: u8| decimal(b as nat));
    assert forall|i: int| 0 <= i < b.len() implies number_of(#[trigger] b[i]) == bytes[i] by {
        law_decimal_stands_for_the_number(bytes[i] as nat);
    }
    assert(listed_bytes(bytes) == "["@ + joined(b) + "]"@);
}

} // verus!
