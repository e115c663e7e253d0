//! The certificate and the private key of the server, out of the contents of their files.
use tokio_rustls::rustls::pki_types::PrivateKeyDer;
use vstd::prelude::*;

verus! {

/// The encoding of a private key.
#[derive(Clone, Copy, Debug, PartialEq, Eq, Structural)]
pub enum KeyKind {
    Pkcs1,
    Sec1,
    Pkcs8,
    Other,
}

/// A private key: its encoding and the bytes of it.
#[derive(Debug)]
pub struct PrivateKey {
    pub kind: KeyKind,
    pub der: Vec<u8>,
}

/// The outcome of reading one section, by its contents.
pub open spec fn item_view(r: Result<Vec<u8>, String>) -> Result<Seq<u8>, Seq<char>> {
    match r {
        Ok(der) => Ok(der@),
        Err(e) => Err(e@),
    }
}

/// The outcome of looking for a key, by its contents; the encoding is given by its place among
/// the kinds.
pub open spec fn key_view(r: Result<Option<PrivateKey>, String>) -> Result<
    Option<(int, Seq<u8>)>,
    Seq<char>,
> {
    match r {
        Ok(Some(key)) => Ok(Some((kind_number(key.kind), key.der@))),
        Ok(None) => Ok(None),
        Err(e) => Err(e@),
    }
}

/// The place of `kind` among the kinds.
pub open spec fn kind_number(kind: KeyKind) -> int {
    match kind {
        KeyKind::Pkcs1 => 0,
        KeyKind::Sec1 => 1,
        KeyKind::Pkcs8 => 2,
        KeyKind::Other => 3,
    }
}

/// The certificates in the PEM file `data`, in their order, each as its bytes or as the text of
/// the error that stands in its place.
pub uninterp spec fn pem_certs(data: Seq<u8>) -> Seq<Result<Seq<u8>, Seq<char>>>;

/// The first private key in the PEM file `data`, if there is one.
pub uninterp spec fn pem_key(data: Seq<u8>) -> Result<Option<(int, Seq<u8>)>, Seq<char>>;

/// `rustls_pemfile::certs` over bytes in memory. What it yields depends on the bytes alone; the
/// syntax of PEM is not stated here.
#[verifier::external_body]
fn read_certs(data: &[u8]) -> (r: Vec<Result<Vec<u8>, String>>)
    ensures
        r@.map_values(|c: Result<Vec<u8>, String>| item_view(c)) == pem_certs(data@),
{
    let mut rd: &[u8] = data;
    rustls_pemfile::certs(&mut rd)
        .map(|c| c.map(|der| der.to_vec()).map_err(|e| e.to_string()))
        .collect()
}

/// `rustls_pemfile::private_key` over bytes in memory. What it finds depends on the bytes alone;
/// the syntax of PEM is not stated here.
#[verifier::external_body]
fn read_key(data: &[u8]) -> (r: Result<Option<PrivateKey>, String>)
    ensures
        key_view(r) == pem_key(data@),
{
    let mut rd: &[u8] = data;
    let key = rustls_pemfile::private_key(&mut rd).map_err(|e| e.to_string())?;
    Ok(key.map(|k| match k {
        PrivateKeyDer::Pkcs1(d) => PrivateKey { kind: KeyKind::Pkcs1, der: d.secret_pkcs1_der().to_vec() },
        PrivateKeyDer::Sec1(d) => PrivateKey { kind: KeyKind::Sec1, der: d.secret_sec1_der().to_vec() },
        PrivateKeyDer::Pkcs8(d) => PrivateKey { kind: KeyKind::Pkcs8, der: d.secret_pkcs8_der().to_vec() },
        other => PrivateKey { kind: KeyKind::Other, der: other.secret_der().to_vec() },
    }))
}

/// All of the certificates, or the first error.
pub open spec fn all_certs(items: Seq<Result<Seq<u8>, Seq<char>>>) -> Result<
    Seq<Seq<u8>>,
    Seq<char>,
>
    decreases items.len(),
{
    if items.len() == 0 {
        Ok(seq![])
    } else {
        match all_certs(items.drop_last()) {
            Ok(certs) => match items.last() {
                Ok(der) => Ok(certs.push(der)),
                Err(e) => Err(e),
            },
            Err(e) => Err(e),
        }
    }
}

/// Whether `r` is `certs` by its contents.
pub open spec fn same_certs(
    r: Result<Vec<Vec<u8>>, String>,
    certs: Result<Seq<Seq<u8>>, Seq<char>>,
) -> bool {
    match certs {
        Ok(v) => r matches Ok(w) && w.deep_view() == v,
        Err(e) => r matches Err(f) && f@ == e,
    }
}

proof fn lemma_first_error(items: Seq<Result<Seq<u8>, Seq<char>>>, n: int)
    requires
        0 <= n <= items.len(),
        all_certs(items.take(n)) is Err,
    ensures
        all_certs(items) == all_certs(items.take(n)),
    decreases items.len() - n,
{
    if n < items.len() {
        assert(items.take(n + 1).drop_last() == items.take(n));
        lemma_first_error(items, n + 1);
    } else {
        assert(items.take(n) == items);
    }
}

/// Gathers the certificates that were read; the first error stands for them all.
pub fn gather_certs(items: &Vec<Result<Vec<u8>, String>>) -> (r: Result<Vec<Vec<u8>>, String>)
    ensures
        same_certs(
            r,
            all_certs(items@.map_values(|c: Result<Vec<u8>, String>| item_view(c))),
        ),
        match r {
            Ok(certs) => {
                &&& certs@.len() == items@.len()
                &&& forall|i: int|
                    0 <= i < items@.len() ==> (#[trigger] items@[i] matches Ok(der) && certs@[i]@
                        == der@)
            },
            Err(e) => exists|i: int|
                {
                    &&& 0 <= i < items@.len()
                    &&& #[trigger] items@[i] matches Err(f)
                    &&& f@ == e@
                    &&& forall|j: int| 0 <= j < i ==> #[trigger] items@[j] is Ok
                },
        },
{
    let ghost all = items@.map_values(|c: Result<Vec<u8>, String>| item_view(c));
    let mut certs: Vec<Vec<u8>> = Vec::new();
    let mut i: usize = 0;
    assert(all.take(0) == Seq::<Result<Seq<u8>, Seq<char>>>::empty());
    assert(certs.deep_view() == Seq::<Seq<u8>>::empty());
    while i < items.len()
        invariant
            i <= items.len(),
            all == items@.map_values(|c: Result<Vec<u8>, String>| item_view(c)),
            all_certs(all.take(i as int)) == Ok::<Seq<Seq<u8>>, Seq<char>>(certs.deep_view()),
            certs.len() == i,
            forall|j: int|
                0 <= j < i ==> (#[trigger] items@[j] matches Ok(der) && certs@[j]@ == der@),
        decreases items.len() - i,
    {
        assert(all.take(i + 1).drop_last() == all.take(i as int));
        assert(all.take(i + 1).last() == item_view(items[i as int]));
        match &items[i] {
            Ok(der) => {
                let ghost before = certs.deep_view();
                let copy: Vec<u8> = vstd::slice::slice_to_vec(der.as_slice());
                certs.push(copy);
                assert(copy.deep_view() == der@);
                assert(certs.deep_view() == before.push(der@));
            },
            Err(e) => {
                proof {
                    lemma_first_error(all, i + 1);
                }
                return Err(e.clone());
            },
        }
        i = i + 1;
    }
    assert(all.take(items.len() as int) == all);
    Ok(certs)
}

/// The certificates in the file whose contents are `data`.
pub fn load_certs(data: &[u8]) -> (r: Result<Vec<Vec<u8>>, String>)
    ensures
        same_certs(r, all_certs(pem_certs(data@))),
        match r {
            Ok(certs) => {
                &&& certs@.len() == pem_certs(data@).len()
                &&& forall|i: int|
                    0 <= i < certs@.len() ==> #[trigger] pem_certs(data@)[i] == Ok::<
                        Seq<u8>,
                        Seq<char>,
                    >(certs@[i]@)
            },
            Err(e) => exists|i: int|
                {
                    &&& 0 <= i < pem_certs(data@).len()
                    &&& #[trigger] pem_certs(data@)[i] == Err::<Seq<u8>, Seq<char>>(e@)
                    &&& forall|j: int| 0 <= j < i ==> #[trigger] pem_certs(data@)[j] is Ok
                },
        },
{
    let r = gather_certs(&read_certs(data));
    proof {
        law_certificates_are_all_or_none(pem_certs(data@));
        law_certificates_are_given_whole(r, all_certs(pem_certs(data@)));
    }
    r
}

/// The key that was found in the file `path`; that there is none is an error.
pub fn found_key(found: Result<Option<PrivateKey>, String>, path: &str) -> (r: Result<
    PrivateKey,
    String,
>)
    ensures
        match found {
            Ok(Some(key)) => r == Ok::<PrivateKey, String>(key),
            Ok(None) => r matches Err(e) && e@ == "no key found in "@ + path@,
            Err(e) => r == Err::<PrivateKey, String>(e),
        },
{
    match found {
        Ok(Some(key)) => Ok(key),
        Ok(None) => Err("no key found in ".to_owned().concat(path)),
        Err(e) => Err(e),
    }
}

/// The private key in the file `path`, whose contents are `data`.
pub fn load_key(data: &[u8], path: &str) -> (r: Result<PrivateKey, String>)
    ensures
        match pem_key(data@) {
            Ok(Some((kind, der))) => r matches Ok(key) && kind_number(key.kind) == kind
                && key.der@ == der,
            Ok(None) => r matches Err(e) && e@ == "no key found in "@ + path@,
            Err(text) => r matches Err(e) && e@ == text,
        },
{
    found_key(read_key(data), path)
}

/// The certificates are all there, in their order, if each could be read; and if not, the first
/// error stands for them.
pub proof fn law_certificates_are_all_or_none(items: Seq<Result<Seq<u8>, Seq<char>>>)
    ensures
        match all_certs(items) {
            Ok(certs) => {
                &&& certs.len() == items.len()
                &&& forall|i: int|
                    0 <= i < items.len() ==> #[trigger] items[i] == Ok::<Seq<u8>, Seq<char>>(
                        certs[i],
                    )
            },
            Err(e) => exists|i: int|
                {
                    &&& 0 <= i < items.len()
                    &&& #[trigger] items[i] == Err::<Seq<u8>, Seq<char>>(e)
                    &&& forall|j: int| 0 <= j < i ==> #[trigger] items[j] is Ok
                },
        },
    decreases items.len(),
{
    if items.len() > 0 {
        let init = items.drop_last();
        law_certificates_are_all_or_none(init);
        assert forall|i: int| 0 <= i < init.len() implies #[trigger] items[i] == init[i] by {}
        match all_certs(init) {
            Ok(certs) => {
                let n = init.len() as int;
                assert(items[n] == items.last());
                assert forall|j: int| 0 <= j < n implies #[trigger] items[j] is Ok by {
                    assert(init[j] is Ok);
                }
                if let Ok(all) = all_certs(items) {
                    assert forall|i: int| 0 <= i < items.len() implies #[trigger] items[i] == Ok::<
                        Seq<u8>,
                        Seq<char>,
                    >(all[i]) by {
                        if i < n {
                            assert(init[i] == Ok::<Seq<u8>, Seq<char>>(certs[i]));
                        }
                    }
                }
            },
            Err(e) => {
                let i = choose|i: int|
                    {
                        &&& 0 <= i < init.len()
                        &&& #[trigger] init[i] == Err::<Seq<u8>, Seq<char>>(e)
                        &&& forall|j: int| 0 <= j < i ==> #[trigger] init[j] is Ok
                    };
                assert(items[i] == init[i]);
                assert forall|j: int| 0 <= j < i implies #[trigger] items[j] is Ok by {
                    assert(init[j] is Ok);
                }
            },
        }
    }
}

/// What is given for certificates holds them all, byte for byte and in their order, or says the error
/// that stands for them.
pub proof fn law_certificates_are_given_whole(
    r: Result<Vec<Vec<u8>>, String>,
    certs: Result<Seq<Seq<u8>>, Seq<char>>,
)
    requires
        same_certs(r, certs),
    ensures
        match (r, certs) {
            (Ok(w), Ok(v)) => w@.len() == v.len() && forall|i: int|
                0 <= i < v.len() ==> #[trigger] w@[i]@ == v[i],
            (Err(f), Err(e)) => f@ == e,
            _ => false,
        },
{
    if let (Ok(w), Ok(v)) = (r, certs) {
        assert forall|i: int| 0 <= i < v.len() implies #[trigger] w@[i]@ == v[i] by {
            assert(w.deep_view()[i] == w@[i].deep_view());
            assert(w@[i].deep_view() =~= w@[i]@);
        }
    }
}

/// The encodings of a key are told apart.
pub proof fn law_encodings_are_told_apart(a: KeyKind, b: KeyKind)
    ensures
        kind_number(a) == kind_number(b) <==> a == b,
{
}

/// What a reading of a key gives is known from its contents: its encoding and bytes, that there is
/// none, or the text of the error.
pub proof fn law_key_is_known_by_its_contents(
    a: Result<Option<PrivateKey>, String>,
    b: Result<Option<PrivateKey>, String>,
)
    ensures
        key_view(a) == key_view(b) <==> match (a, b) {
            (Ok(Some(x)), Ok(Some(y))) => x.kind == y.kind && x.der@ == y.der@,
            (Ok(None), Ok(None)) => true,
            (Err(x), Err(y)) => x@ == y@,
            _ => false,
        },
{
}

} // verus!
