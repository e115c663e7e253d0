//! What a client is told to do.
use crate::text::split_once;
use crate::util::error::StrError;
use tokio_rustls::rustls::pki_types::ServerName;
use vstd::prelude::*;

verus! {

/// Requests for `domain` go to `destination`.
#[derive(Debug)]
pub struct ForwardOption<A> {
    pub domain: String,
    pub destination: A,
}

/// The server, the domains to serve and the secret that both sides share.
#[derive(Debug)]
pub struct Options<A> {
    pub server: String,
    pub forward: Vec<ForwardOption<A>>,
    pub secret: String,
}

/// The names of the domains.
pub open spec fn domains<A>(forward: Seq<ForwardOption<A>>) -> Seq<Seq<char>> {
    forward.map_values(|f: ForwardOption<A>| f.domain@)
}

/// Where requests for `domain` go: to the destination of the first entry for it from `i` on.
pub open spec fn destination<A>(
    forward: Seq<ForwardOption<A>>,
    domain: Seq<char>,
    i: int,
) -> Option<A>
    decreases forward.len() - i,
{
    if i >= forward.len() {
        None
    } else if forward[i].domain@ == domain {
        Some(forward[i].destination)
    } else {
        destination(forward, domain, i + 1)
    }
}

/// The part of an address before its first colon.
pub open spec fn before_colon(address: Seq<char>) -> Seq<char> {
    address.take(crate::text::position(address, ':', 0))
}

/// Whether `name` is all of `address` up to a colon, or all of it, and holds no colon itself.
pub open spec fn is_before_colon(address: Seq<char>, name: Seq<char>) -> bool {
    &&& !name.contains(':')
    &&& address == name || exists|rest: Seq<char>| address == #[trigger] (name + seq![':'] + rest)
}

proof fn lemma_position_is(s: Seq<char>, c: char, i: int)
    requires
        0 <= i <= s.len(),
    ensures
        i <= crate::text::position(s, c, i) <= s.len(),
        forall|j: int| i <= j < crate::text::position(s, c, i) ==> s[j] != c,
        crate::text::position(s, c, i) < s.len() ==> s[crate::text::position(s, c, i)] == c,
    decreases s.len() - i,
{
    if i < s.len() && s[i] != c {
        lemma_position_is(s, c, i + 1);
    }
}

/// The name of the server holds no colon, and its address is that name, or that name, a colon and
/// the rest.
pub proof fn law_server_is_named_before_the_colon(address: Seq<char>)
    ensures
        is_before_colon(address, before_colon(address)),
        !before_colon(address).contains(':'),
        address == before_colon(address) || exists|rest: Seq<char>|
            address == #[trigger] (before_colon(address) + seq![':'] + rest),
{
    let name = before_colon(address);
    lemma_position_is(address, ':', 0);
    let i = crate::text::position(address, ':', 0);
    assert(forall|j: int| 0 <= j < name.len() ==> name[j] == address[j]);
    if i < address.len() {
        let rest = address.skip(i + 1);
        assert(address =~= name + seq![':'] + rest);
    } else {
        assert(address =~= name);
    }
}

/// What stands before the colon of an address is one name: no two names fit one address.
pub proof fn law_server_has_one_name(address: Seq<char>, a: Seq<char>, b: Seq<char>)
    requires
        is_before_colon(address, a),
        is_before_colon(address, b),
    ensures
        a == b,
{
    assert(address[a.len() as int] == ':' || a.len() == address.len()) by {
        if address != a {
            let rest = choose|rest: Seq<char>| address == #[trigger] (a + seq![':'] + rest);
        }
    }
    assert(address[b.len() as int] == ':' || b.len() == address.len()) by {
        if address != b {
            let rest = choose|rest: Seq<char>| address == #[trigger] (b + seq![':'] + rest);
        }
    }
    assert(a =~= address.take(a.len() as int));
    assert(b =~= address.take(b.len() as int));
    if a.len() < b.len() {
        assert(b[a.len() as int] == ':');
    }
    if b.len() < a.len() {
        assert(a[b.len() as int] == ':');
    }
}

/// The name of a server, as TLS asks for it, that `text` stands for, or the text of the error.
pub uninterp spec fn server_name_of(text: Seq<char>) -> Result<Seq<char>, Seq<char>>;

/// `ServerName::try_from` and `ServerName::to_str` of `rustls-pki-types`: a DNS name or an IP
/// address, in the form in which it is written. Which texts are one is not stated here; it depends
/// on the text alone.
#[verifier::external_body]
fn parse_server_name(text: &str) -> (r: Result<String, String>)
    ensures
        match server_name_of(text@) {
            Ok(name) => r matches Ok(s) && s@ == name,
            Err(error) => r matches Err(e) && e@ == error,
        },
{
    match ServerName::try_from(text) {
        Ok(name) => Ok(name.to_str().into_owned()),
        Err(err) => Err(err.to_string()),
    }
}

/// The name of the server whose address names `domain`, after `parsed` was made of it.
pub fn named_server(domain: &str, parsed: Result<String, String>) -> (r: Result<String, String>)
    ensures
        match parsed {
            Ok(name) => r == Ok::<String, String>(name),
            Err(e) => r matches Err(f) && f@ == domain@ + ": "@ + e@,
        },
{
    match parsed {
        Ok(name) => Ok(name),
        Err(e) => Err(domain.to_owned().concat(": ").concat(e.as_str())),
    }
}

impl<A> Options<A> {
    /// That part of the address of the server that names it.
    pub fn server_domain(&self) -> (r: &str)
        ensures
            r@ == before_colon(self.server@),
            is_before_colon(self.server@, r@),
    {
        proof {
            law_server_is_named_before_the_colon(self.server@);
        }
        match split_once(self.server.as_str(), ':') {
            Some((domain, _)) => domain,
            None => {
                proof {
                    crate::text::lemma_position(self.server@, ':', 0);
                    assert(self.server@.take(self.server@.len() as int) == self.server@);
                }
                self.server.as_str()
            },
        }
    }

    /// The name of the server that TLS has to ask for.
    pub fn server_name(&self) -> (r: Result<String, String>)
        ensures
            match server_name_of(before_colon(self.server@)) {
                Ok(name) => r matches Ok(s) && s@ == name,
                Err(error) => r matches Err(e) && e@ == before_colon(self.server@) + ": "@ + error,
            },
            exists|name: Seq<char>| #[trigger]
                is_before_colon(self.server@, name) && match server_name_of(name) {
                    Ok(tls) => r matches Ok(s) && s@ == tls,
                    Err(error) => r matches Err(e) && e@ == name + ": "@ + error,
                },
    {
        proof {
            law_server_is_named_before_the_colon(self.server@);
        }
        let domain = self.server_domain();
        named_server(domain, parse_server_name(domain))
    }

    /// The domains to serve.
    pub fn domain(&self) -> (r: Vec<String>)
        ensures
            r.deep_view() == domains(self.forward@),
    {
        let mut domain: Vec<String> = Vec::with_capacity(self.forward.len());
        let mut i: usize = 0;
        while i < self.forward.len()
            invariant
                i <= self.forward.len(),
                domain.len() == i,
                forall|j: int| 0 <= j < i ==> domain[j]@ == self.forward[j].domain@,
            decreases self.forward.len() - i,
        {
            domain.push(self.forward[i].domain.clone());
            i = i + 1;
        }
        assert(domain.deep_view() == domains(self.forward@));
        domain
    }

    /// Where requests for `domain` go.
    pub fn dest(&self, domain: &str) -> (r: Option<A>) where A: Copy
        ensures
            r == destination(self.forward@, domain@, 0),
    {
        let wanted: String = domain.to_owned();
        let mut i: usize = 0;
        while i < self.forward.len()
            invariant
                i <= self.forward.len(),
                wanted@ == domain@,
                destination(self.forward@, domain@, 0) == destination(
                    self.forward@,
                    domain@,
                    i as int,
                ),
            decreases self.forward.len() - i,
        {
            if self.forward[i].domain == wanted {
                return Some(self.forward[i].destination);
            }
            i = i + 1;
        }
        None
    }

    /// A client has to serve at least one domain.
    pub fn start(&self) -> (r: Result<(), StrError>)
        ensures
            r is Ok <==> self.forward@.len() > 0,
            r matches Err(e) ==> e@ == "missing required argument --forward <forward>"@,
    {
        if self.forward.len() == 0 {
            return Err(StrError::new("missing required argument --forward <forward>"));
        }
        Ok(())
    }
}

proof fn lemma_destination<A>(forward: Seq<ForwardOption<A>>, domain: Seq<char>, i: int)
    requires
        0 <= i <= forward.len(),
    ensures
        match destination(forward, domain, i) {
            Some(a) => exists|j: int|
                i <= j < forward.len() && #[trigger] forward[j].domain@ == domain
                    && forward[j].destination == a,
            None => forall|j: int|
                i <= j < forward.len() ==> #[trigger] forward[j].domain@ != domain,
        },
    decreases forward.len() - i,
{
    if i < forward.len() && forward[i].domain@ != domain {
        lemma_destination(forward, domain, i + 1);
    }
}

/// The domains that a client registers are those for which it has a destination, and requests for
/// one go to a destination that was given for it.
pub proof fn law_registered_domains_have_destinations<A>(
    forward: Seq<ForwardOption<A>>,
    domain: Seq<char>,
)
    ensures
        domains(forward).contains(domain) <==> destination(forward, domain, 0) is Some,
        destination(forward, domain, 0) matches Some(a) ==> exists|i: int|
            0 <= i < forward.len() && #[trigger] forward[i].domain@ == domain
                && forward[i].destination == a,
{
    lemma_destination(forward, domain, 0);
    if domains(forward).contains(domain) {
        let i = choose|i: int| 0 <= i < domains(forward).len() && domains(forward)[i] == domain;
        assert(forward[i].domain@ == domain);
    }
    if destination(forward, domain, 0) is Some {
        let j = choose|j: int|
            0 <= j < forward.len() && #[trigger] forward[j].domain@ == domain
                && forward[j].destination == destination(forward, domain, 0)->0;
        assert(domains(forward)[j] == domain);
    }
}

/// The domains that a client registers are those of its entries, one for one and in their order.
pub proof fn law_every_entry_is_registered<A>(forward: Seq<ForwardOption<A>>)
    ensures
        domains(forward).len() == forward.len(),
        forall|i: int|
            0 <= i < forward.len() ==> #[trigger] domains(forward)[i] == forward[i].domain@,
{
}

proof fn lemma_destination_is_first<A>(
    forward: Seq<ForwardOption<A>>,
    domain: Seq<char>,
    i: int,
    k: int,
)
    requires
        0 <= i <= k < forward.len(),
        forward[k].domain@ == domain,
        forall|j: int| i <= j < k ==> #[trigger] forward[j].domain@ != domain,
    ensures
        destination(forward, domain, i) == Some(forward[k].destination),
    decreases k - i,
{
    if i < k {
        lemma_destination_is_first(forward, domain, i + 1, k);
    }
}

/// Of several entries for a domain the first counts.
pub proof fn law_first_entry_counts<A>(forward: Seq<ForwardOption<A>>, domain: Seq<char>, k: int)
    requires
        0 <= k < forward.len(),
        forward[k].domain@ == domain,
        forall|j: int| 0 <= j < k ==> #[trigger] forward[j].domain@ != domain,
    ensures
        destination(forward, domain, 0) == Some(forward[k].destination),
{
    lemma_destination_is_first(forward, domain, 0, k);
}

/// Takes apart an entry of the form "domain:destination". The first colon divides it.
pub fn split_forward(s: &str) -> (r: Result<(&str, &str), String>)
    ensures
        ({
            let i = crate::text::position(s@, ':', 0);
            if i < s@.len() {
                r matches Ok((domain, dest)) && domain@ == s@.take(i) && dest@ == s@.skip(i + 1)
            } else {
                r matches Err(e) && e@ == s@ + ": invalid format"@
            }
        }),
        match r {
            Ok((domain, dest)) => s@ == domain@ + seq![':'] + dest@ && !domain@.contains(':'),
            Err(e) => !s@.contains(':') && e@ == s@ + ": invalid format"@,
        },
{
    proof {
        lemma_position_is(s@, ':', 0);
        let i = crate::text::position(s@, ':', 0);
        assert(forall|j: int| 0 <= j < i ==> s@.take(i)[j] == s@[j]);
        if i < s@.len() {
            assert(s@ =~= s@.take(i) + seq![':'] + s@.skip(i + 1));
        }
    }
    match split_once(s, ':') {
        Some((domain, dest)) => Ok((domain, dest)),
        None => Err(s.to_owned().concat(": invalid format")),
    }
}

impl<A> ForwardOption<A> {
    /// The entry for `domain`, after `parsed` was made of the destination `dest`.
    pub fn from_str(domain: &str, dest: &str, parsed: Result<A, String>) -> (r: Result<
        ForwardOption<A>,
        String,
    >)
        ensures
            match parsed {
                Ok(a) => r matches Ok(f) && f.domain@ == domain@ && f.destination == a,
                Err(e) => r matches Err(f) && f@ == dest@ + ": "@ + e@,
            },
    {
        match parsed {
            Ok(destination) => Ok(ForwardOption { domain: domain.to_owned(), destination }),
            Err(err) => Err(dest.to_owned().concat(": ").concat(err.as_str())),
        }
    }
}

} // verus!
