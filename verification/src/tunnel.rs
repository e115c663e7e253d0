//! What the two sides of the tunnel achieve together.
use crate::client::options::{
    destination, domains, law_registered_domains_have_destinations, ForwardOption,
};
use crate::server::coordinator::{
    accept_step, client_added, law_offer_reaches_request, law_registered_client_is_told, poll_step,
    Forwarding,
};
use crate::util::select::Either;
use vstd::prelude::*;

verus! {

/// A request for a domain that a client serves ends at a destination given for that domain.
///
/// `forward` are the entries of a client, which the server has registered under `tx`; `waiting` are
/// the requests that wait at the server. A request for `domain` takes the number `id` and waits.
/// The server finds the way to the client, the client has a destination for the domain, and the
/// connection `stream` that the client then offers under that number reaches the request, whose
/// waker is woken for it. The server's table of requests is as before.
pub proof fn law_request_reaches_its_destination<A, S: Clone, W, D>(
    forward: Seq<ForwardOption<A>>,
    before: Map<Seq<char>, S>,
    tx: S,
    after: Map<Seq<char>, S>,
    waiting: Map<u64, Either<W, D>>,
    domain: Seq<char>,
    id: u64,
    waker: W,
    later: W,
    same: bool,
    stream: D,
)
    requires
        client_added(before, domains(forward), tx, after),
        domains(forward).contains(domain),
        !waiting.contains_key(id),
    ensures
        after.contains_key(domain) && cloned(tx, after[domain]),
        destination(forward, domain, 0) is Some,
        exists|i: int|
            0 <= i < forward.len() && #[trigger] forward[i].domain@ == domain
                && destination(forward, domain, 0) == Some(forward[i].destination),
        ({
            let (m1, r1) = poll_step(waiting, id, waker, same);
            let (m2, r2) = accept_step(m1, id, stream);
            let (m3, r3) = poll_step(m2, id, later, same);
            &&& r1 is Notify
            &&& r2 == Some(waker)
            &&& r3 == Forwarding::Ready(Some(stream))
            &&& m3 == waiting
        }),
{
    law_registered_client_is_told(before, domains(forward), tx, after, domain);
    law_registered_domains_have_destinations(forward, domain);
    law_offer_reaches_request(waiting, id, waker, stream, later, same);
}

} // verus!
