//! Who serves which domain, and which requests wait for a connection.
use crate::protocol::{clock_before_epoch, id_taken, Id, IdCounter};
use crate::util::error::StrError;
use crate::util::select::Either;
use std::collections::HashMap;
use vstd::hash_map::StringHashMap;
use vstd::prelude::*;

verus! {

broadcast use vstd::std_specs::hash::group_hash_axioms;

/// Tells a client that a request for one of its domains waits.
#[derive(Debug)]
pub struct ForwardRequest {
    pub id: Id,
    pub domain: String,
}

/// Brings requests and clients together.
///
/// `S` is the way to a client, `W` wakes a request that waits, and `D` is the connection that a
/// client offers for it.
#[verifier::reject_recursive_types(S)]
pub struct Coordinator<S, W, D> {
    client: StringHashMap<S>,
    http: HashMap<u64, Either<W, D>>,
    ids: IdCounter,
}

/// A request on its way to a client. It has no number once it is over.
#[derive(Debug)]
pub struct RequestForward {
    pub domain: String,
    pub id: Option<Id>,
}

/// How it stands with a request.
#[derive(Debug)]
pub enum Forwarding<D> {
    /// It waits.
    Pending,
    /// It waits, and the client has to be told.
    Notify,
    /// It is over, with a connection or without.
    Ready(Option<D>),
}

/// The index, from `i` on, of the first of `names` that is in `taken`, or their number.
pub open spec fn first_taken(taken: Set<Seq<char>>, names: Seq<Seq<char>>, i: int) -> int
    decreases names.len() - i,
{
    if i < names.len() && !taken.contains(names[i]) {
        first_taken(taken, names, i + 1)
    } else {
        i
    }
}

/// Whether `after` is `before` with a way to the client `tx` under each of `names`.
pub open spec fn client_added<S: Clone>(
    before: Map<Seq<char>, S>,
    names: Seq<Seq<char>>,
    tx: S,
    after: Map<Seq<char>, S>,
) -> bool {
    &&& forall|d: Seq<char>| #[trigger]
        after.contains_key(d) <==> before.contains_key(d) || names.contains(d)
    &&& forall|d: Seq<char>| #[trigger]
        after.contains_key(d) ==> if names.contains(d) {
            cloned(tx, after[d])
        } else {
            after[d] == before[d]
        }
}

/// `clients` without those under `names`.
pub open spec fn client_removed<S>(clients: Map<Seq<char>, S>, names: Seq<Seq<char>>) -> Map<
    Seq<char>,
    S,
> {
    clients.remove_keys(names.to_set())
}

/// What becomes of the waiting requests, and who is woken, when a client offers `stream` for the
/// request `id`. An offer for a request that has a connection already makes an end of both.
pub open spec fn accept_step<W, D>(waiting: Map<u64, Either<W, D>>, id: u64, stream: D) -> (
    Map<u64, Either<W, D>>,
    Option<W>,
) {
    if waiting.contains_key(id) {
        match waiting[id] {
            Either::Left(waker) => (waiting.insert(id, Either::Right(stream)), Some(waker)),
            Either::Right(_) => (waiting.remove(id), None),
        }
    } else {
        (waiting, None)
    }
}

/// What becomes of the waiting requests when the request `id` is looked after, and how it stands
/// with it. `same` says that waking the waker that is kept wakes `waker` as well.
pub open spec fn poll_step<W, D>(
    waiting: Map<u64, Either<W, D>>,
    id: u64,
    waker: W,
    same: bool,
) -> (Map<u64, Either<W, D>>, Forwarding<D>) {
    if !waiting.contains_key(id) {
        (waiting.insert(id, Either::Left(waker)), Forwarding::Notify)
    } else {
        match waiting[id] {
            Either::Left(_) => (
                if same {
                    waiting
                } else {
                    waiting.insert(id, Either::Left(waker))
                },
                Forwarding::Pending,
            ),
            Either::Right(stream) => (waiting.remove(id), Forwarding::Ready(Some(stream))),
        }
    }
}

/// What is left of the waiting requests when the one with the number `id` is given up. One that is
/// over has no number, and nothing of it is kept.
pub open spec fn given_up<W, D>(waiting: Map<u64, Either<W, D>>, id: Option<Id>) -> Map<
    u64,
    Either<W, D>,
> {
    match id {
        Some(id) => waiting.remove(id@),
        None => waiting,
    }
}

proof fn lemma_one_name_more(names: Seq<Seq<char>>, k: int)
    requires
        0 <= k < names.len(),
    ensures
        forall|d: Seq<char>| #[trigger]
            names.take(k + 1).contains(d) <==> names.take(k).contains(d) || d == names[k],
{
    let now = names.take(k + 1);
    let prev = names.take(k);
    assert forall|d: Seq<char>| #[trigger] now.contains(d) <==> prev.contains(d) || d == names[k] by {
        if d == names[k] {
            assert(now[k] == d);
        }
        if prev.contains(d) {
            let j = choose|j: int| 0 <= j < prev.len() && prev[j] == d;
            assert(now[j] == d);
        }
        if now.contains(d) {
            let j = choose|j: int| 0 <= j < now.len() && now[j] == d;
            if j < k {
                assert(prev[j] == d);
            }
        }
    }
}

impl<S, W, D> Coordinator<S, W, D> {
    /// The ways to the clients, by domain.
    pub closed spec fn clients(&self) -> Map<Seq<char>, S> {
        self.client@
    }

    /// The requests, by number: those that wait, and those for which a connection has come.
    pub closed spec fn waiting(&self) -> Map<u64, Either<W, D>> {
        self.http@
    }

    /// The count that the number of the next request takes.
    pub closed spec fn count(&self) -> u32 {
        self.ids@
    }

    /// No clients and no requests.
    pub fn new() -> (r: Coordinator<S, W, D>)
        ensures
            r.clients() == Map::<Seq<char>, S>::empty(),
            r.waiting() == Map::<u64, Either<W, D>>::empty(),
            r.count() == 0,
    {
        Coordinator { client: StringHashMap::new(), http: HashMap::new(), ids: IdCounter::new() }
    }

    /// Enters the client that `tx` leads to for all of `domain`, or for none of them where one has
    /// a client already; the error names the first such domain.
    pub fn add_client(&mut self, domain: &Vec<String>, tx: &S) -> (r: Result<(), StrError>) where
        S: Clone,

        ensures
            final(self).waiting() == old(self).waiting(),
            final(self).count() == old(self).count(),
            ({
                let names = domain.deep_view();
                let i = first_taken(old(self).clients().dom(), names, 0);
                if i == names.len() {
                    &&& r is Ok
                    &&& client_added(old(self).clients(), names, *tx, final(self).clients())
                } else {
                    &&& r matches Err(e) && e@ == "domain "@ + names[i] + " exists"@
                    &&& final(self).clients() == old(self).clients()
                }
            }),
    {
        let ghost names = domain.deep_view();
        let ghost before = self.client@;
        let mut i: usize = 0;
        while i < domain.len()
            invariant
                i <= domain.len(),
                names == domain.deep_view(),
                self.client@ == before,
                first_taken(before.dom(), names, 0) == first_taken(before.dom(), names, i as int),
                forall|j: int| 0 <= j < i ==> !before.contains_key(#[trigger] names[j]),
            decreases domain.len() - i,
        {
            assert(names[i as int] == domain[i as int]@);
            if self.client.contains_key(domain[i].as_str()) {
                let mut text = "domain ".to_owned();
                text.append(domain[i].as_str());
                text.append(" exists");
                return Err(StrError::new(text.as_str()));
            }
            i = i + 1;
        }
        let mut k: usize = 0;
        while k < domain.len()
            invariant
                k <= domain.len(),
                names == domain.deep_view(),
                client_added(before, names.take(k as int), *tx, self.client@),
                self.http == old(self).http,
                self.ids == old(self).ids,
            decreases domain.len() - k,
        {
            assert(names[k as int] == domain[k as int]@);
            let copy = tx.clone();
            self.client.insert(domain[k].clone(), copy);
            proof {
                lemma_one_name_more(names, k as int);
            }
            k = k + 1;
        }
        assert(names.take(domain.len() as int) == names);
        Ok(())
    }

    /// Strikes out the clients of all of `domain`.
    pub fn remove_client(&mut self, domain: &Vec<String>)
        ensures
            final(self).clients() == client_removed(old(self).clients(), domain.deep_view()),
            final(self).waiting() == old(self).waiting(),
            final(self).count() == old(self).count(),
    {
        let ghost names = domain.deep_view();
        let ghost before = self.client@;
        let mut i: usize = 0;
        assert(client_removed(before, names.take(0)) == before);
        while i < domain.len()
            invariant
                i <= domain.len(),
                names == domain.deep_view(),
                self.client@ == client_removed(before, names.take(i as int)),
                self.http == old(self).http,
                self.ids == old(self).ids,
            decreases domain.len() - i,
        {
            assert(names[i as int] == domain[i as int]@);
            self.client.remove(domain[i].as_str());
            proof {
                lemma_one_name_more(names, i as int);
                let now = names.take(i + 1);
                assert(now.to_set() =~= names.take(i as int).to_set().insert(names[i as int]));
                assert(self.client@ =~= client_removed(before, now));
            }
            i = i + 1;
        }
        assert(names.take(domain.len() as int) == names);
    }

    /// Starts a request for `domain` under a new number. `None` where no number could be made.
    pub fn request_forward(&mut self, domain: &str) -> (r: Option<RequestForward>)
        ensures
            final(self).clients() == old(self).clients(),
            final(self).waiting() == old(self).waiting(),
            final(self).count() == (old(self).count() + 1) % 0x1_0000_0000,
            r matches Some(req) ==> {
                &&& req.domain@ == domain@
                &&& req.id matches Some(id) && id@ / 0x1_0000_0000 == old(self).count()
            },
            id_taken(
                old(self).count(),
                match r {
                    Some(req) => req.id,
                    None => None,
                },
            ),
            r is None && old(self).count() != 0 ==> clock_before_epoch(),
    {
        RequestForward::of(domain, Id::new(&mut self.ids))
    }

    /// The way to the client of `domain`, and what it has to be told of the request `id`.
    pub fn notify_client(&self, id: Id, domain: &str) -> (r: Option<(&S, ForwardRequest)>)
        ensures
            match r {
                Some((tx, req)) => {
                    &&& self.clients().contains_key(domain@)
                    &&& *tx == self.clients()[domain@]
                    &&& req.id == id
                    &&& req.domain@ == domain@
                },
                None => !self.clients().contains_key(domain@),
            },
    {
        match self.client.get(domain) {
            Some(tx) => Some((tx, ForwardRequest { id, domain: domain.to_owned() })),
            None => None,
        }
    }

    /// Takes the connection that a client offers for the request `id`, and says who has to be
    /// woken. Without a request that waits, nobody is, and the connection is dropped.
    pub fn accept_forward(&mut self, id: Id, stream: D) -> (r: Option<W>)
        ensures
            (final(self).waiting(), r) == accept_step(old(self).waiting(), id@, stream),
            final(self).clients() == old(self).clients(),
            final(self).count() == old(self).count(),
    {
        let key: u64 = id.get();
        match self.http.remove(&key) {
            Some(Either::Left(waker)) => {
                self.http.insert(key, Either::Right(stream));
                assert(self.http@ =~= old(self).http@.insert(key, Either::Right(stream)));
                Some(waker)
            },
            Some(Either::Right(_)) => None,
            None => {
                assert(self.http@ =~= old(self).http@);
                None
            },
        }
    }

    /// The waker that is kept for the request `id`.
    pub fn waker(&self, id: Id) -> (r: Option<&W>)
        ensures
            match r {
                Some(w) => self.waiting().contains_key(id@) && self.waiting()[id@]
                    == Either::<W, D>::Left(*w),
                None => self.waiting().contains_key(id@) ==> self.waiting()[id@] is Right,
            },
    {
        let key: u64 = id.get();
        match self.http.get(&key) {
            Some(Either::Left(waker)) => Some(waker),
            Some(Either::Right(_)) => None,
            None => None,
        }
    }
}

impl RequestForward {
    /// The request for `domain` under the number `id`. Without a number there is none.
    pub fn of(domain: &str, id: Option<Id>) -> (r: Option<RequestForward>)
        ensures
            r is Some <==> id is Some,
            r matches Some(req) ==> req.domain@ == domain@ && req.id == id,
    {
        match id {
            Some(_) => Some(RequestForward { domain: domain.to_owned(), id }),
            None => None,
        }
    }

    /// Looks after a request that is not over. `same` says that waking the waker that is kept for
    /// it wakes `waker` as well.
    pub fn poll<S, W, D>(
        &mut self,
        coordinator: &mut Coordinator<S, W, D>,
        waker: W,
        same: bool,
    ) -> (r: Forwarding<D>)
        requires
            old(self).id is Some,
        ensures
            (final(coordinator).waiting(), r) == poll_step(
                old(coordinator).waiting(),
                old(self).id->0@,
                waker,
                same,
            ),
            final(self).domain == old(self).domain,
            final(self).id == if r is Ready {
                None
            } else {
                old(self).id
            },
            final(coordinator).clients() == old(coordinator).clients(),
            final(coordinator).count() == old(coordinator).count(),
    {
        let id: Id = self.id.unwrap();
        let key: u64 = id.get();
        match coordinator.http.remove(&key) {
            None => {
                coordinator.http.insert(key, Either::Left(waker));
                Forwarding::Notify
            },
            Some(Either::Left(kept)) => {
                let keep: W = if same {
                    kept
                } else {
                    waker
                };
                coordinator.http.insert(key, Either::Left(keep));
                Forwarding::Pending
            },
            Some(Either::Right(stream)) => {
                self.id = None;
                Forwarding::Ready(Some(stream))
            },
        }
    }

    /// Says whether the client could be told of a request that waits. If not, the request is over.
    pub fn notified<S, W, D>(
        &mut self,
        coordinator: &mut Coordinator<S, W, D>,
        sent: bool,
    ) -> (r: Forwarding<D>)
        requires
            old(self).id is Some,
        ensures
            if sent {
                &&& r is Pending
                &&& *final(self) == *old(self)
                &&& final(coordinator).waiting() == old(coordinator).waiting()
            } else {
                &&& r == Forwarding::<D>::Ready(None)
                &&& final(self).id is None
                &&& final(self).domain == old(self).domain
                &&& final(coordinator).waiting() == given_up(
                    old(coordinator).waiting(),
                    old(self).id,
                )
            },
            final(coordinator).clients() == old(coordinator).clients(),
            final(coordinator).count() == old(coordinator).count(),
    {
        if sent {
            return Forwarding::Pending;
        }
        let id: Id = self.id.unwrap();
        let key: u64 = id.get();
        coordinator.http.remove(&key);
        self.id = None;
        Forwarding::Ready(None)
    }

    /// Gives up a request, however it stands with it: nothing is kept under its number any more.
    pub fn drop<S, W, D>(self, coordinator: &mut Coordinator<S, W, D>)
        ensures
            final(coordinator).waiting() == given_up(old(coordinator).waiting(), self.id),
            final(coordinator).clients() == old(coordinator).clients(),
            final(coordinator).count() == old(coordinator).count(),
    {
        if let Some(id) = self.id {
            let key: u64 = id.get();
            coordinator.http.remove(&key);
        }
    }
}

/// A client can be entered exactly if none of its domains has a client.
pub proof fn law_domains_are_exclusive(taken: Set<Seq<char>>, names: Seq<Seq<char>>)
    ensures
        first_taken(taken, names, 0) == names.len() <==> forall|i: int|
            0 <= i < names.len() ==> !taken.contains(#[trigger] names[i]),
{
    lemma_first_taken(taken, names, 0);
}

proof fn lemma_first_taken(taken: Set<Seq<char>>, names: Seq<Seq<char>>, i: int)
    requires
        0 <= i <= names.len(),
    ensures
        i <= first_taken(taken, names, i) <= names.len(),
        forall|j: int| i <= j < first_taken(taken, names, i) ==> !taken.contains(names[j]),
        first_taken(taken, names, i) < names.len() ==> taken.contains(
            names[first_taken(taken, names, i)],
        ),
    decreases names.len() - i,
{
    if i < names.len() && !taken.contains(names[i]) {
        lemma_first_taken(taken, names, i + 1);
    }
}

/// Where a client cannot be entered, the domain that is named has a client, and none before it has.
pub proof fn law_first_taken_domain_is_named(taken: Set<Seq<char>>, names: Seq<Seq<char>>)
    ensures
        ({
            let i = first_taken(taken, names, 0);
            &&& 0 <= i <= names.len()
            &&& i < names.len() ==> taken.contains(names[i])
            &&& forall|j: int| 0 <= j < i ==> !taken.contains(#[trigger] names[j])
        }),
{
    lemma_first_taken(taken, names, 0);
}

/// Entering a client enters it for all of its domains and for no other, and leaves every other client
/// as it was.
pub proof fn law_client_is_entered_for_its_domains<S: Clone>(
    before: Map<Seq<char>, S>,
    names: Seq<Seq<char>>,
    tx: S,
    after: Map<Seq<char>, S>,
)
    requires
        client_added(before, names, tx, after),
    ensures
        forall|i: int|
            0 <= i < names.len() ==> after.contains_key(#[trigger] names[i]) && cloned(
                tx,
                after[names[i]],
            ),
        forall|d: Seq<char>| #[trigger]
            after.contains_key(d) ==> before.contains_key(d) || names.contains(d),
        forall|d: Seq<char>| #[trigger]
            before.contains_key(d) && !names.contains(d) ==> after.contains_key(d) && after[d]
                == before[d],
{
    assert forall|i: int| 0 <= i < names.len() implies after.contains_key(#[trigger] names[i])
        && cloned(tx, after[names[i]]) by {
        assert(names.contains(names[i]));
        assert(after.contains_key(names[i]) <==> before.contains_key(names[i]) || names.contains(
            names[i],
        ));
    }
    assert forall|d: Seq<char>| #[trigger]
        before.contains_key(d) && !names.contains(d) implies after.contains_key(d) && after[d]
        == before[d] by {
        assert(after.contains_key(d) <==> before.contains_key(d) || names.contains(d));
    }
}

/// Striking a client out takes away its domains, whoever serves them, and leaves every other as it
/// was.
pub proof fn law_only_the_named_domains_are_struck_out<S>(
    clients: Map<Seq<char>, S>,
    names: Seq<Seq<char>>,
    domain: Seq<char>,
)
    ensures
        client_removed(clients, names).contains_key(domain) <==> clients.contains_key(domain)
            && !names.contains(domain),
        client_removed(clients, names).contains_key(domain) ==> client_removed(
            clients,
            names,
        )[domain] == clients[domain],
{
}

/// Striking a client out undoes entering it.
pub proof fn law_removing_undoes_adding<S: Clone>(
    before: Map<Seq<char>, S>,
    names: Seq<Seq<char>>,
    tx: S,
    after: Map<Seq<char>, S>,
)
    requires
        first_taken(before.dom(), names, 0) == names.len(),
        client_added(before, names, tx, after),
    ensures
        client_removed(after, names) == before,
{
    lemma_first_taken(before.dom(), names, 0);
    let end = client_removed(after, names);
    assert forall|d: Seq<char>| end.contains_key(d) == before.contains_key(d) by {
        assert(after.contains_key(d) <==> before.contains_key(d) || names.contains(d));
        if names.contains(d) {
            let i = choose|i: int| 0 <= i < names.len() && names[i] == d;
            assert(!before.dom().contains(names[i]));
        }
    }
    assert forall|d: Seq<char>| end.contains_key(d) implies end[d] == before[d] by {
        assert(after.contains_key(d));
    }
    assert(end =~= before);
}

/// A request for a domain that a client registered is told to that client, and registering leaves
/// the other clients as they were.
pub proof fn law_registered_client_is_told<S: Clone>(
    before: Map<Seq<char>, S>,
    names: Seq<Seq<char>>,
    tx: S,
    after: Map<Seq<char>, S>,
    domain: Seq<char>,
)
    requires
        client_added(before, names, tx, after),
    ensures
        names.contains(domain) ==> after.contains_key(domain) && cloned(tx, after[domain]),
        !names.contains(domain) ==> after.contains_key(domain) == before.contains_key(domain),
        !names.contains(domain) && before.contains_key(domain) ==> after[domain] == before[domain],
{
    assert(after.contains_key(domain) <==> before.contains_key(domain) || names.contains(domain));
}

/// A request that waits gets the connection that is offered under its number, its own waker is
/// woken for it, and nothing of it is left behind.
pub proof fn law_offer_reaches_request<W, D>(
    waiting: Map<u64, Either<W, D>>,
    id: u64,
    waker: W,
    stream: D,
    later: W,
    same: bool,
)
    requires
        !waiting.contains_key(id),
    ensures
        ({
            let (m1, r1) = poll_step(waiting, id, waker, same);
            let (m2, r2) = accept_step(m1, id, stream);
            let (m3, r3) = poll_step(m2, id, later, same);
            &&& r1 is Notify
            &&& r2 == Some(waker)
            &&& r3 == Forwarding::Ready(Some(stream))
            &&& m3 == waiting
        }),
{
    let (m1, r1) = poll_step(waiting, id, waker, same);
    let (m2, r2) = accept_step(m1, id, stream);
    let (m3, r3) = poll_step(m2, id, later, same);
    assert(m3 =~= waiting);
}

/// How it stands with a request when it is looked after: the client is told if nothing is kept of
/// the request, it goes on waiting if a waker is kept, and it has its connection if one is kept. What
/// is kept afterwards is the waker that is to be woken, or nothing.
pub proof fn law_request_waits_for_its_connection<W, D>(
    waiting: Map<u64, Either<W, D>>,
    id: u64,
    waker: W,
    same: bool,
)
    ensures
        ({
            let (m, r) = poll_step(waiting, id, waker, same);
            if !waiting.contains_key(id) {
                &&& r is Notify
                &&& m.contains_key(id)
                &&& m[id] == Either::<W, D>::Left(waker)
            } else if waiting[id] is Left {
                &&& r is Pending
                &&& m.contains_key(id)
                &&& same ==> m[id] == waiting[id]
                &&& !same ==> m[id] == Either::<W, D>::Left(waker)
            } else {
                &&& r == Forwarding::Ready(Some(waiting[id]->Right_0))
                &&& !m.contains_key(id)
            }
        }),
{
}

/// What an offer leads to: where a request waits, its waker is woken and the connection is kept for
/// it; where one has a connection, or none is there, nobody is woken and nothing is kept.
pub proof fn law_offer_wakes_who_waits<W, D>(
    waiting: Map<u64, Either<W, D>>,
    id: u64,
    stream: D,
)
    ensures
        ({
            let (m, r) = accept_step(waiting, id, stream);
            if waiting.contains_key(id) && waiting[id] is Left {
                &&& r == Some(waiting[id]->Left_0)
                &&& m.contains_key(id)
                &&& m[id] == Either::<W, D>::Right(stream)
            } else {
                &&& r is None
                &&& !m.contains_key(id)
            }
        }),
{
}

/// However often a request is looked after while it waits, the offer wakes the waker that was given
/// last, or the one that is kept where that wakes the same, and the request gets the connection.
pub proof fn law_last_waker_is_woken<W, D>(
    waiting: Map<u64, Either<W, D>>,
    id: u64,
    first: W,
    second: W,
    same: bool,
    stream: D,
)
    requires
        !waiting.contains_key(id),
    ensures
        ({
            let m1 = poll_step(waiting, id, first, false).0;
            let (m2, r2) = poll_step(m1, id, second, same);
            let (m3, r3) = accept_step(m2, id, stream);
            let (m4, r4) = poll_step(m3, id, second, same);
            &&& r2 is Pending
            &&& r3 == Some(if same { first } else { second })
            &&& r4 == Forwarding::Ready(Some(stream))
            &&& m4 == waiting
        }),
{
    let m1 = poll_step(waiting, id, first, false).0;
    let m2 = poll_step(m1, id, second, same).0;
    let m3 = accept_step(m2, id, stream).0;
    let m4 = poll_step(m3, id, second, same).0;
    assert(m4 =~= waiting);
}

/// A request that is over has no number and giving it up changes nothing; giving up another takes
/// away what is kept under its number and nothing else.
pub proof fn law_giving_up_takes_one_number<W, D>(
    waiting: Map<u64, Either<W, D>>,
    id: Option<Id>,
    key: u64,
)
    ensures
        id is None ==> given_up(waiting, id) == waiting,
        given_up(waiting, id).contains_key(key) <==> waiting.contains_key(key) && (id matches Some(
            n,
        ) ==> n@ != key),
        given_up(waiting, id).contains_key(key) ==> given_up(waiting, id)[key] == waiting[key],
{
}

/// The client is told of a request once: while it waits it is not told again.
pub proof fn law_client_is_told_once<W, D>(
    waiting: Map<u64, Either<W, D>>,
    id: u64,
    waker: W,
    same: bool,
)
    ensures
        poll_step(waiting, id, waker, same).1 is Notify <==> !waiting.contains_key(id),
        poll_step(waiting, id, waker, same).1 is Notify || poll_step(
            waiting,
            id,
            waker,
            same,
        ).1 is Pending ==> poll_step(waiting, id, waker, same).0.contains_key(id),
{
}

/// However it stands with a request when it is given up, nothing is kept of it, a connection that is
/// offered for it later wakes nobody and is not kept, and every other request is as it was.
pub proof fn law_given_up_request_takes_no_offer<W, D>(
    waiting: Map<u64, Either<W, D>>,
    id: Id,
    other: u64,
    stream: D,
)
    requires
        other != id@,
    ensures
        ({
            let m = given_up(waiting, Some(id));
            &&& !m.contains_key(id@)
            &&& accept_step(m, id@, stream) == (m, None::<W>)
            &&& m.contains_key(other) == waiting.contains_key(other)
            &&& m[other] == waiting[other]
        }),
{
}

/// A request that is over takes no connection either: one that is offered for it later wakes nobody
/// and is not kept, and giving the request up then changes nothing.
pub proof fn law_finished_request_takes_no_offer<W, D>(
    waiting: Map<u64, Either<W, D>>,
    id: u64,
    waker: W,
    same: bool,
    stream: D,
)
    ensures
        ({
            let (m, r) = poll_step(waiting, id, waker, same);
            r is Ready ==> accept_step(m, id, stream) == (m, None::<W>) && given_up(m, None) == m
        }),
{
}

/// Nothing is kept of a request that is over.
pub proof fn law_nothing_is_left_of_a_request<W, D>(
    waiting: Map<u64, Either<W, D>>,
    id: u64,
    waker: W,
    same: bool,
)
    ensures
        poll_step(waiting, id, waker, same).1 is Ready ==> !poll_step(
            waiting,
            id,
            waker,
            same,
        ).0.contains_key(id),
{
}

/// Of two connections that are offered for a request before it is looked after again, neither is
/// used.
pub proof fn law_second_offer_ends_both<W, D>(
    waiting: Map<u64, Either<W, D>>,
    id: u64,
    first: D,
    second: D,
)
    requires
        waiting.contains_key(id),
        waiting[id] is Left,
    ensures
        ({
            let (m1, r1) = accept_step(waiting, id, first);
            let (m2, r2) = accept_step(m1, id, second);
            &&& r1 is Some
            &&& r2 is None
            &&& m2 == waiting.remove(id)
        }),
{
    let (m1, r1) = accept_step(waiting, id, first);
    let (m2, r2) = accept_step(m1, id, second);
    assert(m2 =~= waiting.remove(id));
}

/// What happens to one request leaves every other as it is.
pub proof fn law_requests_are_separate<W, D>(
    waiting: Map<u64, Either<W, D>>,
    id: u64,
    other: u64,
    waker: W,
    same: bool,
    stream: D,
)
    requires
        id != other,
    ensures
        ({
            let m = poll_step(waiting, id, waker, same).0;
            &&& m.contains_key(other) == waiting.contains_key(other)
            &&& m[other] == waiting[other]
        }),
        ({
            let m = accept_step(waiting, id, stream).0;
            &&& m.contains_key(other) == waiting.contains_key(other)
            &&& m[other] == waiting[other]
        }),
{
}

} // verus!
