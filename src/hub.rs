//! The hub: the registry of subscribed clients and the fan-out of each quote
//! to their bounded queues, without ever blocking on a slow or dead client.

use vstd::prelude::*;
use std::sync::Arc;
use crossbeam_channel::{Receiver, Sender};
use crate::text::{concat, decimal, decimal_string};
use crate::wire::StockQuote;

verus! {

/// Identifier of a subscribed client.
pub type ClientId = u64;

/// Queue capacity of each client unless stated otherwise.
pub const DEFAULT_QUEUE_CAPACITY: usize = 256;

/// Largest queue capacity a hub accepts.
pub const MAX_QUEUE_CAPACITY: usize = 1048576;

#[verifier::external_type_specification]
#[verifier::external_body]
#[verifier::reject_recursive_types(T)]
pub struct ExSender<T>(Sender<T>);

#[verifier::external_type_specification]
#[verifier::external_body]
#[verifier::reject_recursive_types(T)]
pub struct ExReceiver<T>(Receiver<T>);

/// What became of one non-blocking send.
#[derive(Debug, Clone, Copy, PartialEq, Eq, Structural)]
pub enum SendOutcome {
    /// The quote was queued.
    Sent,
    /// The queue was full; the quote was dropped.
    Full,
    /// The receiving end is gone; the quote was dropped.
    Disconnected,
}

/// The capacity of the channel that a sending end feeds.
pub uninterp spec fn sender_capacity(tx: Sender<Arc<StockQuote>>) -> Option<usize>;

/// The capacity of the channel that a receiving end reads.
pub uninterp spec fn receiver_capacity(rx: Receiver<Arc<StockQuote>>) -> Option<usize>;

/// Relies on `crossbeam_channel::bounded`: a new channel with room for
/// `cap` messages, which both ends report through `capacity()`; it panics
/// only for a capacity too large to allocate.
#[verifier::external_body]
fn open_queue(cap: usize) -> (r: (Sender<Arc<StockQuote>>, Receiver<Arc<StockQuote>>))
    requires
        0 < cap <= MAX_QUEUE_CAPACITY,
    ensures
        sender_capacity(r.0) == Some(cap),
        receiver_capacity(r.1) == Some(cap),
{
    crossbeam_channel::bounded(cap)
}

/// Relies on `crossbeam_channel::Sender::try_send`: queues without waiting,
/// or reports a full queue or a dropped receiver.
#[verifier::external_body]
fn try_deliver(tx: &Sender<Arc<StockQuote>>, q: Arc<StockQuote>) -> (r: SendOutcome) {
    match tx.try_send(q) {
        Ok(()) => SendOutcome::Sent,
        Err(crossbeam_channel::TrySendError::Full(_)) => SendOutcome::Full,
        Err(crossbeam_channel::TrySendError::Disconnected(_)) => SendOutcome::Disconnected,
    }
}

/// Relies on `<crossbeam_channel::Sender as Clone>::clone`: another handle on
/// the same channel, so of the same capacity.
#[verifier::external_body]
fn clone_sender(tx: &Sender<Arc<StockQuote>>) -> (r: Sender<Arc<StockQuote>>)
    ensures
        sender_capacity(r) == sender_capacity(*tx),
{
    tx.clone()
}

/// Relies on `<Arc as Clone>::clone`: another reference to the same quote.
#[verifier::external_body]
fn share_quote(q: &Arc<StockQuote>) -> (r: Arc<StockQuote>)
    ensures
        *r == **q,
{
    Arc::clone(q)
}

/// Why a client could not be registered.
#[derive(Debug, Clone, Copy, PartialEq, Eq, Structural)]
pub enum HubError {
    /// A client with this identifier is registered already.
    ClientAlreadyExists(ClientId),
}

impl HubError {
    /// The reason text of the error.
    pub fn message(&self) -> (r: String)
        ensures
            r@ == match *self {
                HubError::ClientAlreadyExists(cid) => "client already exists: "@ + decimal(
                    cid as nat,
                ),
            },
    {
        match self {
            HubError::ClientAlreadyExists(cid) => {
                let n = decimal_string(*cid);
                concat("client already exists: ", n.as_str())
            },
        }
    }
}

/// Counts of one broadcast.
#[derive(Debug, Clone, Copy, PartialEq, Eq, Structural)]
pub struct BroadcastStats {
    /// Clients whose queue took the quote.
    pub sent: usize,
    /// Clients whose queue was full.
    pub dropped_full: usize,
    /// Clients whose receiver was gone; they were evicted.
    pub dropped_dead: usize,
}

impl BroadcastStats {
    /// Whether the broadcast reached or dropped at least one client.
    pub fn not_empty(&self) -> (r: bool)
        ensures
            r == (self.sent + self.dropped_dead + self.dropped_full > 0),
    {
        self.sent > 0 || self.dropped_dead > 0 || self.dropped_full > 0
    }

    /// The counts as `sent=N dropped_full=N dropped_dead=N`.
    pub fn summary(&self) -> (r: String)
        ensures
            r@ == "sent="@ + decimal(self.sent as nat) + " dropped_full="@ + decimal(
                self.dropped_full as nat,
            ) + " dropped_dead="@ + decimal(self.dropped_dead as nat),
    {
        let a = concat("sent=", decimal_string(self.sent as u64).as_str());
        let b = concat(a.as_str(), " dropped_full=");
        let c = concat(b.as_str(), decimal_string(self.dropped_full as u64).as_str());
        let d = concat(c.as_str(), " dropped_dead=");
        concat(d.as_str(), decimal_string(self.dropped_dead as u64).as_str())
    }
}

/// One registered client: its identifier and the producer end of its queue.
pub struct ClientSlot {
    pub cid: ClientId,
    pub tx: Sender<Arc<StockQuote>>,
}

/// The identifiers of a list of slots, in order.
pub open spec fn slot_ids(s: Seq<ClientSlot>) -> Seq<ClientId> {
    s.map_values(|c: ClientSlot| c.cid)
}

/// The outcome of handing one quote to a list of queues.
pub struct Delivery {
    pub stats: BroadcastStats,
    /// The clients whose receiver was gone, in the order of the list.
    pub dead: Vec<ClientId>,
    /// What each send reported, in the order of the list.
    pub outcomes: Vec<SendOutcome>,
}

/// How many sends of `outs` reported `o`.
pub open spec fn count_of(outs: Seq<SendOutcome>, o: SendOutcome) -> nat
    decreases outs.len(),
{
    if outs.len() == 0 {
        0
    } else {
        count_of(outs.drop_last(), o) + if outs.last() == o {
            1nat
        } else {
            0nat
        }
    }
}

/// The clients of `ids` whose send in `outs` (same positions) reported a
/// gone receiver, in order.
pub open spec fn dead_ids(ids: Seq<ClientId>, outs: Seq<SendOutcome>) -> Seq<ClientId>
    decreases ids.len(),
{
    if ids.len() == 0 || outs.len() == 0 {
        Seq::<ClientId>::empty()
    } else {
        let rest = dead_ids(ids.drop_last(), outs.drop_last());
        if outs.last() == SendOutcome::Disconnected {
            rest.push(ids.last())
        } else {
            rest
        }
    }
}

/// Every send is counted under exactly one outcome.
pub proof fn lemma_counts_total(outs: Seq<SendOutcome>)
    ensures
        count_of(outs, SendOutcome::Sent) + count_of(outs, SendOutcome::Full) + count_of(
            outs,
            SendOutcome::Disconnected,
        ) == outs.len(),
    decreases outs.len(),
{
    if outs.len() > 0 {
        lemma_counts_total(outs.drop_last());
    }
}

/// The dead list holds one entry per gone receiver: exactly the clients
/// whose send reported it, each once when the clients are distinct.
pub proof fn lemma_dead_ids(ids: Seq<ClientId>, outs: Seq<SendOutcome>)
    requires
        ids.len() == outs.len(),
    ensures
        dead_ids(ids, outs).len() == count_of(outs, SendOutcome::Disconnected),
        forall|x: ClientId|
            dead_ids(ids, outs).contains(x) <==> exists|i: int|
                0 <= i < ids.len() && #[trigger] ids[i] == x && outs[i]
                    == SendOutcome::Disconnected,
        ids.no_duplicates() ==> dead_ids(ids, outs).no_duplicates(),
    decreases ids.len(),
{
    if ids.len() > 0 {
        let i0 = ids.drop_last();
        let o0 = outs.drop_last();
        lemma_dead_ids(i0, o0);
        let rest = dead_ids(i0, o0);
        let n = ids.len() - 1;
        assert forall|x: ClientId|
            dead_ids(ids, outs).contains(x) <==> exists|i: int|
                0 <= i < ids.len() && #[trigger] ids[i] == x && outs[i]
                    == SendOutcome::Disconnected by {
            if dead_ids(ids, outs).contains(x) {
                if rest.contains(x) {
                    let i = choose|i: int|
                        0 <= i < i0.len() && #[trigger] i0[i] == x && o0[i]
                            == SendOutcome::Disconnected;
                    assert(ids[i] == x && outs[i] == SendOutcome::Disconnected);
                } else {
                    let k = choose|k: int|
                        0 <= k < dead_ids(ids, outs).len() && dead_ids(ids, outs)[k] == x;
                    assert(outs.last() == SendOutcome::Disconnected);
                    assert(dead_ids(ids, outs) == rest.push(ids.last()));
                    if k < rest.len() {
                        assert(rest[k] == x);
                    }
                    assert(ids[n] == x);
                }
            }
            if exists|i: int|
                0 <= i < ids.len() && #[trigger] ids[i] == x && outs[i]
                    == SendOutcome::Disconnected {
                let i = choose|i: int|
                    0 <= i < ids.len() && #[trigger] ids[i] == x && outs[i]
                        == SendOutcome::Disconnected;
                if i < n {
                    assert(i0[i] == x && o0[i] == SendOutcome::Disconnected);
                    assert(rest.contains(x));
                    let k = choose|k: int| 0 <= k < rest.len() && rest[k] == x;
                    if outs.last() == SendOutcome::Disconnected {
                        assert(rest.push(ids.last())[k] == x);
                    }
                } else {
                    assert(rest.push(ids.last())[rest.len() as int] == x);
                }
            }
        }
        if ids.no_duplicates() {
            assert(i0.no_duplicates()) by {
                assert forall|a: int, b: int| 0 <= a < b < i0.len() implies i0[a] != i0[b] by {
                    assert(i0[a] == ids[a] && i0[b] == ids[b]);
                }
            }
            if outs.last() == SendOutcome::Disconnected {
                let d = rest.push(ids.last());
                assert(!rest.contains(ids.last())) by {
                    if rest.contains(ids.last()) {
                        let i = choose|i: int|
                            0 <= i < i0.len() && #[trigger] i0[i] == ids.last() && o0[i]
                                == SendOutcome::Disconnected;
                        assert(ids[i] == ids[n]);
                    }
                }
                assert forall|a: int, b: int| 0 <= a < b < d.len() implies d[a] != d[b] by {
                    if b == rest.len() {
                        assert(rest[a] == d[a]);
                        assert(rest.contains(d[a]));
                    } else {
                        assert(d[a] == rest[a] && d[b] == rest[b]);
                    }
                }
            }
        }
    }
}

/// Counts the outcomes of the sends to the clients `ids`: the result is
/// exactly the number of each outcome and the list of clients whose
/// receiver was gone.
pub fn tally(ids: &Vec<ClientId>, outcomes: Vec<SendOutcome>) -> (r: Delivery)
    requires
        ids@.len() == outcomes@.len(),
    ensures
        r.outcomes@ == outcomes@,
        r.stats.sent == count_of(outcomes@, SendOutcome::Sent),
        r.stats.dropped_full == count_of(outcomes@, SendOutcome::Full),
        r.stats.dropped_dead == count_of(outcomes@, SendOutcome::Disconnected),
        r.dead@ == dead_ids(ids@, outcomes@),
{
    let mut sent: usize = 0;
    let mut full: usize = 0;
    let mut dead: Vec<ClientId> = Vec::new();
    let mut i: usize = 0;
    while i < outcomes.len()
        invariant
            i <= outcomes@.len() == ids@.len(),
            sent == count_of(outcomes@.take(i as int), SendOutcome::Sent),
            full == count_of(outcomes@.take(i as int), SendOutcome::Full),
            dead@ == dead_ids(ids@.take(i as int), outcomes@.take(i as int)),
            dead@.len() == count_of(outcomes@.take(i as int), SendOutcome::Disconnected),
        decreases outcomes.len() - i,
    {
        let ghost ot = outcomes@.take(i + 1);
        let ghost it = ids@.take(i + 1);
        assert(ot.drop_last() =~= outcomes@.take(i as int));
        assert(it.drop_last() =~= ids@.take(i as int));
        proof {
            lemma_counts_total(outcomes@.take(i as int));
        }
        match outcomes[i] {
            SendOutcome::Sent => {
                sent += 1;
            },
            SendOutcome::Full => {
                full += 1;
            },
            SendOutcome::Disconnected => {
                dead.push(ids[i]);
            },
        }
        i += 1;
    }
    assert(outcomes@.take(outcomes@.len() as int) =~= outcomes@);
    assert(ids@.take(ids@.len() as int) =~= ids@);
    let n = dead.len();
    Delivery { stats: BroadcastStats { sent, dropped_full: full, dropped_dead: n }, dead, outcomes }
}

/// The registry of subscribed clients.
pub struct Hub {
    clients: Vec<ClientSlot>,
    capacity_per_client: usize,
}

impl View for Hub {
    type V = Set<ClientId>;

    closed spec fn view(&self) -> Set<ClientId> {
        slot_ids(self.clients@).to_set()
    }
}

impl Hub {
    /// Each client appears once; the queue capacity is in range.
    pub closed spec fn wf(&self) -> bool {
        &&& slot_ids(self.clients@).no_duplicates()
        &&& 0 < self.capacity_per_client <= MAX_QUEUE_CAPACITY
        &&& forall|k: int|
            0 <= k < self.clients@.len() ==> sender_capacity(#[trigger] self.clients@[k].tx) == Some(
                self.capacity_per_client,
            )
    }

    /// The capacity of each client's queue.
    pub closed spec fn capacity(&self) -> usize {
        self.capacity_per_client
    }

    proof fn lemma_len(&self)
        requires
            self.wf(),
        ensures
            self@.len() == self.clients@.len(),
            self@.finite(),
    {
        slot_ids(self.clients@).unique_seq_to_set();
    }

    /// An empty hub whose clients get queues of the default capacity.
    pub fn new() -> (r: Hub)
        ensures
            r.wf(),
            r@ == Set::<ClientId>::empty(),
            r.capacity() == DEFAULT_QUEUE_CAPACITY,
    {
        Hub::with_capacity(DEFAULT_QUEUE_CAPACITY)
    }

    /// An empty hub whose clients get queues of capacity `cap`.
    pub fn with_capacity(cap: usize) -> (r: Hub)
        requires
            0 < cap <= MAX_QUEUE_CAPACITY,
        ensures
            r.wf(),
            r@ == Set::<ClientId>::empty(),
            r.capacity() == cap,
    {
        let r = Hub { clients: Vec::new(), capacity_per_client: cap };
        assert(slot_ids(r.clients@) =~= Seq::<ClientId>::empty());
        r
    }

    /// The number of registered clients.
    pub fn len(&self) -> (r: usize)
        requires
            self.wf(),
        ensures
            r == self@.len(),
    {
        proof {
            self.lemma_len();
        }
        self.clients.len()
    }

    /// The position of client `cid` in the registry, if registered.
    fn position(&self, cid: ClientId) -> (r: Option<usize>)
        ensures
            r matches Some(i) ==> i < self.clients@.len() && self.clients@[i as int].cid == cid,
            r is None <==> !self@.contains(cid),
    {
        let mut i: usize = 0;
        while i < self.clients.len()
            invariant
                i <= self.clients@.len(),
                forall|k: int| 0 <= k < i ==> (#[trigger] self.clients@[k]).cid != cid,
            decreases self.clients.len() - i,
        {
            if self.clients[i].cid == cid {
                proof {
                    assert(slot_ids(self.clients@)[i as int] == cid);
                }
                return Some(i);
            }
            i += 1;
        }
        proof {
            if self@.contains(cid) {
                let k = choose|k: int|
                    0 <= k < slot_ids(self.clients@).len() && slot_ids(self.clients@)[k] == cid;
                assert(self.clients@[k].cid == cid);
            }
        }
        None
    }

    /// Whether client `cid` is registered.
    pub fn contains(&self, cid: ClientId) -> (r: bool)
        ensures
            r == self@.contains(cid),
    {
        self.position(cid).is_some()
    }

    /// Registers client `cid` with a new bounded queue and hands back the
    /// receiving end; refused when `cid` is registered already.
    pub fn add_client(&mut self, cid: ClientId) -> (r: Result<Receiver<Arc<StockQuote>>, HubError>)
        requires
            old(self).wf(),
        ensures
            final(self).wf(),
            final(self).capacity() == old(self).capacity(),
            old(self)@.contains(cid) <==> r is Err,
            r matches Err(e) ==> e == HubError::ClientAlreadyExists(cid) && final(self)@ == old(
                self,
            )@,
            r is Ok ==> final(self)@ == old(self)@.insert(cid),
            r matches Ok(rx) ==> receiver_capacity(rx) == Some(final(self).capacity()),
    {
        if self.position(cid).is_some() {
            return Err(HubError::ClientAlreadyExists(cid));
        }
        let (tx, rx) = open_queue(self.capacity_per_client);
        let ghost ids0 = slot_ids(self.clients@);
        self.clients.push(ClientSlot { cid, tx });
        assert(slot_ids(self.clients@) =~= ids0.push(cid));
        proof {
            ids0.lemma_push_to_set_commute(cid);
        }
        Ok(rx)
    }

    /// Unregisters client `cid`; true iff it was registered.
    pub fn remove_client(&mut self, cid: ClientId) -> (r: bool)
        requires
            old(self).wf(),
        ensures
            final(self).wf(),
            final(self).capacity() == old(self).capacity(),
            r == old(self)@.contains(cid),
            final(self)@ == old(self)@.remove(cid),
    {
        match self.position(cid) {
            None => {
                assert(self@.remove(cid) =~= self@);
                false
            },
            Some(i) => {
                let ghost ids0 = slot_ids(self.clients@);
                let ghost cl0 = self.clients@;
                let _gone = self.clients.remove(i);
                let ghost ids1 = slot_ids(self.clients@);
                assert forall|k: int| 0 <= k < self.clients@.len() implies sender_capacity(
                    #[trigger] self.clients@[k].tx,
                ) == Some(self.capacity_per_client) by {
                    if k < i {
                        assert(self.clients@[k] == cl0[k]);
                    } else {
                        assert(self.clients@[k] == cl0[k + 1]);
                    }
                }
                assert(ids1 =~= ids0.remove(i as int));
                assert(ids1.no_duplicates()) by {
                    assert forall|a: int, b: int| 0 <= a < b < ids1.len() implies ids1[a]
                        != ids1[b] by {
                        let a0 = if a < i { a } else { a + 1 };
                        let b0 = if b < i { b } else { b + 1 };
                        assert(ids1[a] == ids0[a0]);
                        assert(ids1[b] == ids0[b0]);
                    }
                }
                assert(ids1.to_set() =~= ids0.to_set().remove(cid)) by {
                    assert forall|x: ClientId| ids1.to_set().contains(x) implies ids0.to_set().remove(
                        cid,
                    ).contains(x) by {
                        let k = choose|k: int| 0 <= k < ids1.len() && ids1[k] == x;
                        let k0 = if k < i { k } else { k + 1 };
                        assert(ids0[k0] == x);
                        assert(ids0[i as int] == cid);
                    }
                    assert forall|x: ClientId| ids0.to_set().remove(cid).contains(x) implies ids1.to_set().contains(
                        x,
                    ) by {
                        let k = choose|k: int| 0 <= k < ids0.len() && ids0[k] == x;
                        assert(k != i);
                        if k < i {
                            assert(ids1[k] == x);
                        } else {
                            assert(ids1[k - 1] == x);
                        }
                    }
                }
                true
            },
        }
    }

    /// The registered clients with a handle on each queue, taken at once so
    /// that sending can go on without the registry.
    pub fn snapshot(&self) -> (r: Vec<(ClientId, Sender<Arc<StockQuote>>)>)
        requires
            self.wf(),
        ensures
            r@.map_values(|p: (ClientId, Sender<Arc<StockQuote>>)| p.0).to_set() == self@,
            r@.map_values(|p: (ClientId, Sender<Arc<StockQuote>>)| p.0).no_duplicates(),
            forall|k: int|
                0 <= k < r@.len() ==> sender_capacity(#[trigger] r@[k].1) == Some(self.capacity()),
    {
        let mut r: Vec<(ClientId, Sender<Arc<StockQuote>>)> = Vec::new();
        let mut i: usize = 0;
        while i < self.clients.len()
            invariant
                i <= self.clients@.len(),
                r@.len() == i,
                self.wf(),
                forall|k: int|
                    0 <= k < r@.len() ==> sender_capacity(#[trigger] r@[k].1) == Some(
                        self.capacity_per_client,
                    ),
                r@.map_values(|p: (ClientId, Sender<Arc<StockQuote>>)| p.0) == slot_ids(
                    self.clients@,
                ).take(i as int),
            decreases self.clients.len() - i,
        {
            let slot = &self.clients[i];
            let tx = clone_sender(&slot.tx);
            let ghost r0 = r@;
            let pair = (slot.cid, tx);
            let ghost gp = pair;
            r.push(pair);
            assert(r@ =~= r0.push(gp));
            assert(slot_ids(self.clients@).take(i + 1) =~= slot_ids(self.clients@).take(
                i as int,
            ).push(self.clients@[i as int].cid));
            assert(r@.map_values(|p: (ClientId, Sender<Arc<StockQuote>>)| p.0) =~= slot_ids(
                self.clients@,
            ).take(i + 1));
            i += 1;
        }
        assert(slot_ids(self.clients@).take(self.clients@.len() as int) =~= slot_ids(
            self.clients@,
        ));
        proof {
            slot_ids(self.clients@).unique_seq_to_set();
        }
        r
    }

    /// Unregisters each client of `dead`.
    pub fn evict(&mut self, dead: &Vec<ClientId>)
        requires
            old(self).wf(),
        ensures
            final(self).wf(),
            final(self).capacity() == old(self).capacity(),
            final(self)@ == old(self)@.difference(dead@.to_set()),
    {
        let ghost start = self@;
        let mut i: usize = 0;
        while i < dead.len()
            invariant
                i <= dead@.len(),
                self.wf(),
                self.capacity() == old(self).capacity(),
                start == old(self)@,
                self@ == start.difference(dead@.take(i as int).to_set()),
            decreases dead.len() - i,
        {
            let ghost before = self@;
            self.remove_client(dead[i]);
            assert(dead@.take(i + 1) =~= dead@.take(i as int).push(dead@[i as int]));
            proof {
                dead@.take(i as int).lemma_push_to_set_commute(dead@[i as int]);
            }
            assert(self@ =~= start.difference(dead@.take(i + 1).to_set()));
            i += 1;
        }
        assert(dead@.take(dead@.len() as int) =~= dead@);
    }

    /// Hands quote `q` to every registered client without waiting, then
    /// evicts the clients whose receiver is gone. There is a listing `ids`
    /// of the registered clients and the outcomes `outs` of the one send to
    /// each such that the counts are those of the outcomes, and a client
    /// stays registered exactly when its send did not find its receiver
    /// gone.
    pub fn broadcast(&mut self, q: StockQuote) -> (r: BroadcastStats)
        requires
            old(self).wf(),
        ensures
            final(self).wf(),
            final(self).capacity() == old(self).capacity(),
            r.sent + r.dropped_full + r.dropped_dead == old(self)@.len(),
            exists|ids: Seq<ClientId>, outs: Seq<SendOutcome>|
                #![trigger dead_ids(ids, outs)]
                {
                    &&& ids.no_duplicates()
                    &&& ids.to_set() == old(self)@
                    &&& outs.len() == ids.len()
                    &&& r.sent == count_of(outs, SendOutcome::Sent)
                    &&& r.dropped_full == count_of(outs, SendOutcome::Full)
                    &&& r.dropped_dead == count_of(outs, SendOutcome::Disconnected)
                    &&& final(self)@ == old(self)@.difference(dead_ids(ids, outs).to_set())
                    &&& forall|i: int|
                        0 <= i < ids.len() ==> (final(self)@.contains(#[trigger] ids[i]) <==> outs[i]
                            != SendOutcome::Disconnected)
                },
            exists|d: Set<ClientId>|
                #![trigger old(self)@.difference(d)]
                d.subset_of(old(self)@) && d.len() == r.dropped_dead && final(self)@ == old(
                    self,
                )@.difference(d),
    {
        proof {
            self.lemma_len();
        }
        let shared = Arc::new(q);
        let targets = self.snapshot();
        let delivery = deliver(&targets, &shared);
        let ghost ids = targets@.map_values(|p: (ClientId, Sender<Arc<StockQuote>>)| p.0);
        let ghost outs = delivery.outcomes@;
        let ghost dl = delivery.dead@;
        let ghost d = dl.to_set();
        proof {
            ids.unique_seq_to_set();
            lemma_dead_ids(ids, outs);
            lemma_counts_total(outs);
            dl.unique_seq_to_set();
            assert(d.subset_of(old(self)@)) by {
                assert forall|x: ClientId| d.contains(x) implies old(self)@.contains(x) by {
                    assert(dl.contains(x));
                    let i = choose|i: int|
                        0 <= i < ids.len() && #[trigger] ids[i] == x && outs[i]
                            == SendOutcome::Disconnected;
                    assert(ids.to_set().contains(x));
                }
            }
        }
        self.evict(&delivery.dead);
        proof {
            self.lemma_len();
            assert forall|i: int| 0 <= i < ids.len() implies (self@.contains(#[trigger] ids[i])
                <==> outs[i] != SendOutcome::Disconnected) by {
                assert(ids.to_set().contains(ids[i]));
                if outs[i] == SendOutcome::Disconnected {
                    assert(dl.contains(ids[i]));
                } else if d.contains(ids[i]) {
                    assert(dl.contains(ids[i]));
                    let j = choose|j: int|
                        0 <= j < ids.len() && #[trigger] ids[j] == ids[i] && outs[j]
                            == SendOutcome::Disconnected;
                    assert(i == j);
                }
            }
            assert(dead_ids(ids, outs) == dl);
        }
        delivery.stats
    }
}

/// Hands quote `q` to each queue of `targets` without waiting, one send
/// each, and tallies what the sends reported (see `tally`).
pub fn deliver(targets: &Vec<(ClientId, Sender<Arc<StockQuote>>)>, q: &Arc<StockQuote>) -> (r:
    Delivery)
    ensures
        r.outcomes@.len() == targets@.len(),
        r.stats.sent == count_of(r.outcomes@, SendOutcome::Sent),
        r.stats.dropped_full == count_of(r.outcomes@, SendOutcome::Full),
        r.stats.dropped_dead == count_of(r.outcomes@, SendOutcome::Disconnected),
        r.dead@ == dead_ids(
            targets@.map_values(|p: (ClientId, Sender<Arc<StockQuote>>)| p.0),
            r.outcomes@,
        ),
{
    let mut ids: Vec<ClientId> = Vec::new();
    let mut outcomes: Vec<SendOutcome> = Vec::new();
    let mut i: usize = 0;
    while i < targets.len()
        invariant
            i <= targets@.len(),
            ids@ == targets@.map_values(|p: (ClientId, Sender<Arc<StockQuote>>)| p.0).take(
                i as int,
            ),
            outcomes@.len() == i,
        decreases targets.len() - i,
    {
        let outcome = try_deliver(&targets[i].1, share_quote(q));
        ids.push(targets[i].0);
        outcomes.push(outcome);
        assert(ids@ =~= targets@.map_values(|p: (ClientId, Sender<Arc<StockQuote>>)| p.0).take(
            i + 1,
        ));
        i += 1;
    }
    assert(ids@ =~= targets@.map_values(|p: (ClientId, Sender<Arc<StockQuote>>)| p.0));
    tally(&ids, outcomes)
}

/// One call on a hub together with what it returned: whether an
/// `add_client` succeeded, whether a `remove_client` found its client, how
/// many clients a `broadcast` evicted.
pub enum HubStep {
    Add { cid: ClientId, ok: bool },
    Remove { cid: ClientId, found: bool },
    Broadcast { evicted: nat },
}

/// `post` is a registry that the call `s` may leave behind from `pre`, as
/// the contracts of `add_client`, `remove_client` and `broadcast` say.
pub open spec fn step_allows(pre: Set<ClientId>, s: HubStep, post: Set<ClientId>) -> bool {
    match s {
        HubStep::Add { cid, ok } => ok == !pre.contains(cid) && post == if ok {
            pre.insert(cid)
        } else {
            pre
        },
        HubStep::Remove { cid, found } => found == pre.contains(cid) && post == pre.remove(cid),
        HubStep::Broadcast { evicted } => exists|d: Set<ClientId>|
            #![trigger pre.difference(d)]
            d.subset_of(pre) && d.len() == evicted && post == pre.difference(d),
    }
}

/// Successful registrations in a run of calls.
pub open spec fn count_added(steps: Seq<HubStep>) -> nat
    decreases steps.len(),
{
    if steps.len() == 0 {
        0
    } else {
        count_added(steps.drop_last()) + if steps.last() matches HubStep::Add { ok: true, .. } {
            1nat
        } else {
            0nat
        }
    }
}

/// Removals that found their client in a run of calls.
pub open spec fn count_removed(steps: Seq<HubStep>) -> nat
    decreases steps.len(),
{
    if steps.len() == 0 {
        0
    } else {
        count_removed(steps.drop_last()) + if steps.last() matches HubStep::Remove {
            found: true,
            ..
        } {
            1nat
        } else {
            0nat
        }
    }
}

/// Clients evicted by the broadcasts of a run of calls.
pub open spec fn count_evicted(steps: Seq<HubStep>) -> nat
    decreases steps.len(),
{
    if steps.len() == 0 {
        0
    } else {
        count_evicted(steps.drop_last()) + match steps.last() {
            HubStep::Broadcast { evicted } => evicted,
            _ => 0nat,
        }
    }
}

/// Client count over any run of hub calls: after the calls `steps`, which
/// took the registry through `regs[0]`, `regs[1]`, ..., the number of
/// registered clients is the number at the start plus the successful
/// registrations, less the removals that found their client and the
/// evictions by broadcasts.
pub proof fn lemma_client_count(steps: Seq<HubStep>, regs: Seq<Set<ClientId>>)
    requires
        regs.len() == steps.len() + 1,
        regs[0].finite(),
        forall|i: int| 0 <= i < steps.len() ==> step_allows(regs[i], #[trigger] steps[i], regs[i + 1]),
    ensures
        regs.last().finite(),
        regs.last().len() + count_removed(steps) + count_evicted(steps) == regs[0].len()
            + count_added(steps),
    decreases steps.len(),
{
    if steps.len() > 0 {
        let n = steps.len() - 1;
        let prev = steps.drop_last();
        let rprev = regs.drop_last();
        assert forall|i: int| 0 <= i < prev.len() implies step_allows(
            rprev[i],
            #[trigger] prev[i],
            rprev[i + 1],
        ) by {
            assert(step_allows(regs[i], steps[i], regs[i + 1]));
        }
        lemma_client_count(prev, rprev);
        let pre = regs[n];
        let post = regs[n + 1];
        assert(step_allows(pre, steps[n], post));
        assert(rprev.last() == pre);
        match steps[n] {
            HubStep::Add { cid, ok } => {
                if ok {
                    vstd::set::axiom_set_insert_len(pre, cid);
                }
            },
            HubStep::Remove { cid, found } => {
                if found {
                    vstd::set::axiom_set_remove_len(pre, cid);
                } else {
                    assert(post =~= pre);
                }
            },
            HubStep::Broadcast { evicted } => {
                let d = choose|d: Set<ClientId>|
                    #![trigger pre.difference(d)]
                    d.subset_of(pre) && d.len() == evicted && post == pre.difference(d);
                vstd::set_lib::lemma_len_subset(d, pre);
                assert(pre.intersect(d) =~= d);
                vstd::set_lib::lemma_set_intersect_union_lens(pre, d);
                vstd::set_lib::lemma_set_difference_len(pre, d);
            },
        }
    }
}

/// An evicted client stays out: a client that is not registered is not
/// registered after any run of calls that does not add it again, so no
/// later broadcast counts or reaches it.
pub proof fn lemma_absent_stays_out(steps: Seq<HubStep>, regs: Seq<Set<ClientId>>, cid: ClientId)
    requires
        regs.len() == steps.len() + 1,
        !regs[0].contains(cid),
        forall|i: int| 0 <= i < steps.len() ==> step_allows(regs[i], #[trigger] steps[i], regs[i + 1]),
        forall|i: int| 0 <= i < steps.len() ==> !(#[trigger] steps[i] matches HubStep::Add { cid: c, .. } && c == cid),
    ensures
        forall|i: int| 0 <= i < regs.len() ==> !(#[trigger] regs[i]).contains(cid),
    decreases steps.len(),
{
    if steps.len() > 0 {
        let n = steps.len() - 1;
        let prev = steps.drop_last();
        let rprev = regs.drop_last();
        assert forall|i: int| 0 <= i < prev.len() implies step_allows(
            rprev[i],
            #[trigger] prev[i],
            rprev[i + 1],
        ) by {
            assert(step_allows(regs[i], steps[i], regs[i + 1]));
        }
        assert forall|i: int| 0 <= i < prev.len() implies !(#[trigger] prev[i] matches HubStep::Add {
            cid: c,
            ..
        } && c == cid) by {
            assert(prev[i] == steps[i]);
        }
        lemma_absent_stays_out(prev, rprev, cid);
        assert(!rprev[n].contains(cid));
        assert(step_allows(regs[n], steps[n], regs[n + 1]));
        assert(!regs[n + 1].contains(cid)) by {
            match steps[n] {
                HubStep::Add { cid: c, ok } => {},
                HubStep::Remove { cid: c, found } => {},
                HubStep::Broadcast { evicted } => {
                    let d = choose|d: Set<ClientId>|
                        #![trigger regs[n].difference(d)]
                        d.subset_of(regs[n]) && d.len() == evicted && regs[n + 1] == regs[n].difference(d);
                },
            }
        }
        assert forall|i: int| 0 <= i < regs.len() implies !(#[trigger] regs[i]).contains(cid) by {
            if i <= n {
                assert(regs[i] == rprev[i]);
            }
        }
    }
}

} // verus!
