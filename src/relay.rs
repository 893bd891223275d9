use vstd::prelude::*;

use crate::cache::{TxCache, contents_after_insert, order_after_insert, touch};
use crate::tx::{Inventory, Tx, TxId, TX_INV_KIND, same_id};

verus! {

/// How many transactions the deduplication cache holds.
pub const CACHE_SIZE: usize = 1000;

/// Seconds that must be exceeded between two sweeps of the node's own
/// unconfirmed transactions.
pub const ANNOUNCE_INTERVAL_SECS: u64 = 60;

/// A connected peer, as the transport layer numbers it.
pub type PeerId = u64;

/// A message that the relay asks the transport to send.
#[derive(Clone, Debug)]
pub enum Outbound {
    /// A `tx` message with this transaction, to this peer.
    SendTx(PeerId, Tx),
    /// A `getdata` message asking this peer for these transactions.
    GetData(PeerId, Vec<TxId>),
    /// An `inv` message naming this one transaction, to one peer chosen at
    /// random.
    Announce(TxId),
}

/// What an outbound message says.
pub enum OutboundView {
    SendTx(PeerId, (TxId, Seq<u8>)),
    GetData(PeerId, Seq<TxId>),
    Announce(TxId),
}

impl View for Outbound {
    type V = OutboundView;

    open spec fn view(&self) -> OutboundView {
        match self {
            Outbound::SendTx(p, t) => OutboundView::SendTx(*p, t@),
            Outbound::GetData(p, hs) => OutboundView::GetData(*p, hs@),
            Outbound::Announce(h) => OutboundView::Announce(*h),
        }
    }
}

/// A peer-to-peer message, as far as the relay reads it.
#[derive(Clone, Debug)]
pub enum Message {
    /// A request for the objects listed.
    GetData(Vec<Inventory>),
    /// An announcement of the objects listed.
    Inv(Vec<Inventory>),
    /// A transaction.
    Tx(Tx),
    /// Any other message; the relay ignores it.
    Other,
}

/// An event on the relay's inbound queue.
#[derive(Clone, Debug)]
pub enum Event {
    /// A message that a peer sent to this node.
    Incoming(PeerId, Message),
    /// A message that this node sends on its own account.
    Outgoing(Message),
    /// Anything else (a peer connecting or leaving); the relay ignores it.
    Other,
}

/// What handling one event asks of the transport and the store.
pub struct Step {
    /// Messages to send, in order.
    pub sends: Vec<Outbound>,
    /// Identifiers to look up once in the store, for the peer of the event
    /// (see `SendTx::serve_from_store`); empty where no lookup is needed.
    pub lookup: Vec<TxId>,
}

/// What a possible message becomes as a sequence of messages.
pub open spec fn opt_seq(o: Option<OutboundView>) -> Seq<OutboundView> {
    match o {
        Some(v) => seq![v],
        None => Seq::empty(),
    }
}

/// The messages sent at once for `event` while `held` is cached.
pub open spec fn event_sends(held: Map<TxId, Tx>, event: Event) -> Seq<OutboundView> {
    match event {
        Event::Incoming(p, Message::GetData(inv)) => cached_replies(tx_hashes_of(inv@), held, p),
        Event::Incoming(p, Message::Inv(inv)) => opt_seq(inv_reply(held, p, inv@)),
        Event::Incoming(_, Message::Tx(t)) => opt_seq(incoming_tx_reply(held, t)),
        Event::Outgoing(Message::Tx(t)) => seq![OutboundView::Announce(t.id)],
        _ => Seq::empty(),
    }
}

/// The identifiers left for the store after `event` while `held` is cached.
pub open spec fn event_lookup(held: Map<TxId, Tx>, event: Event) -> Seq<TxId> {
    match event {
        Event::Incoming(_, Message::GetData(inv)) => uncached(tx_hashes_of(inv@), held),
        _ => Seq::empty(),
    }
}

/// The cache's entries after `event`.
pub open spec fn event_contents(c: TxCache, event: Event) -> Map<TxId, Tx> {
    match event {
        Event::Incoming(_, Message::Tx(t)) => contents_after_insert(
            c.contents(),
            c.order(),
            t.id,
            t,
            c.capacity(),
        ),
        _ => c.contents(),
    }
}

/// The cache's recency order after `event`.
pub open spec fn event_order(c: TxCache, event: Event) -> Seq<TxId> {
    match event {
        Event::Incoming(_, Message::GetData(inv)) => touch_all(c.order(), tx_hashes_of(inv@)),
        Event::Incoming(_, Message::Inv(inv)) => touch_all(c.order(), tx_hashes_of(inv@)),
        Event::Incoming(_, Message::Tx(t)) => order_after_insert(c.order(), t.id, c.capacity()),
        _ => c.order(),
    }
}

/// What a sequence of outbound messages says.
pub open spec fn views(s: Seq<Outbound>) -> Seq<OutboundView> {
    s.map_values(|o: Outbound| o@)
}

/// What an optional outbound message says.
pub open spec fn opt_view(r: Option<Outbound>) -> Option<OutboundView> {
    match r {
        Some(o) => Some(o@),
        None => None,
    }
}

/// The hashes of the transaction entries of `inv`, in order.
pub open spec fn tx_hashes_of(inv: Seq<Inventory>) -> Seq<TxId>
    decreases inv.len(),
{
    if inv.len() == 0 {
        Seq::empty()
    } else {
        let rest = tx_hashes_of(inv.drop_last());
        if inv.last().kind == TX_INV_KIND {
            rest.push(inv.last().hash)
        } else {
            rest
        }
    }
}

/// The hashes of `hashes` that `held` has no entry for, in order.
pub open spec fn uncached(hashes: Seq<TxId>, held: Map<TxId, Tx>) -> Seq<TxId>
    decreases hashes.len(),
{
    if hashes.len() == 0 {
        Seq::empty()
    } else {
        let rest = uncached(hashes.drop_last(), held);
        if held.contains_key(hashes.last()) {
            rest
        } else {
            rest.push(hashes.last())
        }
    }
}

/// The transactions that `held` has for `hashes`, sent to `peer`, in order.
pub open spec fn cached_replies(hashes: Seq<TxId>, held: Map<TxId, Tx>, peer: PeerId) -> Seq<
    OutboundView,
>
    decreases hashes.len(),
{
    if hashes.len() == 0 {
        Seq::empty()
    } else {
        let rest = cached_replies(hashes.drop_last(), held, peer);
        if held.contains_key(hashes.last()) {
            rest.push(OutboundView::SendTx(peer, held[hashes.last()]@))
        } else {
            rest
        }
    }
}

/// The transactions of `store` whose identifier `missing` lists, sent to
/// `peer`, in store order.
pub open spec fn store_replies(store: Seq<Tx>, missing: Seq<TxId>, peer: PeerId) -> Seq<
    OutboundView,
>
    decreases store.len(),
{
    if store.len() == 0 {
        Seq::empty()
    } else {
        let rest = store_replies(store.drop_last(), missing, peer);
        if missing.contains(store.last().id) {
            rest.push(OutboundView::SendTx(peer, store.last()@))
        } else {
            rest
        }
    }
}

/// An announcement of each transaction of `store` that `held` has no entry
/// for, in store order.
pub open spec fn announcements(store: Seq<Tx>, held: Map<TxId, Tx>) -> Seq<OutboundView>
    decreases store.len(),
{
    if store.len() == 0 {
        Seq::empty()
    } else {
        let rest = announcements(store.drop_last(), held);
        if held.contains_key(store.last().id) {
            rest
        } else {
            rest.push(OutboundView::Announce(store.last().id))
        }
    }
}

/// `order` after touching each of `keys` in turn.
pub open spec fn touch_all(order: Seq<TxId>, keys: Seq<TxId>) -> Seq<TxId>
    decreases keys.len(),
{
    if keys.len() == 0 {
        order
    } else {
        touch(touch_all(order, keys.drop_last()), keys.last())
    }
}

/// The identifiers of `store`, in order.
pub open spec fn ids_of(store: Seq<Tx>) -> Seq<TxId> {
    store.map_values(|t: Tx| t.id)
}

/// The reply to a transaction received from a peer while `held` is cached:
/// an announcement where it is new, nothing where it is known.
pub open spec fn incoming_tx_reply(held: Map<TxId, Tx>, t: Tx) -> Option<OutboundView> {
    if held.contains_key(t.id) {
        None
    } else {
        Some(OutboundView::Announce(t.id))
    }
}

/// The reply to an `inv` listing `inv` while `held` is cached: a `getdata`
/// for the transactions not cached, or nothing where there are none.
pub open spec fn inv_reply(held: Map<TxId, Tx>, peer: PeerId, inv: Seq<Inventory>) -> Option<
    OutboundView,
> {
    let wanted = uncached(tx_hashes_of(inv), held);
    if wanted.len() == 0 {
        None
    } else {
        Some(OutboundView::GetData(peer, wanted))
    }
}

/// Whether a sweep is due at `now` after one at `last`, both in seconds.
pub open spec fn sweep_due(last: u64, now: u64) -> bool {
    now - last > ANNOUNCE_INTERVAL_SECS
}

/// Each transaction of `held` is held under its own identifier.
pub open spec fn keyed_by_id(held: Map<TxId, Tx>) -> bool {
    forall|k: TxId| #[trigger] held.contains_key(k) ==> held[k].id == k
}

/// How many of `out` send a transaction with identifier `h`.
pub open spec fn sends_of(out: Seq<OutboundView>, h: TxId) -> nat
    decreases out.len(),
{
    if out.len() == 0 {
        0
    } else {
        let last: nat = if out.last() matches OutboundView::SendTx(_, t) && t.0 == h {
            1
        } else {
            0
        };
        sends_of(out.drop_last(), h) + last
    }
}

/// The identifiers of the transaction entries of `inv`, in order.
pub fn tx_hashes(inv: &Vec<Inventory>) -> (r: Vec<TxId>)
    ensures
        r@ == tx_hashes_of(inv@),
{
    let mut r: Vec<TxId> = Vec::new();
    let mut i: usize = 0;
    while i < inv.len()
        invariant
            0 <= i <= inv.len(),
            r@ == tx_hashes_of(inv@.subrange(0, i as int)),
        decreases inv.len() - i,
    {
        proof {
            assert(inv@.subrange(0, i + 1).drop_last() =~= inv@.subrange(0, i as int));
        }
        if inv[i].kind == TX_INV_KIND {
            r.push(inv[i].hash);
        }
        i = i + 1;
    }
    proof {
        assert(inv@.subrange(0, inv.len() as int) =~= inv@);
    }
    r
}

/// Whether `ids` lists `id`.
pub fn lists_id(ids: &Vec<TxId>, id: &TxId) -> (r: bool)
    ensures
        r == ids@.contains(*id),
{
    let mut i: usize = 0;
    while i < ids.len()
        invariant
            0 <= i <= ids.len(),
            forall|j: int| 0 <= j < i ==> ids@[j] != *id,
        decreases ids.len() - i,
    {
        if same_id(&ids[i], id) {
            return true;
        }
        i = i + 1;
    }
    false
}

/// The relay's state: the deduplication cache and the time of the last
/// sweep of the node's own unconfirmed transactions.
pub struct SendTx {
    cache: TxCache,
    last_announcement: u64,
}

impl SendTx {
    /// The deduplication cache.
    pub closed spec fn cache(&self) -> TxCache {
        self.cache
    }

    /// The time of the last sweep, in seconds.
    pub closed spec fn last(&self) -> u64 {
        self.last_announcement
    }

    /// The cache is well formed, holds at most `CACHE_SIZE` entries, and
    /// holds each transaction under its identifier.
    pub open spec fn wf(&self) -> bool {
        &&& self.cache().wf()
        &&& self.cache().capacity() == CACHE_SIZE
        &&& keyed_by_id(self.cache().contents())
    }

    /// A relay with an empty cache whose last sweep was at `now`.
    pub fn new(now: u64) -> (r: SendTx)
        ensures
            r.wf(),
            r.cache().contents().dom() == Set::<TxId>::empty(),
            r.last() == now,
    {
        SendTx { cache: TxCache::new(CACHE_SIZE), last_announcement: now }
    }

    /// A transaction received from a peer: cached, and announced to one
    /// random peer where it was not cached before.
    pub fn on_incoming_tx(&mut self, tx: Tx) -> (r: Option<Outbound>)
        requires
            old(self).wf(),
        ensures
            final(self).wf(),
            opt_view(r) == incoming_tx_reply(old(self).cache().contents(), tx),
            final(self).cache().contents() == contents_after_insert(
                old(self).cache().contents(),
                old(self).cache().order(),
                tx.id,
                tx,
                old(self).cache().capacity(),
            ),
            final(self).cache().order() == order_after_insert(
                old(self).cache().order(),
                tx.id,
                old(self).cache().capacity(),
            ),
            final(self).last() == old(self).last(),
    {
        let id = tx.id;
        if self.cache.insert(id, tx) {
            Some(Outbound::Announce(id))
        } else {
            None
        }
    }

    /// A transaction that the node itself sends: announced to one random
    /// peer, whatever the cache holds.
    pub fn on_outgoing_tx(&self, tx: &Tx) -> (r: Outbound)
        ensures
            r@ == OutboundView::Announce(tx.id),
    {
        Outbound::Announce(tx.id)
    }

    /// An `inv` from `peer`: a `getdata` back to it for the announced
    /// transactions that are not cached, in the order announced, or nothing
    /// where there are none.
    pub fn on_inv(&mut self, peer: PeerId, inv: &Vec<Inventory>) -> (r: Option<Outbound>)
        requires
            old(self).wf(),
        ensures
            final(self).wf(),
            opt_view(r) == inv_reply(old(self).cache().contents(), peer, inv@),
            final(self).cache().contents() == old(self).cache().contents(),
            final(self).cache().order() == touch_all(old(self).cache().order(), tx_hashes_of(inv@)),
            final(self).last() == old(self).last(),
    {
        let ghost held = self.cache().contents();
        let ghost order = self.cache().order();
        let mut wanted: Vec<TxId> = Vec::new();
        let mut i: usize = 0;
        while i < inv.len()
            invariant
                0 <= i <= inv.len(),
                self.wf(),
                self.cache().contents() == held,
                self.cache().order() == touch_all(order, tx_hashes_of(inv@.subrange(0, i as int))),
                self.last() == old(self).last(),
                wanted@ == uncached(tx_hashes_of(inv@.subrange(0, i as int)), held),
            decreases inv.len() - i,
        {
            proof {
                assert(inv@.subrange(0, i + 1).drop_last() =~= inv@.subrange(0, i as int));
            }
            let e = inv[i];
            if e.kind == TX_INV_KIND {
                let ghost hs = tx_hashes_of(inv@.subrange(0, i + 1));
                proof {
                    assert(hs.drop_last() =~= tx_hashes_of(inv@.subrange(0, i as int)));
                }
                if !self.cache.contains(&e.hash) {
                    wanted.push(e.hash);
                }
            }
            i = i + 1;
        }
        proof {
            assert(inv@.subrange(0, inv.len() as int) =~= inv@);
        }
        if wanted.len() == 0 {
            None
        } else {
            Some(Outbound::GetData(peer, wanted))
        }
    }

    /// A `getdata` from `peer`: each requested transaction that is cached is
    /// sent to it at once, in the order requested; the identifiers of the
    /// others come back for one lookup in the store (see `serve_from_store`).
    /// No cached identifier is looked up in the store.
    pub fn on_get_data(&mut self, peer: PeerId, inv: &Vec<Inventory>) -> (r: (
        Vec<Outbound>,
        Vec<TxId>,
    ))
        requires
            old(self).wf(),
        ensures
            final(self).wf(),
            views(r.0@) == cached_replies(tx_hashes_of(inv@), old(self).cache().contents(), peer),
            r.1@ == uncached(tx_hashes_of(inv@), old(self).cache().contents()),
            final(self).cache().contents() == old(self).cache().contents(),
            final(self).cache().order() == touch_all(old(self).cache().order(), tx_hashes_of(inv@)),
            final(self).last() == old(self).last(),
    {
        let ghost held = self.cache().contents();
        let ghost order = self.cache().order();
        let hashes = tx_hashes(inv);
        let mut sent: Vec<Outbound> = Vec::new();
        let mut missing: Vec<TxId> = Vec::new();
        let mut i: usize = 0;
        while i < hashes.len()
            invariant
                0 <= i <= hashes.len(),
                hashes@ == tx_hashes_of(inv@),
                self.wf(),
                self.cache().contents() == held,
                self.cache().order() == touch_all(order, hashes@.subrange(0, i as int)),
                self.last() == old(self).last(),
                views(sent@) == cached_replies(hashes@.subrange(0, i as int), held, peer),
                missing@ == uncached(hashes@.subrange(0, i as int), held),
            decreases hashes.len() - i,
        {
            proof {
                assert(hashes@.subrange(0, i + 1).drop_last() =~= hashes@.subrange(0, i as int));
            }
            let h = hashes[i];
            match self.cache.get(&h) {
                Some(t) => {
                    let ghost before = sent@;
                    sent.push(Outbound::SendTx(peer, t));
                    proof {
                        assert(views(sent@) =~= views(before).push(sent@.last()@));
                    }
                },
                None => {
                    missing.push(h);
                },
            }
            i = i + 1;
        }
        proof {
            assert(hashes@.subrange(0, hashes.len() as int) =~= hashes@);
        }
        (sent, missing)
    }

    /// Handles one event to completion: a `getdata`, `inv` or `tx` from a
    /// peer, or a transaction of the node's own; every other event is
    /// ignored.
    pub fn handle(&mut self, event: Event) -> (r: Step)
        requires
            old(self).wf(),
        ensures
            final(self).wf(),
            views(r.sends@) == event_sends(old(self).cache().contents(), event),
            r.lookup@ == event_lookup(old(self).cache().contents(), event),
            final(self).cache().contents() == event_contents(old(self).cache(), event),
            final(self).cache().order() == event_order(old(self).cache(), event),
            final(self).last() == old(self).last(),
    {
        let ghost held = self.cache().contents();
        match event {
            Event::Incoming(peer, Message::GetData(inv)) => {
                let (sends, lookup) = self.on_get_data(peer, &inv);
                Step { sends, lookup }
            },
            Event::Incoming(peer, Message::Inv(inv)) => {
                let mut sends: Vec<Outbound> = Vec::new();
                if let Some(o) = self.on_inv(peer, &inv) {
                    sends.push(o);
                }
                proof {
                    assert(views(sends@) =~= opt_seq(inv_reply(held, peer, inv@)));
                }
                Step { sends, lookup: Vec::new() }
            },
            Event::Incoming(_, Message::Tx(tx)) => {
                let ghost t = tx;
                let mut sends: Vec<Outbound> = Vec::new();
                if let Some(o) = self.on_incoming_tx(tx) {
                    sends.push(o);
                }
                proof {
                    assert(views(sends@) =~= opt_seq(incoming_tx_reply(held, t)));
                }
                Step { sends, lookup: Vec::new() }
            },
            Event::Outgoing(Message::Tx(tx)) => {
                let mut sends: Vec<Outbound> = Vec::new();
                sends.push(self.on_outgoing_tx(&tx));
                proof {
                    assert(views(sends@) =~= seq![OutboundView::Announce(tx.id)]);
                }
                Step { sends, lookup: Vec::new() }
            },
            _ => {
                let sends: Vec<Outbound> = Vec::new();
                proof {
                    assert(views(sends@) =~= Seq::<OutboundView>::empty());
                }
                Step { sends, lookup: Vec::new() }
            },
        }
    }

    /// The store's part of answering a `getdata` from `peer`: each
    /// transaction of `store` whose identifier `missing` lists, sent to the
    /// peer in store order. Identifiers in neither get no answer.
    pub fn serve_from_store(peer: PeerId, missing: &Vec<TxId>, store: &Vec<Tx>) -> (r: Vec<
        Outbound,
    >)
        ensures
            views(r@) == store_replies(store@, missing@, peer),
    {
        let mut sent: Vec<Outbound> = Vec::new();
        let mut i: usize = 0;
        while i < store.len()
            invariant
                0 <= i <= store.len(),
                views(sent@) == store_replies(store@.subrange(0, i as int), missing@, peer),
            decreases store.len() - i,
        {
            proof {
                assert(store@.subrange(0, i + 1).drop_last() =~= store@.subrange(0, i as int));
            }
            if lists_id(missing, &store[i].id) {
                let ghost before = sent@;
                sent.push(Outbound::SendTx(peer, store[i].copy()));
                proof {
                    assert(views(sent@) =~= views(before).push(sent@.last()@));
                }
            }
            i = i + 1;
        }
        proof {
            assert(store@.subrange(0, store.len() as int) =~= store@);
        }
        sent
    }

    /// Whether more than `ANNOUNCE_INTERVAL_SECS` seconds have passed at
    /// `now` since the last sweep; never where the clock went back.
    pub fn announcement_due(&self, now: u64) -> (r: bool)
        ensures
            r == (now >= self.last() && sweep_due(self.last(), now)),
    {
        now >= self.last_announcement && now - self.last_announcement > ANNOUNCE_INTERVAL_SECS
    }

    /// The periodic sweep at `now` over the node's own unconfirmed
    /// transactions `store`: each one not cached is announced to one random
    /// peer, in store order, and the sweep time becomes `now`.
    pub fn sweep(&mut self, now: u64, store: &Vec<Tx>) -> (r: Vec<Outbound>)
        requires
            old(self).wf(),
        ensures
            final(self).wf(),
            views(r@) == announcements(store@, old(self).cache().contents()),
            final(self).cache().contents() == old(self).cache().contents(),
            final(self).cache().order() == touch_all(old(self).cache().order(), ids_of(store@)),
            final(self).last() == now,
    {
        let ghost held = self.cache().contents();
        let ghost order = self.cache().order();
        let mut sent: Vec<Outbound> = Vec::new();
        let mut i: usize = 0;
        while i < store.len()
            invariant
                0 <= i <= store.len(),
                self.wf(),
                self.cache().contents() == held,
                self.cache().order() == touch_all(order, ids_of(store@.subrange(0, i as int))),
                views(sent@) == announcements(store@.subrange(0, i as int), held),
            decreases store.len() - i,
        {
            proof {
                assert(store@.subrange(0, i + 1).drop_last() =~= store@.subrange(0, i as int));
                assert(ids_of(store@.subrange(0, i + 1)).drop_last() =~= ids_of(
                    store@.subrange(0, i as int),
                ));
            }
            let id = store[i].id;
            if !self.cache.contains(&id) {
                let ghost before = sent@;
                sent.push(Outbound::Announce(id));
                proof {
                    assert(views(sent@) =~= views(before).push(sent@.last()@));
                }
            }
            i = i + 1;
        }
        proof {
            assert(store@.subrange(0, store.len() as int) =~= store@);
        }
        self.last_announcement = now;
        sent
    }

    /// The time of the last sweep, in seconds.
    pub fn last_announcement(&self) -> (r: u64)
        ensures
            r == self.last(),
    {
        self.last_announcement
    }
}

} // verus!
