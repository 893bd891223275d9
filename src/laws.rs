//! What the relay guarantees across its handlers and over every input.

use vstd::prelude::*;

use crate::cache::{contents_after_insert, lemma_insert_evicts_least_recent};
use crate::relay::{
    ANNOUNCE_INTERVAL_SECS, OutboundView, PeerId, SendTx, cached_replies, ids_of, incoming_tx_reply,
    inv_reply, keyed_by_id, sends_of, store_replies, sweep_due, tx_hashes_of, uncached,
};
use crate::tx::{Inventory, Tx, TxId};

verus! {

/// A transaction first seen from a peer is announced exactly once: the
/// first delivery announces it, and a second delivery right after
/// announces nothing.
pub proof fn lemma_incoming_tx_announced_once(s: SendTx, t: Tx)
    requires
        s.wf(),
        !s.cache().contents().contains_key(t.id),
    ensures
        incoming_tx_reply(s.cache().contents(), t) == Some(OutboundView::Announce(t.id)),
        incoming_tx_reply(
            contents_after_insert(
                s.cache().contents(),
                s.cache().order(),
                t.id,
                t,
                s.cache().capacity(),
            ),
            t,
        ) is None,
{
    lemma_insert_evicts_least_recent(s.cache(), t.id, t);
}

/// The identifiers that a `getdata` leaves for the store are exactly the
/// requested ones that are not cached, and each requested one that is
/// cached is sent from the cache.
pub proof fn lemma_cached_served_without_store(
    hashes: Seq<TxId>,
    held: Map<TxId, Tx>,
    peer: PeerId,
)
    ensures
        forall|h: TxId| #[trigger]
            uncached(hashes, held).contains(h) <==> (hashes.contains(h) && !held.contains_key(h)),
        forall|h: TxId|
            hashes.contains(h) && held.contains_key(h) ==> #[trigger] cached_replies(
                hashes,
                held,
                peer,
            ).contains(OutboundView::SendTx(peer, held[h]@)),
    decreases hashes.len(),
{
    if hashes.len() > 0 {
        let rest = hashes.drop_last();
        lemma_cached_served_without_store(rest, held, peer);
        assert forall|h: TxId| hashes.contains(h) <==> (rest.contains(h) || h == hashes.last()) by {
            if hashes.contains(h) {
                let j = choose|j: int| 0 <= j < hashes.len() && hashes[j] == h;
                if j < rest.len() {
                    assert(rest[j] == h);
                }
            }
            if rest.contains(h) {
                let j = choose|j: int| 0 <= j < rest.len() && rest[j] == h;
                assert(hashes[j] == h);
            }
        }
        let u = uncached(rest, held);
        assert forall|h: TxId| u.push(hashes.last()).contains(h) <==> (u.contains(h) || h == hashes.last()) by {
            if u.push(hashes.last()).contains(h) {
                let j = choose|j: int| 0 <= j < u.len() + 1 && u.push(hashes.last())[j] == h;
                if j < u.len() {
                    assert(u[j] == h);
                }
            }
            if u.contains(h) {
                let j = choose|j: int| 0 <= j < u.len() && u[j] == h;
                assert(u.push(hashes.last())[j] == h);
            }
            assert(u.push(hashes.last())[u.len() as int] == hashes.last());
        }
        assert forall|h: TxId| #[trigger]
            uncached(hashes, held).contains(h) <==> (hashes.contains(h) && !held.contains_key(h)) by {
            assert(u.contains(h) <==> (rest.contains(h) && !held.contains_key(h)));
            assert(hashes.contains(h) <==> (rest.contains(h) || h == hashes.last()));
            assert(u.push(hashes.last()).contains(h) <==> (u.contains(h) || h == hashes.last()));
        }
        let c = cached_replies(rest, held, peer);
        assert forall|h: TxId|
            hashes.contains(h) && held.contains_key(h) implies #[trigger] cached_replies(
                hashes,
                held,
                peer,
            ).contains(OutboundView::SendTx(peer, held[h]@)) by {
            let o = OutboundView::SendTx(peer, held[h]@);
            if rest.contains(h) {
                assert(c.contains(o));
                let j = choose|j: int| 0 <= j < c.len() && c[j] == o;
                if held.contains_key(hashes.last()) {
                    assert(c.push(OutboundView::SendTx(peer, held[hashes.last()]@))[j] == o);
                }
            } else {
                assert(h == hashes.last());
                let c2 = c.push(o);
                assert(c2[c.len() as int] == o);
            }
        }
    }
}

/// An `inv` whose transactions are all cached is answered by nothing.
pub proof fn lemma_inv_all_cached(held: Map<TxId, Tx>, peer: PeerId, inv: Seq<Inventory>)
    requires
        forall|h: TxId| #[trigger] tx_hashes_of(inv).contains(h) ==> held.contains_key(h),
    ensures
        inv_reply(held, peer, inv) is None,
{
    let hs = tx_hashes_of(inv);
    lemma_cached_served_without_store(hs, held, peer);
    let w = uncached(hs, held);
    if w.len() > 0 {
        assert(w.contains(w[0]));
    }
}

/// Sends counted over two sequences add up.
proof fn lemma_sends_of_concat(a: Seq<OutboundView>, b: Seq<OutboundView>, h: TxId)
    ensures
        sends_of(a + b, h) == sends_of(a, h) + sends_of(b, h),
    decreases b.len(),
{
    if b.len() == 0 {
        assert(a + b =~= a);
    } else {
        assert((a + b).drop_last() =~= a + b.drop_last());
        lemma_sends_of_concat(a, b.drop_last(), h);
    }
}

/// The cache sends nothing for an identifier that it does not hold.
proof fn lemma_cached_replies_skip(hashes: Seq<TxId>, held: Map<TxId, Tx>, peer: PeerId, h: TxId)
    requires
        keyed_by_id(held),
        !held.contains_key(h),
    ensures
        sends_of(cached_replies(hashes, held, peer), h) == 0,
    decreases hashes.len(),
{
    if hashes.len() > 0 {
        let rest = cached_replies(hashes.drop_last(), held, peer);
        lemma_cached_replies_skip(hashes.drop_last(), held, peer, h);
        if held.contains_key(hashes.last()) {
            let o = OutboundView::SendTx(peer, held[hashes.last()]@);
            assert(rest.push(o).drop_last() =~= rest);
        }
    }
}

/// With distinct identifiers in the store, the store sends a listed
/// identifier once where it holds it, and never where it does not.
proof fn lemma_store_replies_once(store: Seq<Tx>, missing: Seq<TxId>, peer: PeerId, h: TxId)
    requires
        ids_of(store).no_duplicates(),
        missing.contains(h),
    ensures
        sends_of(store_replies(store, missing, peer), h) == (if ids_of(store).contains(h) {
            1nat
        } else {
            0nat
        }),
    decreases store.len(),
{
    if store.len() > 0 {
        let rest = store.drop_last();
        assert(ids_of(rest) =~= ids_of(store).drop_last());
        lemma_store_replies_once(rest, missing, peer, h);
        let n = store.len() - 1;
        assert(ids_of(store)[n] == store.last().id);
        let r = store_replies(rest, missing, peer);
        assert(r.push(OutboundView::SendTx(peer, store.last()@)).drop_last() =~= r);
        if ids_of(rest).contains(h) {
            let j = choose|j: int| 0 <= j < rest.len() && ids_of(rest)[j] == h;
            assert(ids_of(store)[j] == h);
            assert(ids_of(store).contains(h));
            assert(store.last().id != h);
        } else if store.last().id == h {
            assert(ids_of(store).contains(h));
        } else {
            assert(!ids_of(store).contains(h)) by {
                if ids_of(store).contains(h) {
                    let j = choose|j: int| 0 <= j < store.len() && ids_of(store)[j] == h;
                    assert(ids_of(rest)[j] == h);
                }
            }
        }
    }
}

/// A `getdata` for a transaction that is not cached sends it exactly once
/// where the store holds it (identifiers in the store being distinct), and
/// not at all where the store does not.
pub proof fn lemma_get_data_uncached_sent_once(
    inv: Seq<Inventory>,
    held: Map<TxId, Tx>,
    store: Seq<Tx>,
    peer: PeerId,
    h: TxId,
)
    requires
        ids_of(store).no_duplicates(),
        keyed_by_id(held),
        tx_hashes_of(inv).contains(h),
        !held.contains_key(h),
    ensures
        sends_of(
            cached_replies(tx_hashes_of(inv), held, peer) + store_replies(
                store,
                uncached(tx_hashes_of(inv), held),
                peer,
            ),
            h,
        ) == (if ids_of(store).contains(h) {
            1nat
        } else {
            0nat
        }),
{
    let hs = tx_hashes_of(inv);
    lemma_cached_served_without_store(hs, held, peer);
    assert(uncached(hs, held).contains(h));
    lemma_cached_replies_skip(hs, held, peer, h);
    lemma_store_replies_once(store, uncached(hs, held), peer, h);
    lemma_sends_of_concat(
        cached_replies(hs, held, peer),
        store_replies(store, uncached(hs, held), peer),
        h,
    );
}

/// After a sweep at `now`, no sweep is due for another
/// `ANNOUNCE_INTERVAL_SECS` seconds.
pub proof fn lemma_no_sweep_within_interval(now: u64, later: u64)
    requires
        now <= later <= now + ANNOUNCE_INTERVAL_SECS,
    ensures
        !sweep_due(now, later),
{
}

} // verus!
