use std::collections::hash_map::RandomState;
use std::hash::{BuildHasher, Hash};

use lru_cache::LruCache;
use vstd::prelude::*;

use crate::tx::{Tx, TxId};

verus! {

#[verifier::external_type_specification]
#[verifier::external_body]
#[verifier::reject_recursive_types(K)]
#[verifier::reject_recursive_types(V)]
#[verifier::reject_recursive_types(S)]
pub struct ExLruCache<K: Eq + Hash, V, S: BuildHasher = RandomState>(LruCache<K, V, S>);

/// The entries that an LRU cache of transactions holds, by identifier.
pub uninterp spec fn lru_contents(c: LruCache<TxId, Tx>) -> Map<TxId, Tx>;

/// The keys of an LRU cache of transactions, least recently used first.
pub uninterp spec fn lru_order(c: LruCache<TxId, Tx>) -> Seq<TxId>;

/// The number of entries that an LRU cache of transactions was made to hold.
pub uninterp spec fn lru_capacity(c: LruCache<TxId, Tx>) -> nat;

/// `order` with `k` moved to the most recent end, where it is present.
pub open spec fn touch(order: Seq<TxId>, k: TxId) -> Seq<TxId> {
    if order.contains(k) {
        order.remove(order.index_of(k)).push(k)
    } else {
        order
    }
}

/// `order` with `k` at the most recent end, moved there or added.
pub open spec fn bump(order: Seq<TxId>, k: TxId) -> Seq<TxId> {
    if order.contains(k) {
        touch(order, k)
    } else {
        order.push(k)
    }
}

/// The recency order after inserting `k` into a cache of capacity `cap`:
/// `k` becomes most recent and, past the capacity, the least recent key goes.
pub open spec fn order_after_insert(order: Seq<TxId>, k: TxId, cap: nat) -> Seq<TxId> {
    let b = bump(order, k);
    if b.len() > cap {
        b.drop_first()
    } else {
        b
    }
}

/// The entries after inserting `k -> v` into a cache with recency order
/// `order` and capacity `cap`.
pub open spec fn contents_after_insert(
    contents: Map<TxId, Tx>,
    order: Seq<TxId>,
    k: TxId,
    v: Tx,
    cap: nat,
) -> Map<TxId, Tx> {
    let b = bump(order, k);
    if b.len() > cap {
        contents.insert(k, v).remove(b[0])
    } else {
        contents.insert(k, v)
    }
}

/// Relies on `lru_cache::LruCache::new`: an empty cache holding at most
/// `capacity` entries.
#[verifier::external_body]
fn lru_new(capacity: usize) -> (r: LruCache<TxId, Tx>)
    ensures
        lru_contents(r).dom() == Set::<TxId>::empty(),
        lru_order(r).len() == 0,
        lru_capacity(r) == capacity,
{
    LruCache::new(capacity)
}

/// Relies on `lru_cache::LruCache::insert`: the linked map stores `v` under
/// `k` at the most recent end (replacing the value of a present key and
/// returning it), then drops the least recent entry while over capacity.
#[verifier::external_body]
fn lru_insert(c: &mut LruCache<TxId, Tx>, k: TxId, v: Tx) -> (r: Option<Tx>)
    ensures
        r == (if lru_contents(*old(c)).contains_key(k) {
            Some(lru_contents(*old(c))[k])
        } else {
            None
        }),
        lru_order(*final(c)) == order_after_insert(lru_order(*old(c)), k, lru_capacity(*old(c))),
        lru_contents(*final(c)) == contents_after_insert(
            lru_contents(*old(c)),
            lru_order(*old(c)),
            k,
            v,
            lru_capacity(*old(c)),
        ),
        lru_capacity(*final(c)) == lru_capacity(*old(c)),
{
    c.insert(k, v)
}

/// Relies on `lru_cache::LruCache::get_mut`: the value under `k`, if any;
/// a present key becomes the most recent.
#[verifier::external_body]
fn lru_get(c: &mut LruCache<TxId, Tx>, k: &TxId) -> (r: Option<Tx>)
    ensures
        r is Some <==> lru_contents(*old(c)).contains_key(*k),
        r matches Some(t) ==> t@ == lru_contents(*old(c))[*k]@,
        lru_order(*final(c)) == touch(lru_order(*old(c)), *k),
        lru_contents(*final(c)) == lru_contents(*old(c)),
        lru_capacity(*final(c)) == lru_capacity(*old(c)),
{
    c.get_mut(k).map(|t| t.copy())
}

/// Relies on `lru_cache::LruCache::contains_key`: whether `k` is present;
/// it goes through `get_mut`, so a present key becomes the most recent.
#[verifier::external_body]
fn lru_contains(c: &mut LruCache<TxId, Tx>, k: &TxId) -> (r: bool)
    ensures
        r == lru_contents(*old(c)).contains_key(*k),
        lru_order(*final(c)) == touch(lru_order(*old(c)), *k),
        lru_contents(*final(c)) == lru_contents(*old(c)),
        lru_capacity(*final(c)) == lru_capacity(*old(c)),
{
    c.contains_key(k)
}

/// Moving a present key to the most recent end keeps the keys, their
/// number and their distinctness.
proof fn lemma_touch(order: Seq<TxId>, k: TxId)
    requires
        order.no_duplicates(),
    ensures
        touch(order, k).no_duplicates(),
        touch(order, k).len() == order.len(),
        forall|x: TxId| touch(order, k).contains(x) <==> order.contains(x),
{
    if order.contains(k) {
        let i = order.index_of(k);
        let r = order.remove(i);
        assert(order[i] == k);
        assert(forall|j: int| 0 <= j < r.len() ==> r[j] == (if j < i { order[j] } else { order[j + 1] }));
        assert(!r.contains(k));
        assert forall|x: TxId| touch(order, k).contains(x) <==> order.contains(x) by {
            if order.contains(x) && x != k {
                let j = choose|j: int| 0 <= j < order.len() && order[j] == x;
                if j < i {
                    assert(r[j] == x);
                } else {
                    assert(r[j - 1] == x);
                }
            }
            if r.contains(x) {
                let j = choose|j: int| 0 <= j < r.len() && r[j] == x;
                if j < i {
                    assert(order[j] == x);
                } else {
                    assert(order[j + 1] == x);
                }
            }
            assert(touch(order, k)[r.len() as int] == k);
        }
        assert(r.push(k).no_duplicates());
    }
}

/// Dropping the least recent key of distinct keys removes exactly that key.
proof fn lemma_drop_first(order: Seq<TxId>)
    requires
        order.no_duplicates(),
        order.len() > 0,
    ensures
        order.drop_first().no_duplicates(),
        forall|x: TxId| order.drop_first().contains(x) <==> (order.contains(x) && x != order[0]),
{
    let d = order.drop_first();
    assert forall|x: TxId| d.contains(x) <==> (order.contains(x) && x != order[0]) by {
        if d.contains(x) {
            let j = choose|j: int| 0 <= j < d.len() && d[j] == x;
            assert(order[j + 1] == x);
        }
        if order.contains(x) && x != order[0] {
            let j = choose|j: int| 0 <= j < order.len() && order[j] == x;
            assert(d[j - 1] == x);
        }
    }
}

/// A deduplication cache of transactions keyed by identifier, with a fixed
/// capacity and least-recently-used eviction.
pub struct TxCache {
    lru: LruCache<TxId, Tx>,
}

impl TxCache {
    /// The transactions held, by identifier.
    pub closed spec fn contents(&self) -> Map<TxId, Tx> {
        lru_contents(self.lru)
    }

    /// The identifiers held, least recently touched first.
    pub closed spec fn order(&self) -> Seq<TxId> {
        lru_order(self.lru)
    }

    /// The most entries the cache holds.
    pub closed spec fn capacity(&self) -> nat {
        lru_capacity(self.lru)
    }

    /// The recency order names each held identifier once, and no more of
    /// them than the capacity.
    pub open spec fn wf(&self) -> bool {
        &&& self.order().no_duplicates()
        &&& forall|k: TxId| #[trigger] self.order().contains(k) <==> self.contents().contains_key(k)
        &&& self.order().len() <= self.capacity()
    }

    /// An empty cache that holds at most `capacity` transactions.
    pub fn new(capacity: usize) -> (r: TxCache)
        ensures
            r.wf(),
            r.contents().dom() == Set::<TxId>::empty(),
            r.order().len() == 0,
            r.capacity() == capacity,
    {
        TxCache { lru: lru_new(capacity) }
    }

    /// Whether `id` is held; a held identifier becomes the most recent.
    pub fn contains(&mut self, id: &TxId) -> (r: bool)
        requires
            old(self).wf(),
        ensures
            final(self).wf(),
            r == old(self).contents().contains_key(*id),
            final(self).contents() == old(self).contents(),
            final(self).order() == touch(old(self).order(), *id),
            final(self).capacity() == old(self).capacity(),
    {
        let ghost before = self.order();
        proof {
            lemma_touch(before, *id);
        }
        let r = lru_contains(&mut self.lru, id);
        proof {
            assert forall|x: TxId| #[trigger] self.order().contains(x) <==> self.contents().contains_key(x) by {
                assert(touch(before, *id).contains(x) <==> before.contains(x));
            }
        }
        r
    }

    /// The transaction held under `id`, if any; a held identifier becomes
    /// the most recent.
    pub fn get(&mut self, id: &TxId) -> (r: Option<Tx>)
        requires
            old(self).wf(),
        ensures
            final(self).wf(),
            r is Some <==> old(self).contents().contains_key(*id),
            r matches Some(t) ==> t@ == old(self).contents()[*id]@,
            final(self).contents() == old(self).contents(),
            final(self).order() == touch(old(self).order(), *id),
            final(self).capacity() == old(self).capacity(),
    {
        let ghost before = self.order();
        proof {
            lemma_touch(before, *id);
        }
        let r = lru_get(&mut self.lru, id);
        proof {
            assert forall|x: TxId| #[trigger] self.order().contains(x) <==> self.contents().contains_key(x) by {
                assert(touch(before, *id).contains(x) <==> before.contains(x));
            }
        }
        r
    }

    /// Stores `tx` under `id` as the most recent entry, evicting the least
    /// recent one past the capacity; true iff `id` was not held before.
    pub fn insert(&mut self, id: TxId, tx: Tx) -> (r: bool)
        requires
            old(self).wf(),
        ensures
            final(self).wf(),
            r == !old(self).contents().contains_key(id),
            final(self).contents() == contents_after_insert(
                old(self).contents(),
                old(self).order(),
                id,
                tx,
                old(self).capacity(),
            ),
            final(self).order() == order_after_insert(old(self).order(), id, old(self).capacity()),
            final(self).capacity() == old(self).capacity(),
    {
        let ghost order = self.order();
        let ghost contents = self.contents();
        let ghost cap = self.capacity();
        let ghost b = bump(order, id);
        proof {
            lemma_touch(order, id);
            if !order.contains(id) {
                assert forall|x: TxId| b.contains(x) <==> (order.contains(x) || x == id) by {
                    if b.contains(x) && x != id {
                        let j = choose|j: int| 0 <= j < b.len() && b[j] == x;
                        assert(order[j] == x);
                    }
                    if order.contains(x) {
                        let j = choose|j: int| 0 <= j < order.len() && order[j] == x;
                        assert(b[j] == x);
                    }
                    assert(b[order.len() as int] == id);
                }
            }
            assert(b.no_duplicates());
            assert forall|x: TxId| #[trigger] b.contains(x) <==> contents.insert(id, tx).contains_key(x) by {
                assert(order.contains(x) <==> contents.contains_key(x));
                assert(touch(order, id).contains(x) <==> order.contains(x));
            }
            if b.len() > cap {
                lemma_drop_first(b);
            }
        }
        let old_tx = lru_insert(&mut self.lru, id, tx);
        proof {
            assert forall|x: TxId| #[trigger] self.order().contains(x) <==> self.contents().contains_key(x) by {
                assert(b.contains(x) <==> contents.insert(id, tx).contains_key(x));
                if b.len() > cap {
                    assert(b.drop_first().contains(x) <==> (b.contains(x) && x != b[0]));
                }
            }
        }
        old_tx.is_none()
    }
}

/// Inserting into a well-formed cache of positive capacity keeps the count
/// within the capacity and keeps the inserted key. When a new key meets a
/// full cache, the entry that goes is the least recently touched one, and
/// every other entry stays.
pub proof fn lemma_insert_evicts_least_recent(c: TxCache, k: TxId, v: Tx)
    requires
        c.wf(),
        c.capacity() > 0,
    ensures
        order_after_insert(c.order(), k, c.capacity()).len() <= c.capacity(),
        contents_after_insert(c.contents(), c.order(), k, v, c.capacity()).contains_key(k),
        contents_after_insert(c.contents(), c.order(), k, v, c.capacity())[k] == v,
        !c.contents().contains_key(k) && c.order().len() == c.capacity() ==> {
            let after = contents_after_insert(c.contents(), c.order(), k, v, c.capacity());
            &&& !after.contains_key(c.order()[0])
            &&& forall|x: TxId|
                #[trigger] c.contents().contains_key(x) && x != c.order()[0] ==> after.contains_key(x)
        },
{
    let order = c.order();
    let b = bump(order, k);
    lemma_touch(order, k);
    if order.contains(k) {
        assert(b.len() == order.len());
    } else {
        assert(b.len() == order.len() + 1);
        if b.len() > c.capacity() {
            assert(b[0] == order[0]);
            assert(order.contains(order[0]));
            assert(b[0] != k);
        }
    }
}

} // verus!
