use vstd::prelude::*;

verus! {

/// Wire tag of an inventory entry that names a transaction.
pub const TX_INV_KIND: u32 = 1;

/// A transaction identifier: the double SHA-256 of the transaction's
/// serialization without witness data.
pub type TxId = [u8; 32];

/// An object announced or requested over the wire: its kind tag and hash.
#[derive(Clone, Copy, Debug)]
pub struct Inventory {
    pub kind: u32,
    pub hash: TxId,
}

/// A transaction as the relay handles it: its identifier and its
/// consensus serialization.
#[derive(Clone, Debug)]
pub struct Tx {
    pub id: TxId,
    pub raw: Vec<u8>,
}

/// The identifier of the transaction whose consensus serialization is
/// `raw`, or `None` where `raw` is not exactly one transaction.
pub uninterp spec fn txid_of(raw: Seq<u8>) -> Option<Seq<u8>>;

/// Relies on `bitcoin::consensus::encode::deserialize` and
/// `bitcoin::Transaction::compute_txid`: decodes `raw` as one whole transaction and
/// hashes it.
#[verifier::external_body]
fn decode_txid(raw: &Vec<u8>) -> (r: Option<TxId>)
    ensures
        match r {
            Some(id) => txid_of(raw@) == Some(id@),
            None => txid_of(raw@) is None,
        },
{
    match bitcoin::consensus::encode::deserialize::<bitcoin::Transaction>(raw) {
        Ok(t) => Some(<bitcoin::Txid as bitcoin::hashes::Hash>::to_byte_array(t.compute_txid())),
        Err(_) => None,
    }
}

impl View for Tx {
    type V = (TxId, Seq<u8>);

    open spec fn view(&self) -> (TxId, Seq<u8>) {
        (self.id, self.raw@)
    }
}

impl Tx {
    /// A copy of this transaction.
    pub fn copy(&self) -> (r: Tx)
        ensures
            r@ == self@,
    {
        let raw = self.raw.clone();
        proof {
            assert(raw@ =~= self.raw@);
        }
        Tx { id: self.id, raw }
    }

    /// Reads a transaction from its consensus serialization; `None` where
    /// the bytes are not exactly one transaction.
    pub fn decode(raw: Vec<u8>) -> (r: Option<Tx>)
        ensures
            match r {
                Some(t) => txid_of(raw@) == Some(t.id@) && t.raw@ == raw@,
                None => txid_of(raw@) is None,
            },
    {
        match decode_txid(&raw) {
            Some(id) => Some(Tx { id, raw }),
            None => None,
        }
    }
}

/// Whether two transaction identifiers are the same.
pub fn same_id(a: &TxId, b: &TxId) -> (r: bool)
    ensures
        r == (*a == *b),
{
    let mut i: usize = 0;
    while i < 32
        invariant
            0 <= i <= 32,
            forall|j: int| 0 <= j < i ==> a[j] == b[j],
        decreases 32 - i,
    {
        if a[i] != b[i] {
            return false;
        }
        i = i + 1;
    }
    proof {
        broadcast use vstd::array::group_array_axioms;
        assert(*a =~= *b);
    }
    true
}

} // verus!
