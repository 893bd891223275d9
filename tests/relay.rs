use sendtx::cache::TxCache;
use sendtx::relay::{lists_id, tx_hashes, Event, Message, Outbound, SendTx, CACHE_SIZE};
use sendtx::tx::{same_id, Inventory, Tx, TxId, TX_INV_KIND};

fn id(n: u16) -> TxId {
    let mut h = [0u8; 32];
    h[0] = (n & 0xff) as u8;
    h[1] = (n >> 8) as u8;
    h[31] = 7;
    h
}

fn tx(n: u16) -> Tx {
    Tx { id: id(n), raw: vec![n as u8, 1, 2, 3] }
}

fn inv_tx(n: u16) -> Inventory {
    Inventory { kind: TX_INV_KIND, hash: id(n) }
}

fn from_hex(s: &str) -> Vec<u8> {
    (0..s.len())
        .step_by(2)
        .map(|i| u8::from_str_radix(&s[i..i + 2], 16).unwrap())
        .collect()
}

fn announced(o: &Outbound) -> TxId {
    match o {
        Outbound::Announce(h) => *h,
        other => panic!("not an announcement: {:?}", other),
    }
}

fn sent(o: &Outbound) -> (u64, TxId) {
    match o {
        Outbound::SendTx(p, t) => (*p, t.id),
        other => panic!("not a transaction: {:?}", other),
    }
}

#[test]
fn incoming_tx_announced_once() {
    let mut relay = SendTx::new(0);
    let first = relay.on_incoming_tx(tx(1));
    assert_eq!(announced(&first.unwrap()), id(1));
    assert!(relay.on_incoming_tx(tx(1)).is_none());
    let other = relay.on_incoming_tx(tx(2));
    assert_eq!(announced(&other.unwrap()), id(2));
}

#[test]
fn outgoing_tx_always_announced() {
    let mut relay = SendTx::new(0);
    assert_eq!(announced(&relay.on_outgoing_tx(&tx(4))), id(4));
    relay.on_incoming_tx(tx(4));
    assert_eq!(announced(&relay.on_outgoing_tx(&tx(4))), id(4));
    assert_eq!(announced(&relay.on_outgoing_tx(&tx(4))), id(4));
}

#[test]
fn get_data_served_from_cache() {
    let mut relay = SendTx::new(0);
    relay.on_incoming_tx(tx(1));
    relay.on_incoming_tx(tx(2));
    let req = vec![inv_tx(2), Inventory { kind: 2, hash: id(1) }, inv_tx(1)];
    let (out, missing) = relay.on_get_data(9, &req);
    assert!(missing.is_empty());
    assert_eq!(out.len(), 2);
    assert_eq!(sent(&out[0]), (9, id(2)));
    assert_eq!(sent(&out[1]), (9, id(1)));
    match &out[0] {
        Outbound::SendTx(_, t) => assert_eq!(t.raw, vec![2, 1, 2, 3]),
        _ => panic!("expected a transaction"),
    }
}

#[test]
fn get_data_store_lookup() {
    let mut relay = SendTx::new(0);
    relay.on_incoming_tx(tx(1));
    let req = vec![inv_tx(3), inv_tx(1), inv_tx(5)];
    let (out, missing) = relay.on_get_data(4, &req);
    assert_eq!(out.len(), 1);
    assert_eq!(sent(&out[0]), (4, id(1)));
    assert_eq!(missing, vec![id(3), id(5)]);
    let store = vec![tx(6), tx(3), tx(7)];
    let from_store = SendTx::serve_from_store(4, &missing, &store);
    assert_eq!(from_store.len(), 1);
    assert_eq!(sent(&from_store[0]), (4, id(3)));
}

#[test]
fn get_data_absent_everywhere_gets_no_answer() {
    let mut relay = SendTx::new(0);
    let (out, missing) = relay.on_get_data(1, &vec![inv_tx(8)]);
    assert!(out.is_empty());
    assert_eq!(missing, vec![id(8)]);
    let from_store = SendTx::serve_from_store(1, &missing, &vec![tx(2), tx(3)]);
    assert!(from_store.is_empty());
}

#[test]
fn inv_requests_uncached_in_order() {
    let mut relay = SendTx::new(0);
    relay.on_incoming_tx(tx(2));
    let inv = vec![inv_tx(5), inv_tx(2), Inventory { kind: 2, hash: id(6) }, inv_tx(3)];
    match relay.on_inv(11, &inv) {
        Some(Outbound::GetData(peer, hashes)) => {
            assert_eq!(peer, 11);
            assert_eq!(hashes, vec![id(5), id(3)]);
        }
        other => panic!("expected a getdata: {:?}", other),
    }
}

#[test]
fn inv_all_cached_gets_no_message() {
    let mut relay = SendTx::new(0);
    relay.on_incoming_tx(tx(1));
    relay.on_incoming_tx(tx(2));
    assert!(relay.on_inv(3, &vec![inv_tx(2), inv_tx(1)]).is_none());
    assert!(relay.on_inv(3, &vec![]).is_none());
    assert!(relay.on_inv(3, &vec![Inventory { kind: 2, hash: id(9) }]).is_none());
}

#[test]
fn cache_holds_at_most_capacity_and_evicts_least_recent() {
    let mut cache = TxCache::new(CACHE_SIZE);
    for n in 0..1000u16 {
        assert!(cache.insert(id(n), tx(n)));
    }
    assert!(cache.get(&id(0)).is_some());
    assert!(cache.insert(id(1000), tx(1000)));
    assert!(cache.contains(&id(0)));
    assert!(!cache.contains(&id(1)));
    assert!(cache.contains(&id(1000)));
    assert!(cache.insert(id(1001), tx(1001)));
    assert!(!cache.contains(&id(2)));
    assert!(cache.contains(&id(3)));
}

#[test]
fn cache_insert_of_present_key_is_not_new() {
    let mut cache = TxCache::new(2);
    assert!(cache.insert(id(1), tx(1)));
    assert!(cache.insert(id(2), tx(2)));
    assert!(!cache.insert(id(1), tx(1)));
    assert!(cache.insert(id(3), tx(3)));
    assert!(cache.get(&id(2)).is_none());
    assert_eq!(cache.get(&id(1)).unwrap().id, id(1));
    assert!(cache.contains(&id(3)));
}

#[test]
fn sweep_announces_uncached_and_resets_timer() {
    let mut relay = SendTx::new(100);
    relay.on_incoming_tx(tx(1));
    assert!(!relay.announcement_due(160));
    assert!(relay.announcement_due(161));
    let store = vec![tx(1), tx(2), tx(3)];
    let out = relay.sweep(161, &store);
    assert_eq!(out.len(), 2);
    assert_eq!(announced(&out[0]), id(2));
    assert_eq!(announced(&out[1]), id(3));
    assert_eq!(relay.last_announcement(), 161);
    assert!(!relay.announcement_due(161));
    assert!(!relay.announcement_due(221));
    assert!(relay.announcement_due(222));
}

#[test]
fn sweep_not_due_when_clock_goes_back() {
    let relay = SendTx::new(500);
    assert!(!relay.announcement_due(10));
}

#[test]
fn sweep_with_everything_cached_announces_nothing() {
    let mut relay = SendTx::new(0);
    relay.on_incoming_tx(tx(1));
    let out = relay.sweep(61, &vec![tx(1)]);
    assert!(out.is_empty());
    assert_eq!(relay.last_announcement(), 61);
}

#[test]
fn tx_hashes_keeps_transaction_entries() {
    let inv = vec![inv_tx(1), Inventory { kind: 2, hash: id(2) }, inv_tx(3)];
    assert_eq!(tx_hashes(&inv), vec![id(1), id(3)]);
    assert!(tx_hashes(&vec![]).is_empty());
}

#[test]
fn id_helpers() {
    assert!(same_id(&id(4), &id(4)));
    assert!(!same_id(&id(4), &id(5)));
    assert!(lists_id(&vec![id(1), id(2)], &id(2)));
    assert!(!lists_id(&vec![id(1), id(2)], &id(3)));
}

#[test]
fn decode_genesis_coinbase() {
    let raw = from_hex(
        "01000000010000000000000000000000000000000000000000000000000000000000000000ffffffff4d04ffff001d0104455468652054696d65732030332f4a616e2f32303039204368616e63656c6c6f72206f6e206272696e6b206f66207365636f6e64206261696c6f757420666f722062616e6b73ffffffff0100f2052a01000000434104678afdb0fe5548271967f1a67130b7105cd6a828e03909a67962e0ea1f61deb649f6bc3f4cef38c4f35504e51ec112de5c384df7ba0b8d578a4c702b6bf11d5fac00000000",
    );
    let t = Tx::decode(raw.clone()).unwrap();
    let mut expected = from_hex("4a5e1e4baab89f3a32518a88c31bc87f618f76673e2cc77ab2127b7afdeda33b");
    expected.reverse();
    assert_eq!(t.id.to_vec(), expected);
    assert_eq!(t.raw, raw);
}

#[test]
fn decode_rejects_garbage() {
    assert!(Tx::decode(vec![1, 2, 3]).is_none());
    assert!(Tx::decode(vec![]).is_none());
}

#[test]
fn handle_incoming_tx_then_get_data() {
    let mut relay = SendTx::new(0);
    let step = relay.handle(Event::Incoming(2, Message::Tx(tx(1))));
    assert_eq!(step.sends.len(), 1);
    assert_eq!(announced(&step.sends[0]), id(1));
    assert!(step.lookup.is_empty());
    let again = relay.handle(Event::Incoming(3, Message::Tx(tx(1))));
    assert!(again.sends.is_empty());
    let req = relay.handle(Event::Incoming(5, Message::GetData(vec![inv_tx(1), inv_tx(9)])));
    assert_eq!(req.sends.len(), 1);
    assert_eq!(sent(&req.sends[0]), (5, id(1)));
    assert_eq!(req.lookup, vec![id(9)]);
}

#[test]
fn handle_inv_and_outgoing() {
    let mut relay = SendTx::new(0);
    relay.handle(Event::Incoming(2, Message::Tx(tx(1))));
    let step = relay.handle(Event::Incoming(4, Message::Inv(vec![inv_tx(1), inv_tx(6)])));
    assert_eq!(step.sends.len(), 1);
    match &step.sends[0] {
        Outbound::GetData(peer, hashes) => {
            assert_eq!(*peer, 4);
            assert_eq!(hashes, &vec![id(6)]);
        }
        other => panic!("expected a getdata: {:?}", other),
    }
    let own = relay.handle(Event::Outgoing(Message::Tx(tx(1))));
    assert_eq!(own.sends.len(), 1);
    assert_eq!(announced(&own.sends[0]), id(1));
}

#[test]
fn handle_ignores_other_events() {
    let mut relay = SendTx::new(0);
    assert!(relay.handle(Event::Other).sends.is_empty());
    assert!(relay.handle(Event::Incoming(1, Message::Other)).sends.is_empty());
    assert!(relay.handle(Event::Outgoing(Message::Inv(vec![inv_tx(3)]))).sends.is_empty());
    let out = relay.handle(Event::Outgoing(Message::GetData(vec![inv_tx(3)])));
    assert!(out.sends.is_empty());
    assert!(out.lookup.is_empty());
}
