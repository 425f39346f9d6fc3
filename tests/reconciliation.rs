use contrasleuth::inventory::{Inventory, Message};
use contrasleuth::message_hash::message_hash;
use contrasleuth::mpmc_manual_reset_event::MPMCManualResetEvent;
use contrasleuth::reconcile::{
    decode_request, encode_submit_request, encode_test_request, submit_at, ReconcileClient, Request, Step,
};

fn message(payload: &[u8]) -> Message {
    Message { payload: payload.to_vec(), nonce: 0, expiration_time: 1_000_000 }
}

/// Runs the client of `local` against a peer that stores what it lacks, until the
/// client waits. Returns how many messages were sent.
fn drain(client: &mut ReconcileClient, local: &Inventory, peer: &mut Inventory, mut step: Step) -> usize {
    let mut sent = 0;
    loop {
        step = match step {
            Step::Test(hash) => {
                let exists = contrasleuth::reconcile::test(peer, &hash);
                client.on_test_reply(local, &hash, exists)
            }
            Step::Submit(m) => {
                // The peer's proof-of-work check is covered elsewhere; here it stores.
                peer.insert_message(m);
                sent += 1;
                client.on_submitted(local)
            }
            Step::Wait => return sent,
        }
    }
}

#[test]
fn pairwise_reconciliation_converges() {
    let mut a = Inventory::new();
    let mut b = Inventory::new();
    for p in [&b"x1"[..], b"x2", b"x3"] {
        a.insert_message(message(p));
    }
    for p in [&b"y1"[..], b"y2"] {
        b.insert_message(message(p));
    }
    let mut a_to_b = ReconcileClient::new();
    let mut b_to_a = ReconcileClient::new();
    let first = a_to_b.next_step(&a);
    assert_eq!(drain(&mut a_to_b, &a, &mut b, first), 3);
    let first = b_to_a.next_step(&b);
    assert_eq!(drain(&mut b_to_a, &b, &mut a, first), 2);
    for p in [&b"x1"[..], b"x2", b"x3", b"y1", b"y2"] {
        let h = message_hash(p, 1_000_000);
        assert!(a.message_exists(&h));
        assert!(b.message_exists(&h));
    }
    assert_eq!(a.len(), 5);
    assert_eq!(b.len(), 5);
}

#[test]
fn intent_retriggers_transmission() {
    let mut a = Inventory::new();
    let mut b = Inventory::new();
    let mut intent = MPMCManualResetEvent::new();
    let handle = intent.get_handle();
    let mut client = ReconcileClient::new();
    let first = client.next_step(&a);
    assert!(matches!(first, Step::Wait));
    // A local insertion on A wakes every reconciler.
    a.insert_message(message(b"late"));
    intent.broadcast();
    assert!(intent.is_set(handle));
    intent.reset(handle);
    assert!(!intent.is_set(handle));
    let step = client.on_intent(&a);
    assert_eq!(drain(&mut client, &a, &mut b, step), 1);
    assert!(b.message_exists(&message_hash(b"late", 1_000_000)));
    assert!(matches!(client.on_intent(&a), Step::Wait));
}

#[test]
fn submit_drops_invalid_work_and_known_items() {
    let mut inventory = Inventory::new();
    // Expired at the time of judgement: no valid proof of work can exist.
    let expired = Message { payload: b"p".to_vec(), nonce: 1, expiration_time: 10 };
    assert!(submit_at(&mut inventory, expired, 20).is_none());
    assert_eq!(inventory.len(), 0);
    inventory.insert_message(message(b"known"));
    assert!(submit_at(&mut inventory, message(b"known"), 0).is_none());
    assert_eq!(inventory.len(), 1);
}

#[test]
fn reset_event_slots() {
    let mut event = MPMCManualResetEvent::new();
    let h1 = event.get_handle();
    let h2 = event.get_handle();
    assert_ne!(h1, h2);
    assert!(!event.is_set(h1));
    event.broadcast();
    assert!(event.is_set(h1) && event.is_set(h2));
    event.reset(h1);
    assert!(!event.is_set(h1) && event.is_set(h2));
    event.drop_handle(h2);
    assert!(!event.is_set(h2));
    let h3 = event.get_handle();
    assert!(!event.is_set(h3));
}

#[test]
fn session_requests_round_trip() {
    let bytes = encode_test_request(&[5u8; 64]);
    assert_eq!(bytes[0], 0);
    match decode_request(&bytes) {
        Some(Request::Test(h)) => assert_eq!(h, vec![5u8; 64]),
        _ => panic!(),
    }
    let m = Message { payload: b"abc".to_vec(), nonce: -3, expiration_time: 1_700_000_000 };
    let bytes = encode_submit_request(&m);
    assert_eq!(bytes.len(), 1 + 8 + 3 + 8 + 8);
    match decode_request(&bytes) {
        Some(Request::Submit(d)) => {
            assert_eq!(d.payload, b"abc".to_vec());
            assert_eq!(d.nonce, -3);
            assert_eq!(d.expiration_time, 1_700_000_000);
        }
        _ => panic!(),
    }
    assert!(decode_request(&bytes[..bytes.len() - 1]).is_none());
    assert!(decode_request(&[2u8]).is_none());
    assert!(decode_request(&[]).is_none());
}
