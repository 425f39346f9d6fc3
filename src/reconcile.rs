use vstd::prelude::*;

use crate::clock::unix_time_now;
use crate::inventory::{holds, EntryView, Inventory, Message, Mutation};
use crate::message_hash::content_hash;
use crate::proof_of_work::{pow_valid, verify_at};
use crate::bytes::{be_bytes_i64, be_bytes_u64};
use crate::codec::{field, read_byte, read_field, read_u64, write_field, write_u64};

verus! {

/// What the client side of a reconciliation does next.
pub enum Step {
    /// Ask the peer whether it holds this hash.
    Test(Vec<u8>),
    /// Send the peer this message, which it lacks.
    Submit(Message),
    /// Everything up to the cursor has been offered: wait for new content or for the
    /// session to end.
    Wait,
}

/// The client side of a reconciliation session: a cursor over the local inventory's
/// insertion counters. Everything up to the cursor has been offered to the peer.
pub struct ReconcileClient {
    pub counter: u128,
}

/// Whether `v` holds an entry whose counter lies after `counter`.
pub open spec fn has_after(v: Seq<EntryView>, counter: u128) -> bool {
    exists|i: int| 0 <= i < v.len() && (#[trigger] v[i]).counter > counter
}

/// What the drain step from cursor `counter` does: with no entry after the cursor it
/// waits and keeps the cursor; otherwise it tests the oldest entry after the cursor and
/// moves the cursor to that entry's counter.
pub open spec fn drain_step(v: Seq<EntryView>, counter: u128, new_counter: u128, r: Step) -> bool {
    &&& !has_after(v, counter) ==> r is Wait && new_counter == counter
    &&& has_after(v, counter) ==> exists|i: int|
        0 <= i < v.len() && (#[trigger] v[i]).counter > counter && (forall|j: int|
            0 <= j < i ==> (#[trigger] v[j]).counter <= counter) && new_counter == v[i].counter && (r matches Step::Test(
            h,
        ) && h@ == v[i].hash)
}

impl ReconcileClient {
    /// A session that has offered nothing yet.
    pub fn new() -> (r: ReconcileClient)
        ensures
            r.counter == 0,
    {
        ReconcileClient { counter: 0 }
    }

    /// Offers the oldest item after the cursor and moves the cursor to it; waits when
    /// there is none.
    pub fn next_step(&mut self, inventory: &Inventory) -> (r: Step)
        requires
            inventory.wf(),
        ensures
            drain_step(inventory@, old(self).counter, final(self).counter, r),
    {
        match inventory.get_one_after_counter(self.counter) {
            Some((hash, counter)) => {
                self.counter = counter;
                Step::Test(hash)
            },
            None => Step::Wait,
        }
    }

    /// Acts on the peer's answer to `Test(hash)`: a message the peer lacks is
    /// submitted if it is still stored; otherwise the drain goes on.
    pub fn on_test_reply(&mut self, inventory: &Inventory, hash: &[u8], exists: bool) -> (r: Step)
        requires
            inventory.wf(),
        ensures
            !exists && holds(inventory@, hash@) ==> final(self).counter == old(self).counter && (r matches Step::Submit(
                m,
            ) && content_hash(m.payload@, m.expiration_time) == hash@),
            (exists || !holds(inventory@, hash@)) ==> drain_step(inventory@, old(self).counter, final(self).counter, r),
    {
        if !exists {
            if let Some(message) = inventory.get_message(hash) {
                return Step::Submit(message);
            }
        }
        self.next_step(inventory)
    }

    /// After the peer accepted or dropped a submitted message, the drain goes on.
    pub fn on_submitted(&mut self, inventory: &Inventory) -> (r: Step)
        requires
            inventory.wf(),
        ensures
            drain_step(inventory@, old(self).counter, final(self).counter, r),
    {
        self.next_step(inventory)
    }

    /// New content arrived somewhere: the drain starts again from the cursor.
    pub fn on_intent(&mut self, inventory: &Inventory) -> (r: Step)
        requires
            inventory.wf(),
        ensures
            drain_step(inventory@, old(self).counter, final(self).counter, r),
    {
        self.next_step(inventory)
    }
}

/// Answers a peer's `test`: whether this node holds the hash.
pub fn test(inventory: &Inventory, hash: &[u8]) -> (r: bool)
    requires
        inventory.wf(),
    ensures
        r == holds(inventory@, hash@),
{
    inventory.message_exists(hash)
}

/// Handles a peer's `submit` judged at `now`: a message that is not yet stored and
/// carries a valid proof of work is inserted and its `Insert` mutation returned, after
/// which the caller wakes every reconciler; anything else is dropped.
pub fn submit_at(inventory: &mut Inventory, message: Message, now: i64) -> (r: Option<Mutation>)
    requires
        old(inventory).wf(),
    ensures
        final(inventory).wf(),
        ({
            let h = content_hash(message.payload@, message.expiration_time);
            let accepted = !holds(old(inventory)@, h) && pow_valid(
                message.payload@,
                message.nonce,
                message.expiration_time,
                now,
            ) && old(inventory).last_counter() < u128::MAX;
            &&& accepted ==> (r matches Some(Mutation::Insert(x)) && x@ == h) && holds(final(inventory)@, h)
                && final(inventory)@.drop_last() == old(inventory)@
            &&& !accepted ==> r is None && final(inventory)@ == old(inventory)@
        }),
{
    let hash = crate::message_hash::message_hash(message.payload.as_slice(), message.expiration_time);
    if inventory.message_exists(hash.as_slice()) {
        return None;
    }
    if !verify_at(message.payload.as_slice(), message.nonce, message.expiration_time, now) {
        return None;
    }
    if inventory.counter() == u128::MAX {
        return None;
    }
    let ghost before = inventory@;
    let r = inventory.insert_message(message);
    assert(inventory@[before.len() as int].hash == hash@);
    assert(inventory@.drop_last() =~= before);
    r
}

/// Handles a peer's `submit` judged at the current time.
pub fn submit(inventory: &mut Inventory, message: Message) -> (r: Option<Mutation>)
    requires
        old(inventory).wf(),
    ensures
        final(inventory).wf(),
        r is None ==> final(inventory)@ == old(inventory)@,
        r matches Some(Mutation::Insert(x)) ==> x@ == content_hash(message.payload@, message.expiration_time)
            && !holds(old(inventory)@, x@) && holds(final(inventory)@, x@) && exists|now: i64|
            pow_valid(message.payload@, message.nonce, message.expiration_time, now),
{
    let now = unix_time_now();
    submit_at(inventory, message, now)
}

/// A request of one peer to the other in a reconciliation session.
pub enum Request {
    Test(Vec<u8>),
    Submit(Message),
}

/// The encoding of a `test` request: a zero byte, then the hash as a field.
pub open spec fn test_request_bytes(hash: Seq<u8>) -> Seq<u8> {
    seq![0u8] + field(hash)
}

/// The encoding of a `submit` request: a one byte, the payload as a field, then the
/// nonce and the expiration time as eight big-endian bytes each.
pub open spec fn submit_request_bytes(payload: Seq<u8>, nonce: i64, expiration_time: i64) -> Seq<u8> {
    seq![1u8] + field(payload) + be_bytes_i64(nonce) + be_bytes_i64(expiration_time)
}

/// Encodes a `test` request.
pub fn encode_test_request(hash: &[u8]) -> (r: Vec<u8>)
    ensures
        r@ == test_request_bytes(hash@),
{
    let mut out: Vec<u8> = Vec::new();
    out.push(0u8);
    write_field(&mut out, hash);
    assert(out@ =~= test_request_bytes(hash@));
    out
}

/// Encodes a `submit` request.
pub fn encode_submit_request(message: &Message) -> (r: Vec<u8>)
    ensures
        r@ == submit_request_bytes(message.payload@, message.nonce, message.expiration_time),
{
    let mut out: Vec<u8> = Vec::new();
    out.push(1u8);
    write_field(&mut out, message.payload.as_slice());
    write_u64(&mut out, message.nonce as u64);
    write_u64(&mut out, message.expiration_time as u64);
    assert(out@ =~= submit_request_bytes(message.payload@, message.nonce, message.expiration_time));
    out
}

proof fn lemma_i64_round_trip(x: u64, n: i64)
    ensures
        ((x as i64) as u64) == x,
        ((n as u64) as i64) == n,
{
    assert(((x as i64) as u64) == x) by (bit_vector);
    assert(((n as u64) as i64) == n) by (bit_vector);
}

/// Decodes a request that fills `b` exactly: exactly the encodings of requests decode,
/// each to the request it encodes.
pub fn decode_request(b: &[u8]) -> (r: Option<Request>)
    ensures
        r matches Some(Request::Test(h)) ==> test_request_bytes(h@) == b@,
        r matches Some(Request::Submit(m)) ==> submit_request_bytes(m.payload@, m.nonce, m.expiration_time) == b@,
        forall|h: Seq<u8>|
            #![trigger test_request_bytes(h)]
            test_request_bytes(h) == b@ ==> (r matches Some(Request::Test(x)) && x@ == h),
        forall|p: Seq<u8>, n: i64, t: i64|
            #![trigger submit_request_bytes(p, n, t)]
            submit_request_bytes(p, n, t) == b@ ==> (r matches Some(Request::Submit(m)) && m.payload@ == p
                && m.nonce == n && m.expiration_time == t),
{
    let len = b.len();
    assert(b@.subrange(0, len as int) =~= b@);
    let (tag, at) = match read_byte(b, 0) {
        Some(x) => x,
        None => {
            assert forall|h: Seq<u8>| #![trigger test_request_bytes(h)] test_request_bytes(h) != b@ by {
                assert(test_request_bytes(h)[0] == 0u8);
            }
            assert forall|p: Seq<u8>, n: i64, t: i64| #![trigger submit_request_bytes(p, n, t)]
                submit_request_bytes(p, n, t) != b@ by {
                if submit_request_bytes(p, n, t) == b@ {
                    assert(b@.subrange(0, len as int) =~= seq![1u8] + (field(p) + be_bytes_i64(n) + be_bytes_i64(t)));
                }
            }
            return None;
        },
    };
    assert forall|h: Seq<u8>| #![trigger test_request_bytes(h)] test_request_bytes(h) == b@ implies tag == 0u8
        && b@.subrange(at as int, len as int) == field(h) + Seq::<u8>::empty() by {
        assert(b@.subrange(0, len as int) =~= seq![0u8] + (field(h) + Seq::<u8>::empty()));
        assert(b@.subrange(at as int, len as int) =~= field(h) + Seq::<u8>::empty());
    }
    assert forall|p: Seq<u8>, n: i64, t: i64| #![trigger submit_request_bytes(p, n, t)]
        submit_request_bytes(p, n, t) == b@ implies tag == 1u8 && b@.subrange(at as int, len as int) == field(p)
        + (be_bytes_u64(n as u64) + (be_bytes_u64(t as u64) + Seq::<u8>::empty())) by {
        let tail = field(p) + (be_bytes_u64(n as u64) + (be_bytes_u64(t as u64) + Seq::<u8>::empty()));
        assert(b@.subrange(0, len as int) =~= seq![1u8] + tail);
        assert(b@.subrange(at as int, len as int) =~= tail);
    }
    if tag == 0u8 {
        let (hash, end) = match read_field(b, at) {
            Some(x) => x,
            None => return None,
        };
        if end != len {
            return None;
        }
        assert(b@ =~= b@.subrange(0, at as int) + b@.subrange(at as int, end as int));
        return Some(Request::Test(hash));
    }
    if tag != 1u8 {
        return None;
    }
    let (payload, at_nonce) = match read_field(b, at) {
        Some(x) => x,
        None => return None,
    };
    assert forall|p: Seq<u8>, n: i64, t: i64| #![trigger submit_request_bytes(p, n, t)]
        submit_request_bytes(p, n, t) == b@ implies payload@ == p && b@.subrange(at_nonce as int, len as int)
        == be_bytes_u64(n as u64) + (be_bytes_u64(t as u64) + Seq::<u8>::empty()) by {
        let f = field(p);
        let y = be_bytes_u64(n as u64) + (be_bytes_u64(t as u64) + Seq::<u8>::empty());
        assert(b@.subrange(at_nonce as int, len as int) =~= (f + y).subrange(f.len() as int, (f + y).len() as int));
    }
    let (nonce_bits, at_time) = match read_u64(b, at_nonce) {
        Some(x) => x,
        None => return None,
    };
    assert forall|p: Seq<u8>, n: i64, t: i64| #![trigger submit_request_bytes(p, n, t)]
        submit_request_bytes(p, n, t) == b@ implies nonce_bits == n as u64 && b@.subrange(at_time as int, len as int)
        == be_bytes_u64(t as u64) + Seq::<u8>::empty() by {
        let f = be_bytes_u64(n as u64);
        let y = be_bytes_u64(t as u64) + Seq::<u8>::empty();
        assert(b@.subrange(at_time as int, len as int) =~= (f + y).subrange(8, (f + y).len() as int));
    }
    let (time_bits, end) = match read_u64(b, at_time) {
        Some(x) => x,
        None => return None,
    };
    if end != len {
        return None;
    }
    let message = Message { payload, nonce: nonce_bits as i64, expiration_time: time_bits as i64 };
    proof {
        lemma_i64_round_trip(nonce_bits, 0);
        lemma_i64_round_trip(time_bits, 0);
        assert forall|p: Seq<u8>, n: i64, t: i64| #![trigger submit_request_bytes(p, n, t)]
            submit_request_bytes(p, n, t) == b@ implies message.nonce == n && message.expiration_time == t by {
            lemma_i64_round_trip(0, n);
            lemma_i64_round_trip(0, t);
        }
        assert(b@ =~= b@.subrange(0, at as int) + b@.subrange(at as int, at_nonce as int) + b@.subrange(
            at_nonce as int,
            at_time as int,
        ) + b@.subrange(at_time as int, end as int));
    }
    Some(Request::Submit(message))
}

} // verus!
