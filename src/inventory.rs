use vstd::prelude::*;

use crate::bytes::{bytes_eq, clone_bytes};
use crate::message_hash::{content_hash, message_hash};
use crate::seq_facts::{lemma_filter_member, lemma_filter_pairwise};

verus! {

/// A message as peers exchange it and the inventory stores it.
pub struct Message {
    pub payload: Vec<u8>,
    pub nonce: i64,
    pub expiration_time: i64,
}

/// A change to the inventory, in the order in which it happened.
pub enum Mutation {
    Insert(Vec<u8>),
    Purge(Vec<u8>),
}

/// A read-only query on the inventory's indices.
pub enum InMemory {
    GetOneAfterCounter(u128),
    MessageExists(Vec<u8>),
    GetExpirationTime(Vec<u8>),
}

/// The answer to an `InMemory` query.
pub enum InMemoryAnswer {
    OneAfterCounter(Option<(Vec<u8>, u128)>),
    Exists(bool),
    ExpirationTime(Option<i64>),
}

/// A command that needs the message store itself.
pub enum OnDisk {
    GetMessage(Vec<u8>),
    InsertMessage(Message),
}

/// The answer to an `OnDisk` command: the message asked for, or the mutation that an
/// insertion published (none for a message already stored, or once counters run out).
pub enum OnDiskAnswer {
    Message(Option<Message>),
    Inserted(Option<Mutation>),
}

/// One stored message with its content hash and insertion counter.
pub struct Entry {
    pub counter: u128,
    pub hash: Vec<u8>,
    pub message: Message,
}

/// What an entry holds, as plain values.
pub ghost struct EntryView {
    pub counter: u128,
    pub hash: Seq<u8>,
    pub payload: Seq<u8>,
    pub nonce: i64,
    pub expiration_time: i64,
}

impl Entry {
    pub open spec fn view(&self) -> EntryView {
        EntryView {
            counter: self.counter,
            hash: self.hash@,
            payload: self.message.payload@,
            nonce: self.message.nonce,
            expiration_time: self.message.expiration_time,
        }
    }
}

impl Mutation {
    /// The hash that a mutation is about.
    pub open spec fn hash(&self) -> Seq<u8> {
        match self {
            Mutation::Insert(h) => h@,
            Mutation::Purge(h) => h@,
        }
    }
}

/// Whether `v` holds an entry with content hash `h`.
pub open spec fn holds(v: Seq<EntryView>, h: Seq<u8>) -> bool {
    exists|i: int| 0 <= i < v.len() && (#[trigger] v[i]).hash == h
}

/// The expiration time of the entry with content hash `h`, if there is one.
pub open spec fn expiration_in(v: Seq<EntryView>, h: Seq<u8>) -> Option<i64> {
    if holds(v, h) {
        Some(v[choose|i: int| 0 <= i < v.len() && (#[trigger] v[i]).hash == h].expiration_time)
    } else {
        None
    }
}

/// Whether `messages` have pairwise distinct content hashes, none of them held in `v`.
pub open spec fn fresh_batch(v: Seq<EntryView>, messages: Seq<Message>) -> bool {
    &&& forall|i: int, j: int|
        0 <= i < j < messages.len() ==> content_hash(#[trigger] messages[i].payload@, messages[i].expiration_time)
            != content_hash(#[trigger] messages[j].payload@, messages[j].expiration_time)
    &&& forall|i: int|
        0 <= i < messages.len() ==> !holds(v, content_hash(#[trigger] messages[i].payload@, messages[i].expiration_time))
}

/// The entry that message `m` becomes under counter `counter`.
pub open spec fn entry_for(m: Message, counter: u128) -> EntryView {
    EntryView {
        counter,
        hash: content_hash(m.payload@, m.expiration_time),
        payload: m.payload@,
        nonce: m.nonce,
        expiration_time: m.expiration_time,
    }
}

/// Whether an entry is still live at `now`: its expiration time lies after it.
pub open spec fn live_at(e: EntryView, now: i64) -> bool {
    e.expiration_time > now
}

/// The message store and its indices: entries in insertion order, each with a
/// strictly greater counter than the one before, content hashes unique.
pub struct Inventory {
    counter: u128,
    entries: Vec<Entry>,
}

impl Inventory {
    /// The entries, oldest first.
    pub closed spec fn view(&self) -> Seq<EntryView> {
        self.entries@.map_values(|e: Entry| e.view())
    }

    /// The last counter handed out; the next insertion receives one more.
    pub closed spec fn last_counter(&self) -> u128 {
        self.counter
    }

    /// Counters strictly increase in insertion order and never pass the last counter
    /// handed out; hashes are unique; each hash is the content hash of its message.
    pub open spec fn wf(&self) -> bool {
        &&& forall|i: int, j: int|
            0 <= i < j < self@.len() ==> (#[trigger] self@[i]).counter < (
            #[trigger] self@[j]).counter
        &&& forall|i: int, j: int|
            0 <= i < j < self@.len() ==> (#[trigger] self@[i]).hash != (#[trigger] self@[j]).hash
        &&& forall|i: int|
            0 <= i < self@.len() ==> 1 <= (#[trigger] self@[i]).counter <= self.last_counter()
        &&& forall|i: int|
            0 <= i < self@.len() ==> (#[trigger] self@[i]).hash == content_hash(
                self@[i].payload,
                self@[i].expiration_time,
            )
    }

    /// An empty inventory whose first insertion receives counter 1.
    pub fn new() -> (r: Inventory)
        ensures
            r.wf(),
            r@ == Seq::<EntryView>::empty(),
            r.last_counter() == 0,
    {
        let r = Inventory { counter: 0, entries: Vec::new() };
        assert(r@ =~= Seq::<EntryView>::empty());
        r
    }

    /// The last counter handed out.
    pub fn counter(&self) -> (r: u128)
        ensures
            r == self.last_counter(),
    {
        self.counter
    }

    /// The number of stored messages.
    pub fn len(&self) -> (r: usize)
        ensures
            r == self@.len(),
    {
        self.entries.len()
    }

    fn find(&self, hash: &[u8]) -> (r: Option<usize>)
        requires
            self.wf(),
        ensures
            r matches Some(i) ==> i < self@.len() && self@[i as int].hash == hash@,
            r is None ==> !holds(self@, hash@),
    {
        let mut i: usize = 0;
        while i < self.entries.len()
            invariant
                i <= self@.len(),
                self@.len() == self.entries@.len(),
                forall|k: int| 0 <= k < i ==> (#[trigger] self@[k]).hash != hash@,
            decreases self.entries@.len() - i,
        {
            assert(self@[i as int] == self.entries@[i as int].view());
            if bytes_eq(self.entries[i].hash.as_slice(), hash) {
                return Some(i);
            }
            i = i + 1;
        }
        None
    }

    /// Whether a message with content hash `hash` is stored.
    pub fn message_exists(&self, hash: &[u8]) -> (r: bool)
        requires
            self.wf(),
        ensures
            r == holds(self@, hash@),
    {
        self.find(hash).is_some()
    }

    /// The expiration time of the message with content hash `hash`, if it is stored.
    pub fn get_expiration_time(&self, hash: &[u8]) -> (r: Option<i64>)
        requires
            self.wf(),
        ensures
            r == expiration_in(self@, hash@),
            r is None <==> !holds(self@, hash@),
            r matches Some(t) ==> exists|i: int|
                0 <= i < self@.len() && (#[trigger] self@[i]).hash == hash@ && self@[i].expiration_time
                    == t,
    {
        match self.find(hash) {
            Some(i) => {
                assert(self@[i as int] == self.entries@[i as int].view());
                let ghost c = choose|c: int| 0 <= c < self@.len() && (#[trigger] self@[c]).hash == hash@;
                assert(c == i) by {
                    if c < i {
                        assert(self@[c].hash != self@[i as int].hash);
                    } else if c > i {
                        assert(self@[i as int].hash != self@[c].hash);
                    }
                }
                Some(self.entries[i].message.expiration_time)
            },
            None => None,
        }
    }

    /// A copy of the message with content hash `hash`, if it is stored.
    pub fn get_message(&self, hash: &[u8]) -> (r: Option<Message>)
        requires
            self.wf(),
        ensures
            r is None <==> !holds(self@, hash@),
            r matches Some(m) ==> exists|i: int|
                0 <= i < self@.len() && (#[trigger] self@[i]).hash == hash@ && self@[i].payload
                    == m.payload@ && self@[i].nonce == m.nonce && self@[i].expiration_time
                    == m.expiration_time,
    {
        match self.find(hash) {
            Some(i) => {
                assert(self@[i as int] == self.entries@[i as int].view());
                let e = &self.entries[i];
                Some(
                    Message {
                        payload: clone_bytes(&e.message.payload),
                        nonce: e.message.nonce,
                        expiration_time: e.message.expiration_time,
                    },
                )
            },
            None => None,
        }
    }

    /// The oldest entry whose counter is greater than `counter`, as its hash and
    /// counter; `None` when there is none. A reader that starts from zero and passes
    /// back each counter it receives visits every entry in insertion order.
    pub fn get_one_after_counter(&self, counter: u128) -> (r: Option<(Vec<u8>, u128)>)
        requires
            self.wf(),
        ensures
            r is None <==> forall|i: int| 0 <= i < self@.len() ==> (#[trigger] self@[i]).counter
                <= counter,
            r matches Some((h, c)) ==> exists|i: int|
                0 <= i < self@.len() && (#[trigger] self@[i]).counter == c && self@[i].hash == h@
                    && c > counter && forall|j: int| 0 <= j < i ==> (#[trigger] self@[j]).counter
                    <= counter,
    {
        let mut i: usize = 0;
        while i < self.entries.len()
            invariant
                i <= self@.len(),
                self@.len() == self.entries@.len(),
                forall|k: int| 0 <= k < i ==> (#[trigger] self@[k]).counter <= counter,
            decreases self.entries@.len() - i,
        {
            assert(self@[i as int] == self.entries@[i as int].view());
            if self.entries[i].counter > counter {
                return Some((clone_bytes(&self.entries[i].hash), self.entries[i].counter));
            }
            i = i + 1;
        }
        None
    }

    /// Answers a read-only query.
    pub fn in_memory(&self, query: &InMemory) -> (r: InMemoryAnswer)
        requires
            self.wf(),
        ensures
            query matches InMemory::GetOneAfterCounter(c) ==> {
                &&& r matches InMemoryAnswer::OneAfterCounter(a)
                &&& (a is None <==> forall|i: int| 0 <= i < self@.len() ==> (#[trigger] self@[i]).counter <= *c)
                &&& a matches Some((h, n)) ==> exists|i: int|
                    0 <= i < self@.len() && (#[trigger] self@[i]).counter == n && self@[i].hash == h@ && n > *c
                        && forall|j: int| 0 <= j < i ==> (#[trigger] self@[j]).counter <= *c
            },
            query matches InMemory::MessageExists(h) ==> r == InMemoryAnswer::Exists(
                holds(self@, h@),
            ),
            query matches InMemory::GetExpirationTime(h) ==> r == InMemoryAnswer::ExpirationTime(
                expiration_in(self@, h@),
            ),
    {
        match query {
            InMemory::GetOneAfterCounter(c) => InMemoryAnswer::OneAfterCounter(
                self.get_one_after_counter(*c),
            ),
            InMemory::MessageExists(h) => InMemoryAnswer::Exists(
                self.message_exists(h.as_slice()),
            ),
            InMemory::GetExpirationTime(h) => InMemoryAnswer::ExpirationTime(
                self.get_expiration_time(h.as_slice()),
            ),
        }
    }

    /// Carries out a command on the message store.
    pub fn on_disk(&mut self, command: OnDisk) -> (r: OnDiskAnswer)
        requires
            old(self).wf(),
        ensures
            final(self).wf(),
            command matches OnDisk::GetMessage(h) ==> {
                &&& final(self)@ == old(self)@
                &&& final(self).last_counter() == old(self).last_counter()
                &&& r matches OnDiskAnswer::Message(m)
                &&& (m is None <==> !holds(old(self)@, h@))
                &&& m matches Some(msg) ==> exists|i: int|
                    0 <= i < old(self)@.len() && (#[trigger] old(self)@[i]).hash == h@ && old(self)@[i].payload
                        == msg.payload@ && old(self)@[i].nonce == msg.nonce && old(self)@[i].expiration_time
                        == msg.expiration_time
            },
            command matches OnDisk::InsertMessage(m) ==> {
                let h = content_hash(m.payload@, m.expiration_time);
                &&& r matches OnDiskAnswer::Inserted(x)
                &&& (holds(old(self)@, h) || old(self).last_counter() == u128::MAX) ==> {
                    &&& x is None
                    &&& final(self)@ == old(self)@
                    &&& final(self).last_counter() == old(self).last_counter()
                }
                &&& (!holds(old(self)@, h) && old(self).last_counter() < u128::MAX) ==> {
                    &&& x matches Some(Mutation::Insert(y)) && y@ == h
                    &&& final(self).last_counter() == old(self).last_counter() + 1
                    &&& final(self)@ == old(self)@.push(
                        EntryView {
                            counter: final(self).last_counter(),
                            hash: h,
                            payload: m.payload@,
                            nonce: m.nonce,
                            expiration_time: m.expiration_time,
                        },
                    )
                }
            },
    {
        match command {
            OnDisk::GetMessage(h) => OnDiskAnswer::Message(self.get_message(h.as_slice())),
            OnDisk::InsertMessage(m) => {
                if self.counter == u128::MAX {
                    return OnDiskAnswer::Inserted(None);
                }
                OnDiskAnswer::Inserted(self.insert_message(m))
            },
        }
    }

    /// Stores `message` under its content hash with the next counter and returns the
    /// `Insert` mutation to publish. A message whose hash is already stored changes
    /// nothing and publishes nothing.
    pub fn insert_message(&mut self, message: Message) -> (r: Option<Mutation>)
        requires
            old(self).wf(),
            old(self).last_counter() < u128::MAX,
        ensures
            final(self).wf(),
            holds(old(self)@, content_hash(message.payload@, message.expiration_time)) ==> {
                &&& r is None
                &&& final(self)@ == old(self)@
                &&& final(self).last_counter() == old(self).last_counter()
            },
            !holds(old(self)@, content_hash(message.payload@, message.expiration_time)) ==> {
                &&& r matches Some(Mutation::Insert(h)) && h@ == content_hash(
                    message.payload@,
                    message.expiration_time,
                )
                &&& final(self).last_counter() == old(self).last_counter() + 1
                &&& final(self)@ == old(self)@.push(
                    EntryView {
                        counter: final(self).last_counter(),
                        hash: content_hash(message.payload@, message.expiration_time),
                        payload: message.payload@,
                        nonce: message.nonce,
                        expiration_time: message.expiration_time,
                    },
                )
            },
    {
        let hash = message_hash(message.payload.as_slice(), message.expiration_time);
        if self.find(hash.as_slice()).is_some() {
            return None;
        }
        let ghost old_view = self@;
        self.counter = self.counter + 1;
        let published = clone_bytes(&hash);
        self.entries.push(Entry { counter: self.counter, hash, message });
        assert(self@ =~= old_view.push(self.entries@.last().view()));
        assert forall|i: int, j: int| 0 <= i < j < self@.len() implies (#[trigger] self@[i]).hash
            != (#[trigger] self@[j]).hash by {
            if j == old_view.len() {
                assert(self@[i] == old_view[i]);
            } else {
                assert(self@[i] == old_view[i] && self@[j] == old_view[j]);
            }
        }
        assert forall|i: int, j: int| 0 <= i < j < self@.len() implies (#[trigger] self@[i]).counter
            < (#[trigger] self@[j]).counter by {
            assert(self@[i] == old_view[i]);
            if j < old_view.len() {
                assert(self@[j] == old_view[j]);
            }
        }
        assert forall|i: int| 0 <= i < self@.len() implies 1 <= (#[trigger] self@[i]).counter
            <= self.last_counter() by {
            if i < old_view.len() {
                assert(self@[i] == old_view[i]);
            }
        }
        assert forall|i: int| 0 <= i < self@.len() implies (#[trigger] self@[i]).hash
            == content_hash(self@[i].payload, self@[i].expiration_time) by {
            if i < old_view.len() {
                assert(self@[i] == old_view[i]);
            }
        }
        Some(Mutation::Insert(published))
    }

    /// Inserts every message of `messages` in order, as at startup from what is on
    /// disk, and returns the `Insert` mutations of those that were new.
    pub fn populate(&mut self, messages: Vec<Message>) -> (r: Vec<Mutation>)
        requires
            old(self).wf(),
            old(self).last_counter() + messages@.len() <= u128::MAX,
        ensures
            final(self).wf(),
            forall|i: int| 0 <= i < r@.len() ==> #[trigger] r@[i] matches Mutation::Insert(_),
            forall|i: int|
                0 <= i < messages@.len() ==> holds(
                    final(self)@,
                    content_hash(#[trigger] messages@[i].payload@, messages@[i].expiration_time),
                ),
            forall|i: int| 0 <= i < old(self)@.len() ==> #[trigger] final(self)@[i] == old(self)@[i],
            old(self)@.len() <= final(self)@.len(),
            fresh_batch(old(self)@, messages@) ==> {
                &&& r@.len() == messages@.len()
                &&& final(self)@.len() == old(self)@.len() + messages@.len()
                &&& final(self).last_counter() == old(self).last_counter() + messages@.len()
                &&& forall|i: int|
                    0 <= i < messages@.len() ==> final(self)@[old(self)@.len() + i] == entry_for(
                        #[trigger] messages@[i],
                        (old(self).last_counter() + 1 + i) as u128,
                    ) && r@[i] is Insert && r@[i].hash() == content_hash(
                        messages@[i].payload@,
                        messages@[i].expiration_time,
                    )
            },
    {
        let mut published: Vec<Mutation> = Vec::new();
        let mut rest = messages;
        let ghost all = rest@;
        let ghost mut done: int = 0;
        while rest.len() > 0
            invariant
                self.wf(),
                self.last_counter() + rest@.len() <= u128::MAX,
                old(self)@.len() <= self@.len(),
                forall|i: int| 0 <= i < old(self)@.len() ==> #[trigger] self@[i] == old(self)@[i],
                forall|i: int| 0 <= i < published@.len() ==> #[trigger] published@[i] matches Mutation::Insert(_),
                all.len() == rest@.len() + done,
                forall|i: int| 0 <= i < rest@.len() ==> #[trigger] rest@[i] == all[done + i],
                forall|i: int|
                    0 <= i < done ==> holds(
                        self@,
                        content_hash(#[trigger] all[i].payload@, all[i].expiration_time),
                    ),
                all == messages@,
                fresh_batch(old(self)@, all) ==> {
                    &&& published@.len() == done
                    &&& self@.len() == old(self)@.len() + done
                    &&& self.last_counter() == old(self).last_counter() + done
                    &&& forall|i: int|
                        0 <= i < done ==> self@[old(self)@.len() + i] == entry_for(
                            #[trigger] all[i],
                            (old(self).last_counter() + 1 + i) as u128,
                        ) && published@[i] is Insert && published@[i].hash() == content_hash(
                            all[i].payload@,
                            all[i].expiration_time,
                        )
                },
            decreases rest@.len(),
        {
            let ghost before = self@;
            let m = rest.remove(0);
            let ghost k = done;
            assert(m == all[k]);
            let ghost h = content_hash(m.payload@, m.expiration_time);
            let ghost before_published = published@;
            proof {
                if fresh_batch(old(self)@, all) {
                    if holds(before, h) {
                        let w = choose|w: int| 0 <= w < before.len() && (#[trigger] before[w]).hash == h;
                        if w < old(self)@.len() {
                            assert(before[w] == old(self)@[w]);
                        } else {
                            let q = w - old(self)@.len();
                            assert(before[old(self)@.len() + q] == entry_for(all[q], (old(self).last_counter() + 1 + q) as u128));
                        }
                    }
                }
            }
            match self.insert_message(m) {
                Some(mutation) => published.push(mutation),
                None => {},
            }
            proof {
                if fresh_batch(old(self)@, all) {
                    assert forall|i: int| 0 <= i < k + 1 implies self@[old(self)@.len() + i] == entry_for(
                        #[trigger] all[i],
                        (old(self).last_counter() + 1 + i) as u128,
                    ) && published@[i] is Insert && published@[i].hash() == content_hash(
                        all[i].payload@,
                        all[i].expiration_time,
                    ) by {
                        if i < k {
                            assert(self@[old(self)@.len() + i] == before[old(self)@.len() + i]);
                            assert(published@[i] == before_published[i]);
                        }
                    }
                }
            }
            assert(holds(self@, h)) by {
                if !holds(before, h) {
                    assert(self@[before.len() as int].hash == h);
                }
            }
            assert forall|i: int| 0 <= i < done + 1 implies holds(
                self@,
                content_hash(#[trigger] all[i].payload@, all[i].expiration_time),
            ) by {
                if i < k {
                    let hi = content_hash(all[i].payload@, all[i].expiration_time);
                    assert(holds(before, hi));
                    let w = choose|w: int| 0 <= w < before.len() && (#[trigger] before[w]).hash == hi;
                    assert(self@[w] == before[w]);
                }
            }
            proof {
                done = done + 1;
            }
            assert forall|i: int| 0 <= i < rest@.len() implies #[trigger] rest@[i] == all[done + i] by {
            }
        }
        published
    }

    /// Removes every message whose expiration time is at or before `now` and returns
    /// one `Purge` mutation for each, in insertion order.
    pub fn purge_expired(&mut self, now: i64) -> (r: Vec<Mutation>)
        requires
            old(self).wf(),
        ensures
            final(self).wf(),
            final(self).last_counter() == old(self).last_counter(),
            final(self)@ == old(self)@.filter(|e: EntryView| live_at(e, now)),
            r@.map_values(|m: Mutation| m.hash()) == old(self)@.filter(
                |e: EntryView| !live_at(e, now),
            ).map_values(|e: EntryView| e.hash),
            forall|i: int| 0 <= i < r@.len() ==> #[trigger] r@[i] matches Mutation::Purge(_),
    {
        let ghost old_view = self@;
        let mut old_entries: Vec<Entry> = Vec::new();
        std::mem::swap(&mut self.entries, &mut old_entries);
        let mut purged: Vec<Mutation> = Vec::new();
        let ghost mut k: int = 0;
        while old_entries.len() > 0
            invariant
                0 <= k <= old_view.len(),
                old_entries@.len() == old_view.len() - k,
                forall|i: int|
                    0 <= i < old_entries@.len() ==> (#[trigger] old_entries@[i]).view()
                        == old_view[k + i],
                self@ == old_view.subrange(0, k).filter(|x: EntryView| live_at(x, now)),
                purged@.map_values(|m: Mutation| m.hash()) == old_view.subrange(0, k).filter(|x: EntryView| !live_at(x, now)).map_values(|e: EntryView| e.hash),
                forall|i: int| 0 <= i < purged@.len() ==> #[trigger] purged@[i] matches Mutation::Purge(_),
                self.counter == old(self).counter,
                old_view == old(self)@,
            decreases old_entries@.len(),
        {
            let e = old_entries.remove(0);
            assert(e.view() == old_view[k]);
            assert forall|i: int| 0 <= i < old_entries@.len() implies (#[trigger] old_entries@[i]).view()
                == old_view[k + 1 + i] by {
            }
            let ghost prefix = old_view.subrange(0, k + 1);
            assert(prefix.drop_last() =~= old_view.subrange(0, k));
            assert(prefix.last() == e.view());
            proof {
                reveal(Seq::filter);
                assert(prefix.filter(|x: EntryView| live_at(x, now)) == (if live_at(e.view(), now) {
                    old_view.subrange(0, k).filter(|x: EntryView| live_at(x, now)).push(e.view())
                } else {
                    old_view.subrange(0, k).filter(|x: EntryView| live_at(x, now))
                }));
                assert(prefix.filter(|x: EntryView| !live_at(x, now)) == (if !live_at(e.view(), now) {
                    old_view.subrange(0, k).filter(|x: EntryView| !live_at(x, now)).push(e.view())
                } else {
                    old_view.subrange(0, k).filter(|x: EntryView| !live_at(x, now))
                }));
            }
            if e.message.expiration_time > now {
                let ghost before = self@;
                let ghost ev = e.view();
                assert(live_at(ev, now));
                self.entries.push(e);
                assert(self@ =~= before.push(ev));
                assert(prefix.filter(|x: EntryView| live_at(x, now)) == before.push(ev));
            } else {
                let ghost before = purged@;
                purged.push(Mutation::Purge(e.hash));
                assert(purged@.map_values(|m: Mutation| m.hash()) =~= before.map_values(
                    |m: Mutation| m.hash(),
                ).push(e.view().hash));
                assert(old_view.subrange(0, k + 1).filter(|x: EntryView| !live_at(x, now)).map_values(
                    |e: EntryView| e.hash,
                ) =~= old_view.subrange(0, k).filter(|x: EntryView| !live_at(x, now)).map_values(|e: EntryView| e.hash).push(
                    e.view().hash,
                ));
            }
            assert(self@ == prefix.filter(|x: EntryView| live_at(x, now)));
            proof {
                k = k + 1;
            }
            assert(self@ == old_view.subrange(0, k).filter(|x: EntryView| live_at(x, now)));
        }
        assert(old_view.subrange(0, k) =~= old_view);
        proof {
            let s = old_view;
            lemma_filter_pairwise(s, |x: EntryView| live_at(x, now), |a: EntryView, b: EntryView| a.counter < b.counter);
            lemma_filter_pairwise(s, |x: EntryView| live_at(x, now), |a: EntryView, b: EntryView| a.hash != b.hash);
            assert forall|i: int| 0 <= i < self@.len() implies 1 <= (#[trigger] self@[i]).counter
                <= self.last_counter() && self@[i].hash == content_hash(
                self@[i].payload,
                self@[i].expiration_time,
            ) by {
                lemma_filter_member(s, |x: EntryView| live_at(x, now), i);
            }
        }
        purged
    }
}

/// A message inserted later holds a strictly greater counter: in a well-formed
/// inventory, entry `i` was inserted before entry `j` exactly when `i < j`, and its
/// counter is smaller.
pub proof fn lemma_counter_monotonic(inventory: &Inventory, i: int, j: int)
    requires
        inventory.wf(),
        0 <= i < j < inventory@.len(),
    ensures
        inventory@[i].counter < inventory@[j].counter,
{
}

/// After one sweep at `now`, no message that expired at or before `now` exists, and
/// each of them was announced by exactly one `Purge`.
pub proof fn lemma_sweep_purges_once(before: Seq<EntryView>, after: Seq<EntryView>, purged: Seq<Seq<u8>>, now: i64, h: Seq<u8>)
    requires
        forall|i: int, j: int| 0 <= i < j < before.len() ==> (#[trigger] before[i]).hash != (#[trigger] before[j]).hash,
        after == before.filter(|e: EntryView| live_at(e, now)),
        purged == before.filter(|e: EntryView| !live_at(e, now)).map_values(|e: EntryView| e.hash),
        exists|i: int| 0 <= i < before.len() && (#[trigger] before[i]).hash == h && !live_at(before[i], now),
    ensures
        !holds(after, h),
        purged.filter(|x: Seq<u8>| x == h).len() == 1,
{
    broadcast use vstd::seq_lib::group_filter_ensures;
    let w = choose|i: int| 0 <= i < before.len() && (#[trigger] before[i]).hash == h && !live_at(before[i], now);
    if holds(after, h) {
        let a = choose|a: int| 0 <= a < after.len() && (#[trigger] after[a]).hash == h;
        lemma_filter_member(before, |x: EntryView| live_at(x, now), a);
        let k = choose|k: int| 0 <= k < before.len() && before[k] == after[a];
        assert(k != w);
        if k < w {
            assert(before[k].hash != before[w].hash);
        } else {
            assert(before[w].hash != before[k].hash);
        }
    }
    let d = before.filter(|x: EntryView| !live_at(x, now));
    lemma_filter_pairwise(before, |x: EntryView| !live_at(x, now), |a: EntryView, b: EntryView| a.hash != b.hash);
    assert(d.contains(before[w]));
    let m = choose|m: int| 0 <= m < d.len() && d[m] == before[w];
    assert forall|a: int, b: int| 0 <= a < b < purged.len() implies #[trigger] purged[a]
        != #[trigger] purged[b] by {
        assert(d[a].hash != d[b].hash);
    }
    lemma_single_match(purged, h, m);
}

proof fn lemma_single_match(s: Seq<Seq<u8>>, h: Seq<u8>, m: int)
    requires
        0 <= m < s.len(),
        s[m] == h,
        forall|a: int, b: int| 0 <= a < b < s.len() ==> #[trigger] s[a] != #[trigger] s[b],
    ensures
        s.filter(|x: Seq<u8>| x == h).len() == 1,
    decreases s.len(),
{
    reveal(Seq::filter);
    let f = |x: Seq<u8>| x == h;
    let rest = s.drop_last();
    if m == s.len() - 1 {
        assert forall|i: int| 0 <= i < rest.len() implies !f(rest[i]) by {
            assert(s[i] != s[m]);
        }
        lemma_no_match(rest, h);
    } else {
        assert(s.last() != h) by {
            assert(s[m] != s[s.len() - 1]);
        }
        assert forall|a: int, b: int| 0 <= a < b < rest.len() implies #[trigger] rest[a] != #[trigger] rest[b] by {
            assert(s[a] != s[b]);
        }
        lemma_single_match(rest, h, m);
    }
}

proof fn lemma_no_match(s: Seq<Seq<u8>>, h: Seq<u8>)
    requires
        forall|i: int| 0 <= i < s.len() ==> s[i] != h,
    ensures
        s.filter(|x: Seq<u8>| x == h).len() == 0,
    decreases s.len(),
{
    reveal(Seq::filter);
    if s.len() > 0 {
        let rest = s.drop_last();
        assert forall|i: int| 0 <= i < rest.len() implies rest[i] != h by {
            assert(rest[i] == s[i]);
        }
        lemma_no_match(rest, h);
    }
}

} // verus!
