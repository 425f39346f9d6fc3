use vstd::prelude::*;

verus! {

/// A broadcast wake-up shared by many consumers. Each consumer holds a handle to a
/// private slot with a flag; `broadcast` sets every registered flag, and a consumer
/// that has woken resets its own flag before it waits again.
pub struct MPMCManualResetEvent {
    counter: u128,
    events: Vec<(u128, bool)>,
}

/// Whether some slot of `slots` has handle `handle`.
pub open spec fn has_handle(slots: Seq<(u128, bool)>, handle: u128) -> bool {
    exists|i: int| 0 <= i < slots.len() && #[trigger] slots[i].0 == handle
}

impl View for MPMCManualResetEvent {
    type V = Seq<(u128, bool)>;

    /// The registered slots, oldest first: each handle with its flag.
    closed spec fn view(&self) -> Seq<(u128, bool)> {
        self.events@
    }
}

impl MPMCManualResetEvent {
    /// The handle that the next registration receives.
    pub closed spec fn next_handle(&self) -> u128 {
        self.counter
    }

    /// Every registered handle is below the next handle, so a new one is fresh.
    pub closed spec fn wf(&self) -> bool {
        forall|i: int| 0 <= i < self@.len() ==> (#[trigger] self@[i]).0 < self.counter
    }

    /// An event with no slots.
    pub fn new() -> (r: MPMCManualResetEvent)
        ensures
            r.wf(),
            r@ == Seq::<(u128, bool)>::empty(),
            r.next_handle() == 0,
    {
        MPMCManualResetEvent { counter: 0, events: Vec::new() }
    }

    /// Whether another handle can still be handed out.
    pub fn next_handle_available(&self) -> (r: bool)
        ensures
            r == (self.next_handle() < u128::MAX),
    {
        self.counter < u128::MAX
    }

    /// Registers a fresh slot with an unset flag and returns its handle.
    pub fn get_handle(&mut self) -> (r: u128)
        requires
            old(self).wf(),
            old(self).next_handle() < u128::MAX,
        ensures
            final(self).wf(),
            r == old(self).next_handle(),
            !has_handle(old(self)@, r),
            final(self)@ == old(self)@.push((r, false)),
            final(self).next_handle() == old(self).next_handle() + 1,
    {
        let handle = self.counter;
        self.events.push((handle, false));
        self.counter = self.counter + 1;
        assert forall|i: int| 0 <= i < self@.len() implies (#[trigger] self@[i]).0 < self.counter by {
            if i < old(self)@.len() {
                assert(self@[i] == old(self)@[i]);
            }
        }
        handle
    }

    /// Removes the slot of `handle`, if it is registered.
    pub fn drop_handle(&mut self, handle: u128)
        requires
            old(self).wf(),
        ensures
            final(self).wf(),
            final(self)@ == old(self)@.filter(|s: (u128, bool)| s.0 != handle),
            final(self).next_handle() == old(self).next_handle(),
    {
        let mut kept: Vec<(u128, bool)> = Vec::new();
        let mut i: usize = 0;
        while i < self.events.len()
            invariant
                i <= self.events@.len(),
                self.events@ == old(self).events@,
                self.counter == old(self).counter,
                old(self).wf(),
                kept@ == self.events@.subrange(0, i as int).filter(
                    |s: (u128, bool)| s.0 != handle,
                ),
            decreases self.events@.len() - i,
        {
            let slot = self.events[i];
            proof {
                let s = self.events@.subrange(0, i + 1);
                assert(s.drop_last() =~= self.events@.subrange(0, i as int));
                reveal(Seq::filter);
            }
            if slot.0 != handle {
                kept.push(slot);
            }
            i = i + 1;
        }
        assert(self.events@.subrange(0, i as int) =~= self.events@);
        let ghost old_slots = self.events@;
        self.events = kept;
        proof {
            let f = |s: (u128, bool)| s.0 != handle;
            assert(old_slots == old(self)@);
            assert forall|k: int| 0 <= k < self@.len() implies (#[trigger] self@[k]).0
                < self.counter by {
                let x = self@[k];
                assert(old_slots.filter(f).contains(x));
                old_slots.lemma_filter_contains_rev(f, x);
                let m = choose|m: int| 0 <= m < old_slots.len() && old_slots[m] == x;
                assert(old_slots[m].0 < self.counter);
            }
        }
    }

    /// Sets the flag of every registered slot.
    pub fn broadcast(&mut self)
        requires
            old(self).wf(),
        ensures
            final(self).wf(),
            final(self)@ == old(self)@.map_values(|s: (u128, bool)| (s.0, true)),
            final(self).next_handle() == old(self).next_handle(),
    {
        let mut i: usize = 0;
        while i < self.events.len()
            invariant
                i <= self.events@.len(),
                self.events@.len() == old(self).events@.len(),
                self.counter == old(self).counter,
                forall|k: int|
                    0 <= k < i ==> #[trigger] self.events@[k] == (old(self).events@[k].0, true),
                forall|k: int|
                    i <= k < self.events@.len() ==> #[trigger] self.events@[k] == old(
                        self,
                    ).events@[k],
            decreases self.events@.len() - i,
        {
            let handle = self.events[i].0;
            self.events.set(i, (handle, true));
            i = i + 1;
        }
        assert(self@ =~= old(self)@.map_values(|s: (u128, bool)| (s.0, true)));
    }

    /// Whether the flag of `handle` is set, that is, whether a wait on it would
    /// return at once. `false` for a handle that is not registered.
    pub fn is_set(&self, handle: u128) -> (r: bool)
        ensures
            r == exists|i: int| 0 <= i < self@.len() && #[trigger] self@[i] == (handle, true),
    {
        let mut i: usize = 0;
        while i < self.events.len()
            invariant
                i <= self.events@.len(),
                forall|k: int| 0 <= k < i ==> #[trigger] self.events@[k] != (handle, true),
            decreases self.events@.len() - i,
        {
            if self.events[i].0 == handle && self.events[i].1 {
                assert(self@[i as int] == (handle, true));
                return true;
            }
            i = i + 1;
        }
        false
    }

    /// Clears the flag of `handle`, so that the next wait on it blocks until the next
    /// broadcast.
    pub fn reset(&mut self, handle: u128)
        requires
            old(self).wf(),
        ensures
            final(self).wf(),
            final(self)@ == old(self)@.map_values(
                |s: (u128, bool)|
                    if s.0 == handle {
                        (s.0, false)
                    } else {
                        s
                    },
            ),
            final(self).next_handle() == old(self).next_handle(),
    {
        let mut i: usize = 0;
        while i < self.events.len()
            invariant
                i <= self.events@.len(),
                self.events@.len() == old(self).events@.len(),
                self.counter == old(self).counter,
                forall|k: int|
                    0 <= k < i ==> #[trigger] self.events@[k] == (if old(self).events@[k].0
                        == handle {
                        (old(self).events@[k].0, false)
                    } else {
                        old(self).events@[k]
                    }),
                forall|k: int|
                    i <= k < self.events@.len() ==> #[trigger] self.events@[k] == old(
                        self,
                    ).events@[k],
            decreases self.events@.len() - i,
        {
            if self.events[i].0 == handle {
                self.events.set(i, (handle, false));
            }
            i = i + 1;
        }
        assert(self@ =~= old(self)@.map_values(
            |s: (u128, bool)|
                if s.0 == handle {
                    (s.0, false)
                } else {
                    s
                },
        ));
    }
}

} // verus!
