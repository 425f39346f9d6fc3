use vstd::prelude::*;

verus! {

/// A proof-of-work submission that has not finished, with what the frontend attached
/// to it.
#[derive(Debug)]
pub struct ProofOfWorkOperation {
    pub operation_id: String,
    pub associated_frontend_data: String,
}

/// The submissions whose proof of work is still being searched for, at most one per
/// operation id, oldest first.
pub struct PendingOperations {
    operations: Vec<ProofOfWorkOperation>,
}

impl PendingOperations {
    /// The pending operations as (id, data) pairs, oldest first.
    pub closed spec fn view(&self) -> Seq<(Seq<char>, Seq<char>)> {
        self.operations@.map_values(
            |o: ProofOfWorkOperation| (o.operation_id@, o.associated_frontend_data@),
        )
    }

    /// Operation ids are unique.
    pub closed spec fn wf(&self) -> bool {
        forall|i: int, j: int|
            0 <= i < j < self@.len() ==> (#[trigger] self@[i]).0 != (#[trigger] self@[j]).0
    }

    /// No pending operations.
    pub fn new() -> (r: PendingOperations)
        ensures
            r.wf(),
            r@.len() == 0,
    {
        let r = PendingOperations { operations: Vec::new() };
        assert(r@ =~= Seq::<(Seq<char>, Seq<char>)>::empty());
        r
    }

    fn position(&self, operation_id: &String) -> (r: Option<usize>)
        ensures
            r matches Some(i) ==> i < self@.len() && self@[i as int].0 == operation_id@,
            r is None ==> forall|i: int| 0 <= i < self@.len() ==> (#[trigger] self@[i]).0 != operation_id@,
    {
        let mut i: usize = 0;
        while i < self.operations.len()
            invariant
                i <= self.operations@.len(),
                forall|k: int| 0 <= k < i ==> (#[trigger] self@[k]).0 != operation_id@,
            decreases self.operations@.len() - i,
        {
            if self.operations[i].operation_id == *operation_id {
                return Some(i);
            }
            i = i + 1;
        }
        None
    }

    /// Records a new pending operation; an operation id already pending keeps its
    /// data and `false` comes back.
    pub fn insert(&mut self, operation_id: String, associated_frontend_data: String) -> (r: bool)
        requires
            old(self).wf(),
        ensures
            final(self).wf(),
            r == forall|i: int| 0 <= i < old(self)@.len() ==> (#[trigger] old(self)@[i]).0 != operation_id@,
            r ==> final(self)@ == old(self)@.push((operation_id@, associated_frontend_data@)),
            !r ==> final(self)@ == old(self)@,
    {
        if self.position(&operation_id).is_some() {
            return false;
        }
        let ghost before = self@;
        self.operations.push(ProofOfWorkOperation { operation_id, associated_frontend_data });
        assert(self@ =~= before.push(self@.last()));
        assert forall|i: int, j: int| 0 <= i < j < self@.len() implies (#[trigger] self@[i]).0 != (#[trigger] self@[j]).0 by {
            assert(self@[i] == before[i]);
            if j < before.len() {
                assert(self@[j] == before[j]);
            }
        }
        true
    }

    /// Forgets the operation `operation_id`, if it is pending.
    pub fn remove(&mut self, operation_id: &String)
        requires
            old(self).wf(),
        ensures
            final(self).wf(),
            forall|i: int| 0 <= i < final(self)@.len() ==> (#[trigger] final(self)@[i]).0 != operation_id@,
            forall|i: int| 0 <= i < old(self)@.len() && (#[trigger] old(self)@[i]).0 != operation_id@
                ==> final(self)@.contains(old(self)@[i]),
            final(self)@.len() <= old(self)@.len(),
    {
        match self.position(operation_id) {
            None => {},
            Some(i) => {
                let ghost before = self@;
                self.operations.remove(i);
                assert(self@ =~= before.remove(i as int));
                assert forall|a: int| 0 <= a < self@.len() implies (#[trigger] self@[a]).0 != operation_id@ by {
                    if a < i {
                        assert(self@[a] == before[a]);
                        assert(before[a].0 != before[i as int].0);
                    } else {
                        assert(self@[a] == before[a + 1]);
                        assert(before[i as int].0 != before[a + 1].0);
                    }
                }
                assert forall|a: int, b: int| 0 <= a < b < self@.len() implies (#[trigger] self@[a]).0 != (#[trigger] self@[b]).0 by {
                    let a2 = if a < i { a } else { a + 1 };
                    let b2 = if b < i { b } else { b + 1 };
                    assert(self@[a] == before[a2] && self@[b] == before[b2]);
                }
                assert forall|k: int| 0 <= k < before.len() && (#[trigger] before[k]).0 != operation_id@
                    implies self@.contains(before[k]) by {
                    if k < i {
                        assert(self@[k] == before[k]);
                    } else {
                        assert(k != i);
                        assert(self@[k - 1] == before[k]);
                    }
                }
            },
        }
    }

    /// The pending operations, oldest first.
    pub fn dump(&self) -> (r: Vec<ProofOfWorkOperation>)
        ensures
            r@.map_values(|o: ProofOfWorkOperation| (o.operation_id@, o.associated_frontend_data@)) == self@,
    {
        let mut r: Vec<ProofOfWorkOperation> = Vec::new();
        let mut i: usize = 0;
        while i < self.operations.len()
            invariant
                i <= self.operations@.len(),
                r@.len() == i,
                forall|k: int| 0 <= k < i ==> (#[trigger] r@[k]).operation_id@ == self.operations@[k].operation_id@
                    && r@[k].associated_frontend_data@ == self.operations@[k].associated_frontend_data@,
            decreases self.operations@.len() - i,
        {
            let o = &self.operations[i];
            r.push(
                ProofOfWorkOperation {
                    operation_id: o.operation_id.clone(),
                    associated_frontend_data: o.associated_frontend_data.clone(),
                },
            );
            i = i + 1;
        }
        assert(r@.map_values(|o: ProofOfWorkOperation| (o.operation_id@, o.associated_frontend_data@)) =~= self@);
        r
    }
}

} // verus!
