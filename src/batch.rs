use vstd::prelude::*;
use crate::record::{
    lemma_records_bytes_slot, record_bytes, records_bytes, InstanceRecord, Rect, RECORD_SIZE,
};

verus! {

/// Capacity of a batch created without instances.
pub const DEFAULT_CAPACITY: u64 = 128;

/// Errors of slot access on a batch.
#[derive(Clone, Copy, Debug, PartialEq, Eq, Structural)]
pub enum BufferError {
    /// The slot is not below the live count.
    OutOfRange { slot: u64, len: u64 },
    /// The capacity cannot be doubled any further.
    CapacityExhausted,
}

/// What a GPU buffer holds: per-vertex (or per-instance) data, or uniforms.
#[derive(Clone, Copy, Debug, PartialEq, Eq, Structural)]
pub enum BufferType {
    Vertex,
    Uniform,
}

/// One indexed indirect draw, in the layout of the GPU's indirect-draw arguments.
#[derive(Clone, Copy, Debug, PartialEq, Eq, Structural)]
pub struct IndirectDraw {
    pub index_count: u32,
    pub instance_count: u32,
    pub first_index: u32,
    pub first_instance: u32,
    pub base_vertex: i32,
}

/// The instance data of one shape type: a dense buffer of records, where slot
/// `i` holds the record of the element `owners[i]`.
pub struct BatchRenderer {
    records: Vec<InstanceRecord>,
    owners: Vec<u64>,
    capacity: u64,
}

impl BatchRenderer {
    /// The records, slot by slot.
    pub closed spec fn records(&self) -> Seq<InstanceRecord> {
        self.records@
    }

    /// The element that owns each slot.
    pub closed spec fn owners(&self) -> Seq<u64> {
        self.owners@
    }

    pub closed spec fn cap(&self) -> nat {
        self.capacity as nat
    }

    pub open spec fn len_spec(&self) -> nat {
        self.records().len()
    }

    pub closed spec fn wf(&self) -> bool {
        &&& self.records@.len() == self.owners@.len()
        &&& self.records@.len() <= self.capacity
        &&& self.capacity >= 1
    }

    /// The bytes of the live range of the buffer.
    pub open spec fn bytes(&self) -> Seq<u8> {
        records_bytes(self.records())
    }

    /// An empty batch with room for `DEFAULT_CAPACITY` instances.
    pub fn new() -> (r: BatchRenderer)
        ensures
            r.wf(),
            r.records() == Seq::<InstanceRecord>::empty(),
            r.owners() == Seq::<u64>::empty(),
            r.cap() == DEFAULT_CAPACITY,
    {
        BatchRenderer { records: Vec::new(), owners: Vec::new(), capacity: DEFAULT_CAPACITY }
    }

    /// A batch holding `instances` (record and owner) in order, with room
    /// for exactly that many; an empty list gives `DEFAULT_CAPACITY`.
    pub fn from_instances(instances: Vec<(InstanceRecord, u64)>) -> (r: BatchRenderer)
        ensures
            r.wf(),
            r.records().len() == instances@.len(),
            r.owners().len() == instances@.len(),
            forall|i: int|
                0 <= i < instances@.len() ==> r.records()[i] == instances@[i].0 && r.owners()[i]
                    == instances@[i].1,
            r.cap() == if instances@.len() == 0 {
                DEFAULT_CAPACITY as nat
            } else {
                instances@.len()
            },
    {
        let mut records: Vec<InstanceRecord> = Vec::new();
        let mut owners: Vec<u64> = Vec::new();
        let mut i: usize = 0;
        while i < instances.len()
            invariant
                i <= instances@.len(),
                records@.len() == i,
                owners@.len() == i,
                forall|j: int|
                    0 <= j < i ==> records@[j] == instances@[j].0 && owners@[j] == instances@[j].1,
            decreases instances@.len() - i,
        {
            let (record, owner) = instances[i];
            records.push(record);
            owners.push(owner);
            i = i + 1;
        }
        let capacity = if i == 0 {
            DEFAULT_CAPACITY
        } else {
            i as u64
        };
        BatchRenderer { records, owners, capacity }
    }

    /// Number of live instances.
    pub fn len(&self) -> (r: u64)
        requires
            self.wf(),
        ensures
            r == self.len_spec(),
    {
        self.records.len() as u64
    }

    pub fn is_empty(&self) -> (r: bool)
        requires
            self.wf(),
        ensures
            r == (self.len_spec() == 0),
    {
        self.records.len() == 0
    }

    /// Number of instances the buffer holds before it must grow.
    pub fn capacity(&self) -> (r: u64)
        ensures
            r == self.cap(),
    {
        self.capacity
    }

    /// The record in `slot`, if the slot is live.
    pub fn get(&self, slot: u64) -> (r: Option<InstanceRecord>)
        requires
            self.wf(),
        ensures
            slot < self.len_spec() ==> r == Some(self.records()[slot as int]),
            slot >= self.len_spec() ==> r is None,
    {
        if slot < self.records.len() as u64 {
            Some(self.records[slot as usize])
        } else {
            None
        }
    }

    /// The element that owns `slot`, if the slot is live.
    pub fn owner(&self, slot: u64) -> (r: Option<u64>)
        requires
            self.wf(),
        ensures
            slot < self.len_spec() ==> r == Some(self.owners()[slot as int]),
            slot >= self.len_spec() ==> r is None,
    {
        if slot < self.owners.len() as u64 {
            Some(self.owners[slot as usize])
        } else {
            None
        }
    }

    /// Appends `record`, owned by `owner`, and returns its slot: the old live
    /// count. A full buffer doubles its capacity first; existing slots keep
    /// their records.
    pub fn push(&mut self, record: InstanceRecord, owner: u64) -> (r: Result<u64, BufferError>)
        requires
            old(self).wf(),
        ensures
            final(self).wf(),
            r is Ok <==> (old(self).len_spec() < old(self).cap() || old(self).cap() <= u64::MAX
                / 2),
            r is Ok ==> {
                &&& r->Ok_0 == old(self).len_spec()
                &&& final(self).records() == old(self).records().push(record)
                &&& final(self).owners() == old(self).owners().push(owner)
                &&& final(self).cap() == if old(self).len_spec() < old(self).cap() {
                    old(self).cap()
                } else {
                    2 * old(self).cap()
                }
            },
            r is Err ==> r->Err_0 == BufferError::CapacityExhausted && *final(self) == *old(self),
    {
        let len = self.records.len() as u64;
        if len == self.capacity {
            if self.capacity > u64::MAX / 2 {
                return Err(BufferError::CapacityExhausted);
            }
            self.capacity = self.capacity * 2;
        }
        self.records.push(record);
        self.owners.push(owner);
        Ok(len)
    }

    /// Drops the last instance, if any, and returns the new live count.
    pub fn pop(&mut self) -> (r: u64)
        requires
            old(self).wf(),
        ensures
            final(self).wf(),
            final(self).cap() == old(self).cap(),
            old(self).len_spec() == 0 ==> *final(self) == *old(self),
            old(self).len_spec() > 0 ==> {
                &&& final(self).records() == old(self).records().drop_last()
                &&& final(self).owners() == old(self).owners().drop_last()
            },
            r == final(self).len_spec(),
    {
        if self.records.len() == 0 {
            return 0;
        }
        self.records.pop();
        self.owners.pop();
        self.records.len() as u64
    }

    /// Removes the instance in `slot` by moving the last instance into it, and
    /// returns the removed record. The owner now found at `slot` (if the slot
    /// is still live) must be told its new slot.
    pub fn remove(&mut self, slot: u64) -> (r: Result<InstanceRecord, BufferError>)
        requires
            old(self).wf(),
        ensures
            final(self).wf(),
            final(self).cap() == old(self).cap(),
            r is Ok <==> slot < old(self).len_spec(),
            r is Ok ==> {
                &&& r->Ok_0 == old(self).records()[slot as int]
                &&& final(self).records() == old(self).records().update(
                    slot as int,
                    old(self).records().last(),
                ).drop_last()
                &&& final(self).owners() == old(self).owners().update(
                    slot as int,
                    old(self).owners().last(),
                ).drop_last()
            },
            r is Err ==> r->Err_0 == (BufferError::OutOfRange {
                slot,
                len: old(self).len_spec() as u64,
            }) && *final(self) == *old(self),
    {
        let len = self.records.len() as u64;
        if slot >= len {
            return Err(BufferError::OutOfRange { slot, len });
        }
        let out = self.records.swap_remove(slot as usize);
        self.owners.swap_remove(slot as usize);
        Ok(out)
    }

    /// Overwrites the record in `slot`.
    pub fn update(&mut self, slot: u64, record: InstanceRecord) -> (r: Result<(), BufferError>)
        requires
            old(self).wf(),
        ensures
            final(self).wf(),
            final(self).cap() == old(self).cap(),
            final(self).owners() == old(self).owners(),
            r is Ok <==> slot < old(self).len_spec(),
            r is Ok ==> final(self).records() == old(self).records().update(slot as int, record),
            r is Err ==> r->Err_0 == (BufferError::OutOfRange {
                slot,
                len: old(self).len_spec() as u64,
            }) && *final(self) == *old(self),
    {
        let len = self.records.len() as u64;
        if slot >= len {
            return Err(BufferError::OutOfRange { slot, len });
        }
        self.records.set(slot as usize, record);
        Ok(())
    }

    /// Moves the instance in `slot` to `rect`, keeping its colour.
    pub fn resize(&mut self, slot: u64, rect: Rect) -> (r: Result<(), BufferError>)
        requires
            old(self).wf(),
        ensures
            final(self).wf(),
            final(self).cap() == old(self).cap(),
            final(self).owners() == old(self).owners(),
            r is Ok <==> slot < old(self).len_spec(),
            r is Ok ==> final(self).records() == old(self).records().update(
                slot as int,
                InstanceRecord { rect, color: old(self).records()[slot as int].color },
            ),
            r is Err ==> *final(self) == *old(self),
    {
        let len = self.records.len() as u64;
        if slot >= len {
            return Err(BufferError::OutOfRange { slot, len });
        }
        let color = self.records[slot as usize].color;
        self.records.set(slot as usize, InstanceRecord { rect, color });
        Ok(())
    }

    /// Sets the owner recorded for a live slot.
    pub(crate) fn set_owner(&mut self, slot: u64, owner: u64)
        requires
            old(self).wf(),
            slot < old(self).len_spec(),
        ensures
            final(self).wf(),
            final(self).cap() == old(self).cap(),
            final(self).records() == old(self).records(),
            final(self).owners() == old(self).owners().update(slot as int, owner),
    {
        let n = self.owners.len();
        assert(slot < n);
        self.owners.set(slot as usize, owner);
    }

    /// The bytes of the whole live range, as one write to the GPU buffer.
    pub fn to_bytes(&self) -> (r: Vec<u8>)
        requires
            self.wf(),
        ensures
            r@ == self.bytes(),
    {
        let mut out: Vec<u8> = Vec::new();
        let mut i: usize = 0;
        while i < self.records.len()
            invariant
                i <= self.records@.len(),
                out@ == records_bytes(self.records@.subrange(0, i as int)),
            decreases self.records@.len() - i,
        {
            let ghost before = out@;
            self.records[i].encode_into(&mut out);
            proof {
                let s = self.records@.subrange(0, i as int + 1);
                assert(s.drop_last() =~= self.records@.subrange(0, i as int));
                assert(s.last() == self.records@[i as int]);
            }
            i = i + 1;
        }
        assert(self.records@.subrange(0, self.records@.len() as int) =~= self.records@);
        out
    }

    /// The bytes of the buffer at `slot`.
    pub fn slot_bytes(&self, slot: u64) -> (r: Result<Vec<u8>, BufferError>)
        requires
            self.wf(),
        ensures
            r is Ok <==> slot < self.len_spec(),
            r is Ok ==> r->Ok_0@ == self.bytes().subrange(
                RECORD_SIZE * slot,
                RECORD_SIZE * slot + RECORD_SIZE,
            ),
            r is Err ==> r->Err_0 == (BufferError::OutOfRange {
                slot,
                len: self.len_spec() as u64,
            }),
    {
        let len = self.records.len() as u64;
        if slot >= len {
            return Err(BufferError::OutOfRange { slot, len });
        }
        proof {
            lemma_records_bytes_slot(self.records@, slot as int);
        }
        Ok(self.records[slot as usize].to_bytes())
    }

    /// Indirect draw arguments for the instances in `slots`, one draw of
    /// `index_count` indices per instance, in the given order.
    pub fn prepare_for(&self, slots: &Vec<u64>, index_count: u32) -> (r: Result<
        Vec<IndirectDraw>,
        BufferError,
    >)
        requires
            self.wf(),
        ensures
            r is Ok <==> forall|i: int| 0 <= i < slots@.len() ==> slots@[i] < self.len_spec(),
            r is Ok ==> r->Ok_0@.len() == slots@.len() && forall|i: int|
                0 <= i < slots@.len() ==> #[trigger] r->Ok_0@[i] == (IndirectDraw {
                    index_count,
                    instance_count: 1,
                    first_index: 0,
                    first_instance: slots@[i] as u32,
                    base_vertex: 0,
                }),
            r is Err ==> exists|i: int|
                0 <= i < slots@.len() && slots@[i] >= self.len_spec() && r->Err_0 == (
                BufferError::OutOfRange { slot: slots@[i], len: self.len_spec() as u64 }),
    {
        let len = self.records.len() as u64;
        let mut out: Vec<IndirectDraw> = Vec::new();
        let mut i: usize = 0;
        while i < slots.len()
            invariant
                i <= slots@.len(),
                len == self.len_spec(),
                out@.len() == i,
                forall|j: int| 0 <= j < i ==> slots@[j] < len,
                forall|j: int|
                    0 <= j < i ==> #[trigger] out@[j] == (IndirectDraw {
                        index_count,
                        instance_count: 1,
                        first_index: 0,
                        first_instance: slots@[j] as u32,
                        base_vertex: 0,
                    }),
            decreases slots@.len() - i,
        {
            let slot = slots[i];
            if slot >= len {
                return Err(BufferError::OutOfRange { slot, len });
            }
            out.push(
                IndirectDraw {
                    index_count,
                    instance_count: 1,
                    first_index: 0,
                    first_instance: slot as u32,
                    base_vertex: 0,
                },
            );
            i = i + 1;
        }
        Ok(out)
    }
}

/// `b` is `a` with one more record, owned by an element that owned no slot of `a`.
pub open spec fn is_push_step(a: BatchRenderer, b: BatchRenderer) -> bool {
    exists|record: InstanceRecord, owner: u64|
        {
            &&& !a.owners().contains(owner)
            &&& b.records() == a.records().push(record)
            &&& #[trigger] b.owners() == a.owners().push(owner)
        }
}

/// `b` is `a` after the swap-remove of a live slot.
pub open spec fn is_remove_step(a: BatchRenderer, b: BatchRenderer) -> bool {
    exists|slot: int|
        {
            &&& 0 <= slot < a.records().len()
            &&& b.records() == a.records().update(slot, a.records().last()).drop_last()
            &&& #[trigger] b.owners() == a.owners().update(slot, a.owners().last()).drop_last()
        }
}

/// Number of push steps along a run of batch states.
pub open spec fn push_steps(states: Seq<BatchRenderer>) -> nat
    decreases states.len(),
{
    if states.len() < 2 {
        0
    } else {
        push_steps(states.drop_last()) + if is_push_step(
            states[states.len() - 2],
            states.last(),
        ) {
            1nat
        } else {
            0nat
        }
    }
}

/// Number of remove steps along a run of batch states.
pub open spec fn remove_steps(states: Seq<BatchRenderer>) -> nat
    decreases states.len(),
{
    if states.len() < 2 {
        0
    } else {
        remove_steps(states.drop_last()) + if is_push_step(
            states[states.len() - 2],
            states.last(),
        ) {
            0nat
        } else {
            1nat
        }
    }
}

proof fn lemma_swap_remove_distinct(s: Seq<u64>, slot: int)
    requires
        0 <= slot < s.len(),
        s.no_duplicates(),
    ensures
        s.update(slot, s.last()).drop_last().no_duplicates(),
        s.update(slot, s.last()).drop_last().len() == s.len() - 1,
{
    let t = s.update(slot, s.last()).drop_last();
    assert forall|i: int, j: int| 0 <= i < t.len() && 0 <= j < t.len() && i != j implies t[i]
        != t[j] by {
        let si = if i == slot { s.len() - 1 } else { i };
        let sj = if j == slot { s.len() - 1 } else { j };
        assert(t[i] == s[si] && t[j] == s[sj]);
    }
}

/// Along any run of pushes and swap-removes that starts from a batch whose
/// slots have distinct owners, the live count is the starting count plus the
/// pushes minus the removes, every live slot has a record and an owner, and no
/// two slots share an owner.
pub proof fn lemma_live_count(states: Seq<BatchRenderer>)
    requires
        states.len() >= 1,
        states[0].records().len() == states[0].owners().len(),
        states[0].owners().no_duplicates(),
        forall|i: int|
            0 <= i < states.len() - 1 ==> is_push_step(#[trigger] states[i], states[i + 1])
                || is_remove_step(states[i], states[i + 1]),
    ensures
        states.last().len_spec() + remove_steps(states) == states[0].len_spec() + push_steps(
            states,
        ),
        states.last().owners().len() == states.last().len_spec(),
        states.last().owners().no_duplicates(),
    decreases states.len(),
{
    if states.len() >= 2 {
        let front = states.drop_last();
        assert forall|i: int|
            0 <= i < front.len() - 1 implies is_push_step(#[trigger] front[i], front[i + 1])
            || is_remove_step(front[i], front[i + 1]) by {
            assert(front[i] == states[i] && front[i + 1] == states[i + 1]);
        }
        lemma_live_count(front);
        let a = states[states.len() - 2];
        let b = states.last();
        assert(front.last() == a);
        assert(is_push_step(a, b) || is_remove_step(a, b)) by {
            assert(states[states.len() - 2] == a);
        }
        if is_push_step(a, b) {
            let (record, owner) = choose|record: InstanceRecord, owner: u64|
                {
                    &&& !a.owners().contains(owner)
                    &&& b.records() == a.records().push(record)
                    &&& #[trigger] b.owners() == a.owners().push(owner)
                };
            assert forall|i: int, j: int|
                0 <= i < b.owners().len() && 0 <= j < b.owners().len() && i != j implies b.owners()[i]
                != b.owners()[j] by {
                if i == a.owners().len() as int {
                    assert(a.owners()[j] == b.owners()[j]);
                } else if j == a.owners().len() as int {
                    assert(a.owners()[i] == b.owners()[i]);
                }
            }
        } else {
            let slot = choose|slot: int|
                {
                    &&& 0 <= slot < a.records().len()
                    &&& b.records() == a.records().update(slot, a.records().last()).drop_last()
                    &&& #[trigger] b.owners() == a.owners().update(slot, a.owners().last()).drop_last()
                };
            lemma_swap_remove_distinct(a.owners(), slot);
        }
    }
}

/// Writing a record into a live slot and then reading the buffer at that slot
/// gives back exactly the record's bytes.
pub proof fn lemma_update_then_read(before: BatchRenderer, after: BatchRenderer, slot: u64, record: InstanceRecord)
    requires
        slot < before.len_spec(),
        after.records() == before.records().update(slot as int, record),
    ensures
        after.bytes().subrange(RECORD_SIZE * slot, RECORD_SIZE * slot + RECORD_SIZE)
            == record_bytes(record),
{
    lemma_records_bytes_slot(after.records(), slot as int);
}

} // verus!
