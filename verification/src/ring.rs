//! The ring as a mathematical object: two counters that only grow and a
//! fixed row of slots reused cyclically.  The executable segment is proved
//! against this model, and the laws of the ring are proved here once.

use vstd::prelude::*;
use crate::codec::RecordView;

verus! {

/// The state of a ring.
pub struct Ring {
    /// Number of slots.
    pub capacity: nat,
    /// Number of records ever published.
    pub head: nat,
    /// Logical index of the oldest record still held.
    pub tail: nat,
    /// What each slot holds.
    pub slots: Seq<RecordView>,
}

impl Ring {
    /// The invariants of a ring at rest: at least one slot, `tail` never
    /// ahead of `head`, never more records held than there are slots.
    pub open spec fn wf(self) -> bool {
        &&& self.capacity > 0
        &&& self.slots.len() == self.capacity
        &&& self.tail <= self.head <= self.tail + self.capacity
        &&& forall|k: int| 0 <= k < self.slots.len() ==> (#[trigger] self.slots[k]).wf()
    }

    /// The ring of a region that was just created: nothing published, every
    /// slot zero.
    pub open spec fn fresh(capacity: nat) -> Ring {
        Ring { capacity, head: 0, tail: 0, slots: Seq::new(capacity, |k: int| RecordView::zero()) }
    }

    /// Number of records held.
    pub open spec fn len(self) -> nat {
        (self.head - self.tail) as nat
    }

    /// Whether the record with logical index `index` is held: readers must
    /// treat any other index as absent, whatever its slot's bytes say.
    pub open spec fn holds(self, index: nat) -> bool {
        self.tail <= index < self.head
    }

    /// The content of the slot that logical index `index` maps to.
    pub open spec fn record_at(self, index: nat) -> RecordView {
        self.slots[(index % self.capacity) as int]
    }

    /// The records held, oldest first.
    pub open spec fn window(self) -> Seq<RecordView> {
        Seq::new(self.len(), |j: int| self.record_at((self.tail + j) as nat))
    }

    /// The ring after one more record: the record goes into slot
    /// `head mod capacity`, `head` advances, and `tail` advances by one if
    /// the ring would otherwise hold more than `capacity` records.
    pub open spec fn publish(self, record: RecordView) -> Ring {
        Ring {
            capacity: self.capacity,
            head: self.head + 1,
            tail: if self.head + 1 - self.tail > self.capacity {
                self.tail + 1
            } else {
                self.tail
            },
            slots: self.slots.update((self.head % self.capacity) as int, record),
        }
    }

    /// The ring after publishing `records` one by one, first to last.
    pub open spec fn publish_all(self, records: Seq<RecordView>) -> Ring
        decreases records.len(),
    {
        if records.len() == 0 {
            self
        } else {
            self.publish_all(records.drop_last()).publish(records.last())
        }
    }
}

/// Every record of `records` has an identity of the fixed width.
pub open spec fn all_wf(records: Seq<RecordView>) -> bool {
    forall|i: int| 0 <= i < records.len() ==> (#[trigger] records[i]).wf()
}

/// Two indices less than `capacity` apart land in different slots.
pub proof fn lemma_distinct_slots(low: nat, high: nat, capacity: nat)
    requires
        low < high < low + capacity,
    ensures
        low % capacity != high % capacity,
{
    let c = capacity as int;
    let l = low as int;
    let h = high as int;
    vstd::arithmetic::div_mod::lemma_fundamental_div_mod(l, c);
    vstd::arithmetic::div_mod::lemma_fundamental_div_mod(h, c);
    if l % c == h % c {
        let ql = l / c;
        let qh = h / c;
        assert(h - l == c * (qh - ql)) by (nonlinear_arith)
            requires
                l == c * ql + l % c,
                h == c * qh + h % c,
                l % c == h % c,
        ;
        assert(false) by (nonlinear_arith)
            requires
                h - l == c * (qh - ql),
                0 < h - l < c,
        ;
    }
}

/// Publishing keeps the ring well formed, keeps every record that is still
/// held, and makes the new record the one at the old `head`.
pub proof fn lemma_publish(ring: Ring, record: RecordView)
    requires
        ring.wf(),
        record.wf(),
    ensures
        ring.publish(record).wf(),
        ring.publish(record).record_at(ring.head) == record,
        forall|i: nat|
            ring.publish(record).tail <= i < ring.head ==> #[trigger] ring.publish(record).record_at(
                i,
            ) == ring.record_at(i),
{
    let after = ring.publish(record);
    assert forall|i: nat| after.tail <= i < ring.head implies #[trigger] after.record_at(i)
        == ring.record_at(i) by {
        lemma_distinct_slots(i, ring.head, ring.capacity);
    }
}

/// What a run of publishes does to any well-formed ring: `head` grows by the
/// number of records, `tail` follows at a distance of at most `capacity`,
/// and every index still held maps to the record published under it.
pub proof fn lemma_publish_all(ring: Ring, records: Seq<RecordView>)
    requires
        ring.wf(),
        all_wf(records),
    ensures
        ring.publish_all(records).wf(),
        ring.publish_all(records).capacity == ring.capacity,
        ring.publish_all(records).head == ring.head + records.len(),
        ring.publish_all(records).tail == if ring.head + records.len() - ring.tail
            > ring.capacity {
            (ring.head + records.len() - ring.capacity) as nat
        } else {
            ring.tail
        },
        forall|i: nat|
            ring.publish_all(records).holds(i) ==> #[trigger] ring.publish_all(records).record_at(i)
                == if i < ring.head {
                ring.record_at(i)
            } else {
                records[i - ring.head]
            },
    decreases records.len(),
{
    if records.len() > 0 {
        let earlier = records.drop_last();
        let before = ring.publish_all(earlier);
        let after = ring.publish_all(records);
        lemma_publish_all(ring, earlier);
        lemma_publish(before, records.last());
        assert forall|i: nat| after.holds(i) implies #[trigger] after.record_at(i) == if i
            < ring.head {
            ring.record_at(i)
        } else {
            records[i - ring.head]
        } by {
            if i < before.head {
                assert(before.holds(i));
                assert(after.record_at(i) == before.record_at(i));
            }
        }
    }
}

/// The counters only grow: whatever is published, `head` and `tail` never
/// fall back, and the ring never holds more than `capacity` records.
pub proof fn law_counters_only_grow(ring: Ring, records: Seq<RecordView>)
    requires
        ring.wf(),
        all_wf(records),
    ensures
        ring.publish_all(records).head >= ring.head,
        ring.publish_all(records).tail >= ring.tail,
        ring.publish_all(records).tail <= ring.publish_all(records).head,
        ring.publish_all(records).len() <= ring.capacity,
{
    lemma_publish_all(ring, records);
}

/// A record does not change while it is held: a reader that copied the
/// record at `index` and then finds `index` still at or after the new
/// `tail`, whatever was published in between, holds a valid copy.
pub proof fn law_held_records_are_stable(ring: Ring, records: Seq<RecordView>, index: nat)
    requires
        ring.wf(),
        all_wf(records),
        ring.holds(index),
        ring.publish_all(records).tail <= index,
    ensures
        ring.publish_all(records).holds(index),
        ring.publish_all(records).record_at(index) == ring.record_at(index),
{
    lemma_publish_all(ring, records);
    assert(ring.publish_all(records).holds(index));
}

/// While no more records were published than the ring has slots, nothing is
/// lost: `head` is their number, `tail` is zero, and each record stands at
/// its logical index, so that the records held are the records published.
pub proof fn law_publish_within_capacity(capacity: nat, records: Seq<RecordView>)
    requires
        0 < capacity,
        records.len() <= capacity,
        all_wf(records),
    ensures
        Ring::fresh(capacity).publish_all(records).wf(),
        Ring::fresh(capacity).publish_all(records).head == records.len(),
        Ring::fresh(capacity).publish_all(records).tail == 0,
        forall|i: nat|
            i < records.len() ==> Ring::fresh(capacity).publish_all(records).holds(i)
                && #[trigger] Ring::fresh(capacity).publish_all(records).record_at(i)
                == records[i as int],
        Ring::fresh(capacity).publish_all(records).window() == records,
{
    let ring = Ring::fresh(capacity).publish_all(records);
    lemma_publish_all(Ring::fresh(capacity), records);
    assert forall|i: nat| i < records.len() implies ring.holds(i) && #[trigger] ring.record_at(i)
        == records[i as int] by {
        assert(ring.holds(i));
    }
    assert(ring.window() =~= records);
}

/// Once more records were published than the ring has slots, exactly the
/// most recent `capacity` of them are held, in the order of their logical
/// indices: `head` is the number published, `tail` lags `capacity` behind,
/// and no older index is held any more.
pub proof fn law_publish_beyond_capacity(capacity: nat, records: Seq<RecordView>)
    requires
        0 < capacity < records.len(),
        all_wf(records),
    ensures
        Ring::fresh(capacity).publish_all(records).wf(),
        Ring::fresh(capacity).publish_all(records).head == records.len(),
        Ring::fresh(capacity).publish_all(records).tail == records.len() - capacity,
        forall|i: nat|
            records.len() - capacity <= i < records.len() ==> Ring::fresh(capacity).publish_all(
                records,
            ).holds(i) && #[trigger] Ring::fresh(capacity).publish_all(records).record_at(i)
                == records[i as int],
        forall|i: nat|
            i < records.len() - capacity ==> !Ring::fresh(capacity).publish_all(records).holds(i),
        Ring::fresh(capacity).publish_all(records).window() == records.subrange(
            records.len() - capacity,
            records.len() as int,
        ),
{
    let ring = Ring::fresh(capacity).publish_all(records);
    lemma_publish_all(Ring::fresh(capacity), records);
    assert forall|i: nat| records.len() - capacity <= i < records.len() implies ring.holds(i)
        && #[trigger] ring.record_at(i) == records[i as int] by {
        assert(ring.holds(i));
    }
    assert(ring.window() =~= records.subrange(records.len() - capacity, records.len() as int));
}

} // verus!
