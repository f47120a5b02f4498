//! The segment: the whole byte region with its two counters and its slots,
//! owned by one producer.  It is opened over whatever the backing storage
//! held, written by `publish`, read by index or as a snapshot, and closed
//! exactly once or more often.

use vstd::prelude::*;
use crate::codec::{
    law_decode_inverts_encode, law_encode_inverts_decode, le_bytes, le_value,
    lemma_le_bytes_len, lemma_le_bytes_of_value, lemma_le_bytes_of_zero, lemma_le_value_bound,
    lemma_le_value_of_bytes, lemma_le_value_of_zeros, lemma_pow256_widths, load_le, splice,
    store_le, Record, RecordView, RECORD_SIZE,
};
use crate::layout::{
    compute_size, locate, region_size, size_outcome, slot_start, LayoutError, COUNTER_SIZE,
    HEADER_SIZE, HEAD_OFFSET, TAIL_OFFSET,
};
use crate::ring::Ring;

verus! {

/// Why a segment could not be set up.
#[derive(Clone, Copy, Debug, PartialEq, Eq)]
pub enum SegmentError {
    /// Initialization failed, for the cause carried.
    InitFailed(LayoutError),
}

/// The `head` counter that a region spells.
pub open spec fn head_of(region: Seq<u8>) -> nat {
    le_value(region.subrange(HEAD_OFFSET as int, HEAD_OFFSET + COUNTER_SIZE))
}

/// The `tail` counter that a region spells.
pub open spec fn tail_of(region: Seq<u8>) -> nat {
    le_value(region.subrange(TAIL_OFFSET as int, TAIL_OFFSET + COUNTER_SIZE))
}

/// The record that slot number `slot` of a region spells.
pub open spec fn slot_of(region: Seq<u8>, slot: nat) -> RecordView {
    RecordView::decode(region.subrange(slot_start(slot) as int, slot_start(slot) + RECORD_SIZE))
}

/// The ring that a region of `capacity` slots spells.
pub open spec fn ring_of(region: Seq<u8>, capacity: nat) -> Ring {
    Ring {
        capacity,
        head: head_of(region),
        tail: tail_of(region),
        slots: Seq::new(capacity, |k: int| slot_of(region, k as nat)),
    }
}

/// `region` with its `head` counter set to `head`.
pub open spec fn with_head(region: Seq<u8>, head: nat) -> Seq<u8> {
    splice(region, HEAD_OFFSET as int, le_bytes(head, COUNTER_SIZE as nat))
}

/// `region` with its `tail` counter set to `tail`.
pub open spec fn with_tail(region: Seq<u8>, tail: nat) -> Seq<u8> {
    splice(region, TAIL_OFFSET as int, le_bytes(tail, COUNTER_SIZE as nat))
}

/// `region` with slot number `slot` set to the wire form of `record`.
pub open spec fn with_slot(region: Seq<u8>, slot: nat, record: RecordView) -> Seq<u8> {
    splice(region, slot_start(slot) as int, record.encode())
}

/// `bytes` cut or extended with zeros to `len` bytes, as setting the length
/// of a file does.
pub open spec fn resized(bytes: Seq<u8>, len: nat) -> Seq<u8> {
    Seq::new(
        len,
        |i: int|
            if i < bytes.len() {
                bytes[i]
            } else {
                0u8
            },
    )
}

/// Whether `region` is the image of a ring of `capacity` slots at rest: it
/// has exactly the size of such a region, and its counters obey
/// `tail <= head <= tail + capacity`.
pub open spec fn is_image(region: Seq<u8>, capacity: nat) -> bool {
    &&& capacity > 0
    &&& region.len() == region_size(capacity, RECORD_SIZE as nat)
    &&& tail_of(region) <= head_of(region) <= tail_of(region) + capacity
}

/// The region that a producer works on after opening a backing store that
/// held `backing`.  An image of a ring of the same capacity is taken over
/// byte for byte.  Anything else counts as a first creation: the bytes are
/// cut or zero-extended to the region's size and both counters start at
/// zero, whatever the slots hold.
pub open spec fn attach(backing: Seq<u8>, capacity: nat) -> Seq<u8> {
    if is_image(backing, capacity) {
        backing
    } else {
        with_tail(with_head(resized(backing, region_size(capacity, RECORD_SIZE as nat)), 0), 0)
    }
}

/// The region after one publish, write by write: the record's bytes go
/// into slot `head mod capacity`, then `head` is advanced, then `tail` is
/// advanced if more than `capacity` records would be held.
pub open spec fn published(region: Seq<u8>, capacity: nat, record: RecordView) -> Seq<u8> {
    let head = head_of(region);
    let tail = tail_of(region);
    let written = with_slot(region, head % capacity, record);
    let advanced = with_head(written, head + 1);
    if head + 1 - tail > capacity {
        with_tail(advanced, tail + 1)
    } else {
        advanced
    }
}

/// Laying bytes over one stretch of a region leaves any stretch apart from
/// it as it was.
pub proof fn lemma_splice_apart(region: Seq<u8>, offset: int, src: Seq<u8>, from: int, to: int)
    requires
        0 <= from <= to <= region.len(),
        to <= offset || offset + src.len() <= from,
    ensures
        splice(region, offset, src).subrange(from, to) == region.subrange(from, to),
{
    assert(splice(region, offset, src).subrange(from, to) =~= region.subrange(from, to));
}

/// The stretch that bytes were laid over holds those bytes.
pub proof fn lemma_splice_there(region: Seq<u8>, offset: int, src: Seq<u8>)
    requires
        0 <= offset,
        offset + src.len() <= region.len(),
    ensures
        splice(region, offset, src).len() == region.len(),
        splice(region, offset, src).subrange(offset, offset + src.len()) == src,
{
    assert(splice(region, offset, src).subrange(offset, offset + src.len()) =~= src);
}

/// Setting `head` changes `head` and nothing else of the ring.
pub proof fn lemma_with_head(region: Seq<u8>, capacity: nat, head: nat)
    requires
        region.len() == region_size(capacity, RECORD_SIZE as nat),
        head <= u64::MAX,
    ensures
        with_head(region, head).len() == region.len(),
        ring_of(with_head(region, head), capacity) == (Ring {
            head,
            ..ring_of(region, capacity)
        }),
{
    let after = with_head(region, head);
    let src = le_bytes(head, 8);
    lemma_le_bytes_len(head, 8);
    lemma_pow256_widths();
    lemma_le_value_of_bytes(head, 8);
    lemma_splice_there(region, 0, src);
    lemma_splice_apart(region, 0, src, 8, 16);
    assert forall|k: nat| k < capacity implies #[trigger] slot_of(after, k) == slot_of(
        region,
        k,
    ) by {
        lemma_splice_apart(
            region,
            0,
            src,
            slot_start(k) as int,
            slot_start(k) + RECORD_SIZE,
        );
    }
    assert(ring_of(after, capacity).slots =~= ring_of(region, capacity).slots);
}

/// Setting `tail` changes `tail` and nothing else of the ring.
pub proof fn lemma_with_tail(region: Seq<u8>, capacity: nat, tail: nat)
    requires
        region.len() == region_size(capacity, RECORD_SIZE as nat),
        tail <= u64::MAX,
    ensures
        with_tail(region, tail).len() == region.len(),
        ring_of(with_tail(region, tail), capacity) == (Ring {
            tail,
            ..ring_of(region, capacity)
        }),
{
    let after = with_tail(region, tail);
    let src = le_bytes(tail, 8);
    lemma_le_bytes_len(tail, 8);
    lemma_pow256_widths();
    lemma_le_value_of_bytes(tail, 8);
    lemma_splice_there(region, 8, src);
    lemma_splice_apart(region, 8, src, 0, 8);
    assert forall|k: nat| k < capacity implies #[trigger] slot_of(after, k) == slot_of(
        region,
        k,
    ) by {
        lemma_splice_apart(
            region,
            8,
            src,
            slot_start(k) as int,
            slot_start(k) + RECORD_SIZE,
        );
    }
    assert(ring_of(after, capacity).slots =~= ring_of(region, capacity).slots);
}

/// Writing a record into a slot changes that slot and nothing else of the
/// ring.
pub proof fn lemma_with_slot(region: Seq<u8>, capacity: nat, slot: nat, record: RecordView)
    requires
        region.len() == region_size(capacity, RECORD_SIZE as nat),
        slot < capacity,
        record.wf(),
    ensures
        with_slot(region, slot, record).len() == region.len(),
        ring_of(with_slot(region, slot, record), capacity) == (Ring {
            slots: ring_of(region, capacity).slots.update(slot as int, record),
            ..ring_of(region, capacity)
        }),
{
    let after = with_slot(region, slot, record);
    let src = record.encode();
    let at = slot_start(slot) as int;
    law_decode_inverts_encode(record);
    lemma_splice_there(region, at, src);
    lemma_splice_apart(region, at, src, 0, 8);
    lemma_splice_apart(region, at, src, 8, 16);
    assert forall|k: nat| k < capacity && k != slot implies #[trigger] slot_of(after, k)
        == slot_of(region, k) by {
        lemma_splice_apart(
            region,
            at,
            src,
            slot_start(k) as int,
            slot_start(k) + RECORD_SIZE,
        );
    }
    assert(ring_of(after, capacity).slots =~= ring_of(region, capacity).slots.update(
        slot as int,
        record,
    ));
}

/// The ring that an image spells is well formed, and its counters fit in
/// the 64 bits that the region gives them.
pub proof fn law_image_spells_ring(region: Seq<u8>, capacity: nat)
    requires
        is_image(region, capacity),
    ensures
        ring_of(region, capacity).wf(),
        ring_of(region, capacity).tail <= ring_of(region, capacity).head <= u64::MAX,
{
    lemma_le_value_bound(region.subrange(0, 8));
    lemma_pow256_widths();
}

/// The three writes of a publish turn the image of a ring into the image
/// of the ring with one more record.
pub proof fn law_published_region(region: Seq<u8>, capacity: nat, record: RecordView)
    requires
        is_image(region, capacity),
        head_of(region) < u64::MAX,
        record.wf(),
    ensures
        is_image(published(region, capacity, record), capacity),
        ring_of(published(region, capacity, record), capacity) == ring_of(region, capacity).publish(
            record,
        ),
{
    let head = head_of(region);
    let tail = tail_of(region);
    let written = with_slot(region, head % capacity, record);
    let advanced = with_head(written, head + 1);
    lemma_with_slot(region, capacity, head % capacity, record);
    lemma_with_head(written, capacity, head + 1);
    if head + 1 - tail > capacity {
        lemma_with_tail(advanced, capacity, tail + 1);
    }
}

/// A region is determined by the ring it spells: two regions of the size
/// for `capacity` slots that spell the same ring are the same bytes.  So a
/// statement about the ring of a region is a statement about every byte.
pub proof fn law_ring_determines_region(a: Seq<u8>, b: Seq<u8>, capacity: nat)
    requires
        a.len() == region_size(capacity, RECORD_SIZE as nat),
        b.len() == a.len(),
        ring_of(a, capacity) == ring_of(b, capacity),
    ensures
        a == b,
{
    lemma_le_bytes_of_value(a.subrange(0, 8));
    lemma_le_bytes_of_value(b.subrange(0, 8));
    lemma_le_bytes_of_value(a.subrange(8, 16));
    lemma_le_bytes_of_value(b.subrange(8, 16));
    assert forall|i: int| 0 <= i < a.len() implies a[i] == b[i] by {
        if i < 8 {
            assert(a[i] == a.subrange(0, 8)[i]);
            assert(b[i] == b.subrange(0, 8)[i]);
        } else if i < 16 {
            assert(a[i] == a.subrange(8, 16)[i - 8]);
            assert(b[i] == b.subrange(8, 16)[i - 8]);
        } else {
            let k = ((i - 16) / 42) as nat;
            let start = slot_start(k) as int;
            let in_a = a.subrange(start, start + RECORD_SIZE);
            let in_b = b.subrange(start, start + RECORD_SIZE);
            assert(k < capacity);
            assert(ring_of(a, capacity).slots[k as int] == slot_of(a, k));
            assert(ring_of(b, capacity).slots[k as int] == slot_of(b, k));
            law_encode_inverts_decode(in_a);
            law_encode_inverts_decode(in_b);
            assert(a[i] == in_a[i - start]);
            assert(b[i] == in_b[i - start]);
        }
    }
    assert(a =~= b);
}

/// Opening a backing store that already has the region's size keeps its
/// length and every byte of every slot; where the store holds the image of
/// a ring at rest, it keeps the counters too.
pub proof fn law_reopen_keeps_slots(backing: Seq<u8>, capacity: nat)
    requires
        capacity > 0,
        backing.len() == region_size(capacity, RECORD_SIZE as nat),
    ensures
        attach(backing, capacity).len() == backing.len(),
        attach(backing, capacity).subrange(HEADER_SIZE as int, backing.len() as int)
            == backing.subrange(HEADER_SIZE as int, backing.len() as int),
        ring_of(attach(backing, capacity), capacity).slots == ring_of(backing, capacity).slots,
        is_image(backing, capacity) ==> attach(backing, capacity) == backing,
        is_image(attach(backing, capacity), capacity),
{
    if !is_image(backing, capacity) {
        let sized = resized(backing, backing.len());
        assert(sized =~= backing);
        lemma_with_head(sized, capacity, 0);
        lemma_with_tail(with_head(sized, 0), capacity, 0);
        lemma_le_bytes_len(0, 8);
        assert(attach(backing, capacity).subrange(HEADER_SIZE as int, backing.len() as int)
            =~= backing.subrange(HEADER_SIZE as int, backing.len() as int));
    }
}

/// A backing store that was just created, and so holds nothing, becomes a
/// region of zeros, which spells the fresh ring: nothing published, every
/// slot zero.
pub proof fn law_created_region_is_fresh(capacity: nat)
    requires
        capacity > 0,
    ensures
        attach(Seq::<u8>::empty(), capacity) == Seq::new(
            region_size(capacity, RECORD_SIZE as nat),
            |i: int| 0u8,
        ),
        ring_of(attach(Seq::<u8>::empty(), capacity), capacity) == Ring::fresh(capacity),
{
    let size = region_size(capacity, RECORD_SIZE as nat);
    let zeros = Seq::new(size, |i: int| 0u8);
    let region = attach(Seq::<u8>::empty(), capacity);
    lemma_le_bytes_of_zero(8);
    assert(region =~= zeros);
    lemma_le_value_of_zeros(zeros.subrange(0, 8));
    lemma_le_value_of_zeros(zeros.subrange(8, 16));
    assert forall|k: nat| k < capacity implies #[trigger] slot_of(zeros, k) == RecordView::zero() by {
        let field = zeros.subrange(slot_start(k) as int, slot_start(k) + RECORD_SIZE);
        lemma_le_value_of_zeros(field.subrange(32, 40));
        lemma_le_value_of_zeros(field.subrange(40, 42));
        assert(field.subrange(0, 32) =~= RecordView::zero().identity);
    }
    assert(ring_of(zeros, capacity).slots =~= Ring::fresh(capacity).slots);
}

/// Opening anything at all yields the image of a ring at rest, so the
/// invariants `head >= tail` and `head - tail <= capacity` hold from the
/// first moment on.
pub proof fn law_attach_yields_image(backing: Seq<u8>, capacity: nat)
    requires
        capacity > 0,
    ensures
        is_image(attach(backing, capacity), capacity),
        !is_image(backing, capacity) ==> ring_of(attach(backing, capacity), capacity).head == 0
            && ring_of(attach(backing, capacity), capacity).tail == 0,
{
    if !is_image(backing, capacity) {
        let sized = resized(backing, region_size(capacity, RECORD_SIZE as nat));
        lemma_with_head(sized, capacity, 0);
        lemma_with_tail(with_head(sized, 0), capacity, 0);
    }
}

/// What a segment handle stands for: nothing once closed, a ring while open.
pub enum SegmentState {
    /// The handle is inert: it holds no region.
    Closed,
    /// The handle owns a region that spells this ring.
    Open(Ring),
}

impl SegmentState {
    /// The state after `publish`.  Only an open segment can be published to.
    pub open spec fn publish(self, record: RecordView) -> SegmentState
        recommends
            self is Open,
    {
        match self {
            SegmentState::Open(ring) => SegmentState::Open(ring.publish(record)),
            SegmentState::Closed => SegmentState::Closed,
        }
    }

    /// The state after `close`, whatever the state before.
    pub open spec fn close(self) -> SegmentState {
        SegmentState::Closed
    }
}

/// Closing is idempotent: the first call leaves the handle inert, and so
/// does every further one.
pub proof fn law_close_is_idempotent(state: SegmentState)
    ensures
        state.close() is Closed,
        state.close().close() == state.close(),
{
}

/// The producer's handle on a region.  While open it owns the region's
/// bytes; once closed it owns nothing and stays inert.
#[derive(Debug)]
pub struct Segment {
    region: Vec<u8>,
    capacity: usize,
}

impl View for Segment {
    type V = SegmentState;

    open spec fn view(&self) -> SegmentState {
        if self.spec_is_open() {
            SegmentState::Open(self.ring())
        } else {
            SegmentState::Closed
        }
    }
}

impl Segment {
    /// The bytes of the region; empty once closed.
    pub closed spec fn region(&self) -> Seq<u8> {
        self.region@
    }

    /// Number of slots; zero once closed.
    pub closed spec fn spec_capacity(&self) -> usize {
        self.capacity
    }

    /// Whether the handle still owns a region.
    pub open spec fn spec_is_open(&self) -> bool {
        self.spec_capacity() > 0
    }

    /// The ring that the region spells.
    pub open spec fn ring(&self) -> Ring {
        ring_of(self.region(), self.spec_capacity() as nat)
    }

    /// The invariant of every handle: an open one owns the image of a ring
    /// at rest, of a size that fits in memory; a closed one owns no bytes.
    pub open spec fn wf(&self) -> bool {
        if self.spec_is_open() {
            &&& is_image(self.region(), self.spec_capacity() as nat)
            &&& self.region().len() <= usize::MAX
        } else {
            self.region().len() == 0
        }
    }

    /// Sets up the producer's segment over a backing store that held
    /// `backing` when it was opened (nothing, if it was just created).
    ///
    /// Fails only where a ring of `capacity` slots cannot be laid out.
    /// Otherwise the segment is open with `capacity` slots, and its region is
    /// `attach(backing, capacity)`: the image of a ring of the same capacity
    /// is kept byte for byte, counters included; anything else is cut or
    /// zero-extended to size and starts with both counters at zero.
    pub fn open_or_create(backing: Vec<u8>, capacity: usize) -> (opened: Result<
        Segment,
        SegmentError,
    >)
        ensures
            match size_outcome(capacity, RECORD_SIZE) {
                Err(cause) => opened == Err::<Segment, SegmentError>(
                    SegmentError::InitFailed(cause),
                ),
                Ok(size) => {
                    &&& opened matches Ok(segment)
                    &&& segment.wf()
                    &&& segment.spec_is_open()
                    &&& segment.spec_capacity() == capacity
                    &&& segment.region() == attach(backing@, capacity as nat)
                    &&& segment.region().len() == size
                    &&& backing@.len() == 0 ==> segment.ring() == Ring::fresh(capacity as nat)
                },
            },
    {
        proof {
            if capacity > 0 && backing@.len() == 0 {
                assert(backing@ =~= Seq::<u8>::empty());
                law_created_region_is_fresh(capacity as nat);
            }
        }
        let size: usize = match compute_size(capacity, RECORD_SIZE) {
            Err(cause) => {
                return Err(SegmentError::InitFailed(cause));
            },
            Ok(size) => size,
        };
        let mut region = backing;
        let mut taken_over: bool = false;
        if region.len() == size {
            let head: u64 = load_le(region.as_slice(), HEAD_OFFSET, COUNTER_SIZE);
            let tail: u64 = load_le(region.as_slice(), TAIL_OFFSET, COUNTER_SIZE);
            taken_over = tail <= head && head - tail <= capacity as u64;
        }
        if !taken_over {
            region.resize(size, 0u8);
            proof {
                assert(region@ =~= resized(backing@, size as nat));
            }
            store_le(&mut region, HEAD_OFFSET, COUNTER_SIZE, 0);
            store_le(&mut region, TAIL_OFFSET, COUNTER_SIZE, 0);
            proof {
                let sized = resized(backing@, size as nat);
                lemma_with_head(sized, capacity as nat, 0);
                lemma_with_tail(with_head(sized, 0), capacity as nat, 0);
            }
        }
        Ok(Segment { region, capacity })
    }

    /// Tears the segment down: the handle gives up its region and is inert
    /// from then on.  Closing a closed handle changes nothing.
    pub fn close(&mut self)
        requires
            old(self).wf(),
        ensures
            final(self).wf(),
            !final(self).spec_is_open(),
            final(self)@ == old(self)@.close(),
    {
        self.region = Vec::new();
        self.capacity = 0;
    }

    /// Whether the handle still owns a region.
    #[verifier::when_used_as_spec(spec_is_open)]
    pub fn is_open(&self) -> (open: bool)
        ensures
            open == self.spec_is_open(),
    {
        self.capacity > 0
    }

    /// Number of slots; zero once closed.
    #[verifier::when_used_as_spec(spec_capacity)]
    pub fn capacity(&self) -> (capacity: usize)
        ensures
            capacity == self.spec_capacity(),
    {
        self.capacity
    }

    /// The region as it stands: what the backing store holds, or should be
    /// made to hold.  Empty once closed.
    pub fn as_bytes(&self) -> (bytes: &[u8])
        ensures
            bytes@ == self.region(),
    {
        self.region.as_slice()
    }

    /// Number of records ever published.
    pub fn head(&self) -> (head: u64)
        requires
            self.wf(),
            self.is_open(),
        ensures
            head == self.ring().head,
    {
        load_le(self.region.as_slice(), HEAD_OFFSET, COUNTER_SIZE)
    }

    /// Logical index of the oldest record still held.
    pub fn tail(&self) -> (tail: u64)
        requires
            self.wf(),
            self.is_open(),
        ensures
            tail == self.ring().tail,
    {
        load_le(self.region.as_slice(), TAIL_OFFSET, COUNTER_SIZE)
    }

    /// Appends one record.  The record's bytes are written into slot
    /// `head mod capacity` first; then `head` advances, which publishes the
    /// record; then, if more than `capacity` records would be held, `tail`
    /// advances by one and the oldest record is dropped without notice.
    /// No other byte of the region changes.
    pub fn publish(&mut self, record: Record)
        requires
            old(self).wf(),
            old(self).is_open(),
            old(self).ring().head < u64::MAX,
        ensures
            final(self).wf(),
            final(self).is_open(),
            final(self).spec_capacity() == old(self).spec_capacity(),
            final(self).region() == published(
                old(self).region(),
                old(self).spec_capacity() as nat,
                record@,
            ),
            final(self).ring() == old(self).ring().publish(record@),
            final(self)@ == old(self)@.publish(record@),
    {
        proof {
            law_published_region(self.region@, self.capacity as nat, record@);
        }
        let head: u64 = self.head();
        let tail: u64 = self.tail();
        let (_, at) = locate(head, self.capacity);
        record.encode_into(&mut self.region, at);
        store_le(&mut self.region, HEAD_OFFSET, COUNTER_SIZE, head + 1);
        if head + 1 - tail > self.capacity as u64 {
            store_le(&mut self.region, TAIL_OFFSET, COUNTER_SIZE, tail + 1);
        }
    }

    /// The record with logical index `index`, if it is held: `Some` exactly
    /// for `tail <= index < head`.
    pub fn read(&self, index: u64) -> (found: Option<Record>)
        requires
            self.wf(),
            self.is_open(),
        ensures
            found.is_some() <==> self.ring().holds(index as nat),
            found matches Some(record) ==> record@ == self.ring().record_at(index as nat),
    {
        let head: u64 = self.head();
        let tail: u64 = self.tail();
        if tail <= index && index < head {
            let (_, at) = locate(index, self.capacity);
            Some(Record::decode_from(self.region.as_slice(), at))
        } else {
            None
        }
    }

    /// The records held, oldest first: those with logical indices from
    /// `tail` up to `head`.
    pub fn snapshot(&self) -> (records: Vec<Record>)
        requires
            self.wf(),
            self.is_open(),
        ensures
            records@.map_values(|r: Record| r@) == self.ring().window(),
    {
        let head: u64 = self.head();
        let tail: u64 = self.tail();
        let mut records: Vec<Record> = Vec::new();
        let mut index: u64 = tail;
        while index < head
            invariant
                self.wf(),
                self.is_open(),
                head == self.ring().head,
                tail == self.ring().tail,
                tail <= index <= head,
                records@.len() == index - tail,
                forall|j: int|
                    0 <= j < records@.len() ==> (#[trigger] records@[j])@ == self.ring().record_at(
                        (tail + j) as nat,
                    ),
            decreases head - index,
        {
            let (_, at) = locate(index, self.capacity);
            let record = Record::decode_from(self.region.as_slice(), at);
            records.push(record);
            index = index + 1;
        }
        proof {
            assert(records@.map_values(|r: Record| r@) =~= self.ring().window());
        }
        records
    }
}

} // verus!
