//! The frozen wire format: little-endian integers and the 42-byte record.

use vstd::prelude::*;

verus! {

/// Number of bytes of a node identity.
pub const IDENTITY_SIZE: usize = 32;

/// Number of bytes of one encoded record: identity, wallclock, version tag.
pub const RECORD_SIZE: usize = 42;

/// `256` to the power `n`.
pub open spec fn pow256(n: nat) -> nat
    decreases n,
{
    if n == 0 {
        1
    } else {
        256 * pow256((n - 1) as nat)
    }
}

/// The `n` low-order bytes of `x`, least significant first.
pub open spec fn le_bytes(x: nat, n: nat) -> Seq<u8>
    decreases n,
{
    if n == 0 {
        Seq::empty()
    } else {
        seq![(x % 256) as u8] + le_bytes(x / 256, (n - 1) as nat)
    }
}

/// The number that the bytes `s` spell, least significant first.
pub open spec fn le_value(s: Seq<u8>) -> nat
    decreases s.len(),
{
    if s.len() == 0 {
        0
    } else {
        s[0] as nat + 256 * le_value(s.drop_first())
    }
}

/// `buf` with the bytes of `src` laid over it from position `offset` on.
pub open spec fn splice(buf: Seq<u8>, offset: int, src: Seq<u8>) -> Seq<u8> {
    Seq::new(
        buf.len(),
        |i: int|
            if offset <= i < offset + src.len() {
                src[i - offset]
            } else {
                buf[i]
            },
    )
}

/// `le_bytes` yields exactly the requested number of bytes.
pub proof fn lemma_le_bytes_len(x: nat, n: nat)
    ensures
        le_bytes(x, n).len() == n,
    decreases n,
{
    if n > 0 {
        lemma_le_bytes_len(x / 256, (n - 1) as nat);
    }
}

/// Any `n` bytes spell a number below `256^n`.
pub proof fn lemma_le_value_bound(s: Seq<u8>)
    ensures
        le_value(s) < pow256(s.len()),
    decreases s.len(),
{
    if s.len() > 0 {
        lemma_le_value_bound(s.drop_first());
    }
}

/// Decoding the `n` bytes of a number below `256^n` gives the number back.
pub proof fn lemma_le_value_of_bytes(x: nat, n: nat)
    requires
        x < pow256(n),
    ensures
        le_value(le_bytes(x, n)) == x,
    decreases n,
{
    if n > 0 {
        let rest = le_bytes(x / 256, (n - 1) as nat);
        lemma_le_bytes_len(x / 256, (n - 1) as nat);
        lemma_le_value_of_bytes(x / 256, (n - 1) as nat);
        assert(le_bytes(x, n).drop_first() =~= rest);
    }
}

/// Encoding the number that `s` spells gives `s` back.
pub proof fn lemma_le_bytes_of_value(s: Seq<u8>)
    ensures
        le_bytes(le_value(s), s.len()) == s,
    decreases s.len(),
{
    if s.len() > 0 {
        let tail = s.drop_first();
        lemma_le_bytes_of_value(tail);
        let v = le_value(s);
        assert(v % 256 == s[0] as nat);
        assert(v / 256 == le_value(tail));
        assert(le_bytes(v, s.len()) =~= s);
    }
}

/// Bytes that are all zero spell zero.
pub proof fn lemma_le_value_of_zeros(s: Seq<u8>)
    requires
        forall|i: int| 0 <= i < s.len() ==> s[i] == 0,
    ensures
        le_value(s) == 0,
    decreases s.len(),
{
    if s.len() > 0 {
        lemma_le_value_of_zeros(s.drop_first());
    }
}

/// Zero is spelled by bytes that are all zero.
pub proof fn lemma_le_bytes_of_zero(n: nat)
    ensures
        le_bytes(0, n).len() == n,
        forall|i: int| 0 <= i < n ==> le_bytes(0, n)[i] == 0,
    decreases n,
{
    if n > 0 {
        lemma_le_bytes_of_zero((n - 1) as nat);
        assert forall|i: int| 0 <= i < n implies le_bytes(0, n)[i] == 0 by {
            if i > 0 {
                assert(le_bytes(0, n)[i] == le_bytes(0, (n - 1) as nat)[i - 1]);
            }
        }
    }
}

/// The powers of 256 that bound the integer widths of the format.
pub proof fn lemma_pow256_widths()
    ensures
        pow256(2) == 0x1_0000,
        pow256(8) == 0x1_0000_0000_0000_0000,
{
    reveal_with_fuel(pow256, 9);
}

/// Powers of 256 grow with the exponent.
pub proof fn lemma_pow256_monotonic(a: nat, b: nat)
    requires
        a <= b,
    ensures
        0 < pow256(a) <= pow256(b),
    decreases b,
{
    if b == 0 {
    } else if a == b {
        lemma_pow256_monotonic((a - 1) as nat, (b - 1) as nat);
    } else {
        lemma_pow256_monotonic(a, (b - 1) as nat);
    }
}

/// Writes the `width` low-order bytes of `value` into `buf` from position
/// `offset` on, least significant first.  No other byte of `buf` changes.
pub fn store_le(buf: &mut Vec<u8>, offset: usize, width: usize, value: u64)
    requires
        offset + width <= old(buf).len(),
    ensures
        final(buf)@ == splice(old(buf)@, offset as int, le_bytes(value as nat, width as nat)),
{
    let ghost before = buf@;
    let ghost target = le_bytes(value as nat, width as nat);
    proof {
        lemma_le_bytes_len(value as nat, width as nat);
        assert(target.subrange(0, width as int) =~= target);
        assert(buf@ =~= splice(before, offset as int, target.subrange(0, 0)));
    }
    let total: usize = buf.len();
    let mut rest: u64 = value;
    let mut i: usize = 0;
    while i < width
        invariant
            i <= width,
            offset + width <= total == before.len(),
            target.len() == width,
            buf@ == splice(before, offset as int, target.subrange(0, i as int)),
            target.subrange(i as int, width as int) == le_bytes(rest as nat, (width - i) as nat),
        decreases width - i,
    {
        let low: u8 = (rest % 256) as u8;
        buf[offset + i] = low;
        proof {
            let pending = le_bytes(rest as nat, (width - i) as nat);
            lemma_le_bytes_len((rest / 256) as nat, (width - i - 1) as nat);
            assert(pending[0] == low);
            assert(target[i as int] == target.subrange(i as int, width as int)[0]);
            assert(target.subrange(i + 1, width as int) =~= pending.drop_first());
            assert(pending.drop_first() =~= le_bytes((rest / 256) as nat, (width - i - 1) as nat));
            assert(buf@ =~= splice(before, offset as int, target.subrange(0, i + 1)));
        }
        rest = rest / 256;
        i = i + 1;
    }
}

/// Reads the `width` bytes of `buf` from position `offset` on as one
/// little-endian number.
pub fn load_le(buf: &[u8], offset: usize, width: usize) -> (value: u64)
    requires
        offset + width <= buf.len(),
        width <= 8,
    ensures
        value as nat == le_value(buf@.subrange(offset as int, offset + width)),
{
    let ghost field = buf@.subrange(offset as int, offset + width);
    let total: usize = buf.len();
    let mut acc: u64 = 0;
    let mut j: usize = width;
    proof {
        assert(field.subrange(0, width as int) =~= field);
    }
    while j > 0
        invariant
            j <= width <= 8,
            offset + width <= total == buf@.len(),
            field == buf@.subrange(offset as int, offset + width),
            acc as nat == le_value(field.subrange(j as int, width as int)),
        decreases j,
    {
        j = j - 1;
        proof {
            let wider = field.subrange(j as int, width as int);
            assert(wider.drop_first() =~= field.subrange(j + 1, width as int));
            assert(wider[0] == buf@[offset + j]);
            lemma_le_value_bound(wider);
            lemma_pow256_monotonic((width - j) as nat, 8);
            lemma_pow256_widths();
        }
        acc = acc * 256 + buf[offset + j] as u64;
    }
    acc
}

/// Copies `src` into `buf` from position `offset` on.  No other byte of
/// `buf` changes.
pub fn store_bytes(buf: &mut Vec<u8>, offset: usize, src: &[u8])
    requires
        offset + src.len() <= old(buf).len(),
    ensures
        final(buf)@ == splice(old(buf)@, offset as int, src@),
{
    let ghost before = buf@;
    let total: usize = buf.len();
    let count: usize = src.len();
    proof {
        assert(buf@ =~= splice(before, offset as int, src@.subrange(0, 0)));
    }
    let mut i: usize = 0;
    while i < count
        invariant
            i <= count == src@.len(),
            offset + count <= total == before.len(),
            buf@ == splice(before, offset as int, src@.subrange(0, i as int)),
        decreases count - i,
    {
        buf[offset + i] = src[i];
        proof {
            assert(buf@ =~= splice(before, offset as int, src@.subrange(0, i + 1)));
        }
        i = i + 1;
    }
    proof {
        assert(src@.subrange(0, count as int) =~= src@);
    }
}

/// One event record: which node, at what logical time, under which
/// protocol version.  A plain value without pointers, so its encoding can
/// cross a process boundary as raw bytes.
#[derive(Clone, Copy, Debug, PartialEq, Eq)]
pub struct Record {
    /// The node's 32-byte identity.
    pub identity: [u8; IDENTITY_SIZE],
    /// The node's logical timestamp.
    pub wallclock: u64,
    /// The protocol version tag.
    pub version: u16,
}

/// What a record holds, as mathematical values.
pub struct RecordView {
    pub identity: Seq<u8>,
    pub wallclock: u64,
    pub version: u16,
}

impl View for Record {
    type V = RecordView;

    open spec fn view(&self) -> RecordView {
        RecordView { identity: self.identity@, wallclock: self.wallclock, version: self.version }
    }
}

impl RecordView {
    /// The identity has its fixed width.
    pub open spec fn wf(self) -> bool {
        self.identity.len() == IDENTITY_SIZE
    }

    /// The record whose fields are all zero: what an untouched slot decodes to.
    pub open spec fn zero() -> RecordView {
        RecordView { identity: Seq::new(IDENTITY_SIZE as nat, |i: int| 0u8), wallclock: 0, version: 0 }
    }

    /// The wire form: identity, then wallclock in 8 bytes, then version in
    /// 2 bytes, both little-endian, with no padding.
    pub open spec fn encode(self) -> Seq<u8> {
        self.identity + le_bytes(self.wallclock as nat, 8) + le_bytes(self.version as nat, 2)
    }

    /// The record that `RECORD_SIZE` bytes spell.
    pub open spec fn decode(bytes: Seq<u8>) -> RecordView {
        RecordView {
            identity: bytes.subrange(0, 32),
            wallclock: le_value(bytes.subrange(32, 40)) as u64,
            version: le_value(bytes.subrange(40, 42)) as u16,
        }
    }
}

/// Encoding a record and decoding the result yields the record again, and
/// the encoding is exactly `RECORD_SIZE` bytes long.
pub proof fn law_decode_inverts_encode(v: RecordView)
    requires
        v.wf(),
    ensures
        v.encode().len() == RECORD_SIZE,
        RecordView::decode(v.encode()) == v,
{
    let bytes = v.encode();
    lemma_le_bytes_len(v.wallclock as nat, 8);
    lemma_le_bytes_len(v.version as nat, 2);
    lemma_pow256_widths();
    lemma_le_value_of_bytes(v.wallclock as nat, 8);
    lemma_le_value_of_bytes(v.version as nat, 2);
    assert(bytes.subrange(0, 32) =~= v.identity);
    assert(bytes.subrange(32, 40) =~= le_bytes(v.wallclock as nat, 8));
    assert(bytes.subrange(40, 42) =~= le_bytes(v.version as nat, 2));
}

/// Decoding any `RECORD_SIZE` bytes and encoding the result yields the same
/// bytes: every slot content is the wire form of exactly one record.
pub proof fn law_encode_inverts_decode(bytes: Seq<u8>)
    requires
        bytes.len() == RECORD_SIZE,
    ensures
        RecordView::decode(bytes).wf(),
        RecordView::decode(bytes).encode() == bytes,
{
    let v = RecordView::decode(bytes);
    lemma_pow256_widths();
    lemma_le_value_bound(bytes.subrange(32, 40));
    lemma_le_value_bound(bytes.subrange(40, 42));
    lemma_le_bytes_of_value(bytes.subrange(32, 40));
    lemma_le_bytes_of_value(bytes.subrange(40, 42));
    assert(v.encode() =~= bytes);
}

/// Two records with the same content are the same record.
pub proof fn law_record_is_its_view(a: Record, b: Record)
    ensures
        a@.wf(),
        a@ == b@ <==> a == b,
{
    if a@ == b@ {
        assert(a.identity =~= b.identity);
    }
}

impl Record {
    /// Writes the wire form of the record into `buf` from position `offset`
    /// on.  No other byte of `buf` changes.
    pub fn encode_into(&self, buf: &mut Vec<u8>, offset: usize)
        requires
            offset + RECORD_SIZE <= old(buf).len(),
        ensures
            final(buf)@ == splice(old(buf)@, offset as int, self@.encode()),
    {
        let ghost before = buf@;
        store_bytes(buf, offset, self.identity.as_slice());
        store_le(buf, offset + 32, 8, self.wallclock);
        store_le(buf, offset + 40, 2, self.version as u64);
        proof {
            lemma_le_bytes_len(self.wallclock as nat, 8);
            lemma_le_bytes_len(self.version as nat, 2);
            assert(buf@ =~= splice(before, offset as int, self@.encode()));
        }
    }

    /// Reads the record whose wire form stands in `buf` from position
    /// `offset` on.
    pub fn decode_from(buf: &[u8], offset: usize) -> (record: Record)
        requires
            offset + RECORD_SIZE <= buf.len(),
        ensures
            record@ == RecordView::decode(buf@.subrange(offset as int, offset + RECORD_SIZE)),
    {
        let ghost field = buf@.subrange(offset as int, offset + RECORD_SIZE);
        let total: usize = buf.len();
        let mut identity: [u8; IDENTITY_SIZE] = [0u8; IDENTITY_SIZE];
        let mut i: usize = 0;
        while i < IDENTITY_SIZE
            invariant
                i <= IDENTITY_SIZE,
                offset + RECORD_SIZE <= total == buf@.len(),
                forall|k: int| 0 <= k < i ==> identity@[k] == buf@[offset + k],
            decreases IDENTITY_SIZE - i,
        {
            identity[i] = buf[offset + i];
            i = i + 1;
        }
        let wallclock: u64 = load_le(buf, offset + 32, 8);
        let version: u64 = load_le(buf, offset + 40, 2);
        proof {
            assert(field.subrange(0, 32) =~= identity@);
            assert(field.subrange(32, 40) =~= buf@.subrange(offset + 32, offset + 40));
            assert(field.subrange(40, 42) =~= buf@.subrange(offset + 40, offset + 42));
            lemma_le_value_bound(field.subrange(40, 42));
            lemma_pow256_widths();
        }
        Record { identity, wallclock, version: version as u16 }
    }

    /// The wire form of the record, `RECORD_SIZE` bytes.
    pub fn encode(&self) -> (bytes: Vec<u8>)
        ensures
            bytes@ == self@.encode(),
            bytes@.len() == RECORD_SIZE,
    {
        let mut bytes: Vec<u8> = Vec::new();
        bytes.resize(RECORD_SIZE, 0u8);
        self.encode_into(&mut bytes, 0);
        proof {
            law_decode_inverts_encode(self@);
            assert(bytes@ =~= self@.encode());
        }
        bytes
    }

    /// The record that `bytes` spell, if they are exactly `RECORD_SIZE`
    /// bytes; `None` for any other length.
    pub fn decode(bytes: &[u8]) -> (record: Option<Record>)
        ensures
            record.is_some() <==> bytes@.len() == RECORD_SIZE,
            record matches Some(r) ==> r@ == RecordView::decode(bytes@),
    {
        if bytes.len() != RECORD_SIZE {
            return None;
        }
        proof {
            assert(bytes@.subrange(0, RECORD_SIZE as int) =~= bytes@);
        }
        Some(Record::decode_from(bytes, 0))
    }
}

} // verus!
