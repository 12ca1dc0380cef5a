//! Bit-exact layout of the backing region: an 8-byte header followed by
//! fixed-width 16-byte slots. All integers are little-endian.

use vstd::prelude::*;

verus! {

/// Size in bytes of the header at offset 0.
pub const HEADER_SIZE: usize = 8;

/// Size in bytes of one slot.
pub const SLOT_SIZE: usize = 16;

/// Offset of the timestamp inside a slot; bytes `1..8` are padding.
pub const TIMESTAMP_OFFSET: usize = 8;

/// Header of the backing region: the slot that the next append overwrites.
#[derive(Clone, Copy, Debug, PartialEq, Eq, Structural)]
pub struct Header {
    pub write_pos: u64,
}

/// One sample: a byte-sized measurement and its time in seconds since epoch.
/// A timestamp of zero marks a slot that was never written.
#[derive(Clone, Copy, Debug, PartialEq, Eq, Structural)]
pub struct Entry {
    pub value: u8,
    pub timestamp: i64,
}

/// The unsigned integer held little-endian in the first eight bytes of `b`.
pub open spec fn u64_from_le(b: Seq<u8>) -> u64 {
    (b[0] as u64) | ((b[1] as u64) << 8u64) | ((b[2] as u64) << 16u64) | ((b[3] as u64)
        << 24u64) | ((b[4] as u64) << 32u64) | ((b[5] as u64) << 40u64) | ((b[6] as u64)
        << 48u64) | ((b[7] as u64) << 56u64)
}

/// The eight little-endian bytes of `v`.
pub open spec fn u64_to_le(v: u64) -> Seq<u8> {
    seq![
        (v & 0xff) as u8,
        ((v >> 8u64) & 0xff) as u8,
        ((v >> 16u64) & 0xff) as u8,
        ((v >> 24u64) & 0xff) as u8,
        ((v >> 32u64) & 0xff) as u8,
        ((v >> 40u64) & 0xff) as u8,
        ((v >> 48u64) & 0xff) as u8,
        ((v >> 56u64) & 0xff) as u8,
    ]
}

/// Decoding the encoding of a value gives the value back.
pub proof fn lemma_u64_le_round_trip(v: u64)
    ensures
        u64_from_le(u64_to_le(v)) == v,
{
    let b = u64_to_le(v);
    let b0 = b[0];
    let b1 = b[1];
    let b2 = b[2];
    let b3 = b[3];
    let b4 = b[4];
    let b5 = b[5];
    let b6 = b[6];
    let b7 = b[7];
    assert(b0 == (v & 0xff) as u8 && b1 == ((v >> 8u64) & 0xff) as u8 && b2 == ((v >> 16u64)
        & 0xff) as u8 && b3 == ((v >> 24u64) & 0xff) as u8 && b4 == ((v >> 32u64) & 0xff) as u8
        && b5 == ((v >> 40u64) & 0xff) as u8 && b6 == ((v >> 48u64) & 0xff) as u8 && b7 == ((v
        >> 56u64) & 0xff) as u8);
    assert(((b0 == (v & 0xff) as u8 && b1 == ((v >> 8u64) & 0xff) as u8 && b2 == ((v >> 16u64)
        & 0xff) as u8 && b3 == ((v >> 24u64) & 0xff) as u8 && b4 == ((v >> 32u64) & 0xff) as u8
        && b5 == ((v >> 40u64) & 0xff) as u8 && b6 == ((v >> 48u64) & 0xff) as u8 && b7 == ((v
        >> 56u64) & 0xff) as u8)) ==> ((b0 as u64) | ((b1 as u64) << 8u64) | ((b2 as u64)
        << 16u64) | ((b3 as u64) << 24u64) | ((b4 as u64) << 32u64) | ((b5 as u64) << 40u64)
        | ((b6 as u64) << 48u64) | ((b7 as u64) << 56u64)) == v) by (bit_vector);
}

/// A timestamp stored as its two's-complement bit pattern reads back unchanged.
pub proof fn lemma_i64_bits_round_trip(t: i64)
    ensures
        ((t as u64) as i64) == t,
{
    assert(((t as u64) as i64) == t) by (bit_vector);
}

/// Reads the little-endian `u64` at `b[start..start + 8]`.
pub fn read_u64_le(b: &Vec<u8>, start: usize) -> (r: u64)
    requires
        start + 8 <= b@.len(),
    ensures
        r == u64_from_le(b@.subrange(start as int, start + 8)),
{
    let _n = b.len();
    let ghost s = b@.subrange(start as int, start + 8);
    assert(s[0] == b@[start as int] && s[1] == b@[start + 1] && s[2] == b@[start + 2] && s[3]
        == b@[start + 3] && s[4] == b@[start + 4] && s[5] == b@[start + 5] && s[6] == b@[start
        + 6] && s[7] == b@[start + 7]);
    (b[start] as u64) | ((b[start + 1] as u64) << 8u64) | ((b[start + 2] as u64) << 16u64) | ((
    b[start + 3] as u64) << 24u64) | ((b[start + 4] as u64) << 32u64) | ((b[start + 5] as u64)
        << 40u64) | ((b[start + 6] as u64) << 48u64) | ((b[start + 7] as u64) << 56u64)
}

/// The eight little-endian bytes of `v`.
pub fn write_u64_le(v: u64) -> (r: Vec<u8>)
    ensures
        r@ == u64_to_le(v),
{
    let r = vec![
        (v & 0xff) as u8,
        ((v >> 8u64) & 0xff) as u8,
        ((v >> 16u64) & 0xff) as u8,
        ((v >> 24u64) & 0xff) as u8,
        ((v >> 32u64) & 0xff) as u8,
        ((v >> 40u64) & 0xff) as u8,
        ((v >> 48u64) & 0xff) as u8,
        ((v >> 56u64) & 0xff) as u8,
    ];
    assert(r@ =~= u64_to_le(v));
    r
}

/// Byte offset at which slot `i` starts.
pub open spec fn slot_start(i: int) -> int {
    HEADER_SIZE + i * SLOT_SIZE
}

/// Length of a region that holds a header and `capacity` slots.
pub open spec fn required_len(capacity: nat) -> nat {
    (HEADER_SIZE + capacity * SLOT_SIZE) as nat
}

/// `s` with the bytes from `at` on replaced by `d`; the length is kept.
pub open spec fn splice(s: Seq<u8>, at: int, d: Seq<u8>) -> Seq<u8> {
    Seq::new(s.len(), |k: int| if at <= k < at + d.len() { d[k - at] } else { s[k] })
}

/// The header that the region `b` holds.
pub open spec fn header_of(b: Seq<u8>) -> Header {
    Header { write_pos: u64_from_le(b.subrange(0, HEADER_SIZE as int)) }
}

/// The entry that slot `i` of the region `b` holds.
pub open spec fn slot_of(b: Seq<u8>, i: int) -> Entry {
    let start = slot_start(i);
    Entry {
        value: b[start],
        timestamp: u64_from_le(
            b.subrange(start + TIMESTAMP_OFFSET, start + SLOT_SIZE),
        ) as i64,
    }
}

/// All `capacity` slots of `b`, in physical order.
pub open spec fn slots(b: Seq<u8>, capacity: nat) -> Seq<Entry> {
    Seq::new(capacity, |i: int| slot_of(b, i))
}

/// Whether an entry holds a sample rather than the empty sentinel.
pub open spec fn is_occupied(e: Entry) -> bool {
    e.timestamp != 0
}

/// The occupied entries of `s`, in the order of `s`.
pub open spec fn keep_occupied(s: Seq<Entry>) -> Seq<Entry> {
    s.filter(|e: Entry| is_occupied(e))
}

/// The occupied slots of `b`, in physical order.
pub open spec fn occupied(b: Seq<u8>, capacity: nat) -> Seq<Entry> {
    keep_occupied(slots(b, capacity))
}

/// Keeping the occupied entries of a sequence with one more entry at its end.
pub proof fn lemma_keep_occupied_push(s: Seq<Entry>, e: Entry)
    ensures
        keep_occupied(s.push(e)) == if is_occupied(e) {
            keep_occupied(s).push(e)
        } else {
            keep_occupied(s)
        },
{
    s.lemma_filter_push(e, |e: Entry| is_occupied(e));
}

/// `b` with the value and timestamp fields of slot `i` set to those of `e`;
/// the padding bytes of the slot are left as they were.
pub open spec fn with_slot(b: Seq<u8>, i: int, e: Entry) -> Seq<u8> {
    let start = slot_start(i);
    splice(
        splice(b, start, seq![e.value]),
        start + TIMESTAMP_OFFSET,
        u64_to_le(e.timestamp as u64),
    )
}

/// `b` with the header's `write_pos` set to `pos`.
pub open spec fn with_header(b: Seq<u8>, pos: u64) -> Seq<u8> {
    splice(b, 0, u64_to_le(pos))
}

/// Whether `b` is a well-formed region of `capacity` slots: of the right
/// length, with the write position inside the ring.
pub open spec fn region_wf(b: Seq<u8>, capacity: nat) -> bool {
    &&& capacity > 0
    &&& b.len() == required_len(capacity)
    &&& header_of(b).write_pos < capacity
}

/// Writing slot `i` changes that slot to `e` and nothing else that is read.
pub proof fn lemma_with_slot(b: Seq<u8>, capacity: nat, i: int, e: Entry)
    requires
        b.len() == required_len(capacity),
        0 <= i < capacity,
    ensures
        with_slot(b, i, e).len() == b.len(),
        header_of(with_slot(b, i, e)) == header_of(b),
        forall|j: int|
            #![trigger slot_of(with_slot(b, i, e), j)]
            0 <= j < capacity ==> slot_of(with_slot(b, i, e), j) == if j == i {
                e
            } else {
                slot_of(b, j)
            },
{
    let w = with_slot(b, i, e);
    let si = slot_start(i);
    assert(w.subrange(0, HEADER_SIZE as int) =~= b.subrange(0, HEADER_SIZE as int));
    assert forall|j: int| 0 <= j < capacity implies slot_of(w, j) == if j == i {
        e
    } else {
        slot_of(b, j)
    } by {
        let sj = slot_start(j);
        if j == i {
            assert(w.subrange(sj + 8, sj + 16) =~= u64_to_le(e.timestamp as u64));
            lemma_u64_le_round_trip(e.timestamp as u64);
            lemma_i64_bits_round_trip(e.timestamp);
        } else {
            assert(w.subrange(sj + 8, sj + 16) =~= b.subrange(sj + 8, sj + 16));
        }
    }
}

/// Writing the header changes the write position and no slot.
pub proof fn lemma_with_header(b: Seq<u8>, capacity: nat, pos: u64)
    requires
        b.len() == required_len(capacity),
    ensures
        with_header(b, pos).len() == b.len(),
        header_of(with_header(b, pos)).write_pos == pos,
        forall|j: int|
            #![trigger slot_of(with_header(b, pos), j)]
            0 <= j < capacity ==> slot_of(with_header(b, pos), j) == slot_of(b, j),
{
    let w = with_header(b, pos);
    assert(w.subrange(0, HEADER_SIZE as int) =~= u64_to_le(pos));
    lemma_u64_le_round_trip(pos);
    assert forall|j: int| 0 <= j < capacity implies slot_of(w, j) == slot_of(b, j) by {
        let sj = slot_start(j);
        assert(w.subrange(sj + 8, sj + 16) =~= b.subrange(sj + 8, sj + 16));
    }
}

} // verus!
