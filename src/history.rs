//! The persistent ring store: opening over a mapped region, appending in two
//! flushed phases, and listing the stored samples in time order.

use vstd::prelude::*;
use memmap2::MmapMut;
use crate::layout::{
    header_of, is_occupied, keep_occupied, lemma_keep_occupied_push, lemma_with_header,
    lemma_with_slot, occupied, read_u64_le, region_wf, required_len, slot_of, slot_start, slots, with_header,
    with_slot, write_u64_le, Entry, Header, HEADER_SIZE, SLOT_SIZE, TIMESTAMP_OFFSET,
};
use crate::region::{
    durable_bytes, durable_or_mapped, flush_range, mapped_bytes, read_range, region_len, sort_by_timestamp, sorted_by_timestamp,
    with_timestamp, write_range,
};

verus! {

broadcast use vstd::seq_lib::group_seq_properties;

/// One year of samples at one per minute.
pub const NUM_ENTRIES: usize = 365 * 24 * 60;

/// Why a mapped region cannot be taken as a store.
#[derive(Clone, Copy, Debug, PartialEq, Eq, Structural)]
pub enum OpenError {
    /// A store needs at least one slot.
    ZeroCapacity,
    /// The region cannot be addressed: its size does not fit in `usize`.
    CapacityTooLarge,
    /// The region's length is not that of a header and `capacity` slots.
    LengthMismatch,
    /// The header's write position lies outside the ring.
    WritePosOutOfRange,
    /// The backing file is larger than a region of this capacity: it was
    /// written with another capacity, and truncating it would lose samples.
    FileTooLarge,
}

/// What to do with a backing file before mapping it.
#[derive(Clone, Copy, Debug, PartialEq, Eq, Structural)]
pub enum Resize {
    /// The file has the required length already.
    Keep,
    /// Grow the file, zero-filled, to this many bytes.
    Grow(u64),
}

/// Why an append did not complete.
#[derive(Clone, Copy, Debug, PartialEq, Eq, Structural)]
pub enum AppendError {
    /// Flushing the written slot to the backing file failed; the header was not advanced.
    SlotFlush,
    /// Flushing the advanced header to the backing file failed.
    HeaderFlush,
}

/// The region after `append(timestamp, value)`: the slot at the write position
/// holds the new entry and the write position moves one slot on, wrapping.
pub open spec fn appended(b: Seq<u8>, capacity: nat, timestamp: i64, value: u8) -> Seq<u8> {
    let pos = header_of(b).write_pos;
    with_header(
        with_slot(b, pos as int, Entry { value, timestamp }),
        ((pos + 1) % (capacity as int)) as u64,
    )
}

/// The region after only the first phase of an append: the slot is written,
/// the header is not.
pub open spec fn slot_written(b: Seq<u8>, timestamp: i64, value: u8) -> Seq<u8> {
    with_slot(b, header_of(b).write_pos as int, Entry { value, timestamp })
}

/// A ring of `(timestamp, value)` samples of fixed capacity over a mapped region.
/// Appends take `&mut self`, so the one writer holds the store exclusively
/// for the whole of each append.
pub struct PersistentHistory {
    mmap: MmapMut,
    capacity: usize,
}

/// Total region size in bytes for `capacity` slots, if it fits in `usize`.
pub fn region_size(capacity: usize) -> (r: Option<usize>)
    ensures
        r == (if required_len(capacity as nat) <= usize::MAX {
            Some(required_len(capacity as nat) as usize)
        } else {
            None::<usize>
        }),
{
    match capacity.checked_mul(SLOT_SIZE) {
        Some(n) => n.checked_add(HEADER_SIZE),
        None => None,
    }
}

/// Decides how a backing file of `current_len` bytes is brought to the size
/// of a region of `capacity` slots: a shorter file is grown in place (its new
/// bytes read as empty slots), a longer one is refused.
pub fn plan_resize(current_len: u64, capacity: usize) -> (r: Result<Resize, OpenError>)
    ensures
        capacity == 0 ==> r == Err::<Resize, OpenError>(OpenError::ZeroCapacity),
        capacity > 0 && required_len(capacity as nat) > usize::MAX ==> r == Err::<
            Resize,
            OpenError,
        >(OpenError::CapacityTooLarge),
        capacity > 0 && required_len(capacity as nat) <= usize::MAX ==> r == (if current_len
            < required_len(capacity as nat) {
            Ok::<Resize, OpenError>(Resize::Grow(required_len(capacity as nat) as u64))
        } else if current_len == required_len(capacity as nat) {
            Ok::<Resize, OpenError>(Resize::Keep)
        } else {
            Err::<Resize, OpenError>(OpenError::FileTooLarge)
        }),
{
    if capacity == 0 {
        return Err(OpenError::ZeroCapacity);
    }
    let size = match region_size(capacity) {
        Some(n) => n as u64,
        None => return Err(OpenError::CapacityTooLarge),
    };
    if current_len < size {
        Ok(Resize::Grow(size))
    } else if current_len == size {
        Ok(Resize::Keep)
    } else {
        Err(OpenError::FileTooLarge)
    }
}

/// Decodes the occupied slots of a full copy of the region, in physical order.
pub fn decode_entries(bytes: &Vec<u8>, capacity: usize) -> (r: Vec<Entry>)
    requires
        bytes@.len() == required_len(capacity as nat),
    ensures
        r@ == occupied(bytes@, capacity as nat),
{
    let _n = bytes.len();
    let mut r: Vec<Entry> = Vec::new();
    let mut i: usize = 0;
    while i < capacity
        invariant
            i <= capacity,
            bytes@.len() == required_len(capacity as nat),
            bytes@.len() <= usize::MAX,
            r@ == keep_occupied(slots(bytes@, i as nat)),
        decreases capacity - i,
    {
        assert((i + 1) * 16 <= capacity * 16) by (nonlinear_arith)
            requires
                i < capacity,
        ;
        let start: usize = HEADER_SIZE + i * SLOT_SIZE;
        let value = bytes[start];
        let timestamp = read_u64_le(bytes, start + TIMESTAMP_OFFSET) as i64;
        let e = Entry { value, timestamp };
        assert(e == slot_of(bytes@, i as int));
        assert(slots(bytes@, (i + 1) as nat) =~= slots(bytes@, i as nat).push(e));
        proof {
            lemma_keep_occupied_push(slots(bytes@, i as nat), e);
        }
        if timestamp != 0 {
            r.push(e);
        }
        i = i + 1;
    }
    assert(slots(bytes@, capacity as nat) =~= slots(bytes@, i as nat));
    r
}

impl PersistentHistory {
    /// The bytes of the backing region.
    pub closed spec fn region(&self) -> Seq<u8> {
        mapped_bytes(self.mmap)
    }

    /// The bytes of the backing file that completed flushes have made durable.
    pub closed spec fn durable(&self) -> Seq<u8> {
        durable_bytes(self.mmap)
    }

    /// The bytes in `start..end` are durable as they are mapped.
    pub open spec fn range_durable(&self, start: int, end: int) -> bool {
        forall|i: int| start <= i < end ==> #[trigger] self.durable()[i] == self.region()[i]
    }

    /// Slot `w` is durable as it is mapped.
    pub open spec fn slot_durable(&self, w: int) -> bool {
        self.range_durable(slot_start(w), slot_start(w) + SLOT_SIZE)
    }

    /// The header is durable as it is mapped.
    pub open spec fn header_durable(&self) -> bool {
        self.range_durable(0, HEADER_SIZE as int)
    }

    /// No durable header byte differs from both the durable and the mapped
    /// header of `before`: the header on disk has not moved past `before`'s.
    pub open spec fn header_not_advanced(&self, before: &Self) -> bool {
        forall|i: int|
            0 <= i < HEADER_SIZE ==> #[trigger] self.durable()[i] == before.durable()[i]
                || self.durable()[i] == before.region()[i]
    }

    /// The number of slots in the ring.
    pub closed spec fn capacity_spec(&self) -> nat {
        self.capacity as nat
    }

    /// The region has the length of a header and `capacity` slots, and the
    /// write position lies inside the ring.
    pub open spec fn wf(&self) -> bool {
        region_wf(self.region(), self.capacity_spec())
    }

    /// Takes a mapped region as a store of `capacity` slots. The region's
    /// bytes are kept as they are: zero bytes read as empty slots.
    pub fn open(mmap: MmapMut, capacity: usize) -> (r: Result<Self, OpenError>)
        ensures
            capacity == 0 ==> r == Err::<Self, OpenError>(OpenError::ZeroCapacity),
            capacity > 0 && required_len(capacity as nat) > usize::MAX ==> r == Err::<
                Self,
                OpenError,
            >(OpenError::CapacityTooLarge),
            capacity > 0 && required_len(capacity as nat) <= usize::MAX && mapped_bytes(mmap).len()
                != required_len(capacity as nat) ==> r == Err::<Self, OpenError>(
                OpenError::LengthMismatch,
            ),
            capacity > 0 && mapped_bytes(mmap).len() == required_len(capacity as nat)
                && header_of(mapped_bytes(mmap)).write_pos >= capacity ==> r == Err::<
                Self,
                OpenError,
            >(OpenError::WritePosOutOfRange),
            region_wf(mapped_bytes(mmap), capacity as nat) <==> r is Ok,
            r matches Ok(h) ==> h.wf() && h.region() == mapped_bytes(mmap) && h.capacity_spec()
                == capacity,
    {
        if capacity == 0 {
            return Err(OpenError::ZeroCapacity);
        }
        let len = region_len(&mmap);
        let size = match region_size(capacity) {
            Some(n) => n,
            None => return Err(OpenError::CapacityTooLarge),
        };
        if len != size {
            return Err(OpenError::LengthMismatch);
        }
        let head = read_range(&mmap, 0, HEADER_SIZE);
        let pos = read_u64_le(&head, 0);
        assert(head@.subrange(0, 8) =~= mapped_bytes(mmap).subrange(0, 8));
        if pos >= capacity as u64 {
            return Err(OpenError::WritePosOutOfRange);
        }
        Ok(PersistentHistory { mmap, capacity })
    }

    /// Gives the mapped region back, with the bytes it holds.
    pub fn into_map(self) -> (r: MmapMut)
        ensures
            mapped_bytes(r) == self.region(),
    {
        self.mmap
    }

    /// The number of slots in the ring.
    pub fn capacity(&self) -> (r: usize)
        ensures
            r == self.capacity_spec(),
    {
        self.capacity
    }

    /// The header as the region holds it.
    pub fn header(&self) -> (r: Header)
        requires
            self.wf(),
        ensures
            r == header_of(self.region()),
            r.write_pos < self.capacity_spec(),
    {
        let head = read_range(&self.mmap, 0, HEADER_SIZE);
        let pos = read_u64_le(&head, 0);
        assert(head@.subrange(0, 8) =~= self.region().subrange(0, 8));
        Header { write_pos: pos }
    }

    /// All stored samples, ascending by timestamp. Slots whose timestamp is
    /// zero are empty and are left out.
    pub fn get(&self) -> (r: Vec<Entry>)
        requires
            self.wf(),
        ensures
            sorted_by_timestamp(r@),
            r@.to_multiset() == occupied(self.region(), self.capacity_spec()).to_multiset(),
            forall|t: i64| #[trigger] with_timestamp(r@, t) == with_timestamp(
                occupied(self.region(), self.capacity_spec()),
                t,
            ),
            forall|i: int| 0 <= i < r@.len() ==> #[trigger] r@[i].timestamp != 0,
    {
        let len = region_len(&self.mmap);
        let bytes = read_range(&self.mmap, 0, len);
        assert(bytes@ =~= self.region());
        let mut entries = decode_entries(&bytes, self.capacity);
        sort_by_timestamp(&mut entries);
        proof {
            let occ = occupied(self.region(), self.capacity_spec());
            assert forall|i: int| 0 <= i < entries@.len() implies #[trigger] entries@[i].timestamp
                != 0 by {
                let e = entries@[i];
                assert(entries@.to_multiset().count(e) > 0);
                assert(occ.to_multiset().count(e) > 0);
                assert(occ.contains(e));
                let k = choose|k: int| 0 <= k < occ.len() && occ[k] == e;
                slots(self.region(), self.capacity_spec()).lemma_filter_pred(
                    |e: Entry| is_occupied(e),
                    k,
                );
            }
        }
        entries
    }

    /// First phase of an append: overwrites the value and timestamp of the
    /// slot at the write position and flushes that slot's bytes. The header
    /// is not touched, so a crash after this phase loses at most this one entry.
    pub fn write_slot(&mut self, timestamp: i64, value: u8) -> (r: Result<(), AppendError>)
        requires
            old(self).wf(),
        ensures
            final(self).wf(),
            final(self).capacity_spec() == old(self).capacity_spec(),
            final(self).region() == slot_written(old(self).region(), timestamp, value),
            durable_or_mapped(final(self).durable(), old(self).durable(), final(self).region()),
            final(self).header_not_advanced(&*old(self)),
            r is Ok ==> final(self).slot_durable(header_of(old(self).region()).write_pos as int),
            r is Err ==> r == Err::<(), AppendError>(AppendError::SlotFlush),
    {
        let ghost b = self.region();
        let _len = region_len(&self.mmap);
        let pos = self.header().write_pos as usize;
        proof {
            lemma_with_slot(b, self.capacity_spec(), pos as int, Entry { value, timestamp });
        }
        assert((pos + 1) * 16 <= self.capacity * 16) by (nonlinear_arith)
            requires
                pos < self.capacity,
        ;
        let start: usize = HEADER_SIZE + pos * SLOT_SIZE;
        let value_bytes = vec![value];
        assert(value_bytes@ =~= seq![value]);
        write_range(&mut self.mmap, start, start + 1, value_bytes.as_slice());
        let ts_start: usize = start + TIMESTAMP_OFFSET;
        let ts_bytes = write_u64_le(#[verifier::truncate] (timestamp as u64));
        write_range(&mut self.mmap, ts_start, ts_start + 8, ts_bytes.as_slice());
        assert(self.region().subrange(0, 8) =~= b.subrange(0, 8));
        match flush_range(&mut self.mmap, start, SLOT_SIZE) {
            Ok(()) => Ok(()),
            Err(_) => Err(AppendError::SlotFlush),
        }
    }

    /// Second phase of an append: moves the write position one slot on,
    /// wrapping at the capacity, and flushes the header. It is entered only
    /// once the slot at the write position is durable.
    fn advance(&mut self) -> (r: Result<(), AppendError>)
        requires
            old(self).wf(),
            old(self).slot_durable(header_of(old(self).region()).write_pos as int),
        ensures
            final(self).wf(),
            durable_or_mapped(final(self).durable(), old(self).durable(), final(self).region()),
            final(self).slot_durable(header_of(old(self).region()).write_pos as int),
            r is Ok ==> final(self).header_durable(),
            final(self).capacity_spec() == old(self).capacity_spec(),
            final(self).region() == with_header(
                old(self).region(),
                ((header_of(old(self).region()).write_pos + 1) % (old(self).capacity_spec()
                    as int)) as u64,
            ),
            r is Err ==> r == Err::<(), AppendError>(AppendError::HeaderFlush),
    {
        let pos = self.header().write_pos;
        let next: u64 = (pos + 1) % (self.capacity as u64);
        proof {
            lemma_with_header(self.region(), self.capacity_spec(), next);
        }
        let head = write_u64_le(next);
        write_range(&mut self.mmap, 0, HEADER_SIZE, head.as_slice());
        match flush_range(&mut self.mmap, 0, HEADER_SIZE) {
            Ok(()) => Ok(()),
            Err(_) => Err(AppendError::HeaderFlush),
        }
    }

    /// Decides, from the outcome of the slot flush, how an append goes on:
    /// after a failed slot flush the store is left as it is and that error is
    /// returned; after a successful one the write position is advanced and
    /// the header flushed.
    pub fn finish_append(&mut self, slot_flush: Result<(), AppendError>) -> (r: Result<
        (),
        AppendError,
    >)
        requires
            old(self).wf(),
            slot_flush is Ok ==> old(self).slot_durable(
                header_of(old(self).region()).write_pos as int,
            ),
        ensures
            final(self).wf(),
            final(self).capacity_spec() == old(self).capacity_spec(),
            slot_flush is Err ==> r == slot_flush && final(self).region() == old(self).region()
                && final(self).durable() == old(self).durable(),
            slot_flush is Ok ==> final(self).region() == with_header(
                old(self).region(),
                ((header_of(old(self).region()).write_pos + 1) % (old(self).capacity_spec()
                    as int)) as u64,
            ) && durable_or_mapped(final(self).durable(), old(self).durable(), final(self).region())
                && final(self).slot_durable(header_of(old(self).region()).write_pos as int),
            slot_flush is Ok && r is Ok ==> final(self).header_durable(),
            slot_flush is Ok && r is Err ==> r == Err::<(), AppendError>(AppendError::HeaderFlush),
    {
        match slot_flush {
            Ok(()) => self.advance(),
            Err(e) => Err(e),
        }
    }

    /// Records a sample: the slot at the write position is overwritten and
    /// flushed, and only then is the write position advanced and flushed.
    /// When the ring is full the oldest slot is the one overwritten. A sample
    /// whose timestamp is zero is stored like any other, but reads as an
    /// empty slot and is never listed.
    pub fn append(&mut self, timestamp: i64, value: u8) -> (r: Result<(), AppendError>)
        requires
            old(self).wf(),
        ensures
            final(self).wf(),
            final(self).capacity_spec() == old(self).capacity_spec(),
            r is Ok ==> final(self).region() == appended(
                old(self).region(),
                old(self).capacity_spec(),
                timestamp,
                value,
            ),
            r is Ok ==> final(self).slot_durable(header_of(old(self).region()).write_pos as int)
                && final(self).header_durable(),
            r == Err::<(), AppendError>(AppendError::SlotFlush) ==> final(self).region()
                == slot_written(old(self).region(), timestamp, value)
                && final(self).header_not_advanced(&*old(self)),
            r == Err::<(), AppendError>(AppendError::HeaderFlush) ==> final(self).region()
                == appended(old(self).region(), old(self).capacity_spec(), timestamp, value)
                && final(self).slot_durable(header_of(old(self).region()).write_pos as int),
    {
        let ghost b = self.region();
        let ghost pos = header_of(b).write_pos;
        proof {
            lemma_with_slot(b, self.capacity_spec(), pos as int, Entry { value, timestamp });
        }
        let slot_flush = self.write_slot(timestamp, value);
        self.finish_append(slot_flush)
    }
}

} // verus!
