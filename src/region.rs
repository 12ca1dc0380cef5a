//! The memory-mapped backing region, seen as a sequence of bytes.

use vstd::prelude::*;
use memmap2::MmapMut;
use crate::layout::{splice, Entry};

verus! {

#[verifier::external_type_specification]
#[verifier::external_body]
pub struct ExMmapMut(MmapMut);

#[verifier::external_type_specification]
#[verifier::external_body]
pub struct ExIoError(std::io::Error);

/// The bytes that a writable memory map holds.
pub uninterp spec fn mapped_bytes(m: MmapMut) -> Seq<u8>;

/// The bytes of the backing file that completed flushes have made durable.
/// Writing through the map does not change them; a flush does.
pub uninterp spec fn durable_bytes(m: MmapMut) -> Seq<u8>;

/// Every byte of `d_new` is either what it was in `d_old` or the mapped byte in `m`.
pub open spec fn durable_or_mapped(d_new: Seq<u8>, d_old: Seq<u8>, m: Seq<u8>) -> bool {
    forall|i: int| #![trigger d_new[i]] d_new[i] == d_old[i] || d_new[i] == m[i]
}

/// Whether `s` is in ascending order of timestamp.
pub open spec fn sorted_by_timestamp(s: Seq<Entry>) -> bool {
    forall|i: int, j: int| 0 <= i <= j < s.len() ==> s[i].timestamp <= s[j].timestamp
}

/// The entries of `s` whose timestamp is `t`, in the order of `s`.
pub open spec fn with_timestamp(s: Seq<Entry>, t: i64) -> Seq<Entry> {
    s.filter(|e: Entry| e.timestamp == t)
}

/// Relies on `MmapMut`'s `Deref` to `[u8]`: the length of the mapped bytes.
#[verifier::external_body]
pub(crate) fn region_len(m: &MmapMut) -> (r: usize)
    ensures
        r == mapped_bytes(*m).len(),
{
    m.len()
}

/// Relies on `MmapMut`'s `Deref` to `[u8]`: a copy of the bytes in `start..end`.
#[verifier::external_body]
pub(crate) fn read_range(m: &MmapMut, start: usize, end: usize) -> (r: Vec<u8>)
    requires
        start <= end <= mapped_bytes(*m).len(),
    ensures
        r@ == mapped_bytes(*m).subrange(start as int, end as int),
{
    m[start..end].to_vec()
}

/// Relies on `MmapMut`'s `DerefMut` to `[u8]`: the bytes in `start..end` are
/// overwritten with `data`, and no other byte changes.
#[verifier::external_body]
pub(crate) fn write_range(m: &mut MmapMut, start: usize, end: usize, data: &[u8])
    requires
        start <= end <= mapped_bytes(*old(m)).len(),
        end - start == data@.len(),
    ensures
        mapped_bytes(*final(m)) == splice(mapped_bytes(*old(m)), start as int, data@),
        durable_bytes(*final(m)) == durable_bytes(*old(m)),
{
    m[start..end].copy_from_slice(data)
}

/// Relies on `MmapMut::flush_range`: when it returns `Ok`, the bytes in
/// `offset..offset + len` are durably stored; other pending changes may be
/// flushed as well. The mapped bytes stay as they are.
#[verifier::external_body]
pub(crate) fn flush_range(m: &mut MmapMut, offset: usize, len: usize) -> (r: Result<(), std::io::Error>)
    requires
        offset + len <= mapped_bytes(*old(m)).len(),
    ensures
        mapped_bytes(*final(m)) == mapped_bytes(*old(m)),
        durable_or_mapped(durable_bytes(*final(m)), durable_bytes(*old(m)), mapped_bytes(*old(m))),
        r is Ok ==> forall|i: int|
            offset <= i < offset + len ==> #[trigger] durable_bytes(*final(m))[i]
                == mapped_bytes(*old(m))[i],
{
    m.flush_range(offset, len)
}

/// Relies on `slice::sort_by_key`: the entries are reordered by ascending
/// timestamp, and the sort is stable, so entries with equal timestamps keep
/// their order.
#[verifier::external_body]
pub(crate) fn sort_by_timestamp(v: &mut Vec<Entry>)
    ensures
        final(v)@.to_multiset() == old(v)@.to_multiset(),
        sorted_by_timestamp(final(v)@),
        forall|t: i64| #[trigger] with_timestamp(final(v)@, t) == with_timestamp(old(v)@, t),
{
    v.sort_by_key(|e| e.timestamp)
}

} // verus!
