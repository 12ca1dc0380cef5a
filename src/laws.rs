//! Properties of the ring store that relate several operations.

use vstd::prelude::*;
use vstd::multiset::Multiset;
use crate::layout::{
    header_of, is_occupied, HEADER_SIZE, keep_occupied, lemma_keep_occupied_push, lemma_with_header,
    lemma_with_slot, occupied, region_wf, required_len, slot_of, slots, u64_from_le, with_header, with_slot,
    Entry,
};
use crate::region::{sorted_by_timestamp, with_timestamp};
use vstd::arithmetic::div_mod::{lemma_mod_self_0, lemma_small_mod};
use vstd::seq_lib::lemma_multiset_commutative;
use crate::history::{appended, slot_written};
use crate::layout::slot_start;

verus! {

broadcast use vstd::multiset::group_multiset_axioms, vstd::seq_lib::group_to_multiset_ensures;

/// The entry as a listing sees it: itself if occupied, nothing if empty.
pub open spec fn if_occupied(e: Entry) -> Multiset<Entry> {
    if is_occupied(e) {
        Multiset::singleton(e)
    } else {
        Multiset::empty()
    }
}

/// The occupied entries of `s` with `a` pushed, as a multiset.
proof fn lemma_occupied_push_multiset(s: Seq<Entry>, a: Entry)
    ensures
        keep_occupied(s.push(a)).to_multiset() == keep_occupied(s).to_multiset().add(
            if_occupied(a),
        ),
{
    lemma_keep_occupied_push(s, a);
    if is_occupied(a) {
        assert(keep_occupied(s).push(a).to_multiset() =~= keep_occupied(s).to_multiset().insert(a));
        assert(keep_occupied(s).to_multiset().insert(a) =~= keep_occupied(s).to_multiset().add(
            Multiset::singleton(a),
        ));
    } else {
        assert(keep_occupied(s).to_multiset() =~= keep_occupied(s).to_multiset().add(
            Multiset::empty(),
        ));
    }
}

/// Replacing entry `p` of `s` by `e` takes the old entry out of the occupied
/// ones and puts `e` in, each only where occupied.
proof fn lemma_update_occupied(s: Seq<Entry>, p: int, e: Entry)
    requires
        0 <= p < s.len(),
    ensures
        keep_occupied(s.update(p, e)).to_multiset().add(if_occupied(s[p])) == keep_occupied(
            s,
        ).to_multiset().add(if_occupied(e)),
    decreases s.len(),
{
    let init = s.drop_last();
    let last = s.last();
    assert(s =~= init.push(last));
    lemma_occupied_push_multiset(init, last);
    let ms = keep_occupied(init).to_multiset();
    let rhs = keep_occupied(s).to_multiset().add(if_occupied(e));
    assert(rhs == ms.add(if_occupied(last)).add(if_occupied(e)));
    if p == s.len() - 1 {
        assert(s.update(p, e) =~= init.push(e));
        lemma_occupied_push_multiset(init, e);
        assert(keep_occupied(s.update(p, e)).to_multiset().add(if_occupied(s[p])) == ms.add(
            if_occupied(e),
        ).add(if_occupied(last)));
        assert(ms.add(if_occupied(e)).add(if_occupied(last)) =~= rhs);
    } else {
        let u = init.update(p, e);
        assert(s.update(p, e) =~= u.push(last));
        lemma_occupied_push_multiset(u, last);
        lemma_update_occupied(init, p, e);
        let mu = keep_occupied(u).to_multiset();
        assert(mu.add(if_occupied(s[p])) == ms.add(if_occupied(e)));
        assert(keep_occupied(s.update(p, e)).to_multiset().add(if_occupied(s[p])) == mu.add(
            if_occupied(last),
        ).add(if_occupied(s[p])));
        assert(mu.add(if_occupied(last)).add(if_occupied(s[p])) =~= mu.add(if_occupied(s[p])).add(
            if_occupied(last),
        ));
        assert(ms.add(if_occupied(e)).add(if_occupied(last)) =~= rhs);
    }
}

/// An append changes the listing by exactly one eviction and one addition:
/// the entry that was in the overwritten slot leaves it, the new entry joins
/// it, each only where its timestamp is not the empty sentinel. The region
/// stays well formed.
pub proof fn lemma_append_evicts_one(b: Seq<u8>, capacity: nat, timestamp: i64, value: u8)
    requires
        region_wf(b, capacity),
    ensures
        region_wf(appended(b, capacity, timestamp, value), capacity),
        occupied(appended(b, capacity, timestamp, value), capacity).to_multiset().add(
            if_occupied(slot_of(b, header_of(b).write_pos as int)),
        ) == occupied(b, capacity).to_multiset().add(if_occupied(Entry { value, timestamp })),
{
    let pos = header_of(b).write_pos as int;
    let e = Entry { value, timestamp };
    let w = with_slot(b, pos, e);
    let next = ((pos + 1) % (capacity as int)) as u64;
    lemma_with_slot(b, capacity, pos, e);
    lemma_with_header(w, capacity, next);
    assert(slots(appended(b, capacity, timestamp, value), capacity) =~= slots(b, capacity).update(
        pos,
        e,
    ));
    lemma_update_occupied(slots(b, capacity), pos, e);
}

/// An append whose timestamp is the empty sentinel adds nothing to the
/// listing: what is listed afterwards was listed before.
pub proof fn lemma_zero_timestamp_adds_nothing(b: Seq<u8>, capacity: nat, value: u8)
    requires
        region_wf(b, capacity),
    ensures
        occupied(appended(b, capacity, 0, value), capacity).to_multiset().subset_of(
            occupied(b, capacity).to_multiset(),
        ),
        forall|e: Entry|
            #[trigger] occupied(appended(b, capacity, 0, value), capacity).contains(e)
                ==> e.timestamp != 0,
{
    lemma_append_evicts_one(b, capacity, 0, value);
    let after = occupied(appended(b, capacity, 0, value), capacity);
    let before = occupied(b, capacity).to_multiset();
    let evicted = if_occupied(slot_of(b, header_of(b).write_pos as int));
    assert(if_occupied(Entry { value, timestamp: 0 }) =~= Multiset::empty());
    assert(before.add(Multiset::empty()) =~= before);
    assert forall|e: Entry| #[trigger] after.to_multiset().count(e) <= before.count(e) by {
        assert(after.to_multiset().add(evicted).count(e) == before.count(e));
    }
    assert forall|e: Entry| #[trigger] after.contains(e) implies e.timestamp != 0 by {
        let k = choose|k: int| 0 <= k < after.len() && after[k] == e;
        slots(appended(b, capacity, 0, value), capacity).lemma_filter_pred(
            |e: Entry| is_occupied(e),
            k,
        );
    }
}

/// A crash after the first phase of an append, with the slot flushed and the
/// header not advanced, loses at most the entry in flight: the region is still
/// well formed, the write position is unchanged, every other slot is intact,
/// the written slot holds the new entry whole, and the next append leaves the
/// region exactly as if the interrupted one had never started.
pub proof fn lemma_crash_loses_at_most_one(
    b: Seq<u8>,
    capacity: nat,
    timestamp: i64,
    value: u8,
    next_timestamp: i64,
    next_value: u8,
)
    requires
        region_wf(b, capacity),
    ensures
        region_wf(slot_written(b, timestamp, value), capacity),
        header_of(slot_written(b, timestamp, value)) == header_of(b),
        slot_of(slot_written(b, timestamp, value), header_of(b).write_pos as int) == (Entry {
            value,
            timestamp,
        }),
        forall|i: int|
            0 <= i < capacity && i != header_of(b).write_pos ==> #[trigger] slot_of(
                slot_written(b, timestamp, value),
                i,
            ) == slot_of(b, i),
        appended(slot_written(b, timestamp, value), capacity, next_timestamp, next_value)
            == appended(b, capacity, next_timestamp, next_value),
{
    let pos = header_of(b).write_pos as int;
    let e1 = Entry { value, timestamp };
    let e2 = Entry { value: next_value, timestamp: next_timestamp };
    let c = slot_written(b, timestamp, value);
    lemma_with_slot(b, capacity, pos, e1);
    assert(slot_of(c, pos) == e1);
    assert(with_slot(c, pos, e2) =~= with_slot(b, pos, e2));
}

/// The region after appending each entry of `es` in turn.
pub open spec fn appended_all(b: Seq<u8>, capacity: nat, es: Seq<Entry>) -> Seq<u8>
    decreases es.len(),
{
    if es.len() == 0 {
        b
    } else {
        appended(
            appended_all(b, capacity, es.drop_last()),
            capacity,
            es.last().timestamp,
            es.last().value,
        )
    }
}

/// A fresh region of `capacity` slots: every byte zero.
pub open spec fn zeroed(capacity: nat) -> Seq<u8> {
    Seq::new(required_len(capacity), |i: int| 0u8)
}

/// Samples with timestamps `1, 2, ...` in order, carrying `values`.
pub open spec fn ramp(values: Seq<u8>) -> Seq<Entry> {
    Seq::new(values.len(), |k: int| Entry { value: values[k], timestamp: (k + 1) as i64 })
}

/// The entry that slot `i` holds after the entries `es` were appended to the
/// region `b0` and the write position is now `pos`: the slots before `pos`
/// hold the newest entries, those from `pos` on the ones a lap earlier, and a
/// slot that no entry of `es` reached holds what it held in `b0`.
spec fn ring_slot(b0: Seq<u8>, es: Seq<Entry>, pos: int, capacity: nat, i: int) -> Entry {
    let k = if i < pos {
        es.len() - pos + i
    } else {
        es.len() - pos + i - capacity
    };
    if k >= 0 {
        es[k]
    } else {
        slot_of(b0, i)
    }
}

spec fn ring_state(b: Seq<u8>, capacity: nat, b0: Seq<u8>, es: Seq<Entry>, pos: int) -> bool {
    &&& region_wf(b, capacity)
    &&& header_of(b).write_pos == pos
    &&& header_of(b0).write_pos + es.len() < capacity ==> pos == header_of(b0).write_pos
        + es.len()
    &&& forall|i: int|
        0 <= i < capacity ==> #[trigger] slot_of(b, i) == ring_slot(b0, es, pos, capacity, i)
}

proof fn lemma_zero_bytes(s: Seq<u8>)
    requires
        s.len() >= 8,
        forall|i: int| 0 <= i < 8 ==> s[i] == 0,
    ensures
        u64_from_le(s) == 0,
        (u64_from_le(s) as i64) == 0,
{
    let (b0, b1, b2, b3, b4, b5, b6, b7) = (s[0], s[1], s[2], s[3], s[4], s[5], s[6], s[7]);
    assert((b0 == 0 && b1 == 0 && b2 == 0 && b3 == 0 && b4 == 0 && b5 == 0 && b6 == 0 && b7 == 0)
        ==> ((b0 as u64) | ((b1 as u64) << 8u64) | ((b2 as u64) << 16u64) | ((b3 as u64)
        << 24u64) | ((b4 as u64) << 32u64) | ((b5 as u64) << 40u64) | ((b6 as u64) << 48u64) | ((
    b7 as u64) << 56u64)) == 0) by (bit_vector);
    assert((0u64 as i64) == 0) by (bit_vector);
}

/// A fresh, all-zero region is a well-formed ring whose write position is
/// the first slot and whose slots are all empty.
pub proof fn lemma_zeroed_region(capacity: nat)
    requires
        capacity > 0,
    ensures
        region_wf(zeroed(capacity), capacity),
        header_of(zeroed(capacity)).write_pos == 0,
        forall|i: int|
            0 <= i < capacity ==> #[trigger] slot_of(zeroed(capacity), i) == (Entry {
                value: 0,
                timestamp: 0,
            }),
        occupied(zeroed(capacity), capacity).len() == 0,
{
    let z = zeroed(capacity);
    lemma_zero_bytes(z.subrange(0, 8));
    assert forall|i: int| 0 <= i < capacity implies #[trigger] slot_of(z, i) == (Entry {
        value: 0,
        timestamp: 0,
    }) by {
        lemma_zero_bytes(z.subrange(8 + i * 16 + 8, 8 + i * 16 + 16));
    }
    lemma_keep_prefix(slots(z, capacity), 0);
}

/// Where each appended entry lands: after appending `es` to the region `b0`,
/// the write position has moved `es.len()` slots on, and each slot holds the
/// newest entry that reached it, or its old content.
proof fn lemma_ring_state(b0: Seq<u8>, capacity: nat, es: Seq<Entry>) -> (pos: int)
    requires
        region_wf(b0, capacity),
        capacity <= usize::MAX,
    ensures
        ring_state(appended_all(b0, capacity, es), capacity, b0, es, pos),
    decreases es.len(),
{
    if es.len() == 0 {
        header_of(b0).write_pos as int
    } else {
        let init = es.drop_last();
        let x = es.last();
        let p = lemma_ring_state(b0, capacity, init);
        let b = appended_all(b0, capacity, init);
        let w = with_slot(b, p, x);
        let next = ((p + 1) % (capacity as int)) as u64;
        lemma_with_slot(b, capacity, p, x);
        lemma_with_header(w, capacity, next);
        let q = if p + 1 < capacity {
            lemma_small_mod((p + 1) as nat, capacity);
            p + 1
        } else {
            lemma_mod_self_0(capacity as int);
            0
        };
        assert(next == q);
        assert(appended_all(b0, capacity, es) == with_header(w, next));
        assert forall|i: int| 0 <= i < capacity implies #[trigger] slot_of(with_header(w, next), i)
            == ring_slot(b0, es, q, capacity, i) by {
            assert(slot_of(with_header(w, next), i) == slot_of(w, i));
            if i != p {
                assert(slot_of(b, i) == ring_slot(b0, init, p, capacity, i));
            }
        }
        q
    }
}

/// Whether every entry of `es` carries a timestamp other than the empty sentinel.
pub open spec fn all_occupied(es: Seq<Entry>) -> bool {
    forall|k: int| 0 <= k < es.len() ==> is_occupied(#[trigger] es[k])
}

/// After at least a full lap of appends to any well-formed ring, with
/// timestamps other than the sentinel, the ring holds exactly the newest
/// `capacity` of them: every older one, and everything the ring held before,
/// has been evicted.
pub proof fn lemma_full_lap_keeps_newest(b0: Seq<u8>, capacity: nat, es: Seq<Entry>)
    requires
        region_wf(b0, capacity),
        capacity <= usize::MAX,
        es.len() >= capacity,
        all_occupied(es),
    ensures
        occupied(appended_all(b0, capacity, es), capacity).to_multiset() == es.subrange(
            es.len() - capacity,
            es.len() as int,
        ).to_multiset(),
{
    let n = es.len() as int;
    let p = lemma_ring_state(b0, capacity, es);
    let sl = slots(appended_all(b0, capacity, es), capacity);
    lemma_keep_prefix(sl, capacity as int);
    assert(sl.subrange(0, capacity as int) =~= es.subrange(n - p, n) + es.subrange(
        n - capacity,
        n - p,
    ));
    lemma_multiset_commutative(es.subrange(n - p, n), es.subrange(n - capacity, n - p));
    lemma_multiset_commutative(es.subrange(n - capacity, n - p), es.subrange(n - p, n));
    assert(es.subrange(n - capacity, n - p) + es.subrange(n - p, n) =~= es.subrange(
        n - capacity,
        n,
    ));
    assert(keep_occupied(sl).to_multiset() =~= es.subrange(n - capacity, n).to_multiset());
}

/// Appending at most `capacity` entries, with timestamps other than the
/// sentinel, to a fresh ring loses nothing and adds nothing: the ring holds
/// exactly the appended entries, whatever the order of their timestamps.
pub proof fn lemma_fresh_ring_keeps_all(capacity: nat, es: Seq<Entry>)
    requires
        0 < capacity <= usize::MAX,
        es.len() <= capacity,
        all_occupied(es),
    ensures
        occupied(appended_all(zeroed(capacity), capacity, es), capacity).to_multiset()
            == es.to_multiset(),
{
    lemma_zeroed_region(capacity);
    let n = es.len() as int;
    if n == capacity {
        lemma_full_lap_keeps_newest(zeroed(capacity), capacity, es);
        assert(es.subrange(0, n) =~= es);
    } else {
        let b0 = zeroed(capacity);
        let p = lemma_ring_state(b0, capacity, es);
        let sl = slots(appended_all(b0, capacity, es), capacity);
        assert forall|i: int| n <= i < capacity implies !is_occupied(#[trigger] sl[i]) by {
            assert(slot_of(b0, i).timestamp == 0);
        }
        lemma_keep_prefix(sl, n);
        assert(sl.subrange(0, n) =~= es);
    }
}

/// Keeping the occupied entries of a sequence whose first `m` entries are
/// occupied and whose others are empty.
proof fn lemma_keep_prefix(s: Seq<Entry>, m: int)
    requires
        0 <= m <= s.len(),
        forall|i: int| 0 <= i < m ==> is_occupied(#[trigger] s[i]),
        forall|i: int| m <= i < s.len() ==> !is_occupied(#[trigger] s[i]),
    ensures
        keep_occupied(s) == s.subrange(0, m),
    decreases s.len(),
{
    if s.len() > 0 {
        let init = s.drop_last();
        assert(s =~= init.push(s.last()));
        lemma_keep_occupied_push(init, s.last());
        if m == s.len() {
            lemma_keep_prefix(init, m - 1);
            assert(init.subrange(0, m - 1).push(s.last()) =~= s.subrange(0, m));
        } else {
            lemma_keep_prefix(init, m);
            assert(init.subrange(0, m) =~= s.subrange(0, m));
        }
    } else {
        assert(keep_occupied(s) =~= s.subrange(0, m));
    }
}

/// Two listings sorted by timestamp with the same entries are equal, where
/// one of them has strictly increasing timestamps.
proof fn lemma_sorted_unique(r: Seq<Entry>, t: Seq<Entry>)
    requires
        sorted_by_timestamp(r),
        forall|i: int, j: int| 0 <= i < j < t.len() ==> t[i].timestamp < t[j].timestamp,
        r.to_multiset() == t.to_multiset(),
    ensures
        r == t,
    decreases t.len(),
{
    assert(r.len() == r.to_multiset().len() && t.len() == t.to_multiset().len());
    if t.len() == 0 {
        assert(r =~= t);
    } else {
        assert(t.to_multiset().count(t[0]) > 0);
        assert(r.contains(t[0]));
        let j = choose|j: int| 0 <= j < r.len() && r[j] == t[0];
        assert(r.to_multiset().count(r[0]) > 0);
        assert(t.contains(r[0]));
        let k = choose|k: int| 0 <= k < t.len() && t[k] == r[0];
        assert(r[0].timestamp <= r[j].timestamp);
        if k > 0 {
            assert(t[0].timestamp < t[k].timestamp);
        }
        assert(k == 0);
        assert(r[0] == t[0]);
        vstd::seq_lib::to_multiset_remove(r, 0);
        vstd::seq_lib::to_multiset_remove(t, 0);
        assert(r.remove(0) =~= r.drop_first());
        assert(t.remove(0) =~= t.drop_first());
        lemma_sorted_unique(r.drop_first(), t.drop_first());
        assert forall|i: int| 0 <= i < r.len() implies r[i] == t[i] by {
            if i > 0 {
                assert(r[i] == r.drop_first()[i - 1] && t[i] == t.drop_first()[i - 1]);
            }
        }
        assert(r =~= t);
    }
}

/// Appending samples with timestamps `1..=n` to a fresh ring of `capacity`
/// slots, or to any well-formed ring when `n >= capacity`, leaves exactly the
/// newest `min(n, capacity)` of them listed: a listing sorted by timestamp
/// with the stored entries is the run with timestamps
/// `max(1, n - capacity + 1)..=n`, in order. The older ones have been evicted.
pub proof fn lemma_listing_after_ramp(
    b0: Seq<u8>,
    capacity: nat,
    values: Seq<u8>,
    r: Seq<Entry>,
)
    requires
        0 < capacity <= usize::MAX,
        region_wf(b0, capacity),
        b0 == zeroed(capacity) || values.len() >= capacity,
        values.len() < i64::MAX,
        sorted_by_timestamp(r),
        r.to_multiset() == occupied(appended_all(b0, capacity, ramp(values)), capacity).to_multiset(),
    ensures
        r == ramp(values).subrange(
            if values.len() > capacity {
                values.len() - capacity
            } else {
                0
            },
            values.len() as int,
        ),
{
    let es = ramp(values);
    let n = es.len() as int;
    let first: int = if n > capacity {
        n - capacity
    } else {
        0
    };
    let expected = es.subrange(first, n);
    if n >= capacity {
        lemma_full_lap_keeps_newest(b0, capacity, es);
    } else {
        lemma_fresh_ring_keeps_all(capacity, es);
        assert(expected =~= es);
    }
    lemma_sorted_unique(r, expected);
}

/// Taking the entries of one timestamp from a sequence with one more entry.
proof fn lemma_with_timestamp_push(s: Seq<Entry>, e: Entry, t: i64)
    ensures
        with_timestamp(s.push(e), t) == if e.timestamp == t {
            with_timestamp(s, t).push(e)
        } else {
            with_timestamp(s, t)
        },
{
    s.lemma_filter_push(e, |e: Entry| e.timestamp == t);
}

/// An entry of `s` is among the entries of its own timestamp.
proof fn lemma_with_own_timestamp(s: Seq<Entry>, i: int)
    requires
        0 <= i < s.len(),
    ensures
        with_timestamp(s, s[i].timestamp).contains(s[i]),
{
    s.lemma_filter_contains(|e: Entry| e.timestamp == s[i].timestamp, i);
}

/// An entry among those of timestamp `t` of `s` is in `s` and has timestamp `t`.
proof fn lemma_in_with_timestamp(s: Seq<Entry>, t: i64, e: Entry)
    requires
        with_timestamp(s, t).contains(e),
    ensures
        s.contains(e),
        e.timestamp == t,
{
    s.lemma_filter_contains_rev(|e: Entry| e.timestamp == t, e);
    let f = with_timestamp(s, t);
    let k = choose|k: int| 0 <= k < f.len() && f[k] == e;
    s.lemma_filter_pred(|e: Entry| e.timestamp == t, k);
}

/// Two sequences sorted by timestamp that hold, for every timestamp, the
/// same entries in the same order are equal.
proof fn lemma_stable_unique(r1: Seq<Entry>, r2: Seq<Entry>)
    requires
        sorted_by_timestamp(r1),
        sorted_by_timestamp(r2),
        forall|t: i64| #[trigger] with_timestamp(r1, t) == with_timestamp(r2, t),
    ensures
        r1 == r2,
    decreases r1.len() + r2.len(),
{
    if r1.len() == 0 || r2.len() == 0 {
        if r1.len() > 0 {
            lemma_with_own_timestamp(r1, 0);
            assert(with_timestamp(r2, r1[0].timestamp) == with_timestamp(r1, r1[0].timestamp));
            lemma_in_with_timestamp(r2, r1[0].timestamp, r1[0]);
        } else if r2.len() > 0 {
            lemma_with_own_timestamp(r2, 0);
            assert(with_timestamp(r1, r2[0].timestamp) == with_timestamp(r2, r2[0].timestamp));
            lemma_in_with_timestamp(r1, r2[0].timestamp, r2[0]);
        }
        assert(r1 =~= r2);
    } else {
        let x = r1.last();
        let y = r2.last();
        let i1 = r1.drop_last();
        let i2 = r2.drop_last();
        assert(r1 =~= i1.push(x));
        assert(r2 =~= i2.push(y));
        lemma_with_own_timestamp(r1, r1.len() - 1);
        assert(with_timestamp(r2, x.timestamp) == with_timestamp(r1, x.timestamp));
        lemma_in_with_timestamp(r2, x.timestamp, x);
        lemma_with_own_timestamp(r2, r2.len() - 1);
        assert(with_timestamp(r1, y.timestamp) == with_timestamp(r2, y.timestamp));
        lemma_in_with_timestamp(r1, y.timestamp, y);
        assert(x.timestamp == y.timestamp);
        let k = x.timestamp;
        lemma_with_timestamp_push(i1, x, k);
        lemma_with_timestamp_push(i2, y, k);
        assert(with_timestamp(i1, k).push(x).last() == x);
        assert(with_timestamp(i2, k).push(y).last() == y);
        assert(x == y);
        assert(with_timestamp(i1, k) =~= with_timestamp(i1, k).push(x).drop_last());
        assert(with_timestamp(i2, k) =~= with_timestamp(i2, k).push(y).drop_last());
        assert forall|t: i64| #[trigger] with_timestamp(i1, t) == with_timestamp(i2, t) by {
            lemma_with_timestamp_push(i1, x, t);
            lemma_with_timestamp_push(i2, y, t);
            assert(with_timestamp(r1, t) == with_timestamp(r2, t));
        }
        lemma_stable_unique(i1, i2);
    }
}

/// A listing is determined by the bytes of the region: two listings of one
/// region, each sorted by timestamp and keeping the region's order among
/// entries of equal timestamp, are identical. Since `into_map` and `open`
/// keep the bytes, a store closed and reopened over the same region lists
/// exactly what it listed before.
pub proof fn lemma_listing_is_determined(
    b: Seq<u8>,
    capacity: nat,
    before: Seq<Entry>,
    after: Seq<Entry>,
)
    requires
        sorted_by_timestamp(before),
        sorted_by_timestamp(after),
        forall|t: i64| #[trigger] with_timestamp(before, t) == with_timestamp(occupied(b, capacity), t),
        forall|t: i64| #[trigger] with_timestamp(after, t) == with_timestamp(occupied(b, capacity), t),
    ensures
        before == after,
{
    assert forall|t: i64| #[trigger] with_timestamp(before, t) == with_timestamp(after, t) by {
        assert(with_timestamp(before, t) == with_timestamp(occupied(b, capacity), t));
        assert(with_timestamp(after, t) == with_timestamp(occupied(b, capacity), t));
    }
    lemma_stable_unique(before, after);
}

/// A crash while the slot is being written, before its flush returns, from a
/// committed store (the file as mapped): whatever subset of the new bytes
/// reached the file, the header on the file is the old one and every other
/// slot is intact. Only the entry in flight may be absent or torn.
pub proof fn lemma_crash_during_slot_write(
    b: Seq<u8>,
    capacity: nat,
    timestamp: i64,
    value: u8,
    image: Seq<u8>,
)
    requires
        region_wf(b, capacity),
        image.len() == b.len(),
        forall|i: int|
            0 <= i < b.len() ==> #[trigger] image[i] == b[i] || image[i] == slot_written(
                b,
                timestamp,
                value,
            )[i],
    ensures
        header_of(image) == header_of(b),
        forall|j: int|
            0 <= j < capacity && j != header_of(b).write_pos ==> #[trigger] slot_of(image, j)
                == slot_of(b, j),
{
    let w = header_of(b).write_pos as int;
    let sw = slot_start(w);
    assert forall|i: int| 0 <= i < b.len() && !(sw <= i < sw + 16) implies #[trigger] image[i]
        == b[i] by {
        assert(slot_written(b, timestamp, value)[i] == b[i]);
    }
    assert(image.subrange(0, 8) =~= b.subrange(0, 8));
    assert forall|j: int| 0 <= j < capacity && j != w implies #[trigger] slot_of(image, j)
        == slot_of(b, j) by {
        let sj = slot_start(j);
        assert(image.subrange(sj + 8, sj + 16) =~= b.subrange(sj + 8, sj + 16));
        assert(image[sj] == b[sj]);
    }
}

/// A crash while the header is being advanced, after the slot flush
/// returned `Ok` (the file holds the written slot): the file's slot at the
/// old write position holds the new entry whole, every other slot is intact,
/// and each header byte is the old or the advanced one, never anything else.
pub proof fn lemma_crash_during_header_write(
    b: Seq<u8>,
    capacity: nat,
    timestamp: i64,
    value: u8,
    image: Seq<u8>,
)
    requires
        region_wf(b, capacity),
        image.len() == b.len(),
        forall|i: int|
            0 <= i < b.len() ==> #[trigger] image[i] == slot_written(b, timestamp, value)[i]
                || image[i] == appended(b, capacity, timestamp, value)[i],
    ensures
        slot_of(image, header_of(b).write_pos as int) == (Entry { value, timestamp }),
        forall|j: int|
            0 <= j < capacity && j != header_of(b).write_pos ==> #[trigger] slot_of(image, j)
                == slot_of(b, j),
        forall|i: int|
            0 <= i < HEADER_SIZE ==> #[trigger] image[i] == b[i] || image[i] == appended(
                b,
                capacity,
                timestamp,
                value,
            )[i],
{
    let w = header_of(b).write_pos as int;
    let e = Entry { value, timestamp };
    let b1 = slot_written(b, timestamp, value);
    let next = ((w + 1) % (capacity as int)) as u64;
    lemma_with_slot(b, capacity, w, e);
    assert forall|i: int| HEADER_SIZE <= i < b.len() implies #[trigger] image[i] == b1[i] by {
        assert(appended(b, capacity, timestamp, value)[i] == b1[i]);
    }
    assert forall|i: int| 0 <= i < HEADER_SIZE implies #[trigger] b1[i] == b[i] by {}
    assert forall|j: int| 0 <= j < capacity implies #[trigger] slot_of(image, j) == slot_of(
        b1,
        j,
    ) by {
        let sj = slot_start(j);
        assert(image.subrange(sj + 8, sj + 16) =~= b1.subrange(sj + 8, sj + 16));
        assert(image[sj] == b1[sj]);
    }
}

/// Whether no two entries of `s` share a timestamp.
pub open spec fn distinct_timestamps(s: Seq<Entry>) -> bool {
    forall|i: int, j: int|
        0 <= i < s.len() && 0 <= j < s.len() && i != j ==> s[i].timestamp != s[j].timestamp
}

/// An entry that occurs at two places of `s` is counted at least twice.
proof fn lemma_twice_counted(s: Seq<Entry>, i: int, j: int)
    requires
        0 <= i < j < s.len(),
        s[i] == s[j],
    ensures
        s.to_multiset().count(s[i]) >= 2,
{
    vstd::seq_lib::to_multiset_remove(s, i);
    assert(s.remove(i)[j - 1] == s[i]);
    assert(s.remove(i).to_multiset().count(s[i]) > 0);
}

/// In a sequence with distinct timestamps no entry is counted twice.
proof fn lemma_counted_once(s: Seq<Entry>, e: Entry)
    requires
        distinct_timestamps(s),
    ensures
        s.to_multiset().count(e) <= 1,
{
    if s.to_multiset().count(e) >= 2 {
        assert(s.contains(e));
        let a = choose|a: int| 0 <= a < s.len() && s[a] == e;
        vstd::seq_lib::to_multiset_remove(s, a);
        assert(s.remove(a).to_multiset().count(e) > 0);
        assert(s.remove(a).contains(e));
        let c = choose|c: int| 0 <= c < s.remove(a).len() && s.remove(a)[c] == e;
        if c < a {
            assert(s[c] == e);
        } else {
            assert(s[c + 1] == e);
        }
    }
}

/// A sorted sequence that holds the entries of one with distinct timestamps
/// has strictly increasing timestamps.
proof fn lemma_sorted_strict(r: Seq<Entry>, es: Seq<Entry>)
    requires
        sorted_by_timestamp(r),
        distinct_timestamps(es),
        r.to_multiset() == es.to_multiset(),
    ensures
        forall|i: int, j: int| 0 <= i < j < r.len() ==> r[i].timestamp < r[j].timestamp,
{
    assert forall|i: int, j: int| 0 <= i < j < r.len() implies r[i].timestamp < r[j].timestamp by {
        if r[i].timestamp == r[j].timestamp {
            assert(r.to_multiset().count(r[i]) > 0 && r.to_multiset().count(r[j]) > 0);
            assert(es.contains(r[i]) && es.contains(r[j]));
            let a = choose|a: int| 0 <= a < es.len() && es[a] == r[i];
            let b = choose|b: int| 0 <= b < es.len() && es[b] == r[j];
            assert(a == b);
            lemma_twice_counted(r, i, j);
            lemma_counted_once(es, r[i]);
        }
    }
}

/// The order of the writes does not show in what is read: appending the same
/// entries, with distinct timestamps other than the sentinel and at most
/// `capacity` of them, to fresh rings in two orders gives identical listings.
pub proof fn lemma_listing_ignores_write_order(
    capacity: nat,
    es1: Seq<Entry>,
    es2: Seq<Entry>,
    r1: Seq<Entry>,
    r2: Seq<Entry>,
)
    requires
        0 < capacity <= usize::MAX,
        es1.len() <= capacity,
        all_occupied(es1),
        distinct_timestamps(es1),
        es2.to_multiset() == es1.to_multiset(),
        sorted_by_timestamp(r1),
        sorted_by_timestamp(r2),
        r1.to_multiset() == occupied(appended_all(zeroed(capacity), capacity, es1), capacity).to_multiset(),
        r2.to_multiset() == occupied(appended_all(zeroed(capacity), capacity, es2), capacity).to_multiset(),
    ensures
        r1 == r2,
{
    assert(es2.len() == es1.len()) by {
        assert(es1.to_multiset().len() == es1.len() && es2.to_multiset().len() == es2.len());
    }
    assert forall|k: int| 0 <= k < es2.len() implies is_occupied(#[trigger] es2[k]) by {
        assert(es2.to_multiset().count(es2[k]) > 0);
        assert(es1.contains(es2[k]));
    }
    lemma_fresh_ring_keeps_all(capacity, es1);
    lemma_fresh_ring_keeps_all(capacity, es2);
    lemma_sorted_strict(r1, es1);
    lemma_sorted_unique(r2, r1);
}

} // verus!
