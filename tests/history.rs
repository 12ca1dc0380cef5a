use gym_history::history::{
    decode_entries, plan_resize, region_size, AppendError, OpenError, PersistentHistory, Resize, NUM_ENTRIES,
};
use gym_history::layout::{read_u64_le, write_u64_le, Entry, Header};
use memmap2::MmapMut;

fn fresh(capacity: usize) -> PersistentHistory {
    let size = region_size(capacity).unwrap();
    let map = MmapMut::map_anon(size).unwrap();
    PersistentHistory::open(map, capacity).unwrap()
}

fn reopen_store(history: PersistentHistory) -> PersistentHistory {
    let capacity = history.capacity();
    PersistentHistory::open(history.into_map(), capacity).unwrap()
}

#[test]
fn single() {
    let mut history = fresh(NUM_ENTRIES);

    history.append(0xFFFF, 0xAB).unwrap();

    assert_eq!(
        history.get(),
        vec![Entry {
            timestamp: 0xFFFF,
            value: 0xAB
        }]
    )
}

#[test]
fn many() {
    let mut history = fresh(NUM_ENTRIES);
    let mut expected = vec![];

    for i in 1..=1000 {
        history.append(i, 0xAA).unwrap();
        expected.push(Entry {
            timestamp: i,
            value: 0xAA,
        })
    }

    assert_eq!(history.get(), expected)
}

#[test]
fn loop_around() {
    let mut history = fresh(NUM_ENTRIES);

    for i in 1..=1_000_000 {
        history.append(i, 0xAA).unwrap();
    }

    let expected = ((1_000_000 - NUM_ENTRIES as i64 + 1)..=1_000_000)
        .map(|i| Entry {
            timestamp: i,
            value: 0xAA,
        })
        .collect::<Vec<_>>();

    assert_eq!(history.get(), expected);
}

#[test]
fn reopen() {
    let expected = ((1_000_000 - NUM_ENTRIES as i64 + 1)..=1_000_000)
        .map(|i| Entry {
            timestamp: i,
            value: rand::random(),
        })
        .collect::<Vec<_>>();

    let mut history = fresh(NUM_ENTRIES);

    // random data that will be overwritten
    for _ in 1..=100_000 {
        history
            .append(rand::random::<i64>() + 1, rand::random())
            .unwrap();
    }

    for entry in &expected {
        history.append(entry.timestamp, entry.value).unwrap()
    }

    assert_eq!(history.get(), expected);

    let history = reopen_store(history);
    assert_eq!(history.get(), expected);
}

#[test]
fn fresh_store_is_empty() {
    let history = fresh(4);
    assert_eq!(history.get(), vec![]);
    assert_eq!(history.header(), Header { write_pos: 0 });
}

#[test]
fn wraparound_keeps_newest() {
    let mut history = fresh(3);
    for i in 1..=5 {
        history.append(i, i as u8).unwrap();
    }
    assert_eq!(
        history.get(),
        vec![
            Entry { timestamp: 3, value: 3 },
            Entry { timestamp: 4, value: 4 },
            Entry { timestamp: 5, value: 5 },
        ]
    );
    assert_eq!(history.header(), Header { write_pos: 2 });
}

#[test]
fn reads_sort_out_of_order_writes() {
    let mut history = fresh(8);
    history.append(30, 3).unwrap();
    history.append(-5, 9).unwrap();
    history.append(10, 1).unwrap();
    assert_eq!(
        history.get(),
        vec![
            Entry { timestamp: -5, value: 9 },
            Entry { timestamp: 10, value: 1 },
            Entry { timestamp: 30, value: 3 },
        ]
    );
}

#[test]
fn zero_timestamp_is_never_listed() {
    let mut history = fresh(4);
    history.append(7, 1).unwrap();
    history.append(0, 2).unwrap();
    assert_eq!(history.get(), vec![Entry { timestamp: 7, value: 1 }]);
    assert_eq!(history.header(), Header { write_pos: 2 });
}

#[test]
fn zero_timestamp_erases_the_slot_it_overwrites() {
    let mut history = fresh(2);
    history.append(1, 1).unwrap();
    history.append(2, 2).unwrap();
    history.append(0, 3).unwrap();
    assert_eq!(history.get(), vec![Entry { timestamp: 2, value: 2 }]);
}

#[test]
fn crash_after_slot_write_loses_at_most_one_entry() {
    let mut history = fresh(4);
    history.append(1, 10).unwrap();
    history.append(2, 20).unwrap();

    // the slot is written and flushed, the header is never advanced
    history.write_slot(3, 30).unwrap();
    let mut history = reopen_store(history);
    assert_eq!(history.header(), Header { write_pos: 2 });
    assert_eq!(
        history.get(),
        vec![
            Entry { timestamp: 1, value: 10 },
            Entry { timestamp: 2, value: 20 },
            Entry { timestamp: 3, value: 30 },
        ]
    );

    // the next append overwrites the in-flight entry
    history.append(4, 40).unwrap();
    assert_eq!(
        history.get(),
        vec![
            Entry { timestamp: 1, value: 10 },
            Entry { timestamp: 2, value: 20 },
            Entry { timestamp: 4, value: 40 },
        ]
    );
    assert_eq!(history.header(), Header { write_pos: 3 });
}

#[test]
fn finish_append_stops_after_failed_slot_flush() {
    let mut history = fresh(2);
    history.append(1, 10).unwrap();
    assert_eq!(
        history.finish_append(Err(AppendError::SlotFlush)),
        Err(AppendError::SlotFlush)
    );
    assert_eq!(history.header(), Header { write_pos: 1 });
    assert_eq!(history.get(), vec![Entry { timestamp: 1, value: 10 }]);
}

#[test]
fn finish_append_advances_and_wraps_after_slot_flush() {
    let mut history = fresh(2);
    history.append(1, 10).unwrap();
    history.write_slot(2, 20).unwrap();
    assert_eq!(history.finish_append(Ok(())), Ok(()));
    assert_eq!(history.header(), Header { write_pos: 0 });
    history.write_slot(3, 30).unwrap();
    assert_eq!(history.finish_append(Ok(())), Ok(()));
    assert_eq!(history.header(), Header { write_pos: 1 });
    assert_eq!(
        history.get(),
        vec![
            Entry { timestamp: 2, value: 20 },
            Entry { timestamp: 3, value: 30 },
        ]
    );
}

#[test]
fn region_size_of_a_year() {
    assert_eq!(region_size(NUM_ENTRIES), Some(8 + 525_600 * 16));
    assert_eq!(region_size(1), Some(24));
    assert_eq!(region_size(usize::MAX), None);
}

#[test]
fn open_rejects_zero_capacity() {
    let map = MmapMut::map_anon(8).unwrap();
    assert_eq!(
        PersistentHistory::open(map, 0).err(),
        Some(OpenError::ZeroCapacity)
    );
}

#[test]
fn open_rejects_wrong_length() {
    let map = MmapMut::map_anon(8 + 3 * 16).unwrap();
    assert_eq!(
        PersistentHistory::open(map, 4).err(),
        Some(OpenError::LengthMismatch)
    );
    let map = MmapMut::map_anon(8 + 5 * 16).unwrap();
    assert_eq!(
        PersistentHistory::open(map, 4).err(),
        Some(OpenError::LengthMismatch)
    );
}

#[test]
fn open_rejects_oversized_capacity() {
    let map = MmapMut::map_anon(8).unwrap();
    assert_eq!(
        PersistentHistory::open(map, usize::MAX).err(),
        Some(OpenError::CapacityTooLarge)
    );
}

#[test]
fn open_rejects_write_pos_outside_ring() {
    let mut map = MmapMut::map_anon(8 + 2 * 16).unwrap();
    map[0] = 2;
    assert_eq!(
        PersistentHistory::open(map, 2).err(),
        Some(OpenError::WritePosOutOfRange)
    );
}

#[test]
fn open_keeps_existing_bytes() {
    let mut map = MmapMut::map_anon(8 + 2 * 16).unwrap();
    map[0] = 1;
    map[8 + 16] = 0x42;
    map[8 + 16 + 8] = 0x05;
    let history = PersistentHistory::open(map, 2).unwrap();
    assert_eq!(history.header(), Header { write_pos: 1 });
    assert_eq!(history.get(), vec![Entry { timestamp: 5, value: 0x42 }]);
}

#[test]
fn decode_entries_reads_little_endian_slots() {
    let mut bytes = vec![0u8; 8 + 3 * 16];
    bytes[8] = 9;
    bytes[16] = 0x01;
    bytes[17] = 0x02;
    bytes[8 + 32] = 7;
    bytes[8 + 32 + 8..8 + 48].copy_from_slice(&(-2i64).to_le_bytes());
    assert_eq!(
        decode_entries(&bytes, 3),
        vec![
            Entry { timestamp: 0x0201, value: 9 },
            Entry { timestamp: -2, value: 7 },
        ]
    );
}

#[test]
fn u64_codec_is_little_endian() {
    let v: u64 = 0x0102_0304_0506_0708;
    let bytes = write_u64_le(v);
    assert_eq!(bytes, vec![8, 7, 6, 5, 4, 3, 2, 1]);
    assert_eq!(read_u64_le(&bytes, 0), v);
    let padded = vec![0xFF, 1, 0, 0, 0, 0, 0, 0, 0x80];
    assert_eq!(read_u64_le(&padded, 1), 0x8000_0000_0000_0001);
}

#[test]
fn equal_timestamps_keep_slot_order() {
    let mut history = fresh(4);
    history.append(5, 1).unwrap();
    history.append(5, 2).unwrap();
    history.append(3, 9).unwrap();
    assert_eq!(
        history.get(),
        vec![
            Entry { timestamp: 3, value: 9 },
            Entry { timestamp: 5, value: 1 },
            Entry { timestamp: 5, value: 2 },
        ]
    );
}

#[test]
fn plan_resize_grows_keeps_or_refuses() {
    let size = 8 + NUM_ENTRIES as u64 * 16;
    assert_eq!(plan_resize(0, NUM_ENTRIES), Ok(Resize::Grow(size)));
    assert_eq!(plan_resize(size - 1, NUM_ENTRIES), Ok(Resize::Grow(size)));
    assert_eq!(plan_resize(size, NUM_ENTRIES), Ok(Resize::Keep));
    assert_eq!(
        plan_resize(size + 1, NUM_ENTRIES),
        Err(OpenError::FileTooLarge)
    );
    assert_eq!(plan_resize(0, 0), Err(OpenError::ZeroCapacity));
    assert_eq!(
        plan_resize(0, usize::MAX),
        Err(OpenError::CapacityTooLarge)
    );
}

#[test]
fn grown_region_reads_as_empty_after_existing_data() {
    let mut history = fresh(2);
    history.append(11, 1).unwrap();
    let old = history.into_map();

    // a larger ring over the old bytes followed by zero-filled new ones
    let mut map = MmapMut::map_anon(region_size(4).unwrap()).unwrap();
    map[..old.len()].copy_from_slice(&old[..]);
    let history = PersistentHistory::open(map, 4).unwrap();
    assert_eq!(history.get(), vec![Entry { timestamp: 11, value: 1 }]);
    assert_eq!(history.header(), Header { write_pos: 1 });
}

#[test]
fn write_order_does_not_show_in_listing() {
    let mut first = fresh(5);
    let mut second = fresh(5);
    for (t, v) in [(1, 10), (2, 20), (3, 30), (4, 40)] {
        first.append(t, v).unwrap();
    }
    for (t, v) in [(3, 30), (1, 10), (4, 40), (2, 20)] {
        second.append(t, v).unwrap();
    }
    assert_eq!(first.get(), second.get());
    assert_eq!(first.get().len(), 4);
}

#[test]
fn full_lap_evicts_everything_older() {
    let mut history = fresh(3);
    history.append(100, 1).unwrap();
    history.append(200, 2).unwrap();
    for t in 1..=3 {
        history.append(t, 7).unwrap();
    }
    assert_eq!(
        history.get(),
        vec![
            Entry { timestamp: 1, value: 7 },
            Entry { timestamp: 2, value: 7 },
            Entry { timestamp: 3, value: 7 },
        ]
    );
}
