//! End-to-end tests of the event-log store: appending, the delete policy,
//! compaction, retrieval, and the chunk invariants.

use gagbot::ids::MessageId;
use gagbot::message_log::{CompressionState, LogType, MessageStore, MESSAGE_LOG_CHUNK_SIZE};
use gagbot::error::Error;

fn body(text: &str) -> Option<Vec<u8>> {
    Some(text.as_bytes().to_vec())
}

#[test]
fn new_store_is_empty() {
    let store = MessageStore::new();
    let state = store.get_compression_state();
    assert_eq!(
        state,
        CompressionState {
            uncompressed_messages: 0,
            uncompressed_bytes: 0,
            compressed_messages: 0,
            compressed_bytes: 0,
            chunks: 0,
        }
    );
    let events = store.get(MessageId(1)).unwrap();
    assert!(events.is_empty());
}

#[test]
fn default_target_is_100_kib() {
    let store = MessageStore::new();
    assert_eq!(MESSAGE_LOG_CHUNK_SIZE, 102_400);
    // a store below the target never compacts
    let mut store = store;
    store.log(MessageId(1), 1, LogType::Create, body("hello")).unwrap();
    assert_eq!(store.compress().unwrap(), false);
    assert_eq!(store.num_chunks(), 0);
}

#[test]
fn create_edit_delete_timeline() {
    // the scenario: Create then Edit then Delete, retrieved newest first
    let mut store = MessageStore::new();
    store.log(MessageId(100), 1, LogType::Create, body("A")).unwrap();
    store.log(MessageId(100), 2, LogType::Edit, body("B")).unwrap();
    store.log(MessageId(100), 3, LogType::Delete, None).unwrap();

    let events = store.get(MessageId(100)).unwrap();
    assert_eq!(events.len(), 3);
    assert_eq!(events[0].type_, LogType::Delete);
    assert_eq!(events[0].timestamp, 3);
    assert!(events[0].message.is_none());
    assert_eq!(events[1].type_, LogType::Edit);
    assert_eq!(events[1].timestamp, 2);
    assert_eq!(events[1].message.as_deref(), Some("B".as_bytes()));
    assert_eq!(events[2].type_, LogType::Create);
    assert_eq!(events[2].timestamp, 1);
    assert_eq!(events[2].message.as_deref(), Some("A".as_bytes()));
}

#[test]
fn delete_without_prior_create_is_not_logged() {
    // a delete with nothing to correlate to leaves no record at all
    let mut store = MessageStore::new();
    store.log(MessageId(200), 1, LogType::Delete, None).unwrap();
    assert_eq!(store.record_count(), 0);
    let events = store.get(MessageId(200)).unwrap();
    assert!(events.is_empty());
}

#[test]
fn duplicate_deletes_are_idempotent() {
    let mut store = MessageStore::new();
    store.log(MessageId(7), 1, LogType::Create, body("x")).unwrap();
    store.log(MessageId(7), 2, LogType::Delete, None).unwrap();
    store.log(MessageId(7), 3, LogType::Delete, None).unwrap();
    store.log(MessageId(7), 4, LogType::Purge, None).unwrap();

    let mut terminal = 0;
    for i in 0..store.record_count() {
        let rec = store.record_at(i).unwrap();
        if rec.type_ == LogType::Delete || rec.type_ == LogType::Purge {
            terminal += 1;
        }
    }
    assert_eq!(terminal, 1);
    assert_eq!(store.record_count(), 2);
}

#[test]
fn purge_blocks_later_deletes_too() {
    let mut store = MessageStore::new();
    store.log(MessageId(8), 1, LogType::Edit, body("y")).unwrap();
    store.log(MessageId(8), 2, LogType::Purge, None).unwrap();
    store.log(MessageId(8), 3, LogType::Delete, None).unwrap();
    assert_eq!(store.record_count(), 2);
}

#[test]
fn bodyless_create_is_recorded_but_fails_retrieval() {
    // a Create without a body is an anomaly: the record exists, but resolving
    // its body is a corruption error, not a silent miss
    let mut store = MessageStore::new();
    store.log(MessageId(9), 1, LogType::Create, None).unwrap();
    assert_eq!(store.record_count(), 1);
    let err = store.get(MessageId(9)).unwrap_err();
    assert!(matches!(err, Error::Corrupt(_)));
}

#[test]
fn empty_body_counts_as_missing() {
    let mut store = MessageStore::new();
    store.log(MessageId(10), 1, LogType::Create, Some(Vec::new())).unwrap();
    assert_eq!(store.record_count(), 1);
    assert!(store.get(MessageId(10)).is_err());
}

#[test]
fn round_trip_without_compaction() {
    let mut store = MessageStore::new();
    let payload: Vec<u8> = (0u16..300).map(|x| (x % 256) as u8).collect();
    store.log(MessageId(5), 10, LogType::Create, Some(payload.clone())).unwrap();
    let events = store.get(MessageId(5)).unwrap();
    assert_eq!(events.len(), 1);
    assert_eq!(events[0].message.as_deref(), Some(payload.as_slice()));
}

#[test]
fn round_trip_through_compaction() {
    // bodies full of delimiter bytes and arbitrary values survive framing,
    // compression and extraction byte-identically
    let mut store = MessageStore::with_chunk_size(64);
    let a: Vec<u8> = vec![0u8; 40];
    let b: Vec<u8> = (0u16..80).map(|x| (x % 256) as u8).collect();
    store.log(MessageId(1), 1, LogType::Create, Some(a.clone())).unwrap();
    store.log(MessageId(2), 2, LogType::Create, Some(b.clone())).unwrap();

    while store.compress().unwrap() {}
    assert!(store.num_chunks() >= 1);

    let ea = store.get(MessageId(1)).unwrap();
    assert_eq!(ea[0].message.as_deref(), Some(a.as_slice()));
    let eb = store.get(MessageId(2)).unwrap();
    assert_eq!(eb[0].message.as_deref(), Some(b.as_slice()));
}

#[test]
fn three_records_one_pass_then_done() {
    // three staged events over the target: one pass drains the greedy prefix
    // and reports more work; the next pass drains the rest and reports none;
    // every body remains retrievable afterwards
    let mut store = MessageStore::with_chunk_size(10);
    store.log(MessageId(1), 1, LogType::Create, Some(vec![b'a'; 6])).unwrap();
    store.log(MessageId(2), 2, LogType::Create, Some(vec![b'b'; 6])).unwrap();
    store.log(MessageId(3), 3, LogType::Create, Some(vec![b'c'; 6])).unwrap();

    assert_eq!(store.compress().unwrap(), true);
    assert_eq!(store.compress().unwrap(), false);
    assert_eq!(store.num_chunks(), 2);
    assert_eq!(store.chunk_bounds(0), Some((1, 1)));
    assert_eq!(store.chunk_bounds(1), Some((2, 2)));

    let state = store.get_compression_state();
    assert_eq!(state.uncompressed_messages, 1);
    assert_eq!(state.uncompressed_bytes, 6);
    assert_eq!(state.compressed_messages, 2);
    assert_eq!(state.chunks, 2);

    for (id, ch) in [(1u64, b'a'), (2, b'b'), (3, b'c')] {
        let events = store.get(MessageId(id)).unwrap();
        assert_eq!(events[0].message.as_deref(), Some(vec![ch; 6].as_slice()));
    }
}

#[test]
fn oversized_single_event_compacts_alone() {
    // one event bigger than the whole target still makes progress: it goes
    // into a chunk of its own
    let mut store = MessageStore::with_chunk_size(10);
    let big: Vec<u8> = vec![9u8; 50];
    store.log(MessageId(4), 1, LogType::Create, Some(big.clone())).unwrap();
    assert_eq!(store.compress().unwrap(), false);
    assert_eq!(store.num_chunks(), 1);
    assert_eq!(store.get_compression_state().uncompressed_messages, 0);
    let events = store.get(MessageId(4)).unwrap();
    assert_eq!(events[0].message.as_deref(), Some(big.as_slice()));
}

#[test]
fn compaction_until_false_leaves_staged_below_target() {
    // compaction progress: draining until the compactor reports no more work
    // leaves the staged bytes at or below the target
    let mut store = MessageStore::with_chunk_size(32);
    for i in 0..20u64 {
        store
            .log(MessageId(i), i as i64, LogType::Create, Some(vec![i as u8; 11]))
            .unwrap();
    }
    let mut passes = 0;
    while store.compress().unwrap() {
        passes += 1;
        assert!(passes < 100);
    }
    let state = store.get_compression_state();
    assert!(state.uncompressed_bytes <= 32);
}

#[test]
fn gap_ids_occupy_chunk_slots() {
    // a Delete row between two Create rows leaves a gap in the staged ids;
    // the chunk still covers the full range with an empty placeholder slot
    let mut store = MessageStore::with_chunk_size(8);
    store.log(MessageId(1), 1, LogType::Create, Some(vec![b'x'; 3])).unwrap();
    store.log(MessageId(1), 2, LogType::Delete, None).unwrap(); // id 2, no body
    store.log(MessageId(2), 3, LogType::Create, Some(vec![b'y'; 3])).unwrap();
    store.log(MessageId(3), 4, LogType::Create, Some(vec![b'z'; 5])).unwrap();

    assert_eq!(store.compress().unwrap(), false);
    assert_eq!(store.num_chunks(), 1);
    // ids 1..=3 all belong to the chunk, the bodiless delete included
    assert_eq!(store.chunk_bounds(0), Some((1, 3)));
    assert_eq!(store.chunk_record_count(0), Some(3));

    let e1 = store.get(MessageId(1)).unwrap();
    assert_eq!(e1.len(), 2);
    assert_eq!(e1[0].type_, LogType::Delete);
    assert!(e1[0].message.is_none());
    assert_eq!(e1[1].message.as_deref(), Some(vec![b'x'; 3].as_slice()));
    let e2 = store.get(MessageId(2)).unwrap();
    assert_eq!(e2[0].message.as_deref(), Some(vec![b'y'; 3].as_slice()));
    // the fourth event did not fit and is still staged
    let e3 = store.get(MessageId(3)).unwrap();
    assert_eq!(e3[0].message.as_deref(), Some(vec![b'z'; 5].as_slice()));
    assert_eq!(store.get_compression_state().uncompressed_messages, 1);
}

#[test]
fn chunk_invariant_range_equals_referencing_records() {
    // for every chunk, end - start + 1 records reference it
    let mut store = MessageStore::with_chunk_size(16);
    for i in 0..6u64 {
        store
            .log(MessageId(100 + i), i as i64, LogType::Create, Some(vec![i as u8; 9]))
            .unwrap();
    }
    while store.compress().unwrap() {}
    assert!(store.num_chunks() >= 1);
    for c in 0..store.num_chunks() {
        let (start, end) = store.chunk_bounds(c).unwrap();
        let declared = end - start + 1;
        assert_eq!(store.chunk_record_count(c), Some(declared));
        let mut referencing = 0;
        for i in 0..store.record_count() {
            let rec = store.record_at(i).unwrap();
            if rec.chunk_id == Some(c as u64 + 1) {
                referencing += 1;
            }
        }
        assert_eq!(referencing, declared);
    }
}

#[test]
fn ordering_is_timestamp_descending_across_stores() {
    // entries come back newest first whether their bodies are staged or
    // chunked, and whatever order the events arrived in
    let mut store = MessageStore::with_chunk_size(8);
    store.log(MessageId(77), 50, LogType::Create, body("first")).unwrap();
    store.log(MessageId(77), 90, LogType::Edit, body("third")).unwrap();
    while store.compress().unwrap() {}
    // this one stays staged
    store.log(MessageId(77), 70, LogType::Edit, body("second")).unwrap();

    let events = store.get(MessageId(77)).unwrap();
    assert_eq!(events.len(), 3);
    assert_eq!(events[0].timestamp, 90);
    assert_eq!(events[1].timestamp, 70);
    assert_eq!(events[2].timestamp, 50);
    for w in events.windows(2) {
        assert!(w[0].timestamp >= w[1].timestamp);
    }
    assert_eq!(events[1].message.as_deref(), Some("second".as_bytes()));
}

#[test]
fn equal_timestamps_order_newest_record_first() {
    let mut store = MessageStore::new();
    store.log(MessageId(3), 5, LogType::Create, body("old")).unwrap();
    store.log(MessageId(3), 5, LogType::Edit, body("new")).unwrap();
    let events = store.get(MessageId(3)).unwrap();
    assert_eq!(events[0].message_index_id, 2);
    assert_eq!(events[1].message_index_id, 1);
}

#[test]
fn retrieval_ignores_other_messages() {
    let mut store = MessageStore::new();
    store.log(MessageId(1), 1, LogType::Create, body("one")).unwrap();
    store.log(MessageId(2), 2, LogType::Create, body("two")).unwrap();
    let events = store.get(MessageId(2)).unwrap();
    assert_eq!(events.len(), 1);
    assert_eq!(events[0].message.as_deref(), Some("two".as_bytes()));
}

#[test]
fn verify_chunks_passes_on_well_formed_store() {
    let mut store = MessageStore::with_chunk_size(12);
    for i in 0..5u64 {
        store
            .log(MessageId(i), i as i64, LogType::Create, Some(vec![b'z'; 7]))
            .unwrap();
    }
    while store.compress().unwrap() {}
    store.verify_compressed_chunks().unwrap();
}

#[test]
fn accessors_reject_out_of_range_positions() {
    let store = MessageStore::new();
    assert!(store.record_at(0).is_none());
    assert!(store.chunk_bounds(0).is_none());
    assert!(store.chunk_record_count(0).is_none());
    store.invariant_facts();
    store.verify_compressed_chunks().unwrap();
}

#[test]
fn compression_state_counts_chunk_bytes() {
    let mut store = MessageStore::with_chunk_size(8);
    store.log(MessageId(1), 1, LogType::Create, Some(vec![1u8; 20])).unwrap();
    assert_eq!(store.compress().unwrap(), false);
    let state = store.get_compression_state();
    assert_eq!(state.uncompressed_messages, 0);
    assert_eq!(state.uncompressed_bytes, 0);
    assert_eq!(state.compressed_messages, 1);
    assert_eq!(state.chunks, 1);
    assert!(state.compressed_bytes > 0);
}
