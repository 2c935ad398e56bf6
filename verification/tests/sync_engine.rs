use dusk_wallet::Cache;
use dusk_wallet::CandidateRecord;
use dusk_wallet::StreamDecoder;
use dusk_wallet::SyncError;
use dusk_wallet::address_capacity;
use dusk_wallet::find_owner;
use dusk_wallet::needs_remote_query;
use dusk_wallet::prepare_stream_request;
use dusk_wallet::process_records;
use dusk_wallet::reconcile_with_confirmed;
use dusk_wallet::KeyTuple;

fn key(tag: u8) -> KeyTuple {
    KeyTuple {
        spend: vec![tag, 1],
        view: vec![tag, 2],
        public: vec![tag, 3],
    }
}

fn record(pos: u64, height: u64, note: Vec<u8>, owns: Vec<bool>, nullifier: Option<Vec<u8>>) -> CandidateRecord {
    CandidateRecord {
        block_height: height,
        pos,
        note,
        owns,
        nullifier,
    }
}

#[test]
fn decoder_whole_chunk() {
    let mut d = StreamDecoder::new(4);
    let out = d.feed(&vec![1, 2, 3, 4, 5, 6, 7, 8]);
    assert_eq!(out, vec![vec![1, 2, 3, 4], vec![5, 6, 7, 8]]);
}

#[test]
fn decoder_buffers_partial_record() {
    let mut d = StreamDecoder::new(4);
    let out = d.feed(&vec![9, 8, 7]);
    assert!(out.is_empty());
    let out = d.feed(&vec![6]);
    assert_eq!(out, vec![vec![9, 8, 7, 6]]);
}

#[test]
fn decoder_split_boundaries_agree() {
    let stream: Vec<u8> = (0u8..24).collect();
    let mut whole = StreamDecoder::new(5);
    let expected = whole.feed(&stream);

    // The same bytes split at arbitrary boundaries, including mid-record.
    let mut split = StreamDecoder::new(5);
    let mut got: Vec<Vec<u8>> = Vec::new();
    for chunk in [&stream[0..3], &stream[3..11], &stream[11..12], &stream[12..24]] {
        got.extend(split.feed(&chunk.to_vec()));
    }
    assert_eq!(got, expected);
    assert_eq!(expected.len(), 4);
}

#[test]
fn decoder_empty_chunk_yields_nothing() {
    let mut d = StreamDecoder::new(3);
    let out = d.feed(&Vec::new());
    assert!(out.is_empty());
}

#[test]
fn owner_is_first_match() {
    assert_eq!(find_owner(&vec![false, true, true]), Some(1));
}

#[test]
fn owner_exactly_one() {
    assert_eq!(find_owner(&vec![false, false, true]), Some(2));
}

#[test]
fn owner_none() {
    assert_eq!(find_owner(&vec![false, false]), None);
    assert_eq!(find_owner(&Vec::new()), None);
}

#[test]
fn cache_insert_and_iterate() {
    let mut c = Cache::new();
    let pk = vec![7u8];
    c.insert(&pk, 42, vec![10, 11], vec![1, 2, 3]);
    let live = c.iterate_live(&pk);
    assert_eq!(live.len(), 1);
    assert_eq!(live[0].0, vec![1, 2, 3]);
    assert_eq!(live[0].1.block_height, 42);
    assert_eq!(live[0].1.note, vec![10, 11]);
}

#[test]
fn cache_insert_idempotent() {
    let mut once = Cache::new();
    let mut twice = Cache::new();
    let pk = vec![7u8];
    once.insert(&pk, 42, vec![10, 11], vec![1, 2, 3]);
    twice.insert(&pk, 42, vec![10, 11], vec![1, 2, 3]);
    twice.insert(&pk, 42, vec![10, 11], vec![1, 2, 3]);
    let a = once.iterate_live(&pk);
    let b = twice.iterate_live(&pk);
    assert_eq!(a.len(), 1);
    assert_eq!(b.len(), 1);
    assert_eq!(a[0].0, b[0].0);
    assert_eq!(a[0].1.block_height, b[0].1.block_height);
    assert_eq!(a[0].1.note, b[0].1.note);
}

#[test]
fn cache_insert_overwrites() {
    let mut c = Cache::new();
    let pk = vec![7u8];
    c.insert(&pk, 1, vec![10], vec![9, 9]);
    c.insert(&pk, 2, vec![20], vec![9, 9]);
    let live = c.iterate_live(&pk);
    assert_eq!(live.len(), 1);
    assert_eq!(live[0].1.block_height, 2);
    assert_eq!(live[0].1.note, vec![20]);
}

#[test]
fn move_to_spent_migrates() {
    let mut c = Cache::new();
    let pk = vec![7u8];
    c.insert(&pk, 1, vec![10], vec![5]);
    assert!(c.live_contains(&pk, &vec![5]));
    assert!(!c.spent_contains(&pk, &vec![5]));
    assert_eq!(c.move_to_spent(&pk, &vec![5]), Ok(()));
    assert!(!c.live_contains(&pk, &vec![5]));
    assert!(c.spent_contains(&pk, &vec![5]));
}

#[test]
fn move_to_spent_not_found() {
    let mut c = Cache::new();
    let pk = vec![7u8];
    assert_eq!(c.move_to_spent(&pk, &vec![5]), Err(SyncError::NotFound));
    c.insert(&pk, 1, vec![10], vec![5]);
    assert_eq!(c.move_to_spent(&pk, &vec![6]), Err(SyncError::NotFound));
}

#[test]
fn partitions_stay_disjoint() {
    let mut c = Cache::new();
    let pk = vec![7u8];
    c.insert(&pk, 1, vec![10], vec![5]);
    c.insert(&pk, 2, vec![20], vec![6]);
    c.move_to_spent(&pk, &vec![5]).unwrap();
    for nf in [vec![5u8], vec![6u8]] {
        assert!(!(c.live_contains(&pk, &nf) && c.spent_contains(&pk, &nf)));
    }
}

#[test]
fn reconcile_moves_confirmed_only() {
    let mut c = Cache::new();
    let pk = vec![7u8];
    let a = vec![1u8];
    let b = vec![2u8];
    let cc = vec![3u8];
    c.insert(&pk, 1, vec![10], a.clone());
    c.insert(&pk, 2, vec![20], b.clone());
    c.insert(&pk, 3, vec![30], cc.clone());
    let confirmed = vec![b.clone()];
    assert!(needs_remote_query(&confirmed));
    assert_eq!(reconcile_with_confirmed(&mut c, &pk, &confirmed), Ok(()));
    assert!(c.live_contains(&pk, &a));
    assert!(!c.live_contains(&pk, &b));
    assert!(c.live_contains(&pk, &cc));
    assert!(c.spent_contains(&pk, &b));
    assert!(!c.spent_contains(&pk, &a));
    assert!(!c.spent_contains(&pk, &cc));
    let live = c.iterate_live(&pk);
    assert_eq!(live.len(), 2);
}

#[test]
fn reconcile_empty_live_needs_no_query() {
    let c = Cache::new();
    let live = c.iterate_live(&vec![7u8]);
    let nullifiers: Vec<Vec<u8>> = live.into_iter().map(|p| p.0).collect();
    assert!(!needs_remote_query(&nullifiers));
}

#[test]
fn reconcile_unknown_nullifier_fails() {
    let mut c = Cache::new();
    let pk = vec![7u8];
    c.insert(&pk, 1, vec![10], vec![1]);
    let r = reconcile_with_confirmed(&mut c, &pk, &vec![vec![9]]);
    assert_eq!(r, Err(SyncError::NotFound));
    // The failed migration touched nothing.
    assert!(c.live_contains(&pk, &vec![1]));
}

#[test]
fn empty_batch_is_noop() {
    let mut c = Cache::new();
    let keys = vec![key(1)];
    let wm = process_records(&mut c, &keys, &Vec::new(), 17);
    assert_eq!(wm, 17);
    assert_eq!(c.last_pos(), None);
    assert!(c.iterate_live(&keys[0].public).is_empty());
}

#[test]
fn resync_after_completion_changes_nothing() {
    let mut c = Cache::new();
    let keys = vec![key(1)];
    let items = vec![record(4, 100, vec![1], vec![true], Some(vec![8]))];
    process_records(&mut c, &keys, &items, 0);
    assert_eq!(c.last_pos(), Some(4));
    let live_before = c.iterate_live(&keys[0].public).len();
    // A second run from the persisted position finds no new records.
    let wm = process_records(&mut c, &keys, &Vec::new(), 4);
    assert_eq!(wm, 4);
    assert_eq!(c.last_pos(), Some(4));
    assert_eq!(c.iterate_live(&keys[0].public).len(), live_before);
}

#[test]
fn watermark_never_regresses() {
    let mut c = Cache::new();
    let keys = vec![key(1)];
    // Pathological order: positions 5 then 3.
    let items = vec![
        record(5, 1, vec![1], vec![false], None),
        record(3, 1, vec![2], vec![false], None),
    ];
    let wm = process_records(&mut c, &keys, &items, 0);
    assert_eq!(wm, 5);
    assert_eq!(c.last_pos(), Some(5));
}

#[test]
fn unowned_record_advances_position_without_caching() {
    let mut c = Cache::new();
    let keys = vec![key(1)];
    let items = vec![record(9, 2, vec![1, 2], vec![false], None)];
    process_records(&mut c, &keys, &items, 0);
    assert_eq!(c.last_pos(), Some(9));
    assert!(c.iterate_live(&keys[0].public).is_empty());
}

#[test]
fn owned_record_lands_in_owner_partition_only() {
    let mut c = Cache::new();
    let keys = vec![key(1), key(2)];
    let items = vec![record(1, 3, vec![42], vec![false, true], Some(vec![6]))];
    process_records(&mut c, &keys, &items, 0);
    assert!(c.iterate_live(&keys[0].public).is_empty());
    let live = c.iterate_live(&keys[1].public);
    assert_eq!(live.len(), 1);
    assert_eq!(live[0].0, vec![6]);
    assert_eq!(live[0].1.block_height, 3);
    assert_eq!(live[0].1.note, vec![42]);
}

#[test]
fn fresh_wallet_requests_from_origin() {
    let c = Cache::new();
    let (pos, base, payload) = prepare_stream_request(&c).unwrap();
    assert_eq!(pos, 0);
    assert_eq!(base, 0);
    assert_eq!(payload.len(), 8);
    assert_eq!(payload, 0u64.to_le_bytes().to_vec());
}

#[test]
fn resume_requests_one_past_watermark() {
    let mut c = Cache::new();
    c.insert_last_pos(7);
    let (pos, base, payload) = prepare_stream_request(&c).unwrap();
    assert_eq!(pos, 8);
    assert_eq!(base, 7);
    assert_eq!(payload, 8u64.to_le_bytes().to_vec());
}

#[test]
fn capacity_defaults_and_accepts_configured() {
    assert_eq!(address_capacity(None), 25);
    assert_eq!(address_capacity(Some(10)), 10);
    assert_eq!(address_capacity(Some(6)), 6);
    assert_eq!(address_capacity(Some(25)), 25);
}
