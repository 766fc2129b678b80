use beacon_chain_indexer::models::{AttData, Slot};
use beacon_chain_indexer::pipeline::{FetchOutcome, build_slot_record, plan_cycle, run_cycle};
use beacon_chain_indexer::store::RecordStore;

fn att(bits: &str, committee: usize, target_epoch: u64) -> AttData {
    AttData {
        aggregationbits: String::from(bits),
        validators: (0..committee as u64).collect(),
        target_epoch,
    }
}

#[test]
fn plan_is_idle_when_chain_has_nothing_new() {
    assert_eq!(plan_cycle(1000, 1000), None);
    assert_eq!(plan_cycle(1000, 999), None);
    assert_eq!(plan_cycle(0, 0), None);
}

#[test]
fn plan_on_empty_store_takes_only_the_latest_slot() {
    assert_eq!(plan_cycle(0, 1000), Some((1000, 1000)));
}

#[test]
fn plan_resumes_after_the_last_stored_slot() {
    assert_eq!(plan_cycle(1000, 1003), Some((1001, 1003)));
}

#[test]
fn build_slot_record_aggregates_committees() {
    // committees of 3 and 5 validators; 0xff misses none, 0x8f misses three
    let atts = vec![att("0xff", 3, 7), att("0x8f", 5, 5)];
    let rec = build_slot_record(42, &atts).unwrap();
    assert_eq!(
        rec,
        Slot {
            slot_number: 42,
            missed_attestations: 3,
            validator_set_size: 8,
            epoch: 7,
        }
    );
}

#[test]
fn build_slot_record_fails_on_a_malformed_bitfield() {
    let atts = vec![att("0xff", 3, 7), att("0xnope", 5, 5)];
    assert!(build_slot_record(42, &atts).is_err());
}

#[test]
fn first_cycle_on_empty_store_ingests_one_record_for_the_latest_slot() {
    // empty store, latest chain slot 1000: exactly one record, no backfill
    let mut store = RecordStore::new();
    let outcomes = vec![FetchOutcome::Fetched(vec![att("0xff", 4, 1)])];
    run_cycle(&mut store, 1000, &outcomes);
    assert_eq!(store.record_count(), 1);
    assert_eq!(store.record_at(0).slot_number, 1000);
    assert!(store.has_slot(1000));
    assert_eq!(store.get_latest_slot(), 1000);
}

#[test]
fn idle_cycles_write_nothing() {
    let mut store = RecordStore::new();
    let outcomes = vec![FetchOutcome::Fetched(vec![att("0xff", 4, 1)])];
    run_cycle(&mut store, 1000, &outcomes);
    assert_eq!(store.record_count(), 1);
    // the chain offers no new slot: two further cycles leave the store as is
    run_cycle(&mut store, 1000, &Vec::new());
    run_cycle(&mut store, 1000, &Vec::new());
    assert_eq!(store.record_count(), 1);
    assert_eq!(store.get_latest_slot(), 1000);
}

#[test]
fn one_record_per_successful_slot_in_increasing_order() {
    let mut store = RecordStore::new();
    run_cycle(&mut store, 10, &vec![FetchOutcome::Fetched(vec![att("0xff", 4, 1)])]);
    assert_eq!(store.get_latest_slot(), 10);
    // catch up over slots 11, 12, 13; slot 12's fetch fails
    let outcomes = vec![
        FetchOutcome::Fetched(vec![att("0xff", 4, 2)]),
        FetchOutcome::FetchFailed,
        FetchOutcome::Fetched(vec![att("0x8f", 8, 2)]),
    ];
    run_cycle(&mut store, 13, &outcomes);
    assert_eq!(store.record_count(), 3);
    assert!(store.has_slot(11));
    assert!(!store.has_slot(12));
    assert!(store.has_slot(13));
    let numbers: Vec<i64> = (0..store.record_count())
        .map(|i| store.record_at(i).slot_number)
        .collect();
    assert_eq!(numbers, vec![10, 11, 13]);
}

#[test]
fn failed_slot_is_absent_but_retried_next_cycle() {
    let mut store = RecordStore::new();
    run_cycle(&mut store, 10, &vec![FetchOutcome::Fetched(vec![att("0xff", 4, 1)])]);
    // every fetch of slots 11..13 fails: nothing is stored
    let outcomes = vec![
        FetchOutcome::FetchFailed,
        FetchOutcome::FetchFailed,
        FetchOutcome::FetchFailed,
    ];
    run_cycle(&mut store, 13, &outcomes);
    assert!(!store.has_slot(12));
    assert_eq!(store.get_latest_slot(), 10);
    // the next cycle plans the same range again: slot 12 is re-attempted
    assert_eq!(plan_cycle(store.get_latest_slot(), 13), Some((11, 13)));
    let retry = vec![
        FetchOutcome::FetchFailed,
        FetchOutcome::Fetched(vec![att("0xf0", 4, 2)]),
        FetchOutcome::FetchFailed,
    ];
    run_cycle(&mut store, 13, &retry);
    assert!(store.has_slot(12));
    assert_eq!(store.get_latest_slot(), 12);
}

#[test]
fn decode_failure_skips_the_slot_like_a_fetch_failure() {
    let mut store = RecordStore::new();
    run_cycle(&mut store, 5, &vec![FetchOutcome::Fetched(vec![att("0xbad!", 4, 1)])]);
    assert_eq!(store.record_count(), 0);
    assert_eq!(store.get_latest_slot(), 0);
}
