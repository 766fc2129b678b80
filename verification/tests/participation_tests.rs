use beacon_chain_indexer::errors::InsufficientDataError;
use beacon_chain_indexer::models::{Epoch, Slot};
use beacon_chain_indexer::participation::{
    RateFraction, calculate_network_participation_rate, participation_rate_of,
    participation_rate_text,
};
use beacon_chain_indexer::store::RecordStore;

fn store_of(records: &[Slot]) -> RecordStore {
    let mut store = RecordStore::new();
    for r in records {
        store.store_slot(*r);
    }
    store
}

fn slot(n: i64, missed: i64, set_size: i64, epoch: i64) -> Slot {
    Slot {
        slot_number: n,
        missed_attestations: missed,
        validator_set_size: set_size,
        epoch,
    }
}

#[test]
fn empty_store_has_no_rate() {
    let store = RecordStore::new();
    assert_eq!(
        calculate_network_participation_rate(&store),
        Err(InsufficientDataError)
    );
    // the service layer renders the failure as the default zero rate
    let data = store.get_last_five_epochs_data();
    assert_eq!(participation_rate_text(&data), "Participation Rate: 0.00%");
}

#[test]
fn empty_window_renders_default_zero_rate() {
    let data = Epoch {
        validator_set_size: 0,
        missed_attestations: 0,
        epoch_count: 0,
    };
    assert_eq!(participation_rate_of(&data), Err(InsufficientDataError));
    assert_eq!(participation_rate_text(&data), "Participation Rate: 0.00%");
}

#[test]
fn five_epochs_give_the_exact_fraction_and_ninety_nine_percent() {
    // five epochs, 200 validators and 10 misses per slot:
    // rate = 1 - 50 / (5 * 1000) = 0.99
    let records: Vec<Slot> = (1..=5).map(|e| slot(e, 10, 200, e)).collect();
    let store = store_of(&records);
    let data = store.get_last_five_epochs_data();
    assert_eq!(
        data,
        Epoch {
            validator_set_size: 1000,
            missed_attestations: 50,
            epoch_count: 5,
        }
    );
    let rate = calculate_network_participation_rate(&store).unwrap();
    assert_eq!(
        rate,
        RateFraction {
            missed: 50,
            expected: 5000,
        }
    );
    assert_eq!(participation_rate_text(&data), "Participation Rate: 99.00%");
}

#[test]
fn window_keeps_only_the_five_most_recent_epochs() {
    // epochs 1..=7: the window holds epochs above 7 - 5 = 2
    let records: Vec<Slot> = (1..=7).map(|e| slot(e, 1, 100, e)).collect();
    let store = store_of(&records);
    let data = store.get_last_five_epochs_data();
    assert_eq!(
        data,
        Epoch {
            validator_set_size: 500,
            missed_attestations: 5,
            epoch_count: 5,
        }
    );
}

#[test]
fn duplicate_epochs_count_once() {
    let store = store_of(&[slot(1, 0, 10, 3), slot(2, 0, 10, 3), slot(3, 0, 10, 4)]);
    let data = store.get_last_five_epochs_data();
    assert_eq!(data.epoch_count, 2);
    assert_eq!(data.validator_set_size, 30);
}

#[test]
fn zero_validator_sum_is_insufficient_data() {
    let store = store_of(&[slot(1, 0, 0, 1)]);
    assert_eq!(
        calculate_network_participation_rate(&store),
        Err(InsufficientDataError)
    );
}

#[test]
fn rate_rounds_to_the_nearest_hundredth_of_a_percent() {
    // 1 - 1/3 = 0.666...: renders as 66.67%
    let data = Epoch {
        validator_set_size: 3,
        missed_attestations: 1,
        epoch_count: 1,
    };
    assert_eq!(participation_rate_text(&data), "Participation Rate: 66.67%");
}

#[test]
fn full_participation_renders_one_hundred_percent() {
    let data = Epoch {
        validator_set_size: 500,
        missed_attestations: 0,
        epoch_count: 2,
    };
    assert_eq!(participation_rate_text(&data), "Participation Rate: 100.00%");
}

#[test]
fn overcounted_misses_render_a_negative_rate() {
    // 1 - 10/1 = -9: the decoding quirk can push the rate below zero
    let data = Epoch {
        validator_set_size: 1,
        missed_attestations: 10,
        epoch_count: 1,
    };
    assert_eq!(participation_rate_text(&data), "Participation Rate: -900.00%");
}
