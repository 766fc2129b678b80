//! Data model of the indexer.

use vstd::prelude::*;

verus! {

/// One committee's attestation for a slot: the hex-encoded aggregation
/// bitfield, the committee's validators, and the epoch the vote targets.
#[derive(Clone, Debug, PartialEq)]
pub struct AttData {
    pub aggregationbits: String,
    pub validators: Vec<u64>,
    pub target_epoch: u64,
}

/// The attestation payload fetched for one slot: a list of committee
/// attestations.
#[derive(Clone, Debug, PartialEq)]
pub struct AttestationResponse {
    pub data: Vec<AttData>,
}

/// One ingested chain slot: its number, the summed committee sizes, the
/// summed missed attestations, and the highest target epoch observed.
#[derive(Clone, Copy, Debug, PartialEq, Eq, Structural)]
pub struct Slot {
    pub slot_number: i64,
    pub missed_attestations: i64,
    pub validator_set_size: i64,
    pub epoch: i64,
}

/// Sums over the most recent epoch window of stored slots, and the count
/// of distinct epochs represented in it.
#[derive(Clone, Copy, Debug, PartialEq, Eq, Structural)]
pub struct Epoch {
    pub validator_set_size: u64,
    pub missed_attestations: u64,
    pub epoch_count: u64,
}

/// A pair of window sums, as handed to display-side callers.
#[derive(Clone, Copy, Debug, PartialEq, Eq, Structural)]
pub struct ResultData {
    pub missed_attestations: u64,
    pub validator_set_size: u64,
}

/// A slot record is well formed when all of its quantities are
/// non-negative: counts and sums can never fall below zero, and slot
/// numbers and epochs start at zero.
pub open spec fn wf_slot(s: Slot) -> bool {
    &&& s.slot_number >= 0
    &&& s.missed_attestations >= 0
    &&& s.validator_set_size >= 0
    &&& s.epoch >= 0
}

} // verus!
