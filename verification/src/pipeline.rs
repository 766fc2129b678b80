//! The ingestion pipeline: catch-up planning and slot-record building.
//!
//! One cycle reads the latest stored slot, learns the latest chain slot,
//! and processes the catch-up range in increasing slot order: for each
//! slot the fetched attestation data is decoded and aggregated into one
//! slot record, which is appended to the store. A slot whose fetch or
//! decode fails is skipped and left unstored; it is fetched again on a
//! later cycle while it still lies in the catch-up range. On an empty
//! store only the single latest chain slot is ingested: history is not
//! backfilled.

use vstd::prelude::*;
use crate::bitfield::{calculate_missed_attestations, missed_in_bitfield, valid_bitfield};
use crate::errors::DecodeError;
use crate::models::{AttData, Slot, wf_slot};
use crate::store::{RecordStore, contains_slot, last_slot_of, sorted_by_slot};

verus! {

/// What one slot's fetch produced: the attestation payload, or a failure
/// of the network or of the remote API.
pub enum FetchOutcome {
    Fetched(Vec<AttData>),
    FetchFailed,
}

/// Every aggregation bitfield in the payload decodes.
pub open spec fn all_bits_valid(atts: Seq<AttData>) -> bool {
    forall|i: int| 0 <= i < atts.len() ==> valid_bitfield(#[trigger] atts[i].aggregationbits@)
}

/// Sum of the committee sizes: each attestation's validator-list length.
pub open spec fn sum_committee_sizes(atts: Seq<AttData>) -> int
    decreases atts.len(),
{
    if atts.len() == 0 {
        0
    } else {
        sum_committee_sizes(atts.drop_last()) + atts.last().validators@.len()
    }
}

/// Sum of the missed-attestation counts decoded from the bitfields; an
/// invalid bitfield contributes nothing (the slot is skipped anyway).
pub open spec fn sum_missed_attestations(atts: Seq<AttData>) -> int
    decreases atts.len(),
{
    if atts.len() == 0 {
        0
    } else {
        sum_missed_attestations(atts.drop_last()) + if valid_bitfield(
            atts.last().aggregationbits@,
        ) {
            missed_in_bitfield(atts.last().aggregationbits@) as int
        } else {
            0
        }
    }
}

/// The highest target epoch among the attestations, or 0 if none is higher.
pub open spec fn max_target_epoch(atts: Seq<AttData>) -> int
    decreases atts.len(),
{
    if atts.len() == 0 {
        0
    } else if atts.last().target_epoch > max_target_epoch(atts.drop_last()) {
        atts.last().target_epoch as int
    } else {
        max_target_epoch(atts.drop_last())
    }
}

/// The machine limit on one slot's aggregates: each fits in i64.
pub open spec fn slot_sums_fit(atts: Seq<AttData>) -> bool {
    &&& sum_committee_sizes(atts) <= i64::MAX
    &&& sum_missed_attestations(atts) <= i64::MAX
    &&& max_target_epoch(atts) <= i64::MAX
}

/// The record a slot's payload aggregates to.
pub open spec fn spec_slot_record(slot_number: int, atts: Seq<AttData>) -> Slot {
    Slot {
        slot_number: slot_number as i64,
        missed_attestations: sum_missed_attestations(atts) as i64,
        validator_set_size: sum_committee_sizes(atts) as i64,
        epoch: max_target_epoch(atts) as i64,
    }
}

pub proof fn lemma_slot_sums_nonneg(atts: Seq<AttData>)
    ensures
        sum_committee_sizes(atts) >= 0,
        sum_missed_attestations(atts) >= 0,
        max_target_epoch(atts) >= 0,
    decreases atts.len(),
{
    if atts.len() > 0 {
        lemma_slot_sums_nonneg(atts.drop_last());
    }
}

/// Partial sums over a prefix never exceed the sums over the whole payload.
pub proof fn lemma_slot_sums_prefix_le(atts: Seq<AttData>, i: int)
    requires
        0 <= i <= atts.len(),
    ensures
        sum_committee_sizes(atts.subrange(0, i)) <= sum_committee_sizes(atts),
        sum_missed_attestations(atts.subrange(0, i)) <= sum_missed_attestations(atts),
        max_target_epoch(atts.subrange(0, i)) <= max_target_epoch(atts),
    decreases atts.len(),
{
    if i == atts.len() {
        assert(atts.subrange(0, i) =~= atts);
    } else {
        let s1 = atts.drop_last();
        assert(atts.subrange(0, i) =~= s1.subrange(0, i));
        lemma_slot_sums_prefix_le(s1, i);
        lemma_slot_sums_nonneg(atts);
        lemma_slot_sums_nonneg(s1);
    }
}

/// Aggregate one slot's fetched attestations into its record: committee
/// sizes and decoded missed-attestation counts are summed and the highest
/// target epoch is kept. The first bitfield that fails to decode fails
/// the whole slot with `DecodeError`.
pub fn build_slot_record(slot_number: i64, atts: &Vec<AttData>) -> (r: Result<Slot, DecodeError>)
    requires
        slot_number >= 0,
        slot_sums_fit(atts@),
    ensures
        r is Ok <==> all_bits_valid(atts@),
        r is Ok ==> r->Ok_0 == spec_slot_record(slot_number as int, atts@),
{
    let len = atts.len();
    let mut missed: i64 = 0;
    let mut set_size: i64 = 0;
    let mut epoch: i64 = 0;
    let mut i: usize = 0;
    while i < len
        invariant
            i <= len,
            len == atts@.len(),
            slot_sums_fit(atts@),
            missed == sum_missed_attestations(atts@.subrange(0, i as int)),
            set_size == sum_committee_sizes(atts@.subrange(0, i as int)),
            epoch == max_target_epoch(atts@.subrange(0, i as int)),
            forall|j: int| 0 <= j < i ==> valid_bitfield(#[trigger] atts@[j].aggregationbits@),
        decreases len - i,
    {
        proof {
            lemma_slot_sums_prefix_le(atts@, i + 1);
            lemma_slot_sums_nonneg(atts@.subrange(0, i as int));
            let pre = atts@.subrange(0, i + 1);
            assert(pre.drop_last() =~= atts@.subrange(0, i as int));
            assert(pre.last() == atts@[i as int]);
        }
        let att = &atts[i];
        let committee_size = att.validators.len();
        match calculate_missed_attestations(att.aggregationbits.as_str()) {
            Ok(m) => {
                missed = missed + (m as i64);
                set_size = set_size + (committee_size as i64);
                if att.target_epoch > (epoch as u64) {
                    epoch = att.target_epoch as i64;
                }
            },
            Err(e) => {
                proof {
                    assert(!valid_bitfield(atts@[i as int].aggregationbits@));
                }
                return Err(e);
            },
        }
        i = i + 1;
    }
    proof {
        assert(atts@.subrange(0, len as int) =~= atts@);
    }
    Ok(Slot { slot_number, missed_attestations: missed, validator_set_size: set_size, epoch })
}

/// Whether a cycle that sees this latest chain slot is idle: nothing new.
pub open spec fn cycle_is_idle(last_stored: int, latest_chain: int) -> bool {
    latest_chain <= last_stored
}

/// The first slot a non-idle cycle processes: on an empty store only the
/// latest chain slot itself (no backfill), otherwise the slot after the
/// last stored one.
pub open spec fn cycle_start_slot(last_stored: int, latest_chain: int) -> int {
    if last_stored == 0 {
        latest_chain
    } else {
        last_stored + 1
    }
}

/// How many slots the cycle processes: none when idle, else the range
/// from the start slot through the latest chain slot, inclusive.
pub open spec fn cycle_slot_count(last_stored: int, latest_chain: int) -> int {
    if cycle_is_idle(last_stored, latest_chain) {
        0
    } else {
        latest_chain - cycle_start_slot(last_stored, latest_chain) + 1
    }
}

/// Decide the catch-up range for one cycle: `None` when the chain offers
/// nothing new, else the inclusive slot range to fetch, in increasing
/// order.
pub fn plan_cycle(last_stored: i64, latest_chain: i64) -> (r: Option<(i64, i64)>)
    requires
        last_stored >= 0,
        latest_chain >= 0,
    ensures
        r is None <==> cycle_is_idle(last_stored as int, latest_chain as int),
        r is Some ==> r->Some_0.0 == cycle_start_slot(last_stored as int, latest_chain as int)
            && r->Some_0.1 == latest_chain,
{
    if latest_chain <= last_stored {
        None
    } else if last_stored == 0 {
        Some((latest_chain, latest_chain))
    } else {
        Some((last_stored + 1, latest_chain))
    }
}

/// A slot's fetch succeeds for the pipeline when the payload arrived and
/// every bitfield in it decodes; only such a slot stores a record.
pub open spec fn outcome_is_success(o: FetchOutcome) -> bool {
    o is Fetched && all_bits_valid(o->Fetched_0@)
}

/// The machine limit over a cycle's outcomes: every fetched payload's
/// aggregates fit in the record's fields.
pub open spec fn outcomes_fit(outcomes: Seq<FetchOutcome>) -> bool {
    forall|i: int|
        0 <= i < outcomes.len() && (#[trigger] outcomes[i]) is Fetched ==> slot_sums_fit(
            outcomes[i]->Fetched_0@,
        )
}

/// The records one cycle writes, in order: the k-th outcome belongs to
/// slot `start + k` and stores that slot's aggregated record when the
/// fetch and decode succeeded, and nothing otherwise.
pub open spec fn cycle_records(start: int, outcomes: Seq<FetchOutcome>) -> Seq<Slot>
    decreases outcomes.len(),
{
    if outcomes.len() == 0 {
        Seq::empty()
    } else {
        cycle_records(start, outcomes.drop_last()) + if outcome_is_success(outcomes.last()) {
            seq![spec_slot_record(start + outcomes.len() - 1, outcomes.last()->Fetched_0@)]
        } else {
            Seq::empty()
        }
    }
}

/// What the store holds after one catch-up cycle against these fetch
/// outcomes: the old records followed by the cycle's writes.
pub open spec fn cycle_result(
    records: Seq<Slot>,
    latest_chain: int,
    outcomes: Seq<FetchOutcome>,
) -> Seq<Slot> {
    records + cycle_records(cycle_start_slot(last_slot_of(records), latest_chain), outcomes)
}

/// Run one catch-up cycle against the store: plan the range from the
/// latest stored slot and the latest chain slot, and append one record
/// per slot whose fetch and decode succeeded, in increasing slot order.
/// Failed slots are skipped and stay unstored; an idle cycle writes
/// nothing.
pub fn run_cycle(store: &mut RecordStore, latest_chain_slot: i64, outcomes: &Vec<FetchOutcome>)
    requires
        old(store).wf(),
        latest_chain_slot >= 0,
        outcomes@.len() == cycle_slot_count(last_slot_of(old(store)@), latest_chain_slot as int),
        outcomes_fit(outcomes@),
    ensures
        final(store).wf(),
        final(store)@ == cycle_result(old(store)@, latest_chain_slot as int, outcomes@),
{
    let last = store.get_latest_slot();
    let plan = plan_cycle(last, latest_chain_slot);
    let (start, _end) = match plan {
        None => {
            proof {
                assert(cycle_result(old(store)@, latest_chain_slot as int, outcomes@)
                    =~= old(store)@);
            }
            return ;
        },
        Some(p) => p,
    };
    let count = outcomes.len();
    let mut i: usize = 0;
    while i < count
        invariant
            store.wf(),
            count == outcomes@.len(),
            outcomes_fit(outcomes@),
            i <= count,
            1 <= start,
            start + count == latest_chain_slot + 1,
            latest_chain_slot >= 0,
            start == cycle_start_slot(last_slot_of(old(store)@), latest_chain_slot as int),
            count == cycle_slot_count(last_slot_of(old(store)@), latest_chain_slot as int),
            store@ == old(store)@ + cycle_records(start as int, outcomes@.subrange(0, i as int)),
            last_slot_of(store@) < start + i,
        decreases count - i,
    {
        let slot_number = start + (i as i64);
        match &outcomes[i] {
            FetchOutcome::Fetched(atts) => {
                proof {
                    assert(outcomes@[i as int] is Fetched);
                    lemma_slot_sums_nonneg(atts@);
                }
                match build_slot_record(slot_number, atts) {
                    Ok(rec) => {
                        store.store_slot(rec);
                    },
                    Err(_) => {},
                }
            },
            FetchOutcome::FetchFailed => {},
        }
        i = i + 1;
        proof {
            let pre = outcomes@.subrange(0, i as int);
            assert(pre.drop_last() =~= outcomes@.subrange(0, i - 1));
            assert(pre.last() == outcomes@[i - 1]);
            assert(store@ =~= old(store)@ + cycle_records(start as int, pre));
        }
    }
    proof {
        assert(outcomes@.subrange(0, count as int) =~= outcomes@);
    }
}

/// An idle cycle writes nothing: when the chain offers no slot beyond
/// the stored ones, one cycle — and a second cycle run right after it
/// against the same chain — leaves the store exactly as it was.
pub proof fn lemma_idle_cycles_write_nothing(
    records: Seq<Slot>,
    latest_chain: int,
    first: Seq<FetchOutcome>,
    second: Seq<FetchOutcome>,
)
    requires
        cycle_is_idle(last_slot_of(records), latest_chain),
        first.len() == cycle_slot_count(last_slot_of(records), latest_chain),
        second.len() == cycle_slot_count(
            last_slot_of(cycle_result(records, latest_chain, first)),
            latest_chain,
        ),
    ensures
        cycle_result(records, latest_chain, first) == records,
        cycle_result(cycle_result(records, latest_chain, first), latest_chain, second) == records,
{
    assert(cycle_result(records, latest_chain, first) =~= records);
    assert(cycle_result(cycle_result(records, latest_chain, first), latest_chain, second)
        =~= records);
}

/// One cycle stores exactly one record per successful slot of its range,
/// in increasing slot-number order: slot `start + k` appears among the
/// writes if and only if the k-th outcome succeeded, every write is the
/// aggregated record of its slot, and no other slot number appears.
pub proof fn lemma_one_record_per_successful_slot(start: int, outcomes: Seq<FetchOutcome>)
    requires
        0 <= start,
        start + outcomes.len() <= i64::MAX + 1,
    ensures
        sorted_by_slot(cycle_records(start, outcomes)),
        forall|k: int|
            0 <= k < outcomes.len() ==> (outcome_is_success(#[trigger] outcomes[k])
                <==> contains_slot(cycle_records(start, outcomes), start + k)),
        forall|r: Slot|
            cycle_records(start, outcomes).contains(r) ==> exists|k: int|
                0 <= k < outcomes.len() && outcome_is_success(#[trigger] outcomes[k]) && r
                    == spec_slot_record(start + k, outcomes[k]->Fetched_0@),
    decreases outcomes.len(),
{
    if outcomes.len() > 0 {
        let prefix = outcomes.drop_last();
        lemma_one_record_per_successful_slot(start, prefix);
        let cr = cycle_records(start, outcomes);
        let crp = cycle_records(start, prefix);
        assert forall|r: Slot| cr.contains(r) implies exists|k: int|
            0 <= k < outcomes.len() && outcome_is_success(#[trigger] outcomes[k]) && r
                == spec_slot_record(start + k, outcomes[k]->Fetched_0@) by {
            let idx = choose|idx: int| 0 <= idx < cr.len() && cr[idx] == r;
            if idx < crp.len() {
                assert(crp.contains(r));
                let k = choose|k: int|
                    0 <= k < prefix.len() && outcome_is_success(#[trigger] prefix[k]) && r
                        == spec_slot_record(start + k, prefix[k]->Fetched_0@);
                assert(outcomes[k] == prefix[k]);
            } else {
                assert(outcome_is_success(outcomes[outcomes.len() - 1]));
                assert(r == spec_slot_record(start + outcomes.len() - 1,
                    outcomes[outcomes.len() - 1]->Fetched_0@));
            }
        }
        assert forall|k: int| 0 <= k < outcomes.len() && outcome_is_success(#[trigger] outcomes[k])
            implies contains_slot(cr, start + k) by {
            if k < prefix.len() {
                assert(prefix[k] == outcomes[k]);
                assert(outcome_is_success(prefix[k]));
                assert(contains_slot(crp, start + k));
                let idx = choose|idx: int| 0 <= idx < crp.len() && crp[idx].slot_number == start + k;
                assert(cr[idx] == crp[idx]);
            } else {
                assert(cr[cr.len() - 1].slot_number == start + k);
            }
        }
        assert forall|k: int| 0 <= k < outcomes.len() && contains_slot(cr, start + k)
            implies outcome_is_success(outcomes[k]) by {
            let idx = choose|idx: int| 0 <= idx < cr.len() && cr[idx].slot_number == start + k;
            assert(cr.contains(cr[idx]));
            let k2 = choose|k2: int|
                0 <= k2 < outcomes.len() && outcome_is_success(#[trigger] outcomes[k2]) && cr[idx]
                    == spec_slot_record(start + k2, outcomes[k2]->Fetched_0@);
            assert(start + k2 == start + k);
        }
        assert forall|i: int, j: int| 0 <= i < j < cr.len() implies #[trigger] cr[i].slot_number
            < #[trigger] cr[j].slot_number by {
            assert(cr.contains(cr[i]));
            assert(cr.contains(cr[j]));
            if j < crp.len() {
                assert(crp[i] == cr[i] && crp[j] == cr[j]);
            } else {
                let ki = choose|ki: int|
                    0 <= ki < outcomes.len() && outcome_is_success(#[trigger] outcomes[ki]) && cr[i]
                        == spec_slot_record(start + ki, outcomes[ki]->Fetched_0@);
                assert(crp.contains(cr[i]));
                let ki2 = choose|ki2: int|
                    0 <= ki2 < prefix.len() && outcome_is_success(#[trigger] prefix[ki2]) && cr[i]
                        == spec_slot_record(start + ki2, prefix[ki2]->Fetched_0@);
                assert(cr[i].slot_number == start + ki2);
                assert(cr[j].slot_number == start + outcomes.len() - 1);
            }
        }
    }
}

/// A slot whose fetch or decode failed is absent from the store after
/// the cycle; and while no later slot of the range was stored either,
/// the slot still lies inside the next cycle's catch-up range — its
/// fetch is attempted again, not skipped permanently. (On a store that
/// was empty before the failing cycle, the range holds only the latest
/// chain slot, so the retry reaches that slot while the chain's latest
/// has not moved on.)
pub proof fn lemma_failed_slot_retried(
    records: Seq<Slot>,
    latest_chain: int,
    outcomes: Seq<FetchOutcome>,
    s: int,
    next_latest: int,
)
    requires
        sorted_by_slot(records),
        forall|i: int| 0 <= i < records.len() ==> wf_slot(#[trigger] records[i]),
        records.len() > 0 ==> last_slot_of(records) > 0,
        !cycle_is_idle(last_slot_of(records), latest_chain),
        latest_chain <= i64::MAX,
        outcomes.len() == cycle_slot_count(last_slot_of(records), latest_chain),
        cycle_start_slot(last_slot_of(records), latest_chain) <= s <= latest_chain,
        !outcome_is_success(outcomes[s - cycle_start_slot(last_slot_of(records), latest_chain)]),
        forall|k: int|
            s - cycle_start_slot(last_slot_of(records), latest_chain) <= k < outcomes.len()
                ==> !outcome_is_success(#[trigger] outcomes[k]),
        s <= next_latest,
        records.len() > 0 || next_latest == s,
    ensures
        !contains_slot(cycle_result(records, latest_chain, outcomes), s),
        !cycle_is_idle(last_slot_of(cycle_result(records, latest_chain, outcomes)), next_latest),
        cycle_start_slot(last_slot_of(cycle_result(records, latest_chain, outcomes)), next_latest)
            <= s <= next_latest,
{
    let last = last_slot_of(records);
    let start = cycle_start_slot(last, latest_chain);
    let cr = cycle_records(start, outcomes);
    let result = cycle_result(records, latest_chain, outcomes);
    lemma_one_record_per_successful_slot(start, outcomes);
    // every stored record keeps a slot number below s
    assert forall|i: int| 0 <= i < records.len() implies #[trigger] records[i].slot_number
        < s by {
        if i < records.len() - 1 {
            assert(records[i].slot_number < records[records.len() - 1].slot_number);
        }
    }
    assert forall|i: int| 0 <= i < cr.len() implies start <= (#[trigger] cr[i].slot_number)
        < s by {
        assert(cr.contains(cr[i]));
        let k = choose|k: int|
            0 <= k < outcomes.len() && outcome_is_success(#[trigger] outcomes[k]) && cr[i]
                == spec_slot_record(start + k, outcomes[k]->Fetched_0@);
        assert(k < s - start);
    }
    assert(!contains_slot(result, s)) by {
        assert forall|i: int| 0 <= i < result.len() implies (#[trigger] result[i].slot_number)
            != s by {
            if i < records.len() {
                assert(result[i] == records[i]);
            } else {
                assert(result[i] == cr[i - records.len()]);
            }
        }
    }
    let new_last = last_slot_of(result);
    if result.len() > 0 {
        assert(result.last().slot_number < s);
        if cr.len() > 0 {
            assert(result.last() == cr[cr.len() - 1]);
            assert(new_last >= start >= 1);
        } else {
            assert(result.last() == records.last());
            assert(new_last > 0);
        }
        assert(cycle_start_slot(new_last, next_latest) == new_last + 1);
    } else {
        assert(new_last == 0);
        assert(cycle_start_slot(new_last, next_latest) == next_latest);
        assert(next_latest == s);
    }
}

} // verus!
