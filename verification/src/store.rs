//! The slot-record store: the verified model of the storage collaborator.
//!
//! Records are append-only, keyed by strictly increasing slot numbers.
//! Besides insertion and the latest-slot lookup, the store answers the
//! aggregate query the participation rate is computed from: sums and the
//! distinct-epoch count over the most recent epoch window.

use vstd::prelude::*;
use crate::models::{Epoch, Slot, wf_slot};

verus! {

/// Slot numbers strictly increase along the sequence of records.
pub open spec fn sorted_by_slot(s: Seq<Slot>) -> bool {
    forall|i: int, j: int|
        0 <= i < j < s.len() ==> #[trigger] s[i].slot_number < #[trigger] s[j].slot_number
}

/// The highest stored slot number, or 0 when nothing is stored yet.
pub open spec fn last_slot_of(s: Seq<Slot>) -> int {
    if s.len() == 0 {
        0
    } else {
        s.last().slot_number as int
    }
}

/// Whether some record carries the given slot number.
pub open spec fn contains_slot(s: Seq<Slot>, n: int) -> bool {
    exists|i: int| 0 <= i < s.len() && (#[trigger] s[i].slot_number) == n
}

/// The highest epoch among the records, or 0 when there are none; all
/// stored epochs are non-negative, so the default never exceeds a real one.
pub open spec fn max_epoch_of(s: Seq<Slot>) -> int
    decreases s.len(),
{
    if s.len() == 0 {
        0
    } else if s.last().epoch > max_epoch_of(s.drop_last()) {
        s.last().epoch as int
    } else {
        max_epoch_of(s.drop_last())
    }
}

/// The exclusive lower epoch bound of the aggregation window: records
/// whose epoch exceeds it lie within the most recent five epochs.
pub open spec fn window_min_epoch(s: Seq<Slot>) -> int {
    max_epoch_of(s) - 5
}

/// Sum of the validator-set sizes of the records above the epoch bound.
pub open spec fn sum_validators_above(s: Seq<Slot>, min: int) -> int
    decreases s.len(),
{
    if s.len() == 0 {
        0
    } else {
        sum_validators_above(s.drop_last(), min) + if s.last().epoch > min {
            s.last().validator_set_size as int
        } else {
            0
        }
    }
}

/// Sum of the missed-attestation counts of the records above the epoch bound.
pub open spec fn sum_missed_above(s: Seq<Slot>, min: int) -> int
    decreases s.len(),
{
    if s.len() == 0 {
        0
    } else {
        sum_missed_above(s.drop_last(), min) + if s.last().epoch > min {
            s.last().missed_attestations as int
        } else {
            0
        }
    }
}

/// The set of distinct epochs among the records above the epoch bound.
pub open spec fn epochs_above(s: Seq<Slot>, min: int) -> Set<int>
    decreases s.len(),
{
    if s.len() == 0 {
        Set::empty()
    } else if s.last().epoch > min {
        epochs_above(s.drop_last(), min).insert(s.last().epoch as int)
    } else {
        epochs_above(s.drop_last(), min)
    }
}

/// The machine limit on the aggregate query: both window sums fit in u64.
pub open spec fn epoch_sums_fit(s: Seq<Slot>) -> bool {
    &&& sum_validators_above(s, window_min_epoch(s)) <= u64::MAX
    &&& sum_missed_above(s, window_min_epoch(s)) <= u64::MAX
}

pub proof fn lemma_epochs_above_finite(s: Seq<Slot>, min: int)
    ensures
        epochs_above(s, min).finite(),
    decreases s.len(),
{
    if s.len() > 0 {
        lemma_epochs_above_finite(s.drop_last(), min);
    }
}

/// Sums over a prefix never exceed the sums over the whole sequence of
/// well-formed records.
pub proof fn lemma_sums_above_prefix_le(s: Seq<Slot>, min: int, i: int)
    requires
        0 <= i <= s.len(),
        forall|k: int| 0 <= k < s.len() ==> wf_slot(#[trigger] s[k]),
    ensures
        sum_validators_above(s.subrange(0, i), min) <= sum_validators_above(s, min),
        sum_missed_above(s.subrange(0, i), min) <= sum_missed_above(s, min),
    decreases s.len(),
{
    if i == s.len() {
        assert(s.subrange(0, i) =~= s);
    } else {
        let s1 = s.drop_last();
        assert(s.subrange(0, i) =~= s1.subrange(0, i));
        lemma_sums_above_prefix_le(s1, min, i);
    }
}

/// The record store: an append-only sequence of well-formed slot records
/// in strictly increasing slot-number order.
pub struct RecordStore {
    records: Vec<Slot>,
}

impl View for RecordStore {
    type V = Seq<Slot>;

    closed spec fn view(&self) -> Seq<Slot> {
        self.records@
    }
}

impl RecordStore {
    /// Every record is well formed and slot numbers strictly increase.
    pub open spec fn wf(&self) -> bool {
        &&& sorted_by_slot(self@)
        &&& forall|i: int| 0 <= i < self@.len() ==> wf_slot(#[trigger] self@[i])
    }

    /// An empty store.
    pub fn new() -> (s: Self)
        ensures
            s@ == Seq::<Slot>::empty(),
            s.wf(),
    {
        RecordStore { records: Vec::new() }
    }

    /// How many records are stored.
    pub fn record_count(&self) -> (n: usize)
        ensures
            n == self@.len(),
    {
        self.records.len()
    }

    /// The record at one position, in storage order.
    pub fn record_at(&self, i: usize) -> (r: Slot)
        requires
            i < self@.len(),
        ensures
            r == self@[i as int],
    {
        self.records[i]
    }

    /// The latest stored slot number, or 0 when the store is empty.
    pub fn get_latest_slot(&self) -> (r: i64)
        requires
            self.wf(),
        ensures
            r == last_slot_of(self@),
            r >= 0,
    {
        if self.records.len() == 0 {
            0
        } else {
            self.records[self.records.len() - 1].slot_number
        }
    }

    /// Whether a record for the given slot number is stored.
    pub fn has_slot(&self, n: i64) -> (r: bool)
        ensures
            r == contains_slot(self@, n as int),
    {
        let len = self.records.len();
        let mut i: usize = 0;
        while i < len
            invariant
                i <= len,
                len == self@.len(),
                forall|j: int| 0 <= j < i ==> (#[trigger] self@[j].slot_number) != n,
            decreases len - i,
        {
            if self.records[i].slot_number == n {
                return true;
            }
            i = i + 1;
        }
        false
    }

    /// Append one record. Records are never updated or deleted, and each
    /// new record's slot number must exceed every stored one.
    pub fn store_slot(&mut self, slot: Slot)
        requires
            old(self).wf(),
            wf_slot(slot),
            slot.slot_number > last_slot_of(old(self)@),
        ensures
            final(self)@ == old(self)@.push(slot),
            final(self).wf(),
    {
        proof {
            let s = self@;
            assert(forall|i: int|
                0 <= i < s.len() - 1 ==> #[trigger] s[i].slot_number < s[s.len() - 1].slot_number);
        }
        self.records.push(slot);
    }

    /// The aggregate query behind the participation rate: over the
    /// records of the most recent epoch window — those whose epoch
    /// exceeds the highest stored epoch minus five — the summed
    /// validator-set sizes, the summed missed attestations, and the
    /// number of distinct epochs.
    pub fn get_last_five_epochs_data(&self) -> (r: Epoch)
        requires
            self.wf(),
            epoch_sums_fit(self@),
        ensures
            r.validator_set_size == sum_validators_above(self@, window_min_epoch(self@)),
            r.missed_attestations == sum_missed_above(self@, window_min_epoch(self@)),
            r.epoch_count == epochs_above(self@, window_min_epoch(self@)).len(),
            self@.len() == 0 ==> r == (Epoch { validator_set_size: 0, missed_attestations: 0, epoch_count: 0 }),
    {
        let len = self.records.len();
        let mut max_e: i64 = 0;
        let mut i: usize = 0;
        while i < len
            invariant
                i <= len,
                len == self@.len(),
                self.wf(),
                max_e == max_epoch_of(self@.subrange(0, i as int)),
                max_e >= 0,
            decreases len - i,
        {
            let e = self.records[i].epoch;
            if e > max_e {
                max_e = e;
            }
            i = i + 1;
            proof {
                let pre = self@.subrange(0, i as int);
                assert(pre.drop_last() =~= self@.subrange(0, i - 1));
            }
        }
        proof {
            assert(self@.subrange(0, len as int) =~= self@);
        }
        let min_e: i64 = max_e - 5;
        let mut vsum: u64 = 0;
        let mut msum: u64 = 0;
        let mut seen: Vec<i64> = Vec::new();
        let mut i: usize = 0;
        while i < len
            invariant
                i <= len,
                len == self@.len(),
                self.wf(),
                epoch_sums_fit(self@),
                min_e == window_min_epoch(self@),
                vsum == sum_validators_above(self@.subrange(0, i as int), min_e as int),
                msum == sum_missed_above(self@.subrange(0, i as int), min_e as int),
                forall|x: int|
                    epochs_above(self@.subrange(0, i as int), min_e as int).contains(x)
                        <==> (exists|j: int| 0 <= j < seen@.len() && seen@[j] == x),
                seen@.len() == epochs_above(self@.subrange(0, i as int), min_e as int).len(),
            decreases len - i,
        {
            let rec = self.records[i];
            proof {
                lemma_sums_above_prefix_le(self@, min_e as int, i + 1);
                lemma_epochs_above_finite(self@.subrange(0, i as int), min_e as int);
                let pre = self@.subrange(0, i + 1);
                assert(pre.drop_last() =~= self@.subrange(0, i as int));
                assert(pre.last() == self@[i as int]);
            }
            if rec.epoch > min_e {
                vsum = vsum + (rec.validator_set_size as u64);
                msum = msum + (rec.missed_attestations as u64);
                let mut found = false;
                let slen = seen.len();
                let mut j: usize = 0;
                while j < slen
                    invariant
                        j <= slen,
                        slen == seen@.len(),
                        found <==> (exists|k: int| 0 <= k < j && seen@[k] == rec.epoch as int),
                    decreases slen - j,
                {
                    if seen[j] == rec.epoch {
                        found = true;
                        proof {
                            assert(seen@[j as int] == rec.epoch as int);
                        }
                        j = slen;
                    } else {
                        j = j + 1;
                    }
                }
                let ghost old_seen = seen@;
                let ghost e = rec.epoch as int;
                let ghost old_set = epochs_above(self@.subrange(0, i as int), min_e as int);
                let ghost new_set = epochs_above(self@.subrange(0, i + 1), min_e as int);
                proof {
                    assert(new_set == old_set.insert(e));
                    if found {
                        assert(old_set.contains(e));
                        assert(new_set =~= old_set);
                    } else {
                        assert(!old_set.contains(e));
                        vstd::set::axiom_set_insert_len(old_set, e);
                    }
                }
                if !found {
                    seen.push(rec.epoch);
                    proof {
                        assert(seen@ == old_seen.push(rec.epoch));
                        assert forall|x: int| new_set.contains(x) implies (exists|j: int|
                            0 <= j < seen@.len() && seen@[j] == x) by {
                            if x == e {
                                assert(seen@[seen@.len() - 1] == x);
                            } else {
                                assert(old_set.contains(x));
                                let j = choose|j: int| 0 <= j < old_seen.len() && old_seen[j] == x;
                                assert(seen@[j] == x);
                            }
                        }
                        assert forall|x: int| (exists|j: int|
                            0 <= j < seen@.len() && seen@[j] == x) implies new_set.contains(x) by {
                            let j = choose|j: int| 0 <= j < seen@.len() && seen@[j] == x;
                            if j == old_seen.len() {
                                assert(x == e);
                            } else {
                                assert(old_seen[j] == x);
                            }
                        }
                    }
                }
            } else {
                proof {
                    assert(epochs_above(self@.subrange(0, i + 1), min_e as int)
                        == epochs_above(self@.subrange(0, i as int), min_e as int));
                }
            }
            i = i + 1;
        }
        proof {
            assert(self@.subrange(0, len as int) =~= self@);
        }
        Epoch { validator_set_size: vsum, missed_attestations: msum, epoch_count: seen.len() as u64 }
    }
}

} // verus!
