use vstd::prelude::*;
use crate::aggregate::{entry_identities, holds, CountEntry, GlobalCountTable};
use crate::bytes::copy_bytes;
use crate::sample::{Identity, VariantIdentity};
use crate::threshold::{lemma_absent_excluded, Threshold};

verus! {

/// An identity whose prevalence exceeds the threshold: `count` of `samples`
/// samples held it.
pub struct UbiquitousVariant {
    pub identity: VariantIdentity,
    pub count: usize,
    pub samples: usize,
}

/// The identities of a report, in its order.
pub open spec fn report_identities(report: Seq<UbiquitousVariant>) -> Seq<Identity> {
    Seq::new(report.len(), |k: int| report[k].identity@)
}

/// Whether a report lists the identity.
pub open spec fn lists(report: Seq<UbiquitousVariant>, id: Identity) -> bool {
    exists|k: int| 0 <= k < report.len() && (#[trigger] report[k]).identity@ == id
}

/// Whether one of the first `n` entries stands for the identity with a count
/// that exceeds the threshold.
pub open spec fn qualifies_within(
    entries: Seq<CountEntry>,
    n: int,
    id: Identity,
    samples: nat,
    threshold: Threshold,
) -> bool {
    exists|j: int|
        0 <= j < n && j < entries.len() && (#[trigger] entries[j]).identity@ == id
            && threshold.exceeded_by(entries[j].count as nat, samples)
}

/// Lists the identities whose prevalence among `samples` samples is strictly
/// more than the threshold, each once and with its count. The order of the
/// list is not specified.
pub fn ubiquitous_variants(
    table: &GlobalCountTable,
    samples: usize,
    threshold: &Threshold,
) -> (report: Vec<UbiquitousVariant>)
    ensures
        report_identities(report@).no_duplicates(),
        forall|k: int|
            0 <= k < report@.len() ==> (#[trigger] report@[k]).count == table.count(
                report@[k].identity@,
            ) && report@[k].samples == samples,
        forall|id: Identity|
            lists(report@, id) <==> threshold.exceeded_by(
                #[trigger] table.count(id),
                samples as nat,
            ),
{
    let entries = table.entries();
    let mut report: Vec<UbiquitousVariant> = Vec::new();
    let mut i: usize = 0;
    while i < entries.len()
        invariant
            i <= entries@.len(),
            entry_identities(entries@).no_duplicates(),
            forall|j: int|
                0 <= j < entries@.len() ==> table.count((#[trigger] entries@[j]).identity@)
                    == entries@[j].count,
            report_identities(report@).no_duplicates(),
            forall|k: int|
                0 <= k < report@.len() ==> (#[trigger] report@[k]).count == table.count(
                    report@[k].identity@,
                ) && report@[k].samples == samples,
            forall|id: Identity|
                lists(report@, id) <==> qualifies_within(
                    entries@,
                    i as int,
                    id,
                    samples as nat,
                    *threshold,
                ),
        decreases entries@.len() - i,
    {
        let entry = &entries[i];
        let ghost earlier = report@;
        let ghost this = entry.identity@;
        proof {
            if lists(earlier, this) {
                let j = choose|j: int|
                    0 <= j < i && j < entries@.len() && (#[trigger] entries@[j]).identity@ == this
                        && threshold.exceeded_by(entries@[j].count as nat, samples as nat);
                assert(entry_identities(entries@)[j] == entry_identities(entries@)[i as int]);
            }
        }
        if threshold.is_exceeded_by(entry.count, samples) {
            let identity = VariantIdentity::new(
                copy_bytes(entry.identity.gene.as_slice()),
                copy_bytes(entry.identity.protein_change.as_slice()),
            );
            report.push(UbiquitousVariant { identity, count: entry.count, samples });
            proof {
                assert(report_identities(report@) =~= report_identities(earlier).push(this));
                assert forall|k: int| 0 <= k < earlier.len() implies report_identities(earlier)[k]
                    != this by {
                    assert(earlier[k].identity@ != this);
                }
                assert forall|id: Identity|
                    lists(report@, id) <==> qualifies_within(
                        entries@,
                        i + 1,
                        id,
                        samples as nat,
                        *threshold,
                    ) by {
                    if lists(report@, id) {
                        let k = choose|k: int|
                            0 <= k < report@.len() && (#[trigger] report@[k]).identity@ == id;
                        if k < earlier.len() {
                            assert(earlier[k].identity@ == id);
                            assert(lists(earlier, id));
                            assert(qualifies_within(
                                entries@,
                                i as int,
                                id,
                                samples as nat,
                                *threshold,
                            ));
                            let j = choose|j: int|
                                0 <= j < i && j < entries@.len() && (
                                #[trigger] entries@[j]).identity@ == id && threshold.exceeded_by(
                                    entries@[j].count as nat,
                                    samples as nat,
                                );
                            assert(0 <= j < i + 1);
                        } else {
                            assert(entries@[i as int].identity@ == id);
                        }
                    }
                    if qualifies_within(entries@, i + 1, id, samples as nat, *threshold) {
                        let j = choose|j: int|
                            0 <= j < i + 1 && j < entries@.len() && (
                            #[trigger] entries@[j]).identity@ == id && threshold.exceeded_by(
                                entries@[j].count as nat,
                                samples as nat,
                            );
                        if j < i {
                            assert(qualifies_within(
                                entries@,
                                i as int,
                                id,
                                samples as nat,
                                *threshold,
                            ));
                            assert(lists(earlier, id));
                            let k = choose|k: int|
                                0 <= k < earlier.len() && (#[trigger] earlier[k]).identity@ == id;
                            assert(report@[k] == earlier[k]);
                            assert(report@[k].identity@ == id);
                        } else {
                            assert(report@[earlier.len() as int].identity@ == id);
                        }
                    }
                }
            }
        } else {
            proof {
                assert forall|id: Identity|
                    lists(report@, id) <==> qualifies_within(
                        entries@,
                        i + 1,
                        id,
                        samples as nat,
                        *threshold,
                    ) by {
                    if lists(report@, id) {
                        let j = choose|j: int|
                            0 <= j < i && j < entries@.len() && (
                            #[trigger] entries@[j]).identity@ == id && threshold.exceeded_by(
                                entries@[j].count as nat,
                                samples as nat,
                            );
                        assert(0 <= j < i + 1);
                    }
                    if qualifies_within(entries@, i + 1, id, samples as nat, *threshold) {
                        let j = choose|j: int|
                            0 <= j < i + 1 && j < entries@.len() && (
                            #[trigger] entries@[j]).identity@ == id && threshold.exceeded_by(
                                entries@[j].count as nat,
                                samples as nat,
                            );
                        assert(j < i);
                    }
                }
            }
        }
        i += 1;
    }
    proof {
        assert forall|id: Identity|
            lists(report@, id) <==> threshold.exceeded_by(
                #[trigger] table.count(id),
                samples as nat,
            ) by {
            if lists(report@, id) {
                let j = choose|j: int|
                    0 <= j < i && j < entries@.len() && (#[trigger] entries@[j]).identity@ == id
                        && threshold.exceeded_by(entries@[j].count as nat, samples as nat);
                assert(table.count(entries@[j].identity@) == entries@[j].count);
            }
            if threshold.exceeded_by(table.count(id), samples as nat) {
                lemma_absent_excluded(*threshold, samples as nat);
                assert(table.count(id) > 0);
                assert(holds(entries@, id));
                let j = choose|j: int|
                    0 <= j < entries@.len() && (#[trigger] entries@[j]).identity@ == id;
                assert(table.count(entries@[j].identity@) == entries@[j].count);
                assert(qualifies_within(entries@, i as int, id, samples as nat, *threshold));
            }
        }
    }
    report
}

} // verus!
