use vstd::prelude::*;
use crate::aggregate::{aggregate_samples, holders, lemma_holders_bounded, sample_sets};
use crate::cli::{validation, MINIMUM_SAMPLES};
use crate::error::{ArgumentFault, Error};
use crate::report::{lists, report_identities, ubiquitous_variants, UbiquitousVariant};
use crate::sample::{
    gather_bcf_variants, sample_identities, sample_malformed, Identity, SamplePairSet,
};
use crate::threshold::Threshold;

verus! {

/// The identities of each sample of a cohort, in the order of the samples.
pub open spec fn cohort_sets(cohort: Seq<Vec<Option<Vec<Vec<u8>>>>>) -> Seq<Set<Identity>> {
    Seq::new(cohort.len(), |k: int| sample_identities(cohort[k]@))
}

/// Whether a sample of the cohort holds a malformed record.
pub open spec fn cohort_malformed(cohort: Seq<Vec<Option<Vec<Vec<u8>>>>>) -> bool {
    exists|k: int| 0 <= k < cohort.len() && sample_malformed((#[trigger] cohort[k])@)
}

/// The number of samples of the cohort that hold the identity.
pub open spec fn prevalence(cohort: Seq<Vec<Option<Vec<Vec<u8>>>>>, id: Identity) -> nat {
    holders(cohort_sets(cohort), id)
}

/// Whether the report lists, each once and with its prevalence, the
/// identities whose share of the cohort is strictly more than the threshold.
pub open spec fn reports_cohort(
    report: Seq<UbiquitousVariant>,
    cohort: Seq<Vec<Option<Vec<Vec<u8>>>>>,
    threshold: Threshold,
) -> bool {
    &&& report_identities(report).no_duplicates()
    &&& forall|k: int|
        0 <= k < report.len() ==> (#[trigger] report[k]).count == prevalence(
            cohort,
            report[k].identity@,
        ) && report[k].samples == cohort.len()
    &&& forall|id: Identity|
        lists(report, id) <==> threshold.exceeded_by(
            #[trigger] prevalence(cohort, id),
            cohort.len(),
        )
}

/// What a run on a cohort hands out: the failure of the arguments before
/// anything else, then the failure of a malformed record, else the report.
pub open spec fn run_matches(
    result: Result<Vec<UbiquitousVariant>, Error>,
    cohort: Seq<Vec<Option<Vec<Vec<u8>>>>>,
    threshold: Threshold,
) -> bool {
    match validation(cohort.len(), threshold) {
        Err(refusal) => result == Err::<Vec<UbiquitousVariant>, Error>(refusal),
        Ok(_) => if cohort_malformed(cohort) {
            result == Err::<Vec<UbiquitousVariant>, Error>(Error::MalformedAnnotation)
        } else {
            match result {
                Ok(report) => reports_cohort(report@, cohort, threshold),
                Err(_) => false,
            }
        },
    }
}

/// No prevalence exceeds the size of the cohort.
pub proof fn lemma_prevalence_bounded(cohort: Seq<Vec<Option<Vec<Vec<u8>>>>>, id: Identity)
    ensures
        0 <= prevalence(cohort, id) <= cohort.len(),
{
    lemma_holders_bounded(cohort_sets(cohort), id);
}

/// Finds the ubiquitous variants of a cohort, given the annotation fields of
/// the records of each sample: validates the arguments, collects each sample,
/// merges the samples and lists what exceeds the threshold.
pub fn ubiquitous_variants_of_cohort(
    cohort: &Vec<Vec<Option<Vec<Vec<u8>>>>>,
    threshold: &Threshold,
) -> (result: Result<Vec<UbiquitousVariant>, Error>)
    ensures
        run_matches(result, cohort@, *threshold),
{
    if cohort.len() < MINIMUM_SAMPLES {
        return Err(Error::ArgumentError(ArgumentFault::TooFewSamples));
    }
    if !threshold.is_in_range() {
        return Err(Error::ArgumentError(ArgumentFault::ThresholdOutOfRange));
    }
    let mut sets: Vec<SamplePairSet> = Vec::new();
    let mut i: usize = 0;
    while i < cohort.len()
        invariant
            i <= cohort@.len(),
            sets@.len() == i,
            validation(cohort@.len(), *threshold) is Ok,
            forall|k: int|
                0 <= k < i ==> !sample_malformed((#[trigger] cohort@[k])@) && sets@[k]@
                    == sample_identities(cohort@[k]@),
        decreases cohort@.len() - i,
    {
        match gather_bcf_variants(&cohort[i]) {
            Ok(set) => {
                sets.push(set);
            },
            Err(e) => {
                proof {
                    assert(sample_malformed(cohort@[i as int]@));
                }
                return Err(e);
            },
        }
        i += 1;
    }
    proof {
        assert(sample_sets(sets@) =~= cohort_sets(cohort@));
    }
    let table = aggregate_samples(sets);
    let report = ubiquitous_variants(&table, cohort.len(), threshold);
    proof {
        assert(!cohort_malformed(cohort@));
        assert forall|id: Identity| table.count(id) == #[trigger] prevalence(cohort@, id) by {}
        assert forall|k: int| 0 <= k < report@.len() implies (#[trigger] report@[k]).count
            == prevalence(cohort@, report@[k].identity@) && report@[k].samples
            == cohort@.len() by {
            assert(table.count(report@[k].identity@) == prevalence(
                cohort@,
                report@[k].identity@,
            ));
        }
        assert forall|id: Identity|
            lists(report@, id) <==> threshold.exceeded_by(
                #[trigger] prevalence(cohort@, id),
                cohort@.len(),
            ) by {
            assert(table.count(id) == prevalence(cohort@, id));
        }
    }
    Ok(report)
}

} // verus!
