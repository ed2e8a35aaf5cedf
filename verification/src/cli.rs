use vstd::prelude::*;
use crate::error::{ArgumentFault, Error};
use crate::threshold::Threshold;

verus! {

/// The least number of sample files that a run takes.
pub const MINIMUM_SAMPLES: usize = 2;

/// The arguments of a run: the sample files to inspect, and the prevalence
/// that a variant must exceed to count as ubiquitous.
pub struct UbiquitousVariantIdentifier {
    pub bcf_paths: Vec<String>,
    pub threshold: Threshold,
}

/// The verdict on a run of `paths` sample files with the given threshold:
/// too few files are reported first, then a threshold out of range.
pub open spec fn validation(paths: nat, threshold: Threshold) -> Result<(), Error> {
    if paths < MINIMUM_SAMPLES {
        Err(Error::ArgumentError(ArgumentFault::TooFewSamples))
    } else if !threshold.in_range() {
        Err(Error::ArgumentError(ArgumentFault::ThresholdOutOfRange))
    } else {
        Ok(())
    }
}

/// The threshold of a run that names none: seven tenths.
pub fn default_threshold() -> (threshold: Threshold)
    ensures
        threshold == (Threshold { numerator: 7, denominator: 10 }),
        threshold.in_range(),
{
    Threshold { numerator: 7, denominator: 10 }
}

impl UbiquitousVariantIdentifier {
    /// Accepts the arguments if they name at least two sample files and a
    /// threshold that is at least 0 and less than 1.
    pub fn validate(&self) -> (verdict: Result<(), Error>)
        ensures
            verdict == validation(self.bcf_paths@.len(), self.threshold),
    {
        if self.bcf_paths.len() < MINIMUM_SAMPLES {
            return Err(Error::ArgumentError(ArgumentFault::TooFewSamples));
        }
        if !self.threshold.is_in_range() {
            return Err(Error::ArgumentError(ArgumentFault::ThresholdOutOfRange));
        }
        Ok(())
    }
}

} // verus!
