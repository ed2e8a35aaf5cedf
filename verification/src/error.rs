use vstd::prelude::*;

verus! {

/// What is wrong with the arguments of a run.
#[derive(Clone, Copy, Debug, PartialEq, Eq, Structural)]
pub enum ArgumentFault {
    /// Fewer than two sample files were named.
    TooFewSamples,
    /// The threshold is not in the half-open range from 0 to 1.
    ThresholdOutOfRange,
}

/// The failures that the library reports.
#[derive(Clone, Copy, Debug, PartialEq, Eq, Structural)]
pub enum Error {
    /// The arguments of the run were refused before any sample was read.
    ArgumentError(ArgumentFault),
    /// A transcript entry that had to be decoded lacks a sub-field, or a
    /// canonical entry names no gene.
    MalformedAnnotation,
}

impl Error {
    /// The words of a failure.
    pub open spec fn words(self) -> Seq<char> {
        match self {
            Error::ArgumentError(ArgumentFault::TooFewSamples) =>
                "You need to specify at least two bcf files to analyse."@,
            Error::ArgumentError(ArgumentFault::ThresholdOutOfRange) =>
                "Threshold must be a float between 0 and 1."@,
            Error::MalformedAnnotation =>
                "A transcript annotation lacks a sub-field or names no gene."@,
        }
    }

    /// The words in which the failure is reported.
    pub fn message(&self) -> (text: &'static str)
        ensures
            text@ == self.words(),
    {
        match self {
            Error::ArgumentError(ArgumentFault::TooFewSamples) => {
                "You need to specify at least two bcf files to analyse."
            },
            Error::ArgumentError(ArgumentFault::ThresholdOutOfRange) => {
                "Threshold must be a float between 0 and 1."
            },
            Error::MalformedAnnotation => {
                "A transcript annotation lacks a sub-field or names no gene."
            },
        }
    }
}

} // verus!
