//! Finds the variants that recur across a cohort of samples: the canonical
//! transcript of each record gives a gene and a protein change, each sample
//! counts such a pair once, and the pairs whose share of the samples is
//! strictly more than a threshold are listed.

pub mod aggregate;
pub mod annotation;
pub mod bytes;
pub mod cli;
pub mod cohort;
pub mod error;
pub mod report;
pub mod sample;
pub mod threshold;
