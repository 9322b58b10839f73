//! The failures that an analysis can end in.

use vstd::prelude::*;

verus! {

/// Why an analysis could not produce its result.
#[derive(Clone, Copy, Debug, PartialEq, Eq, Structural)]
pub enum AnalysisError {
    /// The input line with this index, counted from 0, does not start with
    /// two whitespace-separated non-negative integers.
    Parse { line: usize },
    /// No path length was collected, so there is nothing to average.
    EmptySample,
}

impl AnalysisError {
    /// A one-line diagnostic for the error.
    pub fn message(&self) -> (text: String)
        ensures
            text@ == match *self {
                AnalysisError::Parse { .. } => "malformed edge line"@,
                AnalysisError::EmptySample => "no connected pair was sampled"@,
            },
    {
        match self {
            AnalysisError::Parse { .. } => "malformed edge line".to_string(),
            AnalysisError::EmptySample => "no connected pair was sampled".to_string(),
        }
    }
}

} // verus!
