//! The conditions on which an analysis gives no result.

use vstd::prelude::*;

verus! {

/// Why an analysis or a query gave no result.
#[derive(Clone, Copy, Debug, PartialEq, Eq, Structural, Hash)]
pub enum AnalysisError {
    /// The queried function, block or module does not exist in the analyzed
    /// scope.
    NotFound,
    /// The program holds a construct that the analyses do not model.
    Unsupported,
    /// Two functions in different modules carry the queried name.
    Ambiguous,
}

impl AnalysisError {
    /// A short description of the condition.
    pub fn description(&self) -> (s: &'static str)
        ensures
            s@ == match self {
                AnalysisError::NotFound => "name not found in the analyzed scope"@,
                AnalysisError::Unsupported => "unsupported construct"@,
                AnalysisError::Ambiguous => "name is defined more than once"@,
            },
    {
        match self {
            AnalysisError::NotFound => "name not found in the analyzed scope",
            AnalysisError::Unsupported => "unsupported construct",
            AnalysisError::Ambiguous => "name is defined more than once",
        }
    }
}

} // verus!
