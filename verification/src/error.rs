//! The closed set of failures that sketches and indexes report.

use vstd::prelude::*;

verus! {

/// Why an operation on a sketch or on an index was refused.
#[derive(Debug, Clone, Copy, PartialEq, Eq, Structural)]
pub enum MinHashingError {
    /// Two sketches were built from different seeds.
    DifferentSeeds,
    /// Two signatures, or a signature and an index, differ in length.
    DifferentNumPermFuncs,
    /// A similarity threshold lies outside the unit interval.
    WrongThresholdInterval,
    /// Fewer than two permutation functions were asked for.
    NumPermFuncsTooLow,
    /// An error weight lies outside the unit interval.
    WrongWeightThreshold,
    /// The two error weights do not add up to one.
    UnexpectedSumWeight,
    /// The index holds no record for the key.
    KeyDoesNotExist,
}

impl MinHashingError {
    /// The text of `message`, as a sequence of characters.
    pub open spec fn message_text(self) -> Seq<char> {
        match self {
            MinHashingError::DifferentSeeds =>
                "computing jaccard similarity between minhashes only works if they use the same seed"@,
            MinHashingError::DifferentNumPermFuncs =>
                "computing jaccard similarity between minhashes only works if they use the same number of permutation functions"@,
            MinHashingError::WrongThresholdInterval => "threshold must be in [0.0, 1.0]"@,
            MinHashingError::NumPermFuncsTooLow => "Too few permutation functions"@,
            MinHashingError::WrongWeightThreshold => "Weight must be in [0.0, 1.0]"@,
            MinHashingError::UnexpectedSumWeight => "Weights must sum to 1.0"@,
            MinHashingError::KeyDoesNotExist => "key does not exist in the index"@,
        }
    }

    /// A sentence for the user that explains the failure.
    pub fn message(&self) -> (text: String)
        ensures
            text@ == self.message_text(),
    {
        match self {
            MinHashingError::DifferentSeeds =>
                "computing jaccard similarity between minhashes only works if they use the same seed".to_owned(),
            MinHashingError::DifferentNumPermFuncs =>
                "computing jaccard similarity between minhashes only works if they use the same number of permutation functions".to_owned(),
            MinHashingError::WrongThresholdInterval => "threshold must be in [0.0, 1.0]".to_owned(),
            MinHashingError::NumPermFuncsTooLow => "Too few permutation functions".to_owned(),
            MinHashingError::WrongWeightThreshold => "Weight must be in [0.0, 1.0]".to_owned(),
            MinHashingError::UnexpectedSumWeight => "Weights must sum to 1.0".to_owned(),
            MinHashingError::KeyDoesNotExist => "key does not exist in the index".to_owned(),
        }
    }
}

} // verus!
