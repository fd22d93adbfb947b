use vstd::prelude::*;

verus! {

/// The ways in which building a buffer or a model, or generating a sentence, can fail.
#[derive(Debug, PartialEq, Eq)]
pub enum MarkovError {
    /// A buffer was asked for with zero capacity.
    InvalidBufferSize,
    /// A buffer was to be made from an empty collection.
    EmptySourceCollection,
    /// The corpus gave no transition for the requested order.
    NoPhrasesFound,
    /// The corpus gave no phrase that can start a sentence.
    NoStarterPhrases,
    /// A sentence was asked for before a model was built.
    NoModel,
    /// The walk grew to the word limit; holds the count reached and the text so far.
    WordLimitExceeded { word_count: usize, partial: String },
}

} // verus!
