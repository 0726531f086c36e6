use crate::ratio::{Quotient, Ratio};
use vstd::prelude::*;

verus! {

/// Why no estimate was produced.
#[derive(Clone, Copy, Debug, PartialEq, Eq, Structural)]
pub enum SmoothingError {
    /// The additive constant is not a number greater than zero.
    InvalidAlpha,
    /// The discount is not a number strictly between zero and one.
    InvalidDiscount,
    /// The model has no words, so that add-one and add-alpha estimates and
    /// the unigram back-off are undefined.
    EmptyVocabulary,
    /// The model has no bigrams, so that continuation probabilities and
    /// relative frequencies of bigrams are undefined.
    EmptyModel,
    /// The counts of the model are so large that the exact estimate does not
    /// fit in 128 bits.
    ModelTooLarge,
}

/// What an estimator returned, with the ratio replaced by the number that
/// it stands for.
pub open spec fn outcome(returned: Result<Ratio, SmoothingError>) -> Result<
    Quotient,
    SmoothingError,
> {
    match returned {
        Ok(r) => Ok(r@),
        Err(e) => Err(e),
    }
}

/// The exact estimate where its numerator and denominator fit in 128 bits,
/// and the error of a model that is too large otherwise.
pub open spec fn representable(exact: Quotient) -> Result<Quotient, SmoothingError> {
    if exact.fits() {
        Ok(exact)
    } else {
        Err(SmoothingError::ModelTooLarge)
    }
}

} // verus!
