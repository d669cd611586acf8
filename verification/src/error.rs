//! The failures that card operations report to their callers.

use vstd::prelude::*;

verus! {

/// Why a card operation could not be carried out.
#[derive(Debug, Clone, Copy, PartialEq, Eq, Structural)]
#[non_exhaustive]
pub enum CardError {
    /// The requested card is not in the hand.
    CardNotFound,
    /// No card at the requested location.
    OutOfBounds,
    /// The hand does not hold exactly five cards.
    NotFullHand,
    /// The text is not one of the fifty-two card ids.
    NotCardId,
}

} // verus!
