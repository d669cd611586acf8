//! A standard 52-card deck, hands of cards, and poker-hand classification,
//! with every operation carrying a machine-checked contract.

pub mod card;
pub mod classify;
pub mod deck;
pub mod error;
pub mod games;
pub mod hand;
pub mod search;
pub mod sorting;

pub use card::{value_from_id, Card, Rank, Suit};
pub use classify::PokerHand;
pub use deck::Deck;
pub use error::CardError;
pub use games::hicard_winner;
pub use hand::Hand;
pub use search::best_of;
