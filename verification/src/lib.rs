//! Five-card poker hands and their strength.
//!
//! A [`Card`] packs a [`Rank`] and a [`Suit`] into one byte. A [`Hand`] holds
//! five cards, highest rank first, and scores itself as a [`HandStrength`]:
//! an integer whose order is the order of poker hands.

pub mod card;
pub mod hand;
pub mod ranking;
pub mod scoring;
pub mod sorting;
pub mod strength;

pub use card::{Card, Rank, Suit};
pub use hand::Hand;
pub use ranking::Category;
pub use strength::HandStrength;
