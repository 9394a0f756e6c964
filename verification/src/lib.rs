//! A bounded leaderboard: named scores kept in rank order, best first.
//!
//! [`store::LeaderboardStore`] is the board itself. What its operations promise is
//! stated over the mathematical models of [`ranking`] and [`submission`].

pub mod entry;
pub mod ranking;
pub mod store;
pub mod submission;

pub use entry::{Entry, EntryView};
pub use store::{LeaderboardStore, DEFAULT_CAP};
