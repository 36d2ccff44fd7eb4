//! A leaderboard core: validated score submission, an append-only store with
//! monotonic identities, and a tie-aware dense-rank top-N view.

pub mod board;
pub mod entry;
pub mod error;
pub mod ranking;
