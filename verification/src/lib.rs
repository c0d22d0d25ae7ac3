//! Delegated-vote election counting with integer weights and a deterministic
//! tie breaker.
//!
//! Voters state how many votes they hold, whom they vote for and whether they
//! are willing to win. Votes flow along the stated edges; the counter ranks the
//! willing candidates by what they could receive, resolves rings of mutual
//! delegation, promotes patrons and breaks the remaining ties by hash.

pub mod types;
pub mod introspector;
pub mod candidate;
pub mod builder;
pub mod delegation;
pub mod ranking;
pub mod ring;
pub mod patron;
pub mod tie_break;
pub mod counter;
pub mod laws;
pub mod fuzzable;
pub mod hex_names;
pub mod afl_stream;
pub mod vote_bin;
pub mod text_stream;

pub use types::Vote;
pub use counter::VoteCounter;
pub use introspector::Introspector;
