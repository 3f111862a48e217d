//! A counter ledger for chat messages such as `counter++` or `🎉--`.
//!
//! `classify` decides whether a text is a counter mutation; `ledger` applies
//! mutations atomically and exactly once per event id, keeps their audit
//! record, and answers leaderboard queries; `dispatch` and `reply` decide
//! what a message asks for and word the answer; `laws` states and proves how
//! these operations relate.
use vstd::prelude::*;

pub mod classify;
pub mod dispatch;
pub mod laws;
pub mod ledger;
pub mod ranking;
pub mod reply;

verus! {

} // verus!
