//! A name search over directory trees.
//!
//! Given a query and a configuration — exact or substring matching, case
//! folding, prefix and suffix filters, a type filter, hidden-entry and
//! ignore rules — the library classifies directory entries into an exact
//! and a containing partition. The match predicate, the result
//! collector, the configuration resolution and a complete walk over a
//! tree snapshot are verified; reading real directories, the thread
//! pool and the presentation around them live with the caller, which
//! feeds entries to the predicate and collects what it returns.

pub mod names;
pub mod search;
pub mod searchresult;
pub mod structs;
pub mod traversal;
