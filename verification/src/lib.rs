//! A ballot box for ranked-choice elections: ballots are checked against a
//! roster of candidates, kept one per voter, handed out in shuffled order and
//! counted by the ranked-pairs method.
pub mod admin;
pub mod ballot;
pub mod data;
pub mod graph;
pub mod key;
pub mod lists;
pub mod names;
pub mod pairwise;
pub mod state;
pub mod tally;
pub mod text;
