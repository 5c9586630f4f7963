//! Enumeration of crossword grid layouts.
//!
//! A layout is a colouring of a rectangular grid with white and black cells
//! that is unchanged by a half turn, numbers its across and down words exactly
//! as two given clue lists demand, and holds no word shorter than
//! [`MINIMUM_WORD_LENGTH`].  The crate holds the rules that decide, cell by
//! cell, whether a colour may be committed ([`State::push_one`],
//! [`State::push`]), the backtracking search built on them
//! ([`search_problem`]), and the proofs of what every layout found
//! satisfies ([`laws`]).

pub mod field;
pub mod text;
pub mod problem;
pub mod grid;
pub mod rules;
pub mod state;
pub mod search;
pub mod laws;

pub use field::{Counts, Field, FieldEx, RuleViolation};
pub use problem::{Problem, MINIMUM_WORD_LENGTH};
pub use search::{search, search_problem, SearchState};
pub use state::{Scan, State};
