//! A 9x9 Sudoku constraint-propagation and search engine.
//!
//! The grid keeps every cell's value and candidate set in two synchronized
//! projections (its row line and its column line) plus a reduced per-box
//! value set; the solver narrows candidate sets with four elimination
//! strategies and falls back to speculative search on isolated grid copies
//! when deduction stalls.

pub mod analysis;
pub mod candidates;
pub mod grid;
pub mod line;
pub mod measure;
pub mod mini_line;
pub mod square;
pub mod vec2;
