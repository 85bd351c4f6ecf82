//! A batch evaluator for grids of typed cells.
//!
//! A grid holds literal cells (numbers, text), empty cells and formula cells.
//! A formula is a `+`-joined list of terms; a term is a quoted string, a bare
//! integer, or the address of another cell (a column letter followed by a row
//! number). Evaluation memoizes each formula's value on its cell and detects
//! circular references through a per-cell status.
//!
//! - [`structs`] holds the cells, the table and their mathematical views;
//! - [`address`] resolves address tokens to coordinates;
//! - [`eval`] is the evaluator, and [`model`] says what it computes;
//! - [`progress`], [`meaning`] and [`laws`] prove what holds of evaluation as
//!   a whole, up to its independence of the order of evaluation;
//! - [`ingest`] builds a table from delimited text, and [`render`] writes cells
//!   and tables as text;
//! - [`utils`] holds the text helpers that the others share.

pub mod address;
pub mod eval;
pub mod ingest;
pub mod laws;
pub mod meaning;
pub mod model;
pub mod progress;
pub mod render;
pub mod structs;
pub mod utils;
