//! Search engine for "pandigital minus one" rows: nine-digit decimal rows
//! with pairwise-distinct known digits, derived from multiples of candidate
//! base numbers, grouped by their one missing digit and matched against a
//! 9x9 grid of pre-set anchor cells.

pub mod factor;
pub mod grid;
pub mod row;
pub mod search;
