//! Reading the two small text formats of a mileage/price regression (a data
//! table and a pair of weights) and the stopping rule of its gradient descent.
//!
//! The numeric work itself runs on `f64` values and stays with the caller:
//! this library checks and splits text into numerals, and decides when a
//! training run stops.

pub mod lexical;
pub mod pair;
pub mod data;
pub mod schedule;
