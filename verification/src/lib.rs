//! Vectorized array-value operations over a columnar list representation.
//!
//! A batch of rows is held column-wise: a `Value` is an immutable column of
//! elements of one kind (integer, boolean, text, or nested list), and a
//! `ListCol` groups a child column into per-row spans through an offset
//! sequence plus an optional per-row validity mask.  Every operation is a
//! pure function from input columns to one output column.

pub mod access;
pub mod arena;
pub mod construct;
pub mod error;
pub mod introspect;
pub mod laws;
pub mod model;
pub mod mutate;
pub mod order;
pub mod rangegen;
pub mod search;
pub mod setops;
pub mod strutil;
