//! A columnar numeric table engine.
//!
//! A [`series::Series`] is an ordered vector of IEEE 754 double-precision
//! values, each held as its 64-bit pattern; a NaN pattern marks a missing
//! value. A [`dataframe::DataFrame`] is a list of named series of one
//! length together with its transposed, row-major view. Nothing is updated
//! in place: every operation returns a new value.
//!
//! The library decides which values take part in an operation, in which
//! order, and what becomes of the results; it tells missing values from
//! present ones and orders and compares values by their patterns. It does no
//! arithmetic on them: sums, quotients, roots, and the written form of a
//! number are computed by functions on patterns that the caller hands in, and
//! every contract says what the result is in terms of what these functions
//! return.
//!
//! Work on many elements is spread over `rayon`'s thread pool ([`dispatch`]).
//! The building blocks are a work-efficient prefix sum ([`scan`], [`fold`]),
//! a partition by a predicate that places the kept elements by index
//! ([`partition`]), and a split of a string at a delimiter ([`split`]).

pub mod bits;
pub mod error;
pub mod dispatch;
pub mod order;
pub mod fold;
pub mod text;
pub mod stats;
pub mod series;
pub mod scan;
pub mod partition;
pub mod split;
pub mod table;
pub mod dataframe;
pub mod csv;
pub mod preview;
