//! A static index of range minima and maxima: built once over a sequence of
//! totally ordered elements, it gives the least and the greatest element of
//! any range of positions in constant time.
//!
//! The sequence is cut into blocks of 16 elements. A block answers a range
//! inside it from a small mask of ancestor positions (`block`, with the scan
//! in `scan` and the masks in `masks`); a sparse table over the blocks'
//! extremes answers a range of whole blocks (`sparsetable`); `rmq` puts a
//! query together from at most two blocks and one lookup in the table.
//! `compare` holds the order of the elements and `range` says what the least
//! and the greatest element of a range are.

pub mod block;
pub mod common;
pub mod compare;
pub mod masks;
pub mod range;
pub mod rmq;
pub mod scan;
pub mod sparsetable;

pub use crate::compare::{CompareTrait, MinMaxTrait};
pub use crate::rmq::RMQ;
pub use crate::sparsetable::{SparseTable, SparseTableEntryTrait};
