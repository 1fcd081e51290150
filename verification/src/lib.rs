//! A HyperLogLog distinct-count estimator with a sparse and a dense register layout.
//!
//! The estimator keeps `m = 2^p` registers. Each observed 64-bit hash selects one register
//! by its top `p` bits and raises it to the rank of the remaining bits. While few registers
//! are set the array is kept as a run-length encoded opcode stream; once that stream stops
//! being smaller than the flat array the estimator switches to the flat array for good.
pub mod bits;
pub mod hll;
pub mod laws;
pub mod hashing;
pub mod list;
pub mod opcodes;
pub mod registers;
pub mod wire;

pub use bits::{eb64, register_index, register_rank};
pub use hashing::hash64;
pub use hll::{Hll, HllError};
pub use list::CompressedList;
