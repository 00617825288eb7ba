//! Order statistics over samples of double-precision numbers, computed on
//! their IEEE-754 bit patterns so that every step is integer arithmetic.
pub mod order;
pub mod select;

pub use order::{order_key, order_keys};
pub use select::{median_bits, median_position};
