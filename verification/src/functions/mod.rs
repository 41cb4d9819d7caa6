//! SQL functions: sketches, padding of binary values and formatting of numbers.

pub mod binary_pad;
pub mod kll;
pub mod percentile;
pub mod sketch;
pub mod theta;
pub mod to_char;
pub mod top_k;
pub mod try_to_date;
