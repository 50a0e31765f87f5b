pub mod matrix;
pub mod sums;
