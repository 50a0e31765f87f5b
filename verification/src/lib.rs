//! Functional encryption on the pairing groups of the curve BLS12-381: a scheme for inner
//! products with a single authority, a decentralized scheme for inner products of the
//! inputs of several clients, and a scheme for quadratic forms.
//!
//! The numbers and the group elements of the library are plain data: integers are held as
//! bytes, group elements as their canonical encodings. The arithmetic on them is done by the
//! big-integer and curve libraries, behind small functions whose contracts name what those
//! libraries compute. Everything above that is verified: the matrices, the search for
//! discrete logarithms, and the three schemes, each with a contract that states its result
//! in terms of the named operations.
//!
//! That the schemes decrypt to the value of the function is proved where the named
//! operations are those of cyclic groups with a bilinear pairing; see
//! `utils::algebra::pairing_groups` for what is asked of them.

pub mod define;
pub mod dmcfe_ip;
pub mod error;
pub mod group;
pub mod math;
pub mod quadratic_laws;
pub mod quadratic_sgp;
pub mod simple_ip;
pub mod traits;
pub mod utils;
