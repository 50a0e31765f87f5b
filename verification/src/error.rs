use vstd::prelude::*;

verus! {

/// Why an operation of the library could not be carried out.
#[derive(Clone, Copy, Debug, PartialEq, Eq, Structural)]
pub enum FeError {
    /// The length of a vector or the shape of a matrix is not the one that is needed.
    DimensionMismatch,
    /// A two-by-two matrix has no inverse: its determinant is zero modulo the modulus.
    SingularMatrix,
    /// The bound of a search for a discrete logarithm is above the ceiling.
    BoundTooLarge,
}

} // verus!
