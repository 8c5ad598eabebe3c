/// Binary (GF(2)) vector XOR operations.
pub mod binary_vector;
/// GF(2^8) finite field with lookup-table-based arithmetic.
pub mod finite_field;
/// Matrix operations and LU-based linear system solvers.
pub mod linear_algebra;
