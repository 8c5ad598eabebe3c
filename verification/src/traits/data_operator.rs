use vstd::prelude::*;
use crate::algebra::finite_field::GF256;
use crate::types::Operation;

verus! {

/// Storage and arithmetic backend for data vectors.
///
/// The encoder and decoder identify vectors by data IDs only; an operator
/// holds the bytes and carries out each [`Operation`] the manager records.
/// Vector data management, acceleration and concurrency are the operator's
/// concern, not the coding library's.
pub trait DataOperator {
    /// Stores a byte vector under the given data ID (default: ignored).
    fn insert_vector(&mut self, vector: &[u8], data_id: usize) {
    }

    /// The byte vector stored at the given data ID (default: empty).
    fn get_vector(&self, data_id: usize) -> (r: &[u8])
        default_ensures
            r@.len() == 0,
    {
        &[]
    }

    /// Executes a single [`Operation`] on the stored vectors.
    fn execute(&mut self, operation: &Operation);

    /// Selects the GF(256) tables for primitive polynomial `pp` (default: ignored).
    ///
    /// In-memory operators rebuild their tables when `pp` is a real primitive
    /// polynomial and ignore [`crate::types::GF2_FIELD_POLY`].
    fn config_finite_field(&mut self, pp: u16) {
    }

    /// Uses the same GF(256) tables as `gf`
    /// (default: [`config_finite_field`](Self::config_finite_field) with `gf.primitive_polynomial()`).
    fn config_finite_field_from(&mut self, gf: &GF256) {
        let pp = gf.primitive_polynomial();
        self.config_finite_field(pp);
    }
}

} // verus!
