//! Fountain code engine: core algorithms for fountain code encoding and decoding.
//!
//! The encoder and decoder never touch payload bytes directly. They emit a
//! sequence of [`Operation`] values that a [`DataOperator`] executes on the
//! actual data vectors.

/// Finite field arithmetic, linear algebra, and binary vector utilities.
pub mod algebra;
/// Solver internals: packed binary matrices, the sparse master system, and the
/// inactivation / Gaussian elimination machinery.
pub mod engine;
/// Bookkeeping of data vector identifiers and recorded operations.
pub mod data_manager;
/// Fountain code decoder (BP + inactivation + Gaussian elimination).
pub mod decoder;
/// Fountain code encoder with optional precoding.
pub mod encoder;
/// Trait definitions for code schemes, data operators, LDPC, and HDPC precodes.
pub mod traits;
/// Core type definitions: code parameters, operation variants, and status enums.
pub mod types;

pub use algebra::binary_vector::BinaryVector;
pub use algebra::finite_field::{Field, GF2, GF256, InvalidPrimitivePolynomial, PRIMITIVE_POLYNOMIALS, is_primitive_polynomial};
pub use algebra::linear_algebra::{LinearSys, Matrix, Vector};
pub use data_manager::DataManager;
pub use decoder::{Decoder, DecoderError};
pub use encoder::{Encoder, EncoderError};
pub use engine::binary_matrix::BinaryMatrix;
pub use traits::{CodeScheme, DataOperator, HDPC, LDPC, PrecodePair};
pub use types::{
    CodeParams, CodeType, DecodeStatus, DecodingConfig, DegreeSet, DegreeSetFn, GF2_FIELD_POLY, InactivationStrategy,
    MAX_INACTIVE_NUM, OpView, Operation, SolverType, SubstitutionMethod,
};
