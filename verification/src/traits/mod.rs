/// Code scheme configuration trait.
pub mod code_scheme;
/// Data operator trait for vector storage and execution.
pub mod data_operator;
/// High-Density Parity-Check precode trait.
pub mod hdpc;
/// Low-Density Parity-Check precode trait.
pub mod ldpc;

pub use code_scheme::CodeScheme;
pub use code_scheme::PrecodePair;
pub use data_operator::DataOperator;
pub use hdpc::HDPC;
pub use ldpc::LDPC;
