/// Tanner graph belief-propagation decoder.
pub mod bp;
/// Packed GF(2) matrix storage for inactive-variable coefficients.
pub mod binary_matrix;
/// The inactive system of the Gaussian elimination phase.
pub mod inactivation;
/// Ordinary LDPC/HDPC precoding.
pub mod precode;
/// Decoder over the Tanner graph: BP, then dense Gaussian elimination.
pub mod solver;
/// Inline-capacity lists of the sparse master system.
pub mod small_lists;
/// The sparse master system and its BP phase.
pub mod sparse_equation;
/// The solver driving BP, Gaussian elimination and back-substitution.
pub mod system_solver;
/// Tanner graph for trial BP runs.
pub mod tanner_graph;
