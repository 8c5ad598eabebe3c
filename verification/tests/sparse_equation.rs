use fountain_engine::engine::sparse_equation::{SparseSystem, VariableStatus};
use fountain_engine::types::{CodeParams, InactivationStrategy};

#[test]
fn pre_inactive_vars_use_internal_matrix_columns() {
    let params = CodeParams::new(5, 2, 0, 0);
    let sys = SparseSystem::new(&params, 8, InactivationStrategy::ByIndex);
    for (var_id, expected_internal) in [(2, 0), (3, 1), (4, 2)] {
        match sys.var_status(var_id) {
            VariableStatus::Inactive { seq } => assert_eq!(seq, expected_internal),
            other => panic!("var {var_id} expected inactive, got {other:?}"),
        }
    }
}

#[test]
fn dynamic_inactive_internal_seq_matches_inactivate_flip() {
    let params = CodeParams::new(5, 2, 0, 0);
    let mut sys = SparseSystem::new(&params, 8, InactivationStrategy::ByIndex);

    sys.inactivate(0);
    match sys.var_status(0) {
        VariableStatus::Inactive { seq } => assert_eq!(seq, params.num_inactive()),
        other => panic!("var 0 expected inactive after first inactivation, got {other:?}"),
    }
    assert_eq!(sys.num_inactive(), params.num_inactive() + 1);

    sys.inactivate(1);
    match sys.var_status(1) {
        VariableStatus::Inactive { seq } => {
            assert_eq!(seq, params.num_inactive() + 1);
        }
        other => panic!("var 1 expected inactive after second inactivation, got {other:?}"),
    }
}

#[test]
fn iter_inactive_var_uses_ge_lu_column_indices() {
    let params = CodeParams::new(5, 2, 0, 0);
    let mut sys = SparseSystem::new(&params, 8, InactivationStrategy::ByIndex);
    sys.inactivate(0);
    sys.inactivate(1);

    let mut ge_cols: Vec<_> = sys.iter_inactive_var().into_iter().map(|(_, col)| col).collect();
    ge_cols.sort_unstable();
    assert_eq!(ge_cols, (0..sys.num_inactive()).collect::<Vec<_>>());
}
