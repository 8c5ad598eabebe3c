use fountain_engine::data_manager::DataManager;
use fountain_engine::types::{CodeParams, SolverType};

#[test]
fn config_from_defaults_num_source_to_block_k() {
    let mut mgr = DataManager::new();
    mgr.config_from(CodeParams::new(12, 12, 0, 0), SolverType::SysEnc);
    assert_eq!(mgr.num_source(), 12);
    assert_eq!(mgr.num_padding(), 0);
    assert!(!mgr.has_padding());
    assert_eq!(mgr.solver_type(), SolverType::SysEnc);
}

#[test]
fn set_num_source_lowers_k_and_sets_padding_count() {
    let mut mgr = DataManager::new();
    mgr.config_from(CodeParams::new(12, 11, 0, 0), SolverType::OrdEnc);
    mgr.set_num_source(10);
    assert_eq!(mgr.num_source(), 10);
    assert_eq!(mgr.num_padding(), 2);
    assert!(mgr.has_padding());
}
