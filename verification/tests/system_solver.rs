use fountain_engine::data_manager::DataManager;
use fountain_engine::engine::system_solver::SystemSolver;
use fountain_engine::traits::{CodeScheme, PrecodePair};
use fountain_engine::types::{CodeParams, CodeType, DecodingConfig, DegreeSet, DegreeSetFn, Operation, SolverType};

struct FirstVariable;

impl DegreeSet for FirstVariable {
    fn degree_set(&mut self, _symbol: usize) -> Vec<usize> {
        vec![0]
    }
}

#[derive(Clone)]
struct DummySystematic {
    k: usize,
}

impl CodeScheme for DummySystematic {
    fn get_params(&self) -> CodeParams {
        CodeParams::new(self.k, self.k, 0, 0)
    }

    fn code_type(&self) -> CodeType {
        CodeType::Systematic
    }

    fn create_degree_set_fn(&self) -> DegreeSetFn {
        DegreeSetFn::new(Box::new(FirstVariable))
    }

    fn create_precode(&self) -> PrecodePair {
        (None, None)
    }

    fn decoding_config(&self) -> DecodingConfig {
        DecodingConfig::default()
    }
}

fn ensure_zero_ids(mgr: &DataManager) -> Vec<usize> {
    let mut ids = Vec::new();
    for op in mgr.get_operations() {
        match op {
            Operation::EnsureZero { list_id } => ids.extend(list_id.iter().copied()),
            Operation::EnsureZeroOne { id } => ids.push(*id),
            _ => {}
        }
    }
    ids
}

fn coded_vector_data_ids(mgr: &DataManager, coded_ids: &[usize]) -> Vec<usize> {
    mgr.get_operations()
        .iter()
        .filter_map(|op| match op {
            Operation::InfoCodedVector { coded_id, data_id } if coded_ids.contains(coded_id) => Some(*data_id),
            _ => None,
        })
        .collect()
}

#[test]
fn sysenc_zero_fills_padding_coded_slots() {
    let scheme = DummySystematic { k: 12 };
    let mut mgr = DataManager::new();
    mgr.config_from(scheme.get_params(), SolverType::SysEnc);
    mgr.set_num_source(10);
    let _ = SystemSolver::new(&scheme, &mut mgr, SolverType::SysEnc).unwrap();
    let zeroed = ensure_zero_ids(&mgr);
    for data_id in coded_vector_data_ids(&mgr, &[10, 11]) {
        assert!(zeroed.contains(&data_id), "padding coded data id {data_id} should be zeroed");
    }
    assert_eq!(
        mgr.get_operations().iter().filter(|op| matches!(op, Operation::CopyTo { .. })).count(),
        10
    );
}

#[test]
fn sysenc_without_padding_copies_all_message_vectors() {
    let scheme = DummySystematic { k: 12 };
    let mut mgr = DataManager::new();
    mgr.config_from(scheme.get_params(), SolverType::SysEnc);
    let _ = SystemSolver::new(&scheme, &mut mgr, SolverType::SysEnc).unwrap();
    assert_eq!(
        mgr.get_operations().iter().filter(|op| matches!(op, Operation::CopyTo { .. })).count(),
        12
    );
    let zeroed = ensure_zero_ids(&mgr);
    for data_id in coded_vector_data_ids(&mgr, &[10, 11]) {
        assert!(
            !zeroed.contains(&data_id),
            "payload coded data id {data_id} should come from copy_to, not ensure_zero"
        );
    }
}
