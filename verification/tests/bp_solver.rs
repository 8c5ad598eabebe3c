use fountain_engine::data_manager::DataManager;
use fountain_engine::engine::bp::{BPDecoder, VarState};
use fountain_engine::engine::solver::{DecodePhase, Solver};
use fountain_engine::traits::{CodeScheme, PrecodePair};
use fountain_engine::types::{CodeParams, CodeType, DecodeStatus, DegreeSet, DegreeSetFn, SolverType};

struct TableDegreeSet {
    table: Vec<Vec<usize>>,
}

impl DegreeSet for TableDegreeSet {
    fn degree_set(&mut self, symbol: usize) -> Vec<usize> {
        self.table[symbol % self.table.len()].clone()
    }
}

fn table(rows: &[&[usize]]) -> DegreeSetFn {
    DegreeSetFn::new(Box::new(TableDegreeSet { table: rows.iter().map(|r| r.to_vec()).collect() }))
}

fn manager_for(params: CodeParams) -> DataManager {
    let mut mgr = DataManager::new();
    mgr.config_from(params, SolverType::OrdDec);
    mgr
}

#[test]
fn bp_decoder_new_layout() {
    let params = CodeParams::new(5, 3, 1, 2);
    let bp = BPDecoder::new(&params, table(&[&[0]]), 6);
    assert_eq!(bp.num_inactive(), 4);
    assert!(!bp.is_complete());
    assert_eq!(bp.indices_tilde_g_row(4), vec![0]);
    assert_eq!(bp.indices_tilde_g_row(7), vec![3]);
}

#[test]
fn bp_decoder_solves_a_chain() {
    let params = CodeParams::new(3, 3, 0, 0);
    let mut mgr = manager_for(params);
    let mut bp = BPDecoder::new(&params, table(&[&[0], &[0, 1], &[1, 2]]), 0);
    for coded_id in 0..3 {
        let data_id = mgr.insert_coded_id(coded_id + 10);
        let check_id = bp.add_coded_vector(&mut mgr, coded_id, data_id);
        assert_eq!(check_id, coded_id);
        assert_eq!(bp.get_data_id(check_id), data_id);
    }
    assert_eq!(bp.run(&mut mgr), 3);
    assert!(bp.is_complete());
    assert_eq!(bp.num_inactive(), 0);
    assert!(bp.iter_unused_check().is_empty());
    assert!(bp.iter_inactive_var().is_empty());
}

#[test]
fn bp_decoder_inactivates_when_stuck() {
    let params = CodeParams::new(2, 2, 0, 0);
    let mut mgr = manager_for(params);
    let mut bp = BPDecoder::new(&params, table(&[&[0, 1]]), 1);
    let d0 = mgr.insert_coded_id(10);
    bp.add_coded_vector(&mut mgr, 0, d0);
    assert_eq!(bp.run(&mut mgr), 0);
    let d1 = mgr.insert_coded_id(11);
    bp.add_coded_vector(&mut mgr, 1, d1);
    assert_eq!(bp.run(&mut mgr), 1);
    assert_eq!(bp.num_inactive(), 1);
    assert!(bp.is_complete());
    assert_eq!(bp.indices_tilde_g_row(1), vec![0]);
    assert_eq!(bp.inactive_adj_matrix_row(0), vec![1]);
    assert_eq!(bp.iter_unused_check(), vec![(vec![0u8], d1)]);
    assert_eq!(bp.iter_inactive_var(), vec![(0, 0, vec![1])]);
}

#[test]
fn bp_decoder_degree_one_vector_and_substitution() {
    let params = CodeParams::new(2, 2, 0, 0);
    let mut mgr = manager_for(params);
    let mut bp = BPDecoder::new(&params, table(&[&[0, 1]]), 0);
    let d0 = mgr.insert_coded_id(10);
    let c0 = bp.add_degree_one_coded_vector(&mut mgr, d0, 0);
    assert_eq!(bp.run(&mut mgr), 1);
    let d1 = mgr.insert_coded_id(11);
    let c1 = bp.add_coded_vector(&mut mgr, 0, d1);
    assert_eq!((c0, c1), (0, 1));
    assert_eq!(bp.run(&mut mgr), 2);
    assert!(bp.is_complete());
    let _ = VarState::Active;
}

struct LegacyScheme {
    params: CodeParams,
    rows: Vec<Vec<usize>>,
    max_inactive: usize,
}

impl CodeScheme for LegacyScheme {
    fn get_params(&self) -> CodeParams {
        self.params
    }

    fn code_type(&self) -> CodeType {
        CodeType::Ordinary
    }

    fn create_degree_set_fn(&self) -> DegreeSetFn {
        DegreeSetFn::new(Box::new(TableDegreeSet { table: self.rows.clone() }))
    }

    fn create_precode(&self) -> PrecodePair {
        (None, None)
    }

    fn max_inactive_num(&self) -> usize {
        self.max_inactive
    }
}

#[test]
fn solver_decodes_by_bp() {
    let params = CodeParams::new(2, 2, 0, 0);
    let scheme = LegacyScheme { params, rows: vec![vec![0], vec![1]], max_inactive: 0 };
    let mut mgr = manager_for(params);
    let mut solver = Solver::new(&scheme, &mut mgr).unwrap();
    assert_eq!(solver.phase, DecodePhase::BP);
    let d0 = mgr.insert_coded_id(0);
    solver.add_coded_vector(&mut mgr, 0, d0);
    assert_eq!(solver.status, DecodeStatus::NotDecoded);
    let d1 = mgr.insert_coded_id(1);
    solver.add_coded_vector(&mut mgr, 1, d1);
    assert_eq!(solver.status, DecodeStatus::Decoded);
    assert_eq!(solver.phase, DecodePhase::BP);
}

#[test]
fn solver_switches_to_elimination() {
    let params = CodeParams::new(2, 2, 0, 0);
    let scheme = LegacyScheme { params, rows: vec![vec![0, 1], vec![0, 1], vec![0]], max_inactive: 1 };
    let mut mgr = manager_for(params);
    let mut solver = Solver::new(&scheme, &mut mgr).unwrap();
    let mut statuses = Vec::new();
    for coded_id in 0..3 {
        let data_id = mgr.insert_coded_id(coded_id);
        solver.add_coded_vector(&mut mgr, coded_id, data_id);
        statuses.push(solver.status);
    }
    assert_eq!(statuses, vec![DecodeStatus::NotDecoded, DecodeStatus::NotDecoded, DecodeStatus::Decoded]);
    assert_eq!(solver.phase, DecodePhase::GE);
}

#[test]
fn solver_rejects_a_mismatched_session() {
    let scheme = LegacyScheme { params: CodeParams::new(2, 2, 0, 0), rows: vec![vec![0]], max_inactive: 0 };
    let mut mgr = manager_for(CodeParams::new(3, 3, 0, 0));
    assert!(Solver::new(&scheme, &mut mgr).is_err());
}
