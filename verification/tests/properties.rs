use fountain_engine::algebra::finite_field::{Field, GF256, InvalidPrimitivePolynomial, PRIMITIVE_POLYNOMIALS};
use fountain_engine::algebra::linear_algebra::{LinearSys, Matrix};
use fountain_engine::data_manager::DataManager;
use fountain_engine::decoder::{Decoder, DecoderError};
use fountain_engine::encoder::{Encoder, EncoderError};
use fountain_engine::engine::binary_matrix::BinaryMatrix;
use fountain_engine::engine::inactivation::InactiveSystem;
use fountain_engine::engine::sparse_equation::{IDPosition, SparseSystem};
use fountain_engine::engine::system_solver::{SolverError, SystemSolver};
use fountain_engine::traits::hdpc::shift_down;
use fountain_engine::traits::{CodeScheme, PrecodePair};
use fountain_engine::types::{
    CodeParams, CodeType, DecodeStatus, DecodingConfig, DegreeSet, DegreeSetFn, InactivationStrategy,
    Operation, SolverType, SubstitutionMethod,
};

struct FirstVariable;

impl DegreeSet for FirstVariable {
    fn degree_set(&mut self, _symbol: usize) -> Vec<usize> {
        vec![0]
    }
}

struct OwnVariable {
    k: usize,
}

impl DegreeSet for OwnVariable {
    fn degree_set(&mut self, symbol: usize) -> Vec<usize> {
        vec![symbol % self.k]
    }
}

struct Scheme {
    params: CodeParams,
    code_type: CodeType,
    max_inactive: usize,
}

struct IdentityScheme {
    k: usize,
}

impl CodeScheme for IdentityScheme {
    fn get_params(&self) -> CodeParams {
        CodeParams::new(self.k, self.k, 0, 0)
    }

    fn code_type(&self) -> CodeType {
        CodeType::Systematic
    }

    fn create_degree_set_fn(&self) -> DegreeSetFn {
        DegreeSetFn::new(Box::new(OwnVariable { k: self.k }))
    }

    fn create_precode(&self) -> PrecodePair {
        (None, None)
    }
}

impl CodeScheme for Scheme {
    fn get_params(&self) -> CodeParams {
        self.params
    }

    fn code_type(&self) -> CodeType {
        self.code_type
    }

    fn create_degree_set_fn(&self) -> DegreeSetFn {
        DegreeSetFn::new(Box::new(FirstVariable))
    }

    fn create_precode(&self) -> PrecodePair {
        (None, None)
    }

    fn decoding_config(&self) -> DecodingConfig {
        DecodingConfig {
            max_inactive_num: self.max_inactive,
            inac_strategy: InactivationStrategy::ByIndex,
            subs_method: SubstitutionMethod::Direct,
        }
    }
}

fn systematic(k: usize) -> Scheme {
    Scheme { params: CodeParams::new(k, k, 0, 0), code_type: CodeType::Systematic, max_inactive: 0 }
}

fn moves(ops: &[Operation]) -> Vec<(usize, usize)> {
    ops.iter()
        .filter_map(|op| match op {
            Operation::MoveTo { src_id, target_id } => Some((*src_id, *target_id)),
            _ => None,
        })
        .collect()
}

#[test]
fn xor_rows_twice_restores_the_row() {
    let mut m = BinaryMatrix::new(70);
    let r0 = m.push_row();
    let r1 = m.push_row();
    for bit in [0usize, 3, 64, 69] {
        m.set(r0, bit);
    }
    for bit in [3usize, 5, 65] {
        m.set(r1, bit);
    }
    let before = m.row_bytes(r0, 70);
    m.xor_rows(r0, r1, 70);
    assert_ne!(m.row_bytes(r0, 70), before);
    m.xor_rows(r0, r1, 70);
    assert_eq!(m.row_bytes(r0, 70), before);
}

#[test]
fn insert_coded_id_twice_gives_the_same_data_id() {
    let mut mgr = DataManager::new();
    mgr.config_from(CodeParams::new(4, 4, 0, 0), SolverType::SysDec);
    let first = mgr.insert_coded_id(17);
    let left = mgr.ids_left();
    let second = mgr.insert_coded_id(17);
    assert_eq!(first, second);
    assert_eq!(mgr.ids_left(), left);
    assert_eq!(mgr.data_id_of_coded_vector(17), Some(first));
    let other = mgr.insert_coded_id(18);
    assert_eq!(other, first + 1);
}

#[test]
fn fresh_data_id_is_no_variable_id() {
    let params = CodeParams::new(6, 4, 2, 3);
    let mut mgr = DataManager::new();
    mgr.config_from(params, SolverType::OrdDec);
    let fresh = mgr.temp_data_id();
    for var_id in 0..params.num_total() {
        assert_ne!(mgr.data_id_of_variable_vector(var_id), fresh);
    }
}

#[test]
fn restore_for_ordinary_undoes_prepare_moves() {
    let mut mgr = DataManager::new();
    mgr.config_from(CodeParams::new(12, 10, 1, 1), SolverType::OrdEnc);
    mgr.prepare_for_ordinary();
    let prepared = moves(&mgr.move_new_operations());
    mgr.restore_for_ordinary();
    let restored = moves(&mgr.move_new_operations());
    assert_eq!(prepared.len(), 2);
    let undone: Vec<(usize, usize)> = prepared.iter().rev().map(|&(s, t)| (t, s)).collect();
    assert_eq!(restored, undone);
}

#[test]
fn move_new_operations_twice_gives_nothing_new() {
    let mut mgr = DataManager::new();
    mgr.ensure_zero(&[1, 2]);
    mgr.copy_to(3, 4);
    let first = mgr.move_new_operations();
    assert_eq!(first.len(), 2);
    assert!(mgr.move_new_operations().is_empty());
    assert_eq!(mgr.get_operations().len(), 2);
}

#[test]
fn id_position_swap_twice_restores_the_order() {
    let mut p = IDPosition::new(5);
    p.swap(1, 3);
    assert_eq!(p.id_at(1), 3);
    assert_eq!(p.pos_of(3), 1);
    p.swap(1, 3);
    for i in 0..5 {
        assert_eq!(p.id_at(i), i);
        assert_eq!(p.pos_of(i), i);
    }
}

#[test]
fn mul_alpha_is_multiplication_by_two() {
    let field = GF256::default();
    for a in 0u8..=255 {
        assert_eq!(field.mul_alpha(a), field.mul(a, 2));
    }
    assert_eq!(field.mul_alpha(0x80), 0x1D);
}

#[test]
fn gf256_left_distributive_on_samples() {
    let field = GF256::default();
    for a in [0u8, 1, 2, 0x53, 0xCA, 0xFF] {
        for b in [0u8, 7, 0x80, 0xFE] {
            for c in [1u8, 3, 0x1D, 0x99] {
                assert_eq!(field.mul(a, field.add(b, c)), field.add(field.mul(a, b), field.mul(a, c)));
            }
        }
    }
}

#[test]
fn gf256_try_new_accepts_listed_polynomial() {
    let field = GF256::try_new_with_primitive_polynomial(0x12B).unwrap();
    assert_eq!(field.primitive_polynomial(), 0x12B);
    assert_eq!(field.mul_alpha(0x80), 0x2B);
    assert!(matches!(
        GF256::try_new_with_primitive_polynomial(0x100),
        Err(InvalidPrimitivePolynomial(0x100))
    ));
}

#[test]
fn lin_solve_reports_the_rank_of_a_singular_matrix() {
    let field = GF256::default();
    let mut a = vec![vec![1, 1], vec![1, 1]];
    let mut b = vec![vec![3], vec![5]];
    let err = LinearSys::lin_solve(&field, &mut a, &mut b).unwrap_err();
    assert_eq!(err, "The matrix is not invertible, rank = 1");
    assert_eq!(b, vec![vec![3], vec![5]]);
}

#[test]
fn multiply_scalar_records_by_value() {
    let mut mgr = DataManager::new();
    mgr.config_finite_field(0x11D);
    mgr.multiply_scalar(0, 7);
    mgr.multiply_scalar(1, 7);
    mgr.multiply_scalar(2, 7);
    mgr.multiply_scalar(9, 7);
    let ops = mgr.move_new_operations();
    assert_eq!(ops.len(), 3);
    assert!(matches!(&ops[0], Operation::EnsureZero { list_id } if list_id == &vec![7]));
    assert!(matches!(ops[1], Operation::MultiplyAlpha { id: 7 }));
    assert!(matches!(ops[2], Operation::MultiplyScalar { scalar: 9, id: 7 }));
}

#[test]
fn divide_scalar_multiplies_by_the_inverse() {
    let field = GF256::default();
    let mut mgr = DataManager::new();
    mgr.config_finite_field(0x11D);
    mgr.divide_scalar(1, 4);
    mgr.divide_scalar(field.inverse(2), 4);
    mgr.divide_scalar(3, 4);
    let ops = mgr.move_new_operations();
    assert_eq!(ops.len(), 2);
    assert!(matches!(ops[0], Operation::MultiplyAlpha { id: 4 }));
    let inv3 = field.inverse(3);
    assert!(matches!(ops[1], Operation::MultiplyScalar { scalar, id: 4 } if scalar == inv3));
    assert_eq!(field.mul(3, inv3), 1);
}

#[test]
fn add_to_vector_picks_the_operation_by_length() {
    let mut mgr = DataManager::new();
    mgr.add_to_vector(&[], 9);
    mgr.add_to_vector(&[1], 9);
    mgr.add_to_vector(&[2, 2], 9);
    mgr.add_to_vector(&[1, 2], 9);
    mgr.add_to_vector(&[1, 2, 3], 9);
    mgr.add_to_vector(&[1, 2, 3, 4], 9);
    let ops = mgr.move_new_operations();
    assert_eq!(ops.len(), 4);
    assert!(matches!(ops[0], Operation::AddOneToVector { src_id: 1, target_id: 9 }));
    assert!(matches!(ops[1], Operation::AddTwoToVector { s0: 1, s1: 2, target_id: 9 }));
    assert!(matches!(ops[2], Operation::AddThreeToVector { s0: 1, s1: 2, s2: 3, target_id: 9 }));
    assert!(matches!(&ops[3], Operation::AddToVector { list_id, target_id: 9 } if list_id == &vec![1, 2, 3, 4]));
}

#[test]
fn encoder_check_config_errors() {
    let good = CodeParams::new(8, 6, 1, 1);
    assert_eq!(Encoder::check_config(&good, 8), Ok(()));
    assert_eq!(Encoder::check_config(&good, 2), Ok(()));
    assert_eq!(Encoder::check_config(&good, 1), Err(EncoderError::InvalidNumSource));
    assert_eq!(Encoder::check_config(&good, 9), Err(EncoderError::InvalidNumSource));
    let mut bad = good;
    bad.b = 3;
    assert_eq!(Encoder::check_config(&bad, 8), Err(EncoderError::InvalidParams));
}

#[test]
fn encoder_rejects_bad_source_count() {
    let scheme = systematic(4);
    assert!(matches!(Encoder::new_without_precoding_with_num_source(&scheme, 5), Err(EncoderError::InvalidNumSource)));
    let mut params = CodeParams::new(4, 4, 0, 0);
    params.a = 3;
    let broken = Scheme { params, code_type: CodeType::Ordinary, max_inactive: 0 };
    assert!(matches!(Encoder::new_without_precoding(&broken), Err(EncoderError::InvalidParams)));
}

#[test]
fn decoder_errors() {
    let good = CodeParams::new(8, 6, 1, 1);
    assert_eq!(Decoder::check_config(&good, 0), Err(DecoderError::InvalidNumSource));
    assert_eq!(Decoder::check_config(&good, 5), Ok(()));
    assert!(matches!(Decoder::new_with_num_source(&systematic(4), 7), Err(DecoderError::InvalidNumSource)));
    let capped = Scheme { params: CodeParams::new(6, 5, 1, 1), code_type: CodeType::Ordinary, max_inactive: 1 };
    assert!(matches!(Decoder::new(&capped), Err(DecoderError::Solver(SolverError::InactiveCap))));
}

#[test]
fn solver_setup_errors() {
    let session = CodeParams::new(6, 5, 1, 1);
    assert_eq!(SystemSolver::check_setup(&session, &session, 2, 10), Ok(()));
    assert_eq!(SystemSolver::check_setup(&session, &session, 1, 10), Err(SolverError::InactiveCap));
    assert_eq!(SystemSolver::check_setup(&session, &session, 2, 1), Err(SolverError::IdsExhausted));
    let other = CodeParams::new(6, 4, 1, 1);
    assert_eq!(SystemSolver::check_setup(&other, &session, 2, 10), Err(SolverError::ParamsMismatch));

    let mut mgr = DataManager::new();
    mgr.config_from(session, SolverType::SysDec);
    let scheme = systematic(6);
    assert!(matches!(SystemSolver::new(&scheme, &mut mgr, SolverType::SysDec), Err(SolverError::ParamsMismatch)));
}

#[test]
fn encode_coded_vector_cases() {
    let scheme = systematic(3);
    let mut enc = Encoder::new_without_precoding(&scheme).unwrap();
    assert_eq!(enc.encode_coded_vector(2), Some(2));
    let first = enc.encode_coded_vector(3).unwrap();
    let second = enc.encode_coded_vector(4).unwrap();
    assert_eq!(second, first + 1);
    assert_eq!(enc.manager.data_id_of_coded_vector(3), Some(first));

    let ordinary = Scheme { params: CodeParams::new(3, 3, 0, 0), code_type: CodeType::Ordinary, max_inactive: 0 };
    let mut enc = Encoder::new_without_precoding(&ordinary).unwrap();
    assert_eq!(enc.encode_coded_vector(1), None);
}

#[test]
fn systematic_precode_maps_message_ids_to_themselves() {
    let scheme = IdentityScheme { k: 4 };
    let mut enc = Encoder::new_without_precoding(&scheme).unwrap();
    enc.precode_encode(&scheme).unwrap();
    for c in 0..4 {
        assert_eq!(enc.manager.data_id_of_coded_vector(c), Some(c));
    }
}

#[test]
fn systematic_precode_fails_on_a_singular_code() {
    let scheme = systematic(4);
    let mut enc = Encoder::new_without_precoding(&scheme).unwrap();
    assert_eq!(enc.precode_encode(&scheme), Err(EncoderError::SystematicFailed));
    assert!(matches!(Encoder::new(&scheme), Err(EncoderError::SystematicFailed)));
}

#[test]
fn systematic_decoder_decodes_when_every_message_arrives() {
    let scheme = systematic(3);
    let mut dec = Decoder::new(&scheme).unwrap();
    assert_eq!(dec.decode_status(), DecodeStatus::NotDecoded);
    assert_eq!(dec.add_coded_id(0), DecodeStatus::NotDecoded);
    assert_eq!(dec.add_coded_id(0), DecodeStatus::NotDecoded);
    assert_eq!(dec.add_coded_id(2), DecodeStatus::NotDecoded);
    assert_eq!(dec.add_coded_id(1), DecodeStatus::Decoded);
    assert_eq!(dec.decode_status(), DecodeStatus::Decoded);
}

#[test]
fn sparse_system_belief_propagation_decodes_a_chain() {
    let params = CodeParams::new(3, 3, 0, 0);
    let mut mgr = DataManager::new();
    mgr.config_from(params, SolverType::OrdDec);
    let mut sys = SparseSystem::new(&params, 4, InactivationStrategy::ByIndex);
    for (coded_id, degree_set) in [(10usize, vec![0usize]), (11, vec![0, 1]), (12, vec![1, 2])] {
        let data_id = mgr.insert_coded_id(coded_id);
        sys.add_lt_coded_vector(&mut mgr, data_id, &degree_set);
    }
    assert_eq!(sys.num_equations(), 3);
    assert_eq!(sys.run_bp_inactivation(&mut mgr), 3);
    assert!(sys.is_bp_complete());
    assert_eq!(sys.num_inactive(), 0);
    let mut decoded: Vec<usize> = sys.iter_decoded_var().into_iter().map(|(var, _)| var).collect();
    decoded.sort_unstable();
    assert_eq!(decoded, vec![0, 1, 2]);
}

#[test]
fn systematic_decoder_with_padding_decodes_on_source_count() {
    let scheme = systematic(4);
    let mut dec = Decoder::new_with_num_source(&scheme, 3).unwrap();
    assert!(dec.manager.data_id_of_coded_vector(3).is_some());
    assert_eq!(dec.add_coded_id(0), DecodeStatus::NotDecoded);
    assert_eq!(dec.add_coded_id(1), DecodeStatus::NotDecoded);
    assert_eq!(dec.add_coded_id(2), DecodeStatus::Decoded);
    assert_eq!(dec.decode_status(), DecodeStatus::Decoded);
}

#[test]
fn shift_down_keeps_the_hdpc_part() {
    assert_eq!(shift_down(&[0, 3, 1, 5, 2], 2), vec![1, 3, 0]);
    assert!(shift_down(&[0, 1], 2).is_empty());
}

#[test]
fn gf256_mul_laws_on_samples() {
    let field = GF256::try_new_with_primitive_polynomial(0x169).unwrap();
    for a in [0u8, 1, 2, 0x35, 0xA7, 0xFF] {
        for b in [0u8, 1, 3, 0x80, 0xC4] {
            assert_eq!(field.mul(a, b), field.mul(b, a));
            for c in [1u8, 0x1B, 0xEE] {
                assert_eq!(field.mul(field.mul(a, b), c), field.mul(a, field.mul(b, c)));
                assert_eq!(field.mul(a, b ^ c), field.mul(a, b) ^ field.mul(a, c));
            }
        }
    }
}

#[test]
fn lt_coded_vector_is_the_sum_of_its_degree_set() {
    let scheme = Scheme { params: CodeParams::new(3, 3, 0, 0), code_type: CodeType::Ordinary, max_inactive: 0 };
    let mut enc = Encoder::new_without_precoding(&scheme).unwrap();
    let before = enc.manager.get_operations().len();
    let d = enc.encode_coded_vector(5).unwrap();
    let var0 = enc.manager.data_id_of_variable_vector(0);
    let ops = &enc.manager.get_operations()[before..];
    assert_eq!(ops.len(), 3);
    assert!(matches!(&ops[0], Operation::EnsureZero { list_id } if list_id == &vec![d]));
    assert!(matches!(ops[1], Operation::AddOneToVector { src_id, target_id } if src_id == var0 && target_id == d));
    assert!(matches!(ops[2], Operation::InfoCodedVector { coded_id: 5, data_id } if data_id == d));
    assert_eq!(enc.manager.data_ids_of_variable_vectors(&[0, 2]), vec![var0, var0 + 2]);
}

#[test]
fn every_nonzero_element_has_an_inverse_for_each_polynomial() {
    for &pp in PRIMITIVE_POLYNOMIALS.iter() {
        let gf = GF256::new_with_primitive_polynomial(pp);
        for a in 1..=255u8 {
            let inv = gf.inverse(a);
            assert_ne!(inv, 0);
            assert_eq!(gf.mul(a, inv), 1, "polynomial {:#x}, element {}", pp, a);
            for b in [1u8, 7, 0x53, 0xCA] {
                assert_eq!(gf.mul(gf.divide(b, a), a), b);
            }
        }
    }
}

#[test]
fn lu_solve_solves_the_factored_system() {
    let gf = GF256::default();
    // L (unit lower, below the diagonal) and U (on and above it), stored together.
    let lu = vec![vec![3u8, 5, 7], vec![9, 11, 13], vec![17, 19, 23]];
    let b0 = vec![vec![1u8, 200], vec![2, 100], vec![3, 50]];
    let mut x = b0.clone();
    LinearSys::lu_solve(&gf, &lu, &mut x).unwrap();
    for k in 0..2 {
        // y = U x
        let mut y = [0u8; 3];
        for i in 0..3 {
            let mut s = 0u8;
            for t in i..3 {
                s ^= gf.mul(lu[i][t], x[t][k]);
            }
            y[i] = s;
        }
        // L y must give back the right-hand side.
        for i in 0..3 {
            let mut s = y[i];
            for t in 0..i {
                s ^= gf.mul(lu[i][t], y[t]);
            }
            assert_eq!(s, b0[i][k], "row {}, column {}", i, k);
        }
    }
}

#[test]
fn inactive_system_solve_records_the_substitution() {
    let params = CodeParams::new(2, 2, 2, 0);
    let mut master = BinaryMatrix::new(2);
    let r0 = master.push_row();
    master.set(r0, 0);
    master.set(r0, 1);
    let r1 = master.push_row();
    master.set(r1, 1);
    let mut sys = InactiveSystem::new(&params);
    sys.init(2);
    sys.add_row_from_master(&master, 0, 10);
    sys.add_row_from_master(&master, 1, 11);
    let mut manager = DataManager::new();
    manager.set_record_operations(true);
    assert_eq!(sys.lu_decomposition(&mut manager, false), 2);
    let ids = sys.lu_solve(&mut manager).unwrap();
    assert_eq!(ids, vec![10, 11]);
    let ops = manager.get_operations();
    assert_eq!(ops.len(), 1);
    assert!(matches!(ops[0], Operation::AddOneToVector { src_id: 11, target_id: 10 }));
}

#[test]
fn lu_decomp_factors_the_permuted_matrix() {
    let gf = GF256::default();
    let a0 = vec![
        vec![0u8, 2, 3, 4],
        vec![5, 6, 7, 8],
        vec![9, 10, 11, 12],
        vec![13, 14, 15, 17],
        vec![1, 0, 0, 1],
    ];
    let mut a = a0.clone();
    let (p, r) = Matrix::lu_decomp(&gf, &mut a);
    assert_eq!(r, 4);
    for i in 0..a0.len() {
        for c in 0..4 {
            let upper = |t: usize, c: usize| if t < r && c >= t { a[t][c] } else { 0 };
            let mut s = upper(i, c);
            for t in 0..i.min(r) {
                s ^= gf.mul(a[i][t], upper(t, c));
            }
            assert_eq!(s, a0[p[i]][c], "row {}, column {}", i, c);
        }
    }
}

#[test]
fn lin_solve_solution_satisfies_square_system() {
    let gf = GF256::default();
    let a0 = vec![vec![0u8, 2, 3], vec![5, 6, 7], vec![9, 10, 12]];
    let b0 = vec![vec![1u8, 4], vec![2, 5], vec![3, 6]];
    let mut a = a0.clone();
    let mut b = b0.clone();
    LinearSys::lin_solve(&gf, &mut a, &mut b).unwrap();
    for i in 0..3 {
        for k in 0..2 {
            let mut s = 0u8;
            for c in 0..3 {
                s ^= gf.mul(a0[i][c], b[c][k]);
            }
            assert_eq!(s, b0[i][k]);
        }
    }
}

fn lu_product_q_entry(gf: &GF256, a: &[Vec<u8>], q: &[usize], r: usize, i: usize, c: usize) -> u8 {
    let upper = |t: usize, c: usize| if t < r && c >= t { a[t][q[c]] } else { 0 };
    let mut s = upper(i, c);
    for t in 0..i.min(r) {
        s ^= gf.mul(a[i][q[t]], upper(t, c));
    }
    s
}

#[test]
fn lu_decomp_incr_factors_the_extended_matrix() {
    let gf = GF256::default();
    let n = 4;
    // First call: two rows, no factor rows yet.
    let first = vec![vec![0u8, 3, 0, 5], vec![0, 0, 0, 7]];
    let mut a = first.clone();
    let mut q: Vec<usize> = (0..n).collect();
    let (p1, r1) = Matrix::lu_decomp_incr(&gf, &mut a, &mut q, 0);
    for i in 0..first.len() {
        for c in 0..n {
            assert_eq!(first[p1[i]][q[c]], lu_product_q_entry(&gf, &a, &q, r1, i, c));
        }
    }
    // Second call: the factor rows stay, two new rows are appended.
    let q_before = q.clone();
    let factored = a.clone();
    a.push(vec![1, 2, 3, 4]);
    a.push(vec![9, 8, 7, 6]);
    let start = a.clone();
    let (p2, r2) = Matrix::lu_decomp_incr(&gf, &mut a, &mut q, r1);
    assert_eq!(r2, 4);
    for i in 0..start.len() {
        for c in 0..n {
            let x = p2[i];
            let phi = q[c];
            let expected = if x < r1 {
                let c0 = q_before.iter().position(|&v| v == phi).unwrap();
                lu_product_q_entry(&gf, &factored, &q_before, r1, x, c0)
            } else {
                start[x][phi]
            };
            assert_eq!(expected, lu_product_q_entry(&gf, &a, &q, r2, i, c), "row {}, column {}", i, c);
        }
    }
}

#[test]
fn lu_decomp_incr_gf2_factors_the_packed_rows() {
    let n = 5;
    let rows = [[1u8, 0, 1, 1, 0], [0, 0, 1, 0, 1], [1, 0, 0, 1, 1], [0, 0, 0, 0, 1], [1, 1, 1, 1, 1]];
    let mut m = BinaryMatrix::new(n);
    for row in rows.iter() {
        let r = m.push_row();
        for (c, &b) in row.iter().enumerate() {
            if b == 1 {
                m.set(r, c);
            }
        }
    }
    let mut q: Vec<usize> = (0..n).collect();
    let (p, rank) = m.lu_decomp_incr_gf2(&mut q, 0, n);
    assert_eq!(rank, 4);
    let bit = |r: usize, c: usize| if m.get(r, c) { 1u8 } else { 0u8 };
    for i in 0..rows.len() {
        for c in 0..n {
            let upper = |t: usize, c: usize| if t < rank && c >= t { bit(t, q[c]) } else { 0 };
            let mut s = upper(i, c);
            for t in 0..i.min(rank) {
                s ^= bit(i, q[t]) & upper(t, c);
            }
            assert_eq!(s, rows[p[i]][q[c]], "row {}, column {}", i, c);
        }
    }
}

#[test]
fn xor_rows_into_itself_clears_the_prefix() {
    let mut m = BinaryMatrix::new(70);
    let r0 = m.push_row();
    let r1 = m.push_row();
    for bit in [0usize, 3, 64, 69] {
        m.set(r0, bit);
        m.set(r1, bit);
    }
    m.xor_rows(r0, r0, 65);
    let row = m.row_bytes(r0, 70);
    assert!(row[..65].iter().all(|&b| b == 0));
    assert_eq!(row[69], 1);
    assert_eq!(m.row_bytes(r1, 70)[64], 1);
}

#[test]
fn encoder_without_precoding_defaults_the_source_count_to_k() {
    let scheme = systematic(12);
    let enc = Encoder::new_without_precoding(&scheme).unwrap();
    assert_eq!(enc.manager.num_source(), 12);
    assert!(!enc.manager.has_padding());
    assert!(enc.manager.get_operations().is_empty());
}

#[test]
fn systematic_encoding_copies_sources_and_zeroes_padding_slots() {
    let scheme = IdentityScheme { k: 4 };
    let enc = Encoder::new_with_num_source(&scheme, 3).unwrap();
    let ops = enc.manager.get_operations();
    let copies: Vec<(usize, usize)> = ops
        .iter()
        .filter_map(|op| match op {
            Operation::CopyTo { src_id, target_id } => Some((*src_id, *target_id)),
            _ => None,
        })
        .collect();
    assert_eq!(copies.iter().map(|c| c.0).collect::<Vec<usize>>(), vec![0, 1, 2]);
    let padding = ops.iter().position(|op| matches!(op, Operation::EnsureZeroOne { .. }));
    assert!(padding.is_some());
    let at = padding.unwrap();
    match (&ops[at - 1], &ops[at]) {
        (Operation::EnsureZero { list_id }, Operation::EnsureZeroOne { id }) => assert_eq!(list_id, &vec![*id]),
        _ => panic!("padding slot not zeroed after its allocation"),
    }
}

#[test]
fn systematic_decoder_rebuilds_only_missing_messages() {
    let scheme = IdentityScheme { k: 3 };
    let mut dec = Decoder::new(&scheme).unwrap();
    assert_eq!(dec.add_coded_id(0), DecodeStatus::NotDecoded);
    assert_eq!(dec.add_coded_id(3), DecodeStatus::NotDecoded);
    assert_eq!(dec.add_coded_id(4), DecodeStatus::NotDecoded);
    assert_eq!(dec.add_coded_id(5), DecodeStatus::Decoded);
    let ops = dec.manager.get_operations();
    let zeroed: Vec<usize> = ops
        .iter()
        .filter_map(|op| match op {
            Operation::EnsureZero { list_id } if list_id.len() == 1 && list_id[0] < 3 => Some(list_id[0]),
            _ => None,
        })
        .collect();
    assert_eq!(zeroed, vec![1, 2]);
    let at = ops.iter().position(|op| matches!(op, Operation::EnsureZero { list_id } if list_id == &vec![1])).unwrap();
    match &ops[at + 1] {
        Operation::AddOneToVector { target_id, .. } => assert_eq!(*target_id, 1),
        _ => panic!("message 1 not rebuilt from its degree set"),
    }
}

struct Recorder {
    seen: std::rc::Rc<std::cell::RefCell<Vec<Operation>>>,
}

impl fountain_engine::traits::DataOperator for Recorder {
    fn execute(&mut self, operation: &Operation) {
        self.seen.borrow_mut().push(operation.clone());
    }
}

fn op_text(ops: &[Operation]) -> Vec<String> {
    ops.iter().map(|op| format!("{:?}", op)).collect()
}

#[test]
fn operator_executes_each_recorded_operation_once_in_order() {
    let seen = std::rc::Rc::new(std::cell::RefCell::new(Vec::new()));
    let mut m = DataManager::new_with_operator(Box::new(Recorder { seen: seen.clone() }));
    m.ensure_zero(&[7, 8]);
    m.move_to(7, 9);
    m.copy_to(9, 9);
    m.copy_to(9, 10);
    m.add_to_vector(&[1, 2], 3);
    assert_eq!(seen.borrow().len(), 4);
    assert_eq!(op_text(&seen.borrow()), op_text(m.get_operations()));

    let seen2 = std::rc::Rc::new(std::cell::RefCell::new(Vec::new()));
    let mut quiet = DataManager::new_with_operator_execute_only(Box::new(Recorder { seen: seen2.clone() }));
    quiet.ensure_zero_one(5);
    quiet.remove(5);
    assert!(quiet.get_operations().is_empty());
    assert_eq!(op_text(&seen2.borrow()), vec![format!("{:?}", Operation::EnsureZeroOne { id: 5 }), format!("{:?}", Operation::Remove { id: 5 })]);
}

#[test]
fn rebuild_message_zeroes_then_adds_its_degree_set() {
    let mut m = DataManager::new();
    fountain_engine::decoder::rebuild_message(&mut m, 1, &[0, 2]);
    assert_eq!(
        op_text(m.get_operations()),
        vec![
            format!("{:?}", Operation::EnsureZero { list_id: vec![1] }),
            format!("{:?}", Operation::AddTwoToVector { s0: 0, s1: 2, target_id: 1 }),
        ]
    );
}

#[test]
fn solver_setup_gives_slots_consecutive_data_ids() {
    let params = CodeParams::new(12, 12, 0, 0);
    let mut mgr = DataManager::new();
    mgr.config_from(params, SolverType::SysEnc);
    mgr.set_num_source(10);
    let solver = SystemSolver::setup(
        params,
        DegreeSetFn::new(Box::new(FirstVariable)),
        None,
        None,
        DecodingConfig::default(),
        &mut mgr,
        SolverType::SysEnc,
    );
    assert!(solver.is_ok());
    for c in 0..12usize {
        assert_eq!(mgr.data_id_of_coded_vector(c), Some(24 + c));
    }
    let copies = mgr.get_operations().iter().filter(|op| matches!(op, Operation::CopyTo { .. })).count();
    assert_eq!(copies, 10);
}

#[test]
fn solver_setup_rejects_other_parameters() {
    let mut mgr = DataManager::new();
    mgr.config_from(CodeParams::new(12, 12, 0, 0), SolverType::SysEnc);
    let solver = SystemSolver::setup(
        CodeParams::new(10, 10, 0, 0),
        DegreeSetFn::new(Box::new(FirstVariable)),
        None,
        None,
        DecodingConfig::default(),
        &mut mgr,
        SolverType::SysEnc,
    );
    assert!(matches!(solver, Err(SolverError::ParamsMismatch)));
}

#[test]
fn encoder_assemble_checks_the_source_count() {
    let params = CodeParams::new(12, 12, 0, 0);
    let enc = Encoder::assemble(params, DegreeSetFn::new(Box::new(FirstVariable)), CodeType::Systematic, DataManager::new(), Some(10))
        .unwrap();
    assert_eq!(enc.manager.num_source(), 10);
    assert!(enc.manager.has_padding());
    assert!(enc.manager.get_operations().is_empty());
    let bad = Encoder::assemble(params, DegreeSetFn::new(Box::new(FirstVariable)), CodeType::Systematic, DataManager::new(), Some(13));
    assert!(matches!(bad, Err(EncoderError::InvalidNumSource)));
}

#[test]
fn decoder_from_parts_registers_the_padding_slots() {
    let params = CodeParams::new(12, 12, 0, 0);
    let dec = Decoder::from_parts(
        params,
        CodeType::Systematic,
        DegreeSetFn::new(Box::new(FirstVariable)),
        DegreeSetFn::new(Box::new(FirstVariable)),
        None,
        None,
        DecodingConfig::default(),
        DataManager::new(),
        Some(10),
    )
    .unwrap();
    assert_eq!(dec.manager.num_source(), 10);
    assert!(dec.manager.data_id_of_coded_vector(10).is_some());
    assert!(dec.manager.data_id_of_coded_vector(11).is_some());
    assert!(dec.manager.data_id_of_coded_vector(12).is_none());
    assert!(dec.manager.data_id_of_coded_vector(9).is_none());
}

#[test]
fn precode_without_ldpc_records_nothing() {
    let mut mgr = DataManager::new();
    mgr.config_from(CodeParams::new(12, 11, 1, 1), SolverType::OrdEnc);
    assert!(fountain_engine::engine::precode::precode_with(&mut mgr, None, None));
    assert!(mgr.get_operations().is_empty());
}

#[test]
fn lu_decomp_reports_the_echelon_rank() {
    let field = GF256::default();
    let mut a = vec![vec![0u8, 1], vec![0, 1]];
    let (_, rank) = Matrix::lu_decomp(&field, &mut a);
    assert_eq!(rank, 1);
    let mut b = vec![vec![1u8, 1], vec![1, 1]];
    let (p, rank) = Matrix::lu_decomp(&field, &mut b);
    assert_eq!((p, rank), (vec![0, 1], 1));
    assert_eq!(b, vec![vec![1, 1], vec![1, 0]]);
}

#[test]
fn lin_solve_names_the_rank_in_its_error() {
    let field = GF256::default();
    let mut a = vec![vec![1u8, 1], vec![1, 1]];
    let mut b = vec![vec![3u8], vec![5]];
    let r = LinearSys::lin_solve(&field, &mut a, &mut b);
    assert_eq!(r, Err("The matrix is not invertible, rank = 1".to_string()));
    assert_eq!(b, vec![vec![3], vec![5]]);
}
