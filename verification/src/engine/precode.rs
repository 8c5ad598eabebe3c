//! Ordinary precoding: LDPC then HDPC parity vectors from the message vectors.
use vstd::prelude::*;
use crate::algebra::linear_algebra::{is_permutation, rows_at_least};
use crate::data_manager::DataManager;
use crate::traits::code_scheme::CodeScheme;
use crate::traits::hdpc::HDPC;
use crate::traits::ldpc::{LDPC, ldpc_data_ids};
use crate::types::CodeParams;

verus! {

broadcast use crate::data_manager::group_log_grows;

/// The manager is consistent, with its parameters, base, source count,
/// solver type, recording mode and operator as in `o`, and its log grown
/// from that of `o`.
pub open spec fn session_kept(m: &DataManager, o: &DataManager) -> bool {
    &&& m.wf()
    &&& m.spec_params() == o.spec_params()
    &&& m.var_base() == o.var_base()
    &&& m.spec_num_source() == o.spec_num_source()
    &&& m.spec_solver_type() == o.spec_solver_type()
    &&& m.records() == o.records()
    &&& m.has_operator() == o.has_operator()
    &&& m.retrieved() == o.retrieved()
    &&& m.next_id() >= o.next_id()
    &&& m.keeps_coded_ids(o)
    &&& m.log_grows(o)
}

/// Precode encoder: computes the LDPC variable vectors from the message
/// vectors and then, with an HDPC part, the HDPC variable vectors by solving
/// `(I' + D_s S_h) P = D [B_a; L; B_b]` (and updates `L` with `S_h P`).
///
/// Returns `false` when the HDPC system cannot be solved: its product is
/// not `h x h` or is singular, or a pivot needs GF(256) division in a GF(2)
/// session.
pub fn ordinary_precode_encode<T: CodeScheme>(manager: &mut DataManager, custom: &T) -> (ok: bool)
    requires
        old(manager).wf(),
        old(manager).next_id() + old(manager).spec_params().h <= usize::MAX,
    ensures
        session_kept(final(manager), old(manager)),
{
    let (hdpc, ldpc) = custom.create_precode();
    precode_with(manager, hdpc, ldpc)
}

/// [`ordinary_precode_encode`] on the precode parts a scheme created.
///
/// Without an LDPC part nothing is done and nothing recorded. With an LDPC
/// part and no HDPC part, the LDPC vectors are encoded and the result is
/// `true`, with no data ID allocated. With both, `h` temporary vectors are
/// allocated for the HDPC system; `false` comes only then.
pub fn precode_with(manager: &mut DataManager, hdpc: Option<Box<dyn HDPC>>, ldpc: Option<Box<dyn LDPC>>) -> (ok: bool)
    requires
        old(manager).wf(),
        old(manager).next_id() + old(manager).spec_params().h <= usize::MAX,
    ensures
        session_kept(final(manager), old(manager)),
        ldpc is None ==> ok && *final(manager) == *old(manager),
        ldpc is Some && hdpc is None ==> ok && final(manager).next_id() == old(manager).next_id()
            && final(manager).field() == old(manager).field(),
        ldpc is Some && hdpc is Some ==> final(manager).next_id() == old(manager).next_id()
            + old(manager).spec_params().h,
        !ok ==> ldpc is Some && hdpc is Some,
{
    let params = manager.code_params();
    let ok = match ldpc {
        None => true,
        Some(ldpc) => {
            ldpc.encode(manager, &params);
            match hdpc {
                None => true,
                Some(hdpc) => {
                    let pp = hdpc.gf_poly();
                    manager.config_finite_field(pp);
                    let variable_ids_kl = manager.data_id_range_of_msg_ldpc_variable();
                    let h = params.h;
                    let mut hdpc_ids: Vec<usize> = Vec::with_capacity(h);
                    let ghost m0 = *manager;
                    let mut i: usize = 0;
                    while i < h
                        invariant
                            h == params.h,
                            params == manager.spec_params(),
                            i <= h,
                            hdpc_ids@.len() == i,
                            manager.wf(),
                            manager.same_layout(&m0),
                            manager.log_grows(&m0),
                            manager.next_id() == m0.next_id() + i,
                            manager.coded() == m0.coded(),
                            m0.next_id() + h <= usize::MAX,
                        decreases h - i,
                    {
                        hdpc_ids.push(manager.temp_data_id());
                        i += 1;
                    }
                    hdpc.mul_data(manager, &params, variable_ids_kl.as_slice(), hdpc_ids.as_slice());
                    hdpc_solve(manager, &params, &*hdpc, &*ldpc, hdpc_ids.as_slice())
                },
            }
        },
    };
    ok
}

/// Solves `(I' + D_s S_h) Y = X` for the HDPC variable vectors, `X` being
/// the vectors `hdpc_ids`, then adds `S_h P` into the LDPC variable vectors.
fn hdpc_solve(manager: &mut DataManager, params: &CodeParams, hdpc: &dyn HDPC, ldpc: &dyn LDPC, hdpc_ids: &[usize]) -> (ok: bool)
    requires
        old(manager).wf(),
        *params == old(manager).spec_params(),
        hdpc_ids@.len() == params.h,
    ensures
        session_kept(final(manager), old(manager)),
        final(manager).next_id() == old(manager).next_id(),
        !ok && old(manager).field() is Some ==> *final(manager) == *old(manager),
{
    let (p, lu) = match hdpc.lu_idssh(manager.gf256(), params, ldpc) {
        Some(x) => x,
        None => {
            return false;
        },
    };
    let h = params.h;
    let variable_ids_hdpc = manager.data_id_range_of_hdpc_variable();
    let ghost m0 = *manager;
    let mut i: usize = 0;
    while i < h
        invariant
            h == params.h,
            *params == manager.spec_params(),
            is_permutation(p@, h as int),
            hdpc_ids@.len() == h,
            variable_ids_hdpc@.len() == h,
            i <= h,
            manager.wf(),
            manager.same_layout(&m0),
            manager.log_grows(&m0),
            manager.next_id() == m0.next_id(),
            manager.coded() == m0.coded(),
        decreases h - i,
    {
        manager.move_to(hdpc_ids[p[i]], variable_ids_hdpc[i]);
        i += 1;
    }
    if !lu_solve(manager, &lu, variable_ids_hdpc.as_slice()) {
        return false;
    }
    let ghost m1 = *manager;
    let mut var_col: usize = 0;
    while var_col < h
        invariant
            h == params.h,
            *params == manager.spec_params(),
            variable_ids_hdpc@.len() == h,
            var_col <= h,
            manager.wf(),
            manager.same_layout(&m1),
            manager.log_grows(&m1),
            manager.next_id() == m1.next_id(),
            manager.coded() == m1.coded(),
        decreases h - var_col,
    {
        let cols = ldpc.inactive_column(var_col + params.b);
        let ids = ldpc_data_ids(manager, cols.as_slice());
        manager.broadcast_add_owned(variable_ids_hdpc[var_col], ids);
        var_col += 1;
    }
    true
}

/// Forward and backward substitution with an LU-decomposed `n x n` matrix
/// (unit lower part, non-zero diagonal) on the data vectors `target_ids`.
/// Returns `false` (after the forward part) when a diagonal entry other than
/// one needs division and the session has no GF(256).
fn lu_solve(manager: &mut DataManager, matrix_a: &Vec<Vec<u8>>, target_ids: &[usize]) -> (ok: bool)
    requires
        old(manager).wf(),
        matrix_a@.len() == target_ids@.len(),
        rows_at_least(matrix_a@, matrix_a@.len() as int),
        forall|t: int| 0 <= t < matrix_a@.len() ==> #[trigger] matrix_a@[t]@[t] != 0,
    ensures
        final(manager).wf(),
        final(manager).same_layout(old(manager)),
        final(manager).log_grows(old(manager)),
        final(manager).next_id() == old(manager).next_id(),
        final(manager).coded() == old(manager).coded(),
        !ok ==> old(manager).field() is None,
{
    let n = matrix_a.len();
    let mut j: usize = 0;
    while j + 1 < n
        invariant
            n == matrix_a@.len(),
            n == target_ids@.len(),
            rows_at_least(matrix_a@, n as int),
            j < n || j == 0,
            manager.wf(),
            manager.same_layout(old(manager)),
            manager.log_grows(old(manager)),
            manager.next_id() == old(manager).next_id(),
            manager.coded() == old(manager).coded(),
        decreases n - j,
    {
        let mut i = j + 1;
        while i < n
            invariant
                n == matrix_a@.len(),
                n == target_ids@.len(),
                rows_at_least(matrix_a@, n as int),
                j + 1 <= i <= n,
                manager.wf(),
                manager.same_layout(old(manager)),
                manager.log_grows(old(manager)),
                manager.next_id() == old(manager).next_id(),
                manager.coded() == old(manager).coded(),
            decreases n - i,
        {
            let l = matrix_a[i][j];
            if l != 0 {
                manager.mul_add(target_ids[j], l, target_ids[i]);
            }
            i += 1;
        }
        j += 1;
    }
    let mut jj = n;
    while jj > 0
        invariant
            n == matrix_a@.len(),
            n == target_ids@.len(),
            rows_at_least(matrix_a@, n as int),
            forall|t: int| 0 <= t < n ==> #[trigger] matrix_a@[t]@[t] != 0,
            jj <= n,
            manager.wf(),
            manager.same_layout(old(manager)),
            manager.log_grows(old(manager)),
            manager.next_id() == old(manager).next_id(),
            manager.coded() == old(manager).coded(),
        decreases jj,
    {
        let j = jj - 1;
        let d = matrix_a[j][j];
        if d != 1 && manager.gf256().is_none() {
            return false;
        }
        manager.divide_scalar(d, target_ids[j]);
        let mut i = j;
        while i > 0
            invariant
                n == matrix_a@.len(),
                n == target_ids@.len(),
                rows_at_least(matrix_a@, n as int),
                i <= j,
                j < n,
                manager.wf(),
                manager.same_layout(old(manager)),
                manager.log_grows(old(manager)),
                manager.next_id() == old(manager).next_id(),
                manager.coded() == old(manager).coded(),
            decreases i,
        {
            let l = matrix_a[i - 1][j];
            if l != 0 {
                manager.mul_add(target_ids[j], l, target_ids[i - 1]);
            }
            i -= 1;
        }
        jj -= 1;
    }
    true
}

} // verus!
