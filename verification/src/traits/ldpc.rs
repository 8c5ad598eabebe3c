use vstd::prelude::*;
use crate::data_manager::{DataManager, id_range};
use crate::types::{CodeParams, OpView};

verus! {

broadcast use crate::data_manager::group_log_grows;

/// Each of `ops` is a broadcast from a vector, the `i`-th from data ID `base + i`.
pub open spec fn broadcasts_from(ops: Seq<OpView>, base: int) -> bool {
    forall|i: int| 0 <= i < ops.len() ==> (#[trigger] ops[i] matches OpView::BroadcastAdd { src_id, .. } && src_id == base + i)
}

/// Low-density parity-check precode: the sparse matrices `S_a` (over the
/// active message vectors) and `S_i` (over the inactive variables).
///
/// Rows are LDPC checks, columns are variables; each method lists the
/// non-zero positions of one row or column.
pub trait LDPC {
    /// Non-zero entries (check indices) of column `var_col` of `S_a`.
    fn active_column(&self, var_col: usize) -> (r: Vec<usize>)
        default_ensures
            r@.len() == 0,
    {
        Vec::new()
    }

    /// Non-zero entries (active variable indices) of row `check_row` of `S_a`.
    fn active_row(&self, check_row: usize) -> (r: Vec<usize>)
        default_ensures
            r@.len() == 0,
    {
        Vec::new()
    }

    /// Non-zero entries (check indices) of column `var_col` of `S_i`.
    fn inactive_column(&self, var_col: usize) -> (r: Vec<usize>)
        default_ensures
            r@.len() == 0,
    {
        Vec::new()
    }

    /// Non-zero entries (inactive variable indices) of row `check_row` of `S_i`.
    fn inactive_row(&self, check_row: usize) -> (r: Vec<usize>)
        default_ensures
            r@.len() == 0,
    {
        Vec::new()
    }

    /// Encodes the message vectors into the LDPC variable vectors:
    /// `L = S_a B_a + S_b B_b`, where `S_b` is the first `b` columns of `S_i`.
    ///
    /// The default zeroes the LDPC vectors and then adds each message vector
    /// into the LDPC vectors of the checks of its column; a check index whose
    /// data ID would not fit in a `usize` is skipped.
    fn encode(&self, manager: &mut DataManager, params: &CodeParams)
        requires
            old(manager).wf(),
            *params == old(manager).spec_params(),
        ensures
            final(manager).wf(),
            final(manager).same_layout(old(manager)),
            final(manager).log_grows(old(manager)),
            final(manager).next_id() == old(manager).next_id(),
            final(manager).coded() == old(manager).coded(),
        default_ensures
            exists|ops1: Seq<OpView>, ops2: Seq<OpView>|
                #![trigger broadcasts_from(ops1, old(manager).var_base() as int), broadcasts_from(ops2, old(manager).inactive_base())]
                ops1.len() == params.a && ops2.len() == params.b && broadcasts_from(ops1, old(manager).var_base() as int)
                    && broadcasts_from(ops2, old(manager).inactive_base()) && final(manager).logged(
                    old(manager),
                    seq![
                        OpView::EnsureZero {
                            list_id: id_range(
                                old(manager).var_base() + params.a,
                                old(manager).var_base() + params.a + params.l,
                            ),
                        },
                    ] + ops1 + ops2,
                ),
    {
        let ids = manager.data_id_range_of_ldpc_variable();
        let ghost z = seq![OpView::EnsureZero { list_id: ids@ }];
        manager.ensure_zero(ids.as_slice());
        let ghost ops1: Seq<OpView> = Seq::empty();
        let ghost ops2: Seq<OpView> = Seq::empty();
        proof {
            assert(z + ops1 =~= z);
        }
        let mut msg_id: usize = 0;
        while msg_id < params.a
            invariant
                manager.wf(),
                manager.same_layout(old(manager)),
                manager.log_grows(old(manager)),
                manager.next_id() == old(manager).next_id(),
                manager.coded() == old(manager).coded(),
                *params == manager.spec_params(),
                msg_id <= params.a,
                ops1.len() == msg_id,
                broadcasts_from(ops1, old(manager).var_base() as int),
                manager.var_base() == old(manager).var_base(),
                manager.inactive_base() == old(manager).inactive_base(),
                z == seq![OpView::EnsureZero { list_id: id_range(old(manager).var_base() + params.a, old(manager).var_base() + params.a + params.l) }],
                manager.logged(old(manager), z + ops1),
            decreases params.a - msg_id,
        {
            let adj = self.active_column(msg_id);
            let ldpc_ids = ldpc_data_ids(manager, adj.as_slice());
            let src = manager.data_id_of_active_variable(msg_id);
            let ghost m0 = *manager;
            let ghost op = OpView::BroadcastAdd { src_id: src, target_ids: ldpc_ids@ };
            manager.broadcast_add_owned(src, ldpc_ids);
            proof {
                DataManager::lemma_logged_trans(old(manager), &m0, manager, z + ops1, seq![op]);
                assert(z + ops1 + seq![op] =~= z + ops1.push(op));
                ops1 = ops1.push(op);
            }
            msg_id += 1;
        }
        proof {
            assert(z + ops1 + ops2 =~= z + ops1);
        }
        let mut msg_id: usize = 0;
        while msg_id < params.b
            invariant
                manager.wf(),
                manager.same_layout(old(manager)),
                manager.log_grows(old(manager)),
                manager.next_id() == old(manager).next_id(),
                manager.coded() == old(manager).coded(),
                *params == manager.spec_params(),
                ops1.len() == params.a,
                broadcasts_from(ops1, old(manager).var_base() as int),
                msg_id <= params.b,
                ops2.len() == msg_id,
                broadcasts_from(ops2, old(manager).inactive_base()),
                z == seq![OpView::EnsureZero { list_id: id_range(old(manager).var_base() + params.a, old(manager).var_base() + params.a + params.l) }],
                manager.var_base() == old(manager).var_base(),
                manager.inactive_base() == old(manager).inactive_base(),
                manager.logged(old(manager), z + ops1 + ops2),
            decreases params.b - msg_id,
        {
            let adj = self.inactive_column(msg_id);
            let ldpc_ids = ldpc_data_ids(manager, adj.as_slice());
            let src = manager.data_id_of_inactive_variable(msg_id);
            let ghost m0 = *manager;
            let ghost op = OpView::BroadcastAdd { src_id: src, target_ids: ldpc_ids@ };
            manager.broadcast_add_owned(src, ldpc_ids);
            proof {
                DataManager::lemma_logged_trans(old(manager), &m0, manager, z + ops1 + ops2, seq![op]);
                assert(z + ops1 + ops2 + seq![op] =~= z + ops1 + ops2.push(op));
                ops2 = ops2.push(op);
            }
            msg_id += 1;
        }
    }
}

/// Data IDs of the LDPC variable vectors of the checks `checks`, in order,
/// leaving out a check whose data ID would not fit in a `usize`.
pub fn ldpc_data_ids(manager: &mut DataManager, checks: &[usize]) -> (r: Vec<usize>)
    requires
        old(manager).wf(),
    ensures
        *final(manager) == *old(manager),
        forall|i: int|
            0 <= i < r@.len() ==> exists|j: int|
                0 <= j < checks@.len() && #[trigger] r@[i] == old(manager).var_base()
                    + old(manager).spec_params().a + checks@[j],
        (forall|j: int|
            0 <= j < checks@.len() ==> old(manager).var_base() + old(manager).spec_params().a
                + #[trigger] checks@[j] <= usize::MAX) ==> r@ == checks@.map_values(
            |c: usize| (old(manager).var_base() + old(manager).spec_params().a + c) as usize,
        ),
{
    let mut out: Vec<usize> = Vec::with_capacity(checks.len());
    let base = manager.data_id_of_ldpc_variable(0);
    let mut j: usize = 0;
    while j < checks.len()
        invariant
            *manager == *old(manager),
            base == old(manager).var_base() + old(manager).spec_params().a,
            j <= checks@.len(),
            forall|i: int|
                0 <= i < out@.len() ==> exists|t: int|
                    0 <= t < checks@.len() && #[trigger] out@[i] == base + checks@[t],
            (forall|t: int| 0 <= t < j ==> base + #[trigger] checks@[t] <= usize::MAX) ==> out@
                == checks@.take(j as int).map_values(|c: usize| (base + c) as usize),
        decreases checks@.len() - j,
    {
        let c = checks[j];
        if c <= usize::MAX - base {
            let d = manager.data_id_of_ldpc_variable(c);
            let ghost prev = out@;
            out.push(d);
            assert(out@[out@.len() - 1] == base + checks@[j as int]);
            proof {
                if forall|t: int| 0 <= t < j + 1 ==> base + #[trigger] checks@[t] <= usize::MAX {
                    assert(checks@.take(j + 1).map_values(|c: usize| (base + c) as usize) =~= checks@.take(
                        j as int,
                    ).map_values(|c: usize| (base + c) as usize).push(d));
                }
            }
        } else {
            assert(!(forall|t: int| 0 <= t < j + 1 ==> base + #[trigger] checks@[t] <= usize::MAX));
        }
        j += 1;
    }
    assert(checks@.take(checks@.len() as int) =~= checks@);
    out
}

} // verus!
