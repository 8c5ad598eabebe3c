//! Master system for fountain code encoding and decoding.
//!
//! The master system is the linear system over the variable vectors
//! (B_a, L, B_b, P) with three block rows: LT encoding, LDPC constraints and
//! HDPC constraints. This module holds its sparse representation: variable
//! IDs sorted by status (decoded, active, inactive), sparse equations
//! (data ID and active variables), inactive coefficients in a
//! [`BinaryMatrix`], and the belief-propagation (BP) phase.
use vstd::prelude::*;
use std::collections::VecDeque;
use crate::data_manager::{DataManager, id_range};
use crate::engine::binary_matrix::{
    BinaryMatrix, lemma_word_index, lemma_zero_row_bits, padded_prefix, row_bit, row_bytes_spec, words_for,
};
use crate::engine::small_lists::{
    ActiveVarIds, VarAdjacentList, active_from_vec, active_get, active_items, active_len, active_new,
    active_pop, active_push, active_swap_remove, adjacent_get, adjacent_items, adjacent_len, adjacent_new,
    adjacent_push,
};
use crate::engine::tanner_graph::TannerGraphDegree2;
use crate::traits::ldpc::LDPC;
use crate::types::{CodeParams, InactivationStrategy, OpView};

verus! {

broadcast use crate::data_manager::group_log_grows;

/// Status of a sparse equation in the master system.
#[derive(Clone, Copy, PartialEq, Eq, Debug, Structural)]
pub enum EquationStatus {
    /// Equation has been used to solve a variable vector.
    Decoded,
    /// Not yet used.
    Unused,
}

/// Status of a variable vector in the master system.
#[derive(Clone, Copy, PartialEq, Eq, Debug, Structural)]
pub enum VariableStatus {
    /// Not yet decoded; may be resolved by BP or inactivated.
    Active,
    /// Decoded by BP, by the equation `equ_id`.
    Decoded { equ_id: usize },
    /// Inactivated (pre-inactive or dynamically inactivated); `seq` is its
    /// column in the inactive coefficient matrix.
    Inactive { seq: usize },
}

/// Every item of `s` is below `n`.
pub open spec fn all_below(s: Seq<usize>, n: int) -> bool {
    forall|i: int| 0 <= i < s.len() ==> #[trigger] s[i] < n
}

/// A list of `n` identifiers kept in some order, with the position of each:
/// `ids` and `pos` are inverse permutations of `0..n`.
pub struct IDPosition {
    ids: Vec<usize>,
    pos: Vec<usize>,
}

impl IDPosition {
    /// The identifiers in their current order.
    pub closed spec fn order(&self) -> Seq<usize> {
        self.ids@
    }

    /// The position of each identifier.
    pub closed spec fn position(&self) -> Seq<usize> {
        self.pos@
    }

    /// `order` and `position` are inverse permutations of `0..n`.
    pub open spec fn wf(&self) -> bool {
        let n = self.order().len();
        &&& self.position().len() == n
        &&& forall|i: int| 0 <= i < n ==> #[trigger] self.order()[i] < n && self.position()[self.order()[i] as int] == i
        &&& forall|v: int| 0 <= v < n ==> #[trigger] self.position()[v] < n && self.order()[self.position()[v] as int] == v
    }

    /// The identity order on `0..len`.
    pub fn new(len: usize) -> (r: Self)
        ensures
            r.wf(),
            r.order() == id_range(0, len as int),
            r.position() == id_range(0, len as int),
    {
        let ids = crate::data_manager::range_vec(0, len);
        let pos = crate::data_manager::range_vec(0, len);
        IDPosition { ids, pos }
    }

    /// Number of identifiers.
    pub fn len(&self) -> (r: usize)
        ensures
            r == self.order().len(),
    {
        self.ids.len()
    }

    /// The identifier at position `i`.
    pub fn id_at(&self, i: usize) -> (r: usize)
        requires
            i < self.order().len(),
        ensures
            r == self.order()[i as int],
    {
        self.ids[i]
    }

    /// The position of identifier `v`.
    pub fn pos_of(&self, v: usize) -> (r: usize)
        requires
            v < self.position().len(),
        ensures
            r == self.position()[v as int],
    {
        self.pos[v]
    }

    /// Swapping the same two positions twice restores the order and the
    /// positions.
    pub proof fn lemma_swap_twice(&self, i: int, j: int)
        requires
            self.wf(),
            0 <= i < self.order().len(),
            0 <= j < self.order().len(),
        ensures
            ({
                let o = self.order();
                let p = self.position();
                let o1 = o.update(i, o[j]).update(j, o[i]);
                let p1 = p.update(o[i] as int, j as usize).update(o[j] as int, i as usize);
                let o2 = o1.update(i, o1[j]).update(j, o1[i]);
                let p2 = p1.update(o1[i] as int, j as usize).update(o1[j] as int, i as usize);
                o2 == o && p2 == p
            }),
    {
        let o = self.order();
        let p = self.position();
        let o1 = o.update(i, o[j]).update(j, o[i]);
        let p1 = p.update(o[i] as int, j as usize).update(o[j] as int, i as usize);
        let o2 = o1.update(i, o1[j]).update(j, o1[i]);
        let p2 = p1.update(o1[i] as int, j as usize).update(o1[j] as int, i as usize);
        assert(o2 =~= o);
        assert(p2 =~= p);
    }

    /// Appends the next identifier `n` at position `n`.
    pub fn push_next(&mut self)
        requires
            old(self).wf(),
            old(self).order().len() < usize::MAX,
        ensures
            final(self).wf(),
            final(self).order() == old(self).order().push(old(self).order().len() as usize),
            final(self).position() == old(self).position().push(old(self).order().len() as usize),
    {
        let id = self.ids.len();
        self.ids.push(id);
        self.pos.push(id);
    }

    /// Exchanges the identifiers at positions `i` and `j`, keeping `pos` the
    /// inverse of `ids`.
    pub fn swap(&mut self, i: usize, j: usize)
        requires
            old(self).wf(),
            i < old(self).order().len(),
            j < old(self).order().len(),
        ensures
            final(self).wf(),
            final(self).order() == old(self).order().update(i as int, old(self).order()[j as int]).update(
                j as int,
                old(self).order()[i as int],
            ),
            final(self).position() == old(self).position().update(
                old(self).order()[i as int] as int,
                j,
            ).update(old(self).order()[j as int] as int, i),
    {
        let vi = self.ids[i];
        let vj = self.ids[j];
        self.ids.set(i, vj);
        self.ids.set(j, vi);
        self.pos.set(vi, j);
        self.pos.set(vj, i);
    }
}

/// One sparse equation: an LDPC constraint or an LT-coded vector, held as its
/// right-hand side data ID and the variables that are still active in it.
/// The coefficients of its inactive variables are a row of the master
/// system's inactive coefficient matrix.
pub struct SparseEquation {
    /// Data vector ID of the coded vector.
    data_id: usize,
    /// Variable IDs that are still active in this equation.
    active_var_ids: ActiveVarIds,
}

impl SparseEquation {
    /// Degree: number of active variables in this equation.
    fn degree(&self) -> (r: usize)
        ensures
            r == active_items(self.active_var_ids).len(),
    {
        active_len(&self.active_var_ids)
    }

    /// Removes the first occurrence of `var_id` from the active variables
    /// (by swapping in the last one); nothing happens when it does not occur.
    fn remove_active(&mut self, var_id: usize)
        ensures
            final(self).data_id == old(self).data_id,
            active_items(final(self).active_var_ids).len() <= active_items(old(self).active_var_ids).len(),
            forall|n: int|
                #[trigger] all_below(active_items(old(self).active_var_ids), n) ==> all_below(
                    active_items(final(self).active_var_ids),
                    n,
                ),
            active_items(old(self).active_var_ids).contains(var_id) ==> active_items(
                final(self).active_var_ids,
            ).len() + 1 == active_items(old(self).active_var_ids).len(),
            !active_items(old(self).active_var_ids).contains(var_id) ==> active_items(
                final(self).active_var_ids,
            ) == active_items(old(self).active_var_ids),
            active_items(final(self).active_var_ids) == swap_removed_first(active_items(old(self).active_var_ids), var_id),
    {
        let n = active_len(&self.active_var_ids);
        let mut p: usize = 0;
        while p < n
            invariant
                n == active_items(self.active_var_ids).len(),
                *self == *old(self),
                p <= n,
                forall|t: int| 0 <= t < p ==> active_items(self.active_var_ids)[t] != var_id,
            decreases n - p,
        {
            if active_get(&self.active_var_ids, p) == var_id {
                let ghost s = active_items(self.active_var_ids);
                let _ = active_swap_remove(&mut self.active_var_ids, p);
                proof {
                    let s2 = active_items(self.active_var_ids);
                    assert forall|m: int| #[trigger] all_below(s, m) implies all_below(s2, m) by {
                        assert forall|t: int| 0 <= t < s2.len() implies s2[t] < m by {
                            if t == p {
                                assert(s2[t] == s[s.len() - 1]);
                            } else {
                                assert(s2[t] == s[t]);
                            }
                        }
                    }
                    assert(s[p as int] == var_id);
                    assert(is_first_index(s, var_id, p as int));
                    let w = choose|w: int| is_first_index(s, var_id, w);
                    assert(is_first_index(s, var_id, w));
                    if w < p {
                        assert(s[w] != var_id);
                    } else if w > p {
                        assert(s[p as int] != var_id);
                    }
                    assert(s.contains(var_id));
                    assert(s2 =~= s.update(p as int, s.last()).drop_last());
                }
                return ;
            }
            p += 1;
        }
    }

    /// Removes `var_id` from the active variables after BP decoded it.
    fn decode_variable(&mut self, var_id: usize)
        ensures
            final(self).data_id == old(self).data_id,
            active_items(final(self).active_var_ids).len() <= active_items(old(self).active_var_ids).len(),
            forall|n: int|
                #[trigger] all_below(active_items(old(self).active_var_ids), n) ==> all_below(
                    active_items(final(self).active_var_ids),
                    n,
                ),
            active_items(final(self).active_var_ids) == swap_removed_first(active_items(old(self).active_var_ids), var_id),
    {
        self.remove_active(var_id);
    }

    /// Removes `var_id` from the active variables after it was inactivated.
    fn inactivate_variable(&mut self, var_id: usize)
        ensures
            final(self).data_id == old(self).data_id,
            active_items(final(self).active_var_ids).len() <= active_items(old(self).active_var_ids).len(),
            forall|n: int|
                #[trigger] all_below(active_items(old(self).active_var_ids), n) ==> all_below(
                    active_items(final(self).active_var_ids),
                    n,
                ),
            active_items(final(self).active_var_ids) == swap_removed_first(active_items(old(self).active_var_ids), var_id),
    {
        self.remove_active(var_id);
    }
}


/// `p` is the first index of `x` in `s`.
pub open spec fn is_first_index(s: Seq<usize>, x: usize, p: int) -> bool {
    &&& 0 <= p < s.len()
    &&& s[p] == x
    &&& forall|t: int| 0 <= t < p ==> s[t] != x
}

/// `s` with its first `x` replaced by its last item, and the last item
/// dropped; `s` itself when `x` does not occur.
pub open spec fn swap_removed_first(s: Seq<usize>, x: usize) -> Seq<usize> {
    if s.contains(x) {
        let p = choose|p: int| is_first_index(s, x, p);
        s.update(p, s.last()).drop_last()
    } else {
        s
    }
}

/// The entries of `s` below `n`, in order.
pub open spec fn entries_below(s: Seq<usize>, n: int) -> Seq<usize>
    decreases s.len(),
{
    if s.len() == 0 {
        seq![]
    } else {
        entries_below(s.drop_last(), n) + (if s.last() < n {
            seq![s.last()]
        } else {
            seq![]
        })
    }
}

/// The entries below `n` of `s` are those of `s` that are below `n`.
pub proof fn lemma_entries_below_contains(s: Seq<usize>, n: int)
    ensures
        forall|v: usize| #[trigger] entries_below(s, n).contains(v) <==> (s.contains(v) && v < n),
    decreases s.len(),
{
    if s.len() > 0 {
        lemma_entries_below_contains(s.drop_last(), n);
        let e0 = entries_below(s.drop_last(), n);
        let e = entries_below(s, n);
        assert forall|v: usize| #[trigger] e.contains(v) <==> (s.contains(v) && v < n) by {
            if e.contains(v) {
                let w = choose|w: int| 0 <= w < e.len() && #[trigger] e[w] == v;
                if w < e0.len() {
                    assert(e0[w] == v);
                    assert(e0.contains(v));
                    let x = choose|x: int| 0 <= x < s.drop_last().len() && #[trigger] s.drop_last()[x] == v;
                    assert(s[x] == v);
                } else {
                    assert(s[s.len() - 1] == v);
                }
            }
            if s.contains(v) && v < n {
                let x = choose|x: int| 0 <= x < s.len() && #[trigger] s[x] == v;
                if x < s.len() - 1 {
                    assert(s.drop_last()[x] == v);
                    assert(e0.contains(v));
                    let w = choose|w: int| 0 <= w < e0.len() && #[trigger] e0[w] == v;
                    assert(e[w] == v);
                } else {
                    assert(e[e0.len() as int] == v);
                }
            }
        }
    } else {
        assert forall|v: usize| #[trigger] entries_below(s, n).contains(v) <==> (s.contains(v) && v < n) by {
        }
    }
}

/// The operations of adding vector `src` into each of `targets`: one
/// addition each for up to three targets, one broadcast for more.
pub open spec fn broadcast_ops(src: usize, targets: Seq<usize>) -> Seq<OpView> {
    if targets.len() == 0 {
        seq![]
    } else if targets.len() <= 3 {
        Seq::new(targets.len(), |i: int| OpView::AddOneToVector { src_id: src, target_id: targets[i] })
    } else {
        seq![OpView::BroadcastAdd { src_id: src, target_ids: targets }]
    }
}

/// Master system state.
///
/// - `var_ids`: variable IDs ordered as decoded (`0..num_decoded`), active,
///   then inactive (the last `num_inactive` positions).
/// - `var_adjacent[v]`: indices of the sparse equations that involve `v`.
/// - `equation_ids`: equation indices ordered as decoded, then unused.
/// - `inactive_coeff_matrix`: GF(2) coefficients of the inactive variables,
///   one row per equation.
/// - `solvable_equations`: queue of equations that reached degree one.
pub struct SparseSystem {
    params: CodeParams,
    /// Number of variables already decoded.
    num_decoded: usize,
    /// Number of variables inactive from the start.
    num_original_inactive: usize,
    /// Number of inactive variables (pre-inactive and dynamically inactivated).
    num_inactive: usize,
    /// Cap on the number of inactive variables.
    max_inactive_num: usize,
    /// Inactivation strategy.
    inac_strategy: InactivationStrategy,
    /// Variable IDs ordered by status.
    var_ids: IDPosition,
    /// For each variable, the sparse equations adjacent to it.
    var_adjacent: Vec<VarAdjacentList>,
    /// Inactive-variable coefficients (row index = equation index).
    inactive_coeff_matrix: BinaryMatrix,
    /// All sparse equations (LDPC and LT coded).
    sparse_equations: Vec<SparseEquation>,
    /// Equation indices ordered by status.
    equation_ids: IDPosition,
    /// Equations of degree one, to be solved.
    solvable_equations: VecDeque<usize>,
    /// Reused list of target data IDs.
    scratch_targets: Vec<usize>,
    /// Decoded-equation peers for back-substitution (see [`Self::build_bs_peers`]).
    bs_peers: Option<Vec<VarAdjacentList>>,
}

impl SparseSystem {
    /// Code parameters.
    pub closed spec fn spec_params(&self) -> CodeParams {
        self.params
    }

    /// Number of decoded variables.
    pub closed spec fn decoded(&self) -> int {
        self.num_decoded as int
    }

    /// Number of inactive variables.
    pub closed spec fn inactive(&self) -> int {
        self.num_inactive as int
    }

    /// Number of variables inactive from the start (`b + h`).
    pub closed spec fn original_inactive(&self) -> int {
        self.num_original_inactive as int
    }

    /// Cap on the number of inactive variables.
    pub closed spec fn max_inactive(&self) -> int {
        self.max_inactive_num as int
    }

    /// Inactivation strategy.
    pub closed spec fn strategy(&self) -> InactivationStrategy {
        self.inac_strategy
    }

    /// Number of sparse equations.
    pub closed spec fn equations(&self) -> int {
        self.sparse_equations@.len() as int
    }

    /// Variable IDs ordered by status.
    pub closed spec fn var_order(&self) -> Seq<usize> {
        self.var_ids.order()
    }

    /// Position of each variable in [`Self::var_order`].
    pub closed spec fn var_position(&self) -> Seq<usize> {
        self.var_ids.position()
    }

    /// Equation indices ordered by status.
    pub closed spec fn equ_order(&self) -> Seq<usize> {
        self.equation_ids.order()
    }

    /// Position of each equation in [`Self::equ_order`].
    pub closed spec fn equ_position(&self) -> Seq<usize> {
        self.equation_ids.position()
    }

    /// Inactive coefficient matrix.
    pub closed spec fn coeffs(&self) -> BinaryMatrix {
        self.inactive_coeff_matrix
    }

    /// Right-hand side data ID of equation `e`.
    pub closed spec fn eq_data_id(&self, e: int) -> usize {
        self.sparse_equations@[e].data_id
    }

    /// Active variables of equation `e`.
    pub closed spec fn eq_active(&self, e: int) -> Seq<usize> {
        active_items(self.sparse_equations@[e].active_var_ids)
    }

    /// Queue of equations to solve.
    pub closed spec fn solvable(&self) -> Seq<usize> {
        self.solvable_equations@
    }

    /// Whether back-substitution peers are built.
    pub closed spec fn has_peers(&self) -> bool {
        self.bs_peers is Some
    }

    /// A back-substitution pass records the same operations on systems with
    /// the same variables, peer lists and equation data IDs.
    pub proof fn lemma_peer_pass_ops_congruent(&self, o: &Self, base: int, reverse: bool, k: int)
        requires
            self.same_vars(o),
            self.peer_lists() == o.peer_lists(),
            forall|e: int| #[trigger] self.eq_data_id(e) == o.eq_data_id(e),
        ensures
            self.peer_pass_ops(base, reverse, k) == o.peer_pass_ops(base, reverse, k),
        decreases k,
    {
        if k > 0 {
            self.lemma_peer_pass_ops_congruent(o, base, reverse, k - 1);
            let pos = if reverse {
                self.peer_steps() - k
            } else {
                k - 1
            };
            if pos < self.peer_lists().len() {
                assert(self.peer_targets(pos) =~= o.peer_targets(pos));
            }
        }
    }

    /// The peer lists of back-substitution (empty when not built).
    pub closed spec fn peer_lists(&self) -> Seq<VarAdjacentList> {
        match self.bs_peers {
            Some(p) => p@,
            None => Seq::empty(),
        }
    }

    /// Data IDs of the equations in the peer list of decoded position `pos`.
    pub open spec fn peer_targets(&self, pos: int) -> Seq<usize> {
        if pos < self.peer_lists().len() {
            adjacent_items(self.peer_lists()[pos]).map_values(|e: usize| self.eq_data_id(e as int))
        } else {
            seq![]
        }
    }

    /// Number of positions a back-substitution pass visits.
    pub open spec fn peer_steps(&self) -> int {
        if self.decoded() > 0 {
            self.decoded() - 1
        } else {
            0
        }
    }

    /// The operations of the first `k` steps of a back-substitution pass
    /// (variable vectors from data ID `base`): at each visited position, the
    /// decoded variable's vector added into the vectors of its peers; the
    /// positions run downwards when `reverse`, upwards otherwise.
    pub open spec fn peer_pass_ops(&self, base: int, reverse: bool, k: int) -> Seq<OpView>
        decreases k,
    {
        if k <= 0 {
            seq![]
        } else {
            let pos = if reverse {
                self.peer_steps() - k
            } else {
                k - 1
            };
            self.peer_pass_ops(base, reverse, k - 1) + broadcast_ops(
                (self.var_order()[pos] + base) as usize,
                self.peer_targets(pos),
            )
        }
    }

    /// Number of variables, `k + l + h`.
    pub open spec fn total(&self) -> int {
        self.spec_params().total()
    }

    /// End of the active region of [`Self::var_order`].
    pub open spec fn active_end(&self) -> int {
        self.total() - self.inactive()
    }

    /// Column of the `x`-th inactive position of [`Self::var_order`]: the
    /// pre-inactive variables take columns `0..original_inactive` in order,
    /// and dynamically inactivated variables follow in the order in which
    /// they were inactivated (the newest, at inactive position zero, has the
    /// last column).
    pub open spec fn matrix_seq(&self, x: int) -> int {
        let n = self.inactive();
        let m = n - self.original_inactive();
        if x < m {
            n - x - 1
        } else {
            x - m
        }
    }

    /// The inactive positions get distinct columns inside the inactive
    /// matrix: [`Self::matrix_seq`] permutes `0..inactive`, so the columns
    /// that [`Self::iter_inactive_var`] reports are exactly `0..inactive`.
    pub proof fn lemma_inactive_columns_distinct(&self, x: int, y: int)
        requires
            self.wf(),
            0 <= x < self.inactive(),
            0 <= y < self.inactive(),
            x != y,
        ensures
            0 <= self.matrix_seq(x) < self.inactive(),
            self.matrix_seq(x) != self.matrix_seq(y),
    {
    }

    /// Status of variable `v`, read from its position.
    pub open spec fn status(&self, v: int) -> VariableStatus {
        let pos = self.var_position()[v] as int;
        if pos < self.decoded() {
            VariableStatus::Decoded { equ_id: self.equ_order()[pos] }
        } else if pos >= self.active_end() {
            VariableStatus::Inactive { seq: self.matrix_seq(pos - self.active_end()) as usize }
        } else {
            VariableStatus::Active
        }
    }

    /// Variable `v` is active.
    pub open spec fn is_active(&self, v: int) -> bool {
        self.decoded() <= self.var_position()[v] < self.active_end()
    }

    /// `v` is the least message or LDPC variable that is active.
    pub open spec fn is_first_active_index(&self, v: int) -> bool {
        &&& 0 <= v < self.spec_params().a + self.spec_params().l
        &&& self.is_active(v)
        &&& forall|u: int| 0 <= u < v ==> !#[trigger] self.is_active(u)
    }

    /// The least active message or LDPC variable, `None` when there is none.
    pub open spec fn first_active_index(&self) -> Option<usize> {
        if exists|v: int| self.is_first_active_index(v) {
            Some((choose|v: int| self.is_first_active_index(v)) as usize)
        } else {
            None
        }
    }

    /// Another variable may be inactivated: fewer than the cap are inactive,
    /// every message and LDPC equation has arrived, and an active variable is left.
    pub open spec fn can_inactivate(&self) -> bool {
        &&& self.inactive() < self.max_inactive()
        &&& self.equations() >= self.spec_params().k + self.spec_params().l
        &&& self.decoded() < self.active_end()
    }

    /// The active variables of `ds`, in order.
    pub open spec fn active_part(&self, ds: Seq<usize>) -> Seq<usize>
        decreases ds.len(),
    {
        if ds.len() == 0 {
            seq![]
        } else {
            self.active_part(ds.drop_last()) + (if self.status(ds.last() as int) is Active {
                seq![ds.last()]
            } else {
                seq![]
            })
        }
    }

    /// The operations that substitute the decoded variables of `ds` into the
    /// vector `data_id`: each adds its solving equation's vector.
    pub open spec fn substitution_ops(&self, ds: Seq<usize>, data_id: usize) -> Seq<OpView>
        decreases ds.len(),
    {
        if ds.len() == 0 {
            seq![]
        } else {
            self.substitution_ops(ds.drop_last(), data_id) + (match self.status(ds.last() as int) {
                VariableStatus::Decoded { equ_id } => seq![
                    OpView::AddOneToVector { src_id: self.eq_data_id(equ_id as int), target_id: data_id },
                ],
                _ => seq![],
            })
        }
    }

    /// Structural consistency of the master system.
    pub closed spec fn wf(&self) -> bool {
        let neq = self.sparse_equations@.len() as int;
        &&& self.params.wf()
        &&& self.var_ids.wf()
        &&& self.var_ids.order().len() == self.params.total()
        &&& self.equation_ids.wf()
        &&& self.equation_ids.order().len() == neq
        &&& self.num_decoded + self.num_inactive <= self.params.total()
        &&& self.num_decoded <= neq
        &&& self.num_original_inactive <= self.num_inactive <= self.max_inactive_num
        &&& self.inactive_coeff_matrix.wf()
        &&& self.inactive_coeff_matrix@.len() == neq
        &&& self.inactive_coeff_matrix.spec_width() == self.max_inactive_num
        &&& self.var_adjacent@.len() == self.params.total()
        &&& forall|v: int|
            0 <= v < self.var_adjacent@.len() ==> #[trigger] all_below(adjacent_items(self.var_adjacent@[v]), neq)
        &&& forall|e: int|
            0 <= e < neq ==> #[trigger] all_below(
                active_items(self.sparse_equations@[e].active_var_ids),
                self.params.total(),
            )
        &&& all_below(self.solvable_equations@, neq)
        &&& self.bs_peers matches Some(p) ==> forall|i: int|
            0 <= i < p@.len() ==> #[trigger] all_below(adjacent_items(p@[i]), neq)
    }

    /// What a consistent master system guarantees.
    pub proof fn lemma_wf(&self)
        requires
            self.wf(),
        ensures
            self.spec_params().wf(),
            0 <= self.decoded(),
            self.decoded() + self.inactive() <= self.total(),
            self.decoded() <= self.equations(),
            0 <= self.original_inactive() <= self.inactive() <= self.max_inactive(),
            self.coeffs().wf(),
            self.coeffs()@.len() == self.equations(),
            self.coeffs().spec_width() == self.max_inactive(),
            self.var_order().len() == self.total(),
            self.var_position().len() == self.total(),
            self.equ_order().len() == self.equations(),
            forall|i: int| 0 <= i < self.total() ==> #[trigger] self.var_order()[i] < self.total(),
            forall|v: int| 0 <= v < self.total() ==> #[trigger] self.var_position()[v] < self.total(),
            forall|i: int| 0 <= i < self.total() ==> #[trigger] self.var_position()[self.var_order()[i] as int] == i,
            forall|i: int| 0 <= i < self.equations() ==> #[trigger] self.equ_order()[i] < self.equations(),
    {
    }

    /// Creates the master system with every variable active but the `b + h`
    /// pre-inactive ones, and no equations.
    pub fn new(params: &CodeParams, max_inactive_num: usize, inac_strategy: InactivationStrategy) -> (r: Self)
        requires
            params.wf(),
            params.b + params.h <= max_inactive_num,
            max_inactive_num + 64 < usize::MAX,
        ensures
            r.wf(),
            r.spec_params() == *params,
            r.decoded() == 0,
            r.inactive() == params.b + params.h,
            r.original_inactive() == params.b + params.h,
            r.max_inactive() == max_inactive_num,
            r.strategy() == inac_strategy,
            r.equations() == 0,
            r.var_order() == id_range(0, params.total()),
            r.var_position() == id_range(0, params.total()),
            r.solvable() == Seq::<usize>::empty(),
            !r.has_peers(),
    {
        let num_total = params.num_total();
        let num_inactive = params.num_inactive();
        let mut var_adjacent: Vec<VarAdjacentList> = Vec::with_capacity(num_total);
        let mut i: usize = 0;
        while i < num_total
            invariant
                i <= num_total,
                var_adjacent@.len() == i,
                forall|v: int| 0 <= v < i ==> #[trigger] adjacent_items(var_adjacent@[v]) == Seq::<usize>::empty(),
            decreases num_total - i,
        {
            var_adjacent.push(adjacent_new());
            i += 1;
        }
        let r = SparseSystem {
            params: *params,
            num_decoded: 0,
            num_original_inactive: num_inactive,
            num_inactive,
            max_inactive_num,
            inac_strategy,
            var_ids: IDPosition::new(num_total),
            var_adjacent,
            inactive_coeff_matrix: BinaryMatrix::new(max_inactive_num),
            sparse_equations: Vec::new(),
            equation_ids: IDPosition::new(0),
            solvable_equations: VecDeque::new(),
            scratch_targets: Vec::with_capacity(16),
            bs_peers: None,
        };
        assert forall|v: int| 0 <= v < r.var_adjacent@.len() implies #[trigger] all_below(
            adjacent_items(r.var_adjacent@[v]),
            0,
        ) by {
            assert(adjacent_items(r.var_adjacent@[v]) == Seq::<usize>::empty());
        }
        r
    }

    /// Column in the inactive matrix of the `var_id_seq`-th inactive position
    /// (see [`Self::matrix_seq`]).
    fn inactive_matrix_seq(&self, var_id_seq: usize) -> (r: usize)
        requires
            self.wf(),
            var_id_seq < self.inactive(),
        ensures
            r == self.matrix_seq(var_id_seq as int),
            r < self.inactive(),
    {
        let n = self.num_inactive;
        let m = n - self.num_original_inactive;
        if var_id_seq < m {
            n - var_id_seq - 1
        } else {
            var_id_seq - m
        }
    }

    /// The status of a variable: decoded (with its equation), inactive (with
    /// its column) or active.
    pub fn var_status(&self, var_id: usize) -> (r: VariableStatus)
        requires
            self.wf(),
            var_id < self.total(),
        ensures
            r == self.status(var_id as int),
            r matches VariableStatus::Decoded { equ_id } ==> equ_id < self.equations(),
            r matches VariableStatus::Inactive { seq } ==> seq < self.inactive(),
    {
        let pos = self.var_ids.pos_of(var_id);
        let total = self.params.num_total();
        if pos < self.num_decoded {
            VariableStatus::Decoded { equ_id: self.equation_ids.id_at(pos) }
        } else if pos >= total - self.num_inactive {
            VariableStatus::Inactive { seq: self.inactive_matrix_seq(pos - (total - self.num_inactive)) }
        } else {
            VariableStatus::Active
        }
    }

    /// Appends `x` to adjacency list `v` (a list that already holds
    /// `usize::MAX` entries is left as it is).
    fn push_adjacent(lists: &mut Vec<VarAdjacentList>, v: usize, x: usize)
        requires
            v < old(lists)@.len(),
        ensures
            final(lists)@.len() == old(lists)@.len(),
            forall|u: int| 0 <= u < old(lists)@.len() && u != v ==> #[trigger] final(lists)@[u] == old(lists)@[u],
            forall|n: int|
                all_below(adjacent_items(old(lists)@[v as int]), n) && x < n ==> #[trigger] all_below(
                    adjacent_items(final(lists)@[v as int]),
                    n,
                ),
            adjacent_items(final(lists)@[v as int]) == (if adjacent_items(old(lists)@[v as int]).len() < usize::MAX {
                adjacent_items(old(lists)@[v as int]).push(x)
            } else {
                adjacent_items(old(lists)@[v as int])
            }),
    {
        let mut list = adjacent_new();
        std::mem::swap(&mut list, &mut lists[v]);
        if adjacent_len(&list) < usize::MAX {
            adjacent_push(&mut list, x);
        }
        lists.set(v, list);
    }

    /// The variables, their order and the counters of `self` and `o` agree.
    pub open spec fn same_vars(&self, o: &Self) -> bool {
        &&& self.spec_params() == o.spec_params()
        &&& self.decoded() == o.decoded()
        &&& self.inactive() == o.inactive()
        &&& self.original_inactive() == o.original_inactive()
        &&& self.max_inactive() == o.max_inactive()
        &&& self.strategy() == o.strategy()
        &&& self.var_order() == o.var_order()
        &&& self.var_position() == o.var_position()
        &&& self.has_peers() == o.has_peers()
    }

    /// The manager stays consistent, with its layout and allocation state,
    /// and its log only grew.
    pub open spec fn manager_kept(m: &DataManager, o: &DataManager) -> bool {
        &&& m.wf()
        &&& m.same_layout(o)
        &&& m.next_id() == o.next_id()
        &&& m.coded() == o.coded()
        &&& m.log_grows(o)
    }

    /// All fields but the coefficient matrix and the adjacency lists agree.
    spec fn same_but_rows(&self, o: &Self) -> bool {
        &&& self.params == o.params
        &&& self.num_decoded == o.num_decoded
        &&& self.num_inactive == o.num_inactive
        &&& self.num_original_inactive == o.num_original_inactive
        &&& self.max_inactive_num == o.max_inactive_num
        &&& self.inac_strategy == o.inac_strategy
        &&& self.var_ids == o.var_ids
        &&& self.equation_ids == o.equation_ids
        &&& self.sparse_equations == o.sparse_equations
        &&& self.solvable_equations == o.solvable_equations
        &&& self.bs_peers == o.bs_peers
    }

    /// Adjacency lists point below `n`.
    spec fn adjacency_below(&self, n: int) -> bool {
        forall|v: int| 0 <= v < self.var_adjacent@.len() ==> #[trigger] all_below(adjacent_items(self.var_adjacent@[v]), n)
    }

    /// Takes equation `e` out of the list, leaving a placeholder.
    fn take_equation(&mut self, e: usize) -> (r: SparseEquation)
        requires
            e < old(self).sparse_equations@.len(),
        ensures
            r == old(self).sparse_equations@[e as int],
            final(self).sparse_equations@.len() == old(self).sparse_equations@.len(),
            forall|t: int|
                0 <= t < old(self).sparse_equations@.len() && t != e ==> #[trigger] final(self).sparse_equations@[t]
                    == old(self).sparse_equations@[t],
            active_items(final(self).sparse_equations@[e as int].active_var_ids) == Seq::<usize>::empty(),
            final(self).params == old(self).params,
            final(self).num_decoded == old(self).num_decoded,
            final(self).num_original_inactive == old(self).num_original_inactive,
            final(self).num_inactive == old(self).num_inactive,
            final(self).max_inactive_num == old(self).max_inactive_num,
            final(self).inac_strategy == old(self).inac_strategy,
            final(self).var_ids == old(self).var_ids,
            final(self).var_adjacent == old(self).var_adjacent,
            final(self).inactive_coeff_matrix == old(self).inactive_coeff_matrix,
            final(self).equation_ids == old(self).equation_ids,
            final(self).solvable_equations == old(self).solvable_equations,
            final(self).bs_peers == old(self).bs_peers,
    {
        let mut eq = SparseEquation { data_id: 0, active_var_ids: active_new() };
        std::mem::swap(&mut eq, &mut self.sparse_equations[e]);
        eq
    }

    /// Adds LDPC constraint `ldpc_id`: a fresh zero data vector for coded ID
    /// `k + ldpc_id`, the active variables of its row of `S_a` plus its own
    /// LDPC variable `a + ldpc_id`, and the inactive coefficients of its row
    /// of `S_i`. Indices outside the system are left out.
    fn add_ldpc_constraint_by_id(&mut self, manager: &mut DataManager, ldpc: &dyn LDPC, ldpc_id: usize)
        requires
            old(self).wf(),
            old(manager).wf(),
            old(manager).spec_params() == old(self).spec_params(),
            old(manager).next_id() < usize::MAX,
            old(self).equations() + 1 < usize::MAX,
            ldpc_id < old(self).spec_params().l,
        ensures
            final(self).wf(),
            final(self).same_vars(old(self)),
            final(self).equations() == old(self).equations() + 1,
            final(manager).wf(),
            final(manager).same_layout(old(manager)),
            final(manager).log_grows(old(manager)),
            final(manager).next_id() == old(manager).next_id() + 1,
            final(manager).keeps_coded_ids(old(manager)),
            final(manager).coded() == old(manager).coded().insert(
                (old(self).spec_params().k + ldpc_id) as usize,
                old(manager).next_id(),
            ),
    {
        let data_id = manager.coded_data_id(self.params.k + ldpc_id);
        let row_active = ldpc.active_row(ldpc_id);
        let inactive_var_ids = ldpc.inactive_row(ldpc_id);
        proof {
            self.lemma_wf();
        }
        self.add_ldpc_rows(data_id, ldpc_id, row_active.as_slice(), inactive_var_ids.as_slice());
    }

    /// `s1` is `s0` with LDPC check `ldpc_id` added as its last equation:
    /// right-hand side `data_id`, active variables those of `row_active`
    /// below the number of variables followed by the check's own LDPC
    /// variable `a + ldpc_id`, inactive coefficients at the columns of
    /// `row_inactive`.
    pub open spec fn ldpc_check_added(
        s0: &Self,
        s1: &Self,
        data_id: usize,
        ldpc_id: usize,
        row_active: Seq<usize>,
        row_inactive: Seq<usize>,
    ) -> bool {
        &&& s1.equations() == s0.equations() + 1
        &&& s1.eq_data_id(s0.equations()) == data_id
        &&& s1.eq_active(s0.equations()) == entries_below(row_active, s0.total()).push(
            (s0.spec_params().a + ldpc_id) as usize,
        )
        &&& forall|c: int|
            0 <= c < s0.max_inactive() ==> (#[trigger] s1.coeffs().bit(s0.equations(), c) <==> row_inactive.contains(
                c as usize,
            ))
    }

    /// An LDPC check holds its own LDPC variable `a + ldpc_id`, last, and
    /// besides it exactly the variables of its active row that are below
    /// the number of variables; an inactive column has a coefficient exactly
    /// when the inactive row names it.
    pub proof fn lemma_ldpc_check_law(
        s0: &Self,
        s1: &Self,
        data_id: usize,
        ldpc_id: usize,
        row_active: Seq<usize>,
        row_inactive: Seq<usize>,
    )
        requires
            Self::ldpc_check_added(s0, s1, data_id, ldpc_id, row_active, row_inactive),
        ensures
            s1.eq_active(s0.equations()).last() == (s0.spec_params().a + ldpc_id) as usize,
            forall|v: usize|
                #[trigger] s1.eq_active(s0.equations()).contains(v) <==> (v == (s0.spec_params().a + ldpc_id) as usize
                    || (row_active.contains(v) && v < s0.total())),
            forall|c: usize|
                c < s0.max_inactive() ==> (#[trigger] s1.coeffs().bit(s0.equations(), c as int) <==> row_inactive.contains(c)),
    {
        let own = (s0.spec_params().a + ldpc_id) as usize;
        let eq = s1.eq_active(s0.equations());
        lemma_entries_below_contains(row_active, s0.total());
        assert forall|v: usize| #[trigger] eq.contains(v) <==> (v == own || (row_active.contains(v) && v < s0.total())) by {
            let es = entries_below(row_active, s0.total());
            if eq.contains(v) {
                let w = choose|w: int| 0 <= w < eq.len() && #[trigger] eq[w] == v;
                if w < es.len() {
                    assert(es[w] == v);
                    assert(es.contains(v));
                }
            }
            if v == own {
                assert(eq[es.len() as int] == v);
            } else if row_active.contains(v) && v < s0.total() {
                assert(es.contains(v));
                let w = choose|w: int| 0 <= w < es.len() && #[trigger] es[w] == v;
                assert(eq[w] == v);
            }
        }
        assert forall|c: usize| c < s0.max_inactive() implies (#[trigger] s1.coeffs().bit(s0.equations(), c as int)
            <==> row_inactive.contains(c)) by {
            assert(0 <= c as int);
        }
    }

    /// Adds LDPC constraint `ldpc_id` from its rows: the check's right-hand
    /// side is `data_id`, its active variables are those of `row_active`
    /// below the number of variables followed by its own LDPC variable
    /// `a + ldpc_id`, and its inactive coefficients are the columns of
    /// `inactive_var_ids` (those below the cap).
    pub fn add_ldpc_rows(&mut self, data_id: usize, ldpc_id: usize, row_active: &[usize], inactive_var_ids: &[usize])
        requires
            old(self).wf(),
            old(self).equations() + 1 < usize::MAX,
            ldpc_id < old(self).spec_params().l,
        ensures
            final(self).wf(),
            final(self).same_vars(old(self)),
            Self::ldpc_check_added(old(self), final(self), data_id, ldpc_id, row_active@, inactive_var_ids@),
    {
        let total = self.params.num_total();
        let next = self.sparse_equations.len();
        self.inactive_coeff_matrix.push_row();
        proof {
            assert forall|c: int| 0 <= c < 64 * self.inactive_coeff_matrix.spec_wpr() implies !#[trigger] row_bit(
                self.inactive_coeff_matrix@[next as int],
                c,
            ) by {
                lemma_zero_row_bits(self.inactive_coeff_matrix.spec_wpr() as int, c);
            }
        }
        let mut t: usize = 0;
        while t < inactive_var_ids.len()
            invariant
                old(self).wf(),
                self.same_but_rows(old(self)),
                self.var_adjacent == old(self).var_adjacent,
                next == self.sparse_equations@.len(),
                total == self.params.total(),
                self.inactive_coeff_matrix.wf(),
                self.inactive_coeff_matrix@.len() == next + 1,
                self.inactive_coeff_matrix.spec_width() == self.max_inactive_num,
                t <= inactive_var_ids@.len(),
                forall|c: int|
                    0 <= c < self.max_inactive_num ==> (#[trigger] row_bit(self.inactive_coeff_matrix@[next as int], c)
                        <==> inactive_var_ids@.take(t as int).contains(c as usize)),
            decreases inactive_var_ids@.len() - t,
        {
            let idx = inactive_var_ids[t];
            proof {
                assert(inactive_var_ids@.take(t + 1) =~= inactive_var_ids@.take(t as int).push(idx));
            }
            if idx < self.max_inactive_num {
                self.inactive_coeff_matrix.set(next, idx);
            }
            proof {
                assert forall|c: int| 0 <= c < self.max_inactive_num implies (#[trigger] row_bit(
                    self.inactive_coeff_matrix@[next as int],
                    c,
                ) <==> inactive_var_ids@.take(t + 1).contains(c as usize)) by {
                    if inactive_var_ids@.take(t as int).contains(c as usize) {
                        let w = choose|w: int| 0 <= w < t && #[trigger] inactive_var_ids@.take(t as int)[w] == c as usize;
                        assert(inactive_var_ids@.take(t + 1)[w] == c as usize);
                    }
                    if inactive_var_ids@.take(t + 1).contains(c as usize) {
                        let w = choose|w: int| 0 <= w < t + 1 && #[trigger] inactive_var_ids@.take(t + 1)[w] == c as usize;
                        if w < t {
                            assert(inactive_var_ids@.take(t as int)[w] == c as usize);
                        }
                    }
                    if idx as int == c {
                        assert(inactive_var_ids@.take(t + 1)[t as int] == idx);
                    }
                }
            }
            t += 1;
        }
        assert(inactive_var_ids@.take(inactive_var_ids@.len() as int) =~= inactive_var_ids@);
        let ghost coeffs_done = self.inactive_coeff_matrix;
        proof {
            assert forall|v: int| 0 <= v < self.var_adjacent@.len() implies #[trigger] all_below(
                adjacent_items(self.var_adjacent@[v]),
                next + 1,
            ) by {
                assert(all_below(adjacent_items(self.var_adjacent@[v]), next as int));
            }
        }
        let mut active: Vec<usize> = Vec::new();
        let mut t: usize = 0;
        while t < row_active.len()
            invariant
                old(self).wf(),
                self.same_but_rows(old(self)),
                self.var_adjacent == old(self).var_adjacent,
                next == self.sparse_equations@.len(),
                total == self.params.total(),
                self.inactive_coeff_matrix.wf(),
                self.inactive_coeff_matrix@.len() == next + 1,
                self.inactive_coeff_matrix.spec_width() == self.max_inactive_num,
                ldpc_id < self.params.l,
                t <= row_active@.len(),
                active@.len() <= t,
                all_below(active@, total as int),
                self.inactive_coeff_matrix == coeffs_done,
                active@ == entries_below(row_active@.take(t as int), total as int),
            decreases row_active@.len() - t,
        {
            let v = row_active[t];
            proof {
                assert(row_active@.take(t + 1).drop_last() =~= row_active@.take(t as int));
            }
            if v < total {
                active.push(v);
            }
            t += 1;
        }
        assert(row_active@.take(row_active@.len() as int) =~= row_active@);
        let own = self.params.a + ldpc_id;
        active.push(own);
        let ghost active0 = active@;
        let mut t: usize = 0;
        while t < active.len()
            invariant
                old(self).wf(),
                self.same_but_rows(old(self)),
                self.inactive_coeff_matrix.wf(),
                self.inactive_coeff_matrix@.len() == next + 1,
                self.inactive_coeff_matrix.spec_width() == self.max_inactive_num,
                total == self.params.total(),
                next == self.sparse_equations@.len(),
                self.var_adjacent@.len() == total,
                all_below(active@, total as int),
                self.inactive_coeff_matrix == coeffs_done,
                active@ == active0,
                t <= active@.len(),
                forall|v: int|
                    0 <= v < self.var_adjacent@.len() ==> #[trigger] all_below(
                        adjacent_items(self.var_adjacent@[v]),
                        next + 1,
                    ),
            decreases active@.len() - t,
        {
            let v = active[t];
            let ghost before = self.var_adjacent@;
            Self::push_adjacent(&mut self.var_adjacent, v, next);
            assert forall|u: int| 0 <= u < self.var_adjacent@.len() implies #[trigger] all_below(
                adjacent_items(self.var_adjacent@[u]),
                next + 1,
            ) by {
                if u != v {
                    assert(self.var_adjacent@[u] == before[u]);
                }
            }
            t += 1;
        }
        let eq = SparseEquation { data_id, active_var_ids: active_from_vec(active) };
        let deg = eq.degree();
        self.sparse_equations.push(eq);
        self.equation_ids.push_next();
        if deg == 1 {
            self.solvable_equations.push_back(next);
        }
        proof {
            let neq = self.sparse_equations@.len() as int;
            assert forall|e: int| 0 <= e < neq implies #[trigger] all_below(
                active_items(self.sparse_equations@[e].active_var_ids),
                self.params.total(),
            ) by {
                if e < next {
                    assert(self.sparse_equations@[e] == old(self).sparse_equations@[e]);
                }
            }
            assert forall|i: int| 0 <= i < self.solvable_equations@.len() implies #[trigger] self.solvable_equations@[i] < neq by {
                if i < old(self).solvable_equations@.len() {
                    assert(self.solvable_equations@[i] == old(self).solvable_equations@[i]);
                }
            }
            if self.bs_peers is Some {
                let p = self.bs_peers->0;
                assert forall|i: int| 0 <= i < p@.len() implies #[trigger] all_below(adjacent_items(p@[i]), neq) by {
                    assert(all_below(adjacent_items(p@[i]), next as int));
                }
            }
        }
    }

    /// Adds all `l` LDPC constraints.
    pub fn add_ldpc_constraints(&mut self, manager: &mut DataManager, ldpc: &dyn LDPC)
        requires
            old(self).wf(),
            old(manager).wf(),
            old(manager).spec_params() == old(self).spec_params(),
            old(manager).next_id() + old(self).spec_params().l < usize::MAX,
            old(self).equations() + old(self).spec_params().l < usize::MAX,
        ensures
            final(self).wf(),
            final(self).same_vars(old(self)),
            final(self).equations() == old(self).equations() + old(self).spec_params().l,
            final(manager).wf(),
            final(manager).same_layout(old(manager)),
            final(manager).log_grows(old(manager)),
            final(manager).next_id() == old(manager).next_id() + old(self).spec_params().l,
            final(manager).keeps_coded_ids(old(manager)),
            forall|c: usize|
                #[trigger] final(manager).coded().contains_key(c) <==> old(manager).coded().contains_key(c) || (
                old(self).spec_params().k <= c < old(self).spec_params().k + old(self).spec_params().l),
    {
        let l = self.params.l;
        let mut ldpc_id: usize = 0;
        while ldpc_id < l
            invariant
                self.wf(),
                self.same_vars(old(self)),
                l == self.spec_params().l,
                ldpc_id <= l,
                self.equations() == old(self).equations() + ldpc_id,
                manager.wf(),
                manager.same_layout(old(manager)),
                manager.log_grows(old(manager)),
                manager.spec_params() == self.spec_params(),
                manager.next_id() == old(manager).next_id() + ldpc_id,
                manager.keeps_coded_ids(old(manager)),
                forall|c: usize|
                    #[trigger] manager.coded().contains_key(c) <==> old(manager).coded().contains_key(c) || (
                    self.spec_params().k <= c < self.spec_params().k + ldpc_id),
                old(manager).next_id() + l < usize::MAX,
                old(self).equations() + l < usize::MAX,
            decreases l - ldpc_id,
        {
            self.add_ldpc_constraint_by_id(manager, ldpc, ldpc_id);
            ldpc_id += 1;
        }
    }

    /// Adds one LT-coded vector with right-hand side `data_id` and variables
    /// `degree_set`; returns its equation index. Decoded variables are
    /// substituted at once (their data vector and coefficients are added in),
    /// inactive ones set their coefficient, active ones stay in the equation.
    pub fn add_lt_coded_vector(&mut self, manager: &mut DataManager, data_id: usize, degree_set: &[usize]) -> (r: usize)
        requires
            old(self).wf(),
            old(manager).wf(),
            old(manager).spec_params() == old(self).spec_params(),
            old(self).equations() + 1 < usize::MAX,
            all_below(degree_set@, old(self).total()),
        ensures
            final(self).wf(),
            final(self).same_vars(old(self)),
            r == old(self).equations(),
            final(self).equations() == old(self).equations() + 1,
            final(self).eq_data_id(r as int) == data_id,
            final(self).eq_active(r as int) == old(self).active_part(degree_set@),
            final(self).solvable() == old(self).solvable() + (if old(self).active_part(degree_set@).len() == 1 {
                seq![r]
            } else {
                seq![]
            }),
            Self::manager_kept(final(manager), old(manager)),
            final(manager).logged(old(manager), old(self).substitution_ops(degree_set@, data_id)),
    {
        let next = self.sparse_equations.len();
        self.inactive_coeff_matrix.push_row();
        let mut active = active_new();
        let num_inactive = self.num_inactive;
        proof {
            assert forall|v: int| 0 <= v < self.var_adjacent@.len() implies #[trigger] all_below(
                adjacent_items(self.var_adjacent@[v]),
                next + 1,
            ) by {
                assert(all_below(adjacent_items(self.var_adjacent@[v]), next as int));
            }
        }
        let mut i: usize = 0;
        while i < degree_set.len()
            invariant
                self.params == old(self).params,
                self.num_decoded == old(self).num_decoded,
                self.num_inactive == old(self).num_inactive,
                self.num_original_inactive == old(self).num_original_inactive,
                self.max_inactive_num == old(self).max_inactive_num,
                self.inac_strategy == old(self).inac_strategy,
                self.var_ids == old(self).var_ids,
                self.equation_ids == old(self).equation_ids,
                self.sparse_equations == old(self).sparse_equations,
                self.solvable_equations == old(self).solvable_equations,
                self.bs_peers == old(self).bs_peers,
                old(self).wf(),
                num_inactive == self.num_inactive,
                next == self.sparse_equations@.len(),
                self.inactive_coeff_matrix.wf(),
                self.inactive_coeff_matrix@.len() == next + 1,
                self.inactive_coeff_matrix.spec_width() == self.max_inactive_num,
                self.var_adjacent@.len() == self.params.total(),
                forall|v: int|
                    0 <= v < self.var_adjacent@.len() ==> #[trigger] all_below(
                        adjacent_items(self.var_adjacent@[v]),
                        next + 1,
                    ),
                all_below(active_items(active), self.params.total()),
                active_items(active).len() <= i,
                i <= degree_set@.len(),
                all_below(degree_set@, self.params.total()),
                Self::manager_kept(manager, old(manager)),
                manager.spec_params() == self.params,
                active_items(active) == old(self).active_part(degree_set@.take(i as int)),
                manager.logged(old(manager), old(self).substitution_ops(degree_set@.take(i as int), data_id)),
            decreases degree_set@.len() - i,
        {
            let var_id = degree_set[i];
            let ghost m_before = *manager;
            proof {
                assert(degree_set@.take(i + 1).drop_last() =~= degree_set@.take(i as int));
            }
            let status = self.var_status_raw(var_id);
            match status {
                VariableStatus::Decoded { equ_id } => {
                    let src = self.sparse_equations[equ_id].data_id;
                    manager.add_one_to_vector(src, data_id);
                    proof {
                        DataManager::lemma_logged_trans(
                            &old(manager),
                            &m_before,
                            manager,
                            old(self).substitution_ops(degree_set@.take(i as int), data_id),
                            seq![OpView::AddOneToVector { src_id: src, target_id: data_id }],
                        );
                    }
                    self.inactive_coeff_matrix.xor_rows(next, equ_id, num_inactive);
                },
                VariableStatus::Active => {
                    let ghost before_active = active_items(active);
                    active_push(&mut active, var_id);
                    let ghost before = self.var_adjacent@;
                    Self::push_adjacent(&mut self.var_adjacent, var_id, next);
                    assert forall|u: int| 0 <= u < self.var_adjacent@.len() implies #[trigger] all_below(
                        adjacent_items(self.var_adjacent@[u]),
                        next + 1,
                    ) by {
                        if u != var_id {
                            assert(self.var_adjacent@[u] == before[u]);
                        }
                    }
                    assert forall|t: int| 0 <= t < active_items(active).len() implies #[trigger] active_items(active)[t] < self.params.total() by {
                        if t < before_active.len() {
                            assert(active_items(active)[t] == before_active[t]);
                        }
                    }
                },
                VariableStatus::Inactive { seq } => {
                    self.inactive_coeff_matrix.flip(next, seq);
                },
            }
            proof {
                let t = degree_set@.take(i + 1);
                assert(old(self).substitution_ops(degree_set@.take(i as int), data_id) + seq![]
                    =~= old(self).substitution_ops(degree_set@.take(i as int), data_id));
            }
            i += 1;
        }
        proof {
            assert(degree_set@.take(degree_set@.len() as int) =~= degree_set@);
        }
        let eq = SparseEquation { data_id, active_var_ids: active };
        let deg = eq.degree();
        self.sparse_equations.push(eq);
        self.equation_ids.push_next();
        if deg == 1 {
            self.solvable_equations.push_back(next);
        }
        proof {
            let neq = self.sparse_equations@.len() as int;
            assert forall|e: int| 0 <= e < neq implies #[trigger] all_below(
                active_items(self.sparse_equations@[e].active_var_ids),
                self.params.total(),
            ) by {
                if e < next {
                    assert(self.sparse_equations@[e] == old(self).sparse_equations@[e]);
                }
            }
            assert forall|i: int| 0 <= i < self.solvable_equations@.len() implies #[trigger] self.solvable_equations@[i] < neq by {
                if i < old(self).solvable_equations@.len() {
                    assert(self.solvable_equations@[i] == old(self).solvable_equations@[i]);
                }
            }
            if self.bs_peers is Some {
                let p = self.bs_peers->0;
                assert forall|i: int| 0 <= i < p@.len() implies #[trigger] all_below(adjacent_items(p@[i]), neq) by {
                    assert(all_below(adjacent_items(p@[i]), next as int));
                }
            }
        }
        next
    }

    /// [`Self::var_status`] on the fields alone, for use while an equation is
    /// being added.
    fn var_status_raw(&self, var_id: usize) -> (r: VariableStatus)
        requires
            self.params.wf(),
            self.var_ids.wf(),
            self.var_ids.order().len() == self.params.total(),
            self.equation_ids.wf(),
            self.equation_ids.order().len() == self.sparse_equations@.len(),
            self.num_decoded + self.num_inactive <= self.params.total(),
            self.num_decoded <= self.sparse_equations@.len(),
            self.num_original_inactive <= self.num_inactive,
            var_id < self.params.total(),
        ensures
            r matches VariableStatus::Decoded { equ_id } ==> equ_id < self.sparse_equations@.len(),
            r matches VariableStatus::Inactive { seq } ==> seq < self.num_inactive,
            r is Active ==> self.num_decoded <= self.var_ids.position()[var_id as int] < self.params.total() - self.num_inactive,
            r == self.status(var_id as int),
    {
        let pos = self.var_ids.pos_of(var_id);
        let total = self.params.num_total();
        if pos < self.num_decoded {
            VariableStatus::Decoded { equ_id: self.equation_ids.id_at(pos) }
        } else if pos >= total - self.num_inactive {
            let x = pos - (total - self.num_inactive);
            let n = self.num_inactive;
            let m = n - self.num_original_inactive;
            let seq = if x < m {
                n - x - 1
            } else {
                x - m
            };
            VariableStatus::Inactive { seq }
        } else {
            VariableStatus::Active
        }
    }

    /// Adds `src` into every data vector of the scratch target list, then
    /// empties the list.
    fn broadcast_src_to_scratch_targets(&mut self, manager: &mut DataManager, src_id: usize)
        requires
            old(manager).wf(),
        ensures
            Self::manager_kept(final(manager), old(manager)),
            final(self).scratch_targets@.len() == 0 || final(self).scratch_targets@.len() <= 3,
            final(self).params == old(self).params,
            final(self).num_decoded == old(self).num_decoded,
            final(self).num_inactive == old(self).num_inactive,
            final(self).num_original_inactive == old(self).num_original_inactive,
            final(self).max_inactive_num == old(self).max_inactive_num,
            final(self).inac_strategy == old(self).inac_strategy,
            final(self).var_ids == old(self).var_ids,
            final(self).var_adjacent == old(self).var_adjacent,
            final(self).inactive_coeff_matrix == old(self).inactive_coeff_matrix,
            final(self).sparse_equations == old(self).sparse_equations,
            final(self).equation_ids == old(self).equation_ids,
            final(self).solvable_equations == old(self).solvable_equations,
            final(self).bs_peers == old(self).bs_peers,
            final(manager).logged(old(manager), broadcast_ops(src_id, old(self).scratch_targets@)),
    {
        let n = self.scratch_targets.len();
        let ghost ts = self.scratch_targets@;
        let ghost m0 = *manager;
        if n == 0 {
            assert(m0.log() =~= m0.log() + broadcast_ops(src_id, ts));
        } else if n == 1 {
            manager.add_one_to_vector(src_id, self.scratch_targets[0]);
            assert(broadcast_ops(src_id, ts) =~= seq![OpView::AddOneToVector { src_id, target_id: ts[0] }]);
        } else if n == 2 {
            manager.add_one_to_vector(src_id, self.scratch_targets[0]);
            let ghost m1 = *manager;
            manager.add_one_to_vector(src_id, self.scratch_targets[1]);
            proof {
                let x = seq![OpView::AddOneToVector { src_id, target_id: ts[0] }];
                let y = seq![OpView::AddOneToVector { src_id, target_id: ts[1] }];
                DataManager::lemma_logged_trans(&m0, &m1, manager, x, y);
                assert(x + y =~= broadcast_ops(src_id, ts));
            }
        } else if n == 3 {
            manager.add_one_to_vector(src_id, self.scratch_targets[0]);
            let ghost m1 = *manager;
            manager.add_one_to_vector(src_id, self.scratch_targets[1]);
            let ghost m2 = *manager;
            manager.add_one_to_vector(src_id, self.scratch_targets[2]);
            proof {
                let x = seq![OpView::AddOneToVector { src_id, target_id: ts[0] }];
                let y = seq![OpView::AddOneToVector { src_id, target_id: ts[1] }];
                let z = seq![OpView::AddOneToVector { src_id, target_id: ts[2] }];
                DataManager::lemma_logged_trans(&m0, &m1, &m2, x, y);
                DataManager::lemma_logged_trans(&m0, &m2, manager, x + y, z);
                assert(x + y + z =~= broadcast_ops(src_id, ts));
            }
        } else {
            let mut targets: Vec<usize> = Vec::new();
            std::mem::swap(&mut targets, &mut self.scratch_targets);
            manager.broadcast_add_owned(src_id, targets);
        }
    }

    /// Solves the degree-one equation `equ_id` (BP): its last active variable
    /// becomes decoded, the equation's data vector is moved into the
    /// variable's, and the variable is substituted into every other adjacent
    /// equation. An equation with no active variable left is skipped.
    fn bp_solve(&mut self, manager: &mut DataManager, equ_id: usize)
        requires
            old(self).wf(),
            old(manager).wf(),
            old(manager).spec_params() == old(self).spec_params(),
            equ_id < old(self).equations(),
        ensures
            final(self).wf(),
            final(self).equations() == old(self).equations(),
            final(self).spec_params() == old(self).spec_params(),
            final(self).inactive() == old(self).inactive(),
            final(self).original_inactive() == old(self).original_inactive(),
            final(self).max_inactive() == old(self).max_inactive(),
            final(self).strategy() == old(self).strategy(),
            final(self).has_peers() == old(self).has_peers(),
            final(self).decoded() == old(self).decoded() + 1 || (final(self).decoded() == old(self).decoded()
                && final(self).solvable() == old(self).solvable()),
            old(self).decoded() < old(self).active_end() && old(self).decoded() < old(self).equations()
                && old(self).eq_active(equ_id as int).len() > 0 ==> {
                &&& final(self).decoded() == old(self).decoded() + 1
                &&& final(self).var_order()[old(self).decoded()] == old(self).eq_active(equ_id as int).last()
                &&& final(self).equ_order()[old(self).decoded()] == equ_id
            },
            !(old(self).decoded() < old(self).active_end() && old(self).decoded() < old(self).equations()
                && old(self).eq_active(equ_id as int).len() > 0) ==> final(self).decoded() == old(self).decoded()
                && final(self).solvable() == old(self).solvable(),
            Self::manager_kept(final(manager), old(manager)),
    {
        let total = self.params.num_total();
        if self.num_decoded >= total - self.num_inactive || self.num_decoded >= self.sparse_equations.len() {
            return ;
        }
        let mut eq = self.take_equation(equ_id);
        let ghost eq0 = eq;
        let popped = active_pop(&mut eq.active_var_ids);
        let var_id = match popped {
            None => {
                self.sparse_equations.set(equ_id, eq);
                proof {
                    let neq = self.sparse_equations@.len() as int;
                    assert forall|e: int| 0 <= e < neq implies #[trigger] all_below(
                        active_items(self.sparse_equations@[e].active_var_ids),
                        self.params.total(),
                    ) by {
                        if e != equ_id {
                            assert(self.sparse_equations@[e] == old(self).sparse_equations@[e]);
                        } else {
                            assert(all_below(active_items(eq0.active_var_ids), self.params.total()));
                        }
                    }
                }
                return ;
            },
            Some(v) => v,
        };
        proof {
            assert(all_below(active_items(eq0.active_var_ids), self.params.total()));
            assert(active_items(eq0.active_var_ids)[active_items(eq0.active_var_ids).len() - 1] == var_id);
        }
        let var_pos = self.var_ids.pos_of(var_id);
        self.var_ids.swap(var_pos, self.num_decoded);
        let equ_pos = self.equation_ids.pos_of(equ_id);
        self.equation_ids.swap(equ_pos, self.num_decoded);
        proof {
            assert(self.var_ids.order()[old(self).num_decoded as int] == var_id);
            assert(self.equation_ids.order()[old(self).num_decoded as int] == equ_id);
        }
        let ghost vo = self.var_ids;
        let ghost eo = self.equation_ids;
        self.num_decoded += 1;
        let var_data_id = manager.data_id_of_variable_vector(var_id);
        manager.move_to(eq.data_id, var_data_id);
        eq.data_id = var_data_id;
        proof {
            let s0 = active_items(eq0.active_var_ids);
            assert forall|t: int| 0 <= t < active_items(eq.active_var_ids).len() implies #[trigger] active_items(
                eq.active_var_ids,
            )[t] < self.params.total() by {
                assert(active_items(eq.active_var_ids)[t] == s0[t]);
            }
        }
        self.sparse_equations.set(equ_id, eq);
        let num_inactive = self.num_inactive;
        self.scratch_targets.clear();
        proof {
            let neq = self.sparse_equations@.len() as int;
            assert forall|e: int| 0 <= e < neq implies #[trigger] all_below(
                active_items(self.sparse_equations@[e].active_var_ids),
                self.params.total(),
            ) by {
                if e != equ_id {
                    assert(self.sparse_equations@[e] == old(self).sparse_equations@[e]);
                }
            }
        }
        let n_adj = adjacent_len(&self.var_adjacent[var_id]);
        let mut t: usize = 0;
        while t < n_adj
            invariant
                self.wf(),
                self.equations() == old(self).equations(),
                self.spec_params() == old(self).spec_params(),
                self.decoded() == old(self).decoded() + 1,
                self.inactive() == old(self).inactive(),
                self.original_inactive() == old(self).original_inactive(),
                self.max_inactive() == old(self).max_inactive(),
                self.strategy() == old(self).strategy(),
                self.has_peers() == old(self).has_peers(),
                num_inactive == self.num_inactive,
                var_id < self.params.total(),
                equ_id < self.sparse_equations@.len(),
                n_adj == adjacent_items(self.var_adjacent@[var_id as int]).len(),
                t <= n_adj,
                Self::manager_kept(manager, old(manager)),
                manager.spec_params() == self.params,
                self.var_ids == vo,
                self.equation_ids == eo,
                vo.order()[old(self).num_decoded as int] == var_id,
                eo.order()[old(self).num_decoded as int] == equ_id,
            decreases n_adj - t,
        {
            let e = adjacent_get(&self.var_adjacent[var_id], t);
            proof {
                assert(all_below(adjacent_items(self.var_adjacent@[var_id as int]), self.sparse_equations@.len() as int));
            }
            if e != equ_id {
                self.inactive_coeff_matrix.xor_rows(e, equ_id, num_inactive);
                let mut eq_adj = self.take_equation(e);
                let ghost before = eq_adj;
                self.scratch_targets.push(eq_adj.data_id);
                eq_adj.decode_variable(var_id);
                let deg = eq_adj.degree();
                proof {
                    assert(all_below(active_items(before.active_var_ids), self.params.total()));
                }
                self.sparse_equations.set(e, eq_adj);
                if deg == 1 {
                    self.solvable_equations.push_back(e);
                }
                proof {
                    let neq = self.sparse_equations@.len() as int;
                    assert forall|x: int| 0 <= x < neq implies #[trigger] all_below(
                        active_items(self.sparse_equations@[x].active_var_ids),
                        self.params.total(),
                    ) by {
                    }
                    assert forall|i: int| 0 <= i < self.solvable_equations@.len() implies #[trigger] self.solvable_equations@[i] < neq by {
                    }
                }
            }
            t += 1;
        }
        self.broadcast_src_to_scratch_targets(manager, var_data_id);
    }

    /// Inactivates the active variable `var_id`: it moves to the front of the
    /// inactive region, takes the next column of the inactive matrix, and
    /// leaves the active lists of its adjacent equations.
    pub fn inactivate(&mut self, var_id: usize)
        requires
            old(self).wf(),
            var_id < old(self).total(),
            old(self).is_active(var_id as int),
            old(self).inactive() < old(self).max_inactive(),
        ensures
            final(self).wf(),
            final(self).equations() == old(self).equations(),
            final(self).spec_params() == old(self).spec_params(),
            final(self).decoded() == old(self).decoded(),
            final(self).inactive() == old(self).inactive() + 1,
            final(self).original_inactive() == old(self).original_inactive(),
            final(self).max_inactive() == old(self).max_inactive(),
            final(self).strategy() == old(self).strategy(),
            final(self).has_peers() == old(self).has_peers(),
            final(self).status(var_id as int) == (VariableStatus::Inactive { seq: old(self).inactive() as usize }),
            forall|v: int| 0 <= v < old(self).total() && v != var_id ==> #[trigger] final(self).status(v) == old(self).status(v),
            final(self).var_order() == old(self).var_order().update(
                old(self).var_position()[var_id as int] as int,
                old(self).var_order()[old(self).active_end() - 1],
            ).update(old(self).active_end() - 1, var_id),
            final(self).equ_order() == old(self).equ_order(),
    {
        let pos = self.var_ids.pos_of(var_id);
        let target = self.params.num_total() - self.num_inactive - 1;
        self.var_ids.swap(pos, target);
        self.num_inactive += 1;
        let new_seq = self.num_inactive - 1;
        proof {
            assert(self.var_ids.position()[var_id as int] == target);
        }
        let ghost vars = self.var_ids;
        let n_adj = adjacent_len(&self.var_adjacent[var_id]);
        let mut t: usize = 0;
        while t < n_adj
            invariant
                self.wf(),
                self.equations() == old(self).equations(),
                self.spec_params() == old(self).spec_params(),
                self.decoded() == old(self).decoded(),
                self.inactive() == old(self).inactive() + 1,
                self.original_inactive() == old(self).original_inactive(),
                self.max_inactive() == old(self).max_inactive(),
                self.strategy() == old(self).strategy(),
                self.has_peers() == old(self).has_peers(),
                self.var_ids == vars,
                self.equ_order() == old(self).equ_order(),
                new_seq == self.num_inactive - 1,
                var_id < self.params.total(),
                n_adj == adjacent_items(self.var_adjacent@[var_id as int]).len(),
                t <= n_adj,
            decreases n_adj - t,
        {
            let e = adjacent_get(&self.var_adjacent[var_id], t);
            proof {
                assert(all_below(adjacent_items(self.var_adjacent@[var_id as int]), self.sparse_equations@.len() as int));
            }
            let mut eq = self.take_equation(e);
            let ghost before = eq;
            eq.inactivate_variable(var_id);
            let deg = eq.degree();
            proof {
                assert(all_below(active_items(before.active_var_ids), self.params.total()));
            }
            self.sparse_equations.set(e, eq);
            self.inactive_coeff_matrix.flip(e, new_seq);
            if deg == 1 {
                self.solvable_equations.push_back(e);
            }
            proof {
                let neq = self.sparse_equations@.len() as int;
                assert forall|x: int| 0 <= x < neq implies #[trigger] all_below(
                    active_items(self.sparse_equations@[x].active_var_ids),
                    self.params.total(),
                ) by {
                }
            }
            t += 1;
        }
    }

    /// Pops the next solvable equation, if any.
    fn next_solvable(&mut self) -> (r: Option<usize>)
        requires
            old(self).wf(),
        ensures
            final(self).wf(),
            final(self).same_vars(old(self)),
            final(self).equations() == old(self).equations(),
            r is None ==> final(self).solvable() == old(self).solvable() && old(self).solvable().len() == 0,
            r matches Some(e) ==> e < old(self).equations() && final(self).solvable().len() + 1 == old(
                self,
            ).solvable().len(),
    {
        let r = self.solvable_equations.pop_front();
        proof {
            if r is Some {
                assert forall|i: int| 0 <= i < self.solvable_equations@.len() implies #[trigger] self.solvable_equations@[i]
                    < self.sparse_equations@.len() by {
                    assert(self.solvable_equations@[i] == old(self).solvable_equations@[i + 1]);
                }
                assert(old(self).solvable_equations@[0] < self.sparse_equations@.len());
            }
        }
        r
    }

    /// BP decoding with inactivation: solves degree-one equations while there
    /// are any, otherwise inactivates a variable chosen by the strategy, until
    /// neither applies. Returns the number of decoded variables.
    pub fn run_bp_inactivation(&mut self, manager: &mut DataManager) -> (r: usize)
        requires
            old(self).wf(),
            old(manager).wf(),
            old(manager).spec_params() == old(self).spec_params(),
        ensures
            final(self).wf(),
            r == final(self).decoded(),
            final(self).equations() == old(self).equations(),
            final(self).spec_params() == old(self).spec_params(),
            final(self).decoded() >= old(self).decoded(),
            final(self).inactive() >= old(self).inactive(),
            final(self).original_inactive() == old(self).original_inactive(),
            final(self).max_inactive() == old(self).max_inactive(),
            final(self).strategy() == old(self).strategy(),
            final(self).has_peers() == old(self).has_peers(),
            final(self).solvable().len() == 0,
            final(self).strategy() == InactivationStrategy::FirstActive || final(self).strategy()
                == InactivationStrategy::LastActive ==> !final(self).can_inactivate(),
            Self::manager_kept(final(manager), old(manager)),
    {
        loop
            invariant
                self.wf(),
                self.equations() == old(self).equations(),
                self.spec_params() == old(self).spec_params(),
                self.decoded() >= old(self).decoded(),
                self.inactive() >= old(self).inactive(),
                self.original_inactive() == old(self).original_inactive(),
                self.max_inactive() == old(self).max_inactive(),
                self.strategy() == old(self).strategy(),
                self.has_peers() == old(self).has_peers(),
                Self::manager_kept(manager, old(manager)),
                manager.spec_params() == self.spec_params(),
            ensures
                self.wf(),
                self.equations() == old(self).equations(),
                self.spec_params() == old(self).spec_params(),
                self.decoded() >= old(self).decoded(),
                self.inactive() >= old(self).inactive(),
                self.original_inactive() == old(self).original_inactive(),
                self.max_inactive() == old(self).max_inactive(),
                self.strategy() == old(self).strategy(),
                self.has_peers() == old(self).has_peers(),
                Self::manager_kept(manager, old(manager)),
                self.solvable().len() == 0,
                self.strategy() == InactivationStrategy::FirstActive || self.strategy()
                    == InactivationStrategy::LastActive ==> !self.can_inactivate(),
            decreases self.total() - self.decoded() - self.inactive(), self.solvable().len(),
        {
            proof {
                self.lemma_wf();
            }
            match self.next_solvable() {
                Some(equ_id) => {
                    self.bp_solve(manager, equ_id);
                },
                None => {
                    match self.next_inactivation() {
                        Some(var_id) => {
                            self.inactivate(var_id);
                        },
                        None => {
                            break ;
                        },
                    }
                },
            }
            proof {
                self.lemma_wf();
            }
        }
        self.num_decoded
    }

    /// Whether every variable is decoded or inactive (BP phase complete).
    pub fn is_bp_complete(&self) -> (r: bool)
        requires
            self.wf(),
        ensures
            r == (self.decoded() + self.inactive() == self.total()),
    {
        self.num_decoded + self.num_inactive == self.params.num_total()
    }

    /// Current number of inactive variables.
    pub fn num_inactive(&self) -> (r: usize)
        ensures
            r == self.inactive(),
    {
        self.num_inactive
    }

    /// Number of sparse equations.
    pub fn num_equations(&self) -> (r: usize)
        ensures
            r == self.equations(),
    {
        self.sparse_equations.len()
    }

    /// Current number of decoded variables.
    pub fn num_decoded(&self) -> (r: usize)
        ensures
            r == self.decoded(),
    {
        self.num_decoded
    }

    /// The variable to inactivate next, when the cap allows one more, every
    /// message and LDPC equation has arrived, and an active variable is left.
    fn next_inactivation(&self) -> (r: Option<usize>)
        requires
            self.wf(),
        ensures
            r matches Some(v) ==> v < self.total() && self.is_active(v as int) && self.inactive()
                < self.max_inactive(),
            !self.can_inactivate() ==> r is None,
            self.can_inactivate() && self.strategy() == InactivationStrategy::FirstActive ==> r == Some(
                self.var_order()[self.decoded()],
            ),
            self.can_inactivate() && self.strategy() == InactivationStrategy::LastActive ==> r == Some(
                self.var_order()[self.active_end() - 1],
            ),
            self.can_inactivate() && self.strategy() == InactivationStrategy::ByIndex ==> r
                == self.first_active_index(),
    {
        let total = self.params.num_total();
        if self.num_inactive < self.max_inactive_num && self.sparse_equations.len()
            >= self.params.num_message_ldpc() && self.num_decoded < total - self.num_inactive {
            match self.inac_strategy {
                InactivationStrategy::ByIndex => self.inact_strategy_by_index(),
                InactivationStrategy::FirstActive => self.inact_strategy_first_active(),
                InactivationStrategy::LastActive => self.inact_strategy_last_active(),
                InactivationStrategy::MinDegree => self.inact_strategy_min_degree(),
                InactivationStrategy::TrailRun => self.inact_strategy_trail_run(),
            }
        } else {
            None
        }
    }

    /// The first active variable of [`Self::var_order`].
    fn inact_strategy_first_active(&self) -> (r: Option<usize>)
        requires
            self.wf(),
            self.decoded() < self.active_end(),
        ensures
            r matches Some(v) ==> v < self.total() && self.is_active(v as int),
            r == Some(self.var_order()[self.decoded()]),
    {
        proof {
            self.lemma_wf();
        }
        Some(self.var_ids.id_at(self.num_decoded))
    }

    /// The active variable with the least index among `0..a + l`.
    fn inact_strategy_by_index(&self) -> (r: Option<usize>)
        requires
            self.wf(),
        ensures
            r matches Some(v) ==> v < self.total() && self.is_active(v as int),
            r == self.first_active_index(),
    {
        proof {
            self.lemma_wf();
        }
        let active_end = self.params.num_total() - self.num_inactive;
        let n = self.params.num_active();
        let mut i: usize = 0;
        while i < n
            invariant
                self.wf(),
                n == self.params.a + self.params.l,
                n == self.spec_params().a + self.spec_params().l,
                active_end == self.active_end(),
                i <= n,
                forall|u: int| 0 <= u < i ==> !#[trigger] self.is_active(u),
            decreases n - i,
        {
            proof {
                self.lemma_wf();
            }
            let pos = self.var_ids.pos_of(i);
            if pos < self.num_decoded || pos >= active_end {
                i += 1;
                continue;
            }
            let v = self.var_ids.id_at(pos);
            proof {
                assert(self.var_ids.wf());
                assert(v == i);
                assert(self.is_active(i as int));
                assert(self.is_first_active_index(i as int));
                let w = choose|w: int| self.is_first_active_index(w);
                assert(self.is_first_active_index(w));
                if w < i {
                    assert(!self.is_active(w));
                } else if w > i {
                    assert(!self.is_active(i as int));
                }
                assert(w == i);
                assert(self.first_active_index() == Some(i));
            }
            return Some(v);
        }
        proof {
            if self.first_active_index() is Some {
                let v = choose|v: int| self.is_first_active_index(v);
                assert(self.is_first_active_index(v));
                assert(!self.is_active(v));
            }
        }
        None
    }

    /// The last active variable of [`Self::var_order`].
    fn inact_strategy_last_active(&self) -> (r: Option<usize>)
        requires
            self.wf(),
            self.decoded() < self.active_end(),
        ensures
            r matches Some(v) ==> v < self.total() && self.is_active(v as int),
            r == Some(self.var_order()[self.active_end() - 1]),
    {
        proof {
            self.lemma_wf();
        }
        Some(self.var_ids.id_at(self.params.num_total() - self.num_inactive - 1))
    }

    /// The first active variable of an unused equation of least degree
    /// (at least two), scanning unused equations in order and stopping at
    /// degree two. `None` when no unused equation has degree two or more, or
    /// when that variable is not active.
    fn inact_strategy_min_degree(&self) -> (r: Option<usize>)
        requires
            self.wf(),
        ensures
            r matches Some(v) ==> v < self.total() && self.is_active(v as int),
    {
        proof {
            self.lemma_wf();
        }
        let mut min_degree = usize::MAX;
        let mut min_equ_id = usize::MAX;
        let neq = self.sparse_equations.len();
        let mut pos = self.num_decoded;
        let mut stop = false;
        while pos < neq && !stop
            invariant
                self.wf(),
                neq == self.equations(),
                self.decoded() <= pos <= neq,
                min_equ_id == usize::MAX || min_equ_id < neq,
                min_equ_id < neq ==> self.eq_active(min_equ_id as int).len() == min_degree,
            decreases neq - pos,
        {
            proof {
                self.lemma_wf();
            }
            let equ_id = self.equation_ids.id_at(pos);
            let d = self.sparse_equations[equ_id].degree();
            if d < min_degree {
                min_degree = d;
                min_equ_id = equ_id;
                if min_degree <= 2 {
                    stop = true;
                }
            }
            pos += 1;
        }
        if min_degree >= 2 && min_equ_id < neq {
            let v = active_get(&self.sparse_equations[min_equ_id].active_var_ids, 0);
            proof {
                assert(all_below(active_items(self.sparse_equations@[min_equ_id as int].active_var_ids), self.total()));
            }
            match self.var_status(v) {
                VariableStatus::Active => Some(v),
                _ => None,
            }
        } else {
            None
        }
    }

    /// Trial-run strategy: the active variable whose inactivation lets BP
    /// solve the most variables on the Tanner graph of the degree-two unused
    /// equations; the last active variable when that graph has no check.
    fn inact_strategy_trail_run(&self) -> (r: Option<usize>)
        requires
            self.wf(),
            self.decoded() < self.active_end(),
        ensures
            r matches Some(v) ==> v < self.total() && self.is_active(v as int),
    {
        let mut graph = self.build_tanner_graph_for_trial_bp();
        if graph.size() == 0 {
            return self.inact_strategy_last_active();
        }
        let ghost vars = graph.vars();
        let best = graph.best_inactivation_by_trial_run();
        match best {
            Some(v) => {
                proof {
                    self.lemma_wf();
                    let p = choose|p: int| 0 <= p < vars.len() && vars[p] == v;
                    assert(vars[p] == self.var_order()[self.decoded() + p]);
                }
                Some(v)
            },
            None => None,
        }
    }

    /// The Tanner graph of the active variables and the unused equations of
    /// degree two, for trial BP runs.
    pub fn build_tanner_graph_for_trial_bp(&self) -> (r: TannerGraphDegree2)
        requires
            self.wf(),
        ensures
            r.wf(),
            r.vars() == self.var_order().subrange(self.decoded(), self.active_end()),
    {
        proof {
            self.lemma_wf();
        }
        let start = self.num_decoded;
        let end = self.params.num_total() - self.num_inactive;
        let mut active_var_ids: Vec<usize> = Vec::with_capacity(end - start);
        let mut p = start;
        while p < end
            invariant
                self.wf(),
                start == self.decoded(),
                end == self.active_end(),
                start <= p <= end,
                active_var_ids@ == self.var_order().subrange(start as int, p as int),
            decreases end - p,
        {
            proof {
                self.lemma_wf();
            }
            active_var_ids.push(self.var_ids.id_at(p));
            p += 1;
            assert(active_var_ids@ =~= self.var_order().subrange(start as int, p as int));
        }
        let neq = self.sparse_equations.len();
        let mut equ_deg_2: Vec<Vec<usize>> = Vec::new();
        let mut p = start;
        while p < neq
            invariant
                self.wf(),
                neq == self.equations(),
                start <= p <= neq,
            decreases neq - p,
        {
            proof {
                self.lemma_wf();
            }
            let equ_id = self.equation_ids.id_at(p);
            let eq = &self.sparse_equations[equ_id];
            if eq.degree() == 2 {
                let mut vars: Vec<usize> = Vec::new();
                vars.push(active_get(&eq.active_var_ids, 0));
                vars.push(active_get(&eq.active_var_ids, 1));
                equ_deg_2.push(vars);
            }
            p += 1;
        }
        TannerGraphDegree2::from_active_and_equations(active_var_ids.as_slice(), equ_deg_2.as_slice())
    }

    /// Inactive coefficient row of equation `equ_id`, as 0/1 bytes over the
    /// `num_inactive` columns.
    pub fn inactive_coeff_row(&self, equ_id: usize) -> (r: Vec<u8>)
        requires
            self.wf(),
            equ_id < self.equations(),
        ensures
            r@ == row_bytes_spec(self.coeffs()@[equ_id as int], self.inactive()),
    {
        self.inactive_coeff_matrix.row_bytes(equ_id, self.num_inactive)
    }

    /// The inactive coefficient matrix (row = equation index).
    pub fn inactive_coeff_matrix(&self) -> (r: &BinaryMatrix)
        ensures
            *r == self.coeffs(),
    {
        &self.inactive_coeff_matrix
    }

    /// The unused equations, in order, as `(equation index, data ID)`: the
    /// rows of the inactive system `F B_i = X_u'`, to be copied from the
    /// packed coefficient matrix.
    pub fn inactive_system_from_unused_equations_packed(&self) -> (r: Vec<(usize, usize)>)
        requires
            self.wf(),
        ensures
            r@.len() == self.equations() - self.decoded(),
            forall|i: int|
                0 <= i < r@.len() ==> (#[trigger] r@[i]).0 == self.equ_order()[self.decoded() + i] && r@[i].1
                    == self.eq_data_id(r@[i].0 as int),
            forall|i: int| 0 <= i < r@.len() ==> (#[trigger] r@[i]).0 < self.equations(),
    {
        proof {
            self.lemma_wf();
        }
        let neq = self.sparse_equations.len();
        let mut out: Vec<(usize, usize)> = Vec::new();
        let mut pos = self.num_decoded;
        while pos < neq
            invariant
                self.wf(),
                neq == self.equations(),
                self.decoded() <= pos <= neq,
                out@.len() == pos - self.decoded(),
                forall|i: int|
                    0 <= i < out@.len() ==> (#[trigger] out@[i]).0 == self.equ_order()[self.decoded() + i]
                        && out@[i].1 == self.eq_data_id(out@[i].0 as int),
                forall|i: int| 0 <= i < out@.len() ==> (#[trigger] out@[i]).0 < self.equations(),
            decreases neq - pos,
        {
            proof {
                self.lemma_wf();
            }
            let equ_id = self.equation_ids.id_at(pos);
            out.push((equ_id, self.sparse_equations[equ_id].data_id));
            pos += 1;
        }
        out
    }

    /// The unused equations, in order, as `(inactive coefficient row, data ID)`.
    pub fn inactive_system_from_unused_equations(&self) -> (r: Vec<(Vec<u8>, usize)>)
        requires
            self.wf(),
        ensures
            r@.len() == self.equations() - self.decoded(),
            forall|i: int|
                0 <= i < r@.len() ==> (#[trigger] r@[i]).0@ == row_bytes_spec(
                    self.coeffs()@[self.equ_order()[self.decoded() + i] as int],
                    self.inactive(),
                ) && r@[i].1 == self.eq_data_id(self.equ_order()[self.decoded() + i] as int),
    {
        let ids = self.inactive_system_from_unused_equations_packed();
        let mut out: Vec<(Vec<u8>, usize)> = Vec::new();
        let mut i: usize = 0;
        while i < ids.len()
            invariant
                self.wf(),
                ids@.len() == self.equations() - self.decoded(),
                forall|j: int|
                    0 <= j < ids@.len() ==> (#[trigger] ids@[j]).0 == self.equ_order()[self.decoded() + j]
                        && ids@[j].1 == self.eq_data_id(ids@[j].0 as int),
                forall|j: int| 0 <= j < ids@.len() ==> (#[trigger] ids@[j]).0 < self.equations(),
                i <= ids@.len(),
                out@.len() == i,
                forall|j: int|
                    0 <= j < i ==> (#[trigger] out@[j]).0@ == row_bytes_spec(
                        self.coeffs()@[self.equ_order()[self.decoded() + j] as int],
                        self.inactive(),
                    ) && out@[j].1 == self.eq_data_id(self.equ_order()[self.decoded() + j] as int),
            decreases ids@.len() - i,
        {
            let (e, d) = ids[i];
            assert(ids@[i as int].0 < self.equations());
            let row = self.inactive_coeff_row(e);
            out.push((row, d));
            i += 1;
        }
        out
    }

    /// The inactive system of the unused equations as a packed matrix with
    /// `num_inactive` columns, and its right-hand side data IDs.
    pub fn inactive_coefficients_matrix_from_unused_equations(&self) -> (r: (BinaryMatrix, Vec<usize>))
        requires
            self.wf(),
        ensures
            r.0.wf(),
            r.0.spec_width() == self.inactive(),
            r.0@.len() == self.equations() - self.decoded(),
            r.1@.len() == self.equations() - self.decoded(),
            forall|i: int|
                0 <= i < r.1@.len() ==> #[trigger] r.1@[i] == self.eq_data_id(self.equ_order()[self.decoded() + i] as int),
            forall|i: int|
                0 <= i < r.0@.len() ==> #[trigger] r.0@[i] == padded_prefix(
                    self.coeffs()@[self.equ_order()[self.decoded() + i] as int],
                    words_for(self.inactive()),
                    r.0.spec_wpr() as int,
                ),
    {
        proof {
            self.lemma_wf();
        }
        let ids = self.inactive_system_from_unused_equations_packed();
        let mut matrix = BinaryMatrix::new(self.num_inactive);
        let mut rhs_ids: Vec<usize> = Vec::new();
        let mut i: usize = 0;
        while i < ids.len()
            invariant
                self.wf(),
                ids@.len() == self.equations() - self.decoded(),
                forall|j: int|
                    0 <= j < ids@.len() ==> (#[trigger] ids@[j]).0 == self.equ_order()[self.decoded() + j]
                        && ids@[j].1 == self.eq_data_id(ids@[j].0 as int),
                forall|j: int| 0 <= j < ids@.len() ==> (#[trigger] ids@[j]).0 < self.equations(),
                i <= ids@.len(),
                matrix.wf(),
                matrix.spec_width() == self.inactive(),
                matrix@.len() == i,
                rhs_ids@.len() == i,
                forall|j: int|
                    0 <= j < i ==> #[trigger] rhs_ids@[j] == self.eq_data_id(self.equ_order()[self.decoded() + j] as int),
                forall|j: int|
                    0 <= j < i ==> #[trigger] matrix@[j] == padded_prefix(
                        self.coeffs()@[self.equ_order()[self.decoded() + j] as int],
                        words_for(self.inactive()),
                        matrix.spec_wpr() as int,
                    ),
            decreases ids@.len() - i,
        {
            let (e, d) = ids[i];
            assert(ids@[i as int].0 < self.equations());
            proof {
                self.lemma_wf();
                assert(self.coeffs()@[e as int].len() == self.coeffs().spec_wpr());
                assert(words_for(self.inactive()) <= words_for(self.max_inactive()));
            }
            matrix.append_row_from_words(self.inactive_coeff_matrix.row_words(e), self.num_inactive);
            rhs_ids.push(d);
            i += 1;
        }
        (matrix, rhs_ids)
    }

    /// Row `v` of \(\tilde{G}\): for a decoded variable, the inactive
    /// coefficients of the equation that decoded it; for an inactive one, the
    /// unit row at its column.
    pub open spec fn tilde_row(&self, v: int) -> Seq<u8> {
        match self.status(v) {
            VariableStatus::Decoded { equ_id } => row_bytes_spec(self.coeffs()@[equ_id as int], self.inactive()),
            VariableStatus::Inactive { seq } => unit_row(self.inactive(), seq as int),
            VariableStatus::Active => Seq::<u8>::empty(),
        }
    }

    /// Row `var_id` of \(\tilde{G}\) for a variable that is not active.
    pub fn tilde_g_row(&self, var_id: usize) -> (r: Vec<u8>)
        requires
            self.wf(),
            var_id < self.total(),
            !self.is_active(var_id as int),
        ensures
            r@ == self.tilde_row(var_id as int),
    {
        match self.var_status(var_id) {
            VariableStatus::Decoded { equ_id } => self.inactive_coeff_row(equ_id),
            VariableStatus::Inactive { seq } => unit_row_vec(self.num_inactive, seq),
            VariableStatus::Active => {
                proof {
                    assert(false);
                }
                Vec::new()
            },
        }
    }

    /// All `k + l` rows of \(\tilde{G}\); no message or LDPC variable may be active.
    pub fn tilde_g_rows(&self) -> (r: Vec<Vec<u8>>)
        requires
            self.wf(),
            forall|v: int| 0 <= v < self.spec_params().k + self.spec_params().l ==> !#[trigger] self.is_active(v),
        ensures
            r@.len() == self.spec_params().k + self.spec_params().l,
            forall|i: int| 0 <= i < r@.len() ==> (#[trigger] r@[i])@ == self.tilde_row(i),
    {
        proof {
            self.lemma_wf();
        }
        let kl = self.params.num_message_ldpc();
        let mut rows: Vec<Vec<u8>> = Vec::with_capacity(kl);
        let mut v: usize = 0;
        while v < kl
            invariant
                self.wf(),
                kl == self.spec_params().k + self.spec_params().l,
                forall|x: int| 0 <= x < kl ==> !#[trigger] self.is_active(x),
                v <= kl,
                rows@.len() == v,
                forall|i: int| 0 <= i < v ==> (#[trigger] rows@[i])@ == self.tilde_row(i),
            decreases kl - v,
        {
            assert(!self.is_active(v as int));
            rows.push(self.tilde_g_row(v));
            v += 1;
        }
        rows
    }

    /// \(\tilde{G}\) as a packed `(k + l) x num_inactive` matrix; no message or
    /// LDPC variable may be active.
    pub fn tilde_g_packed(&self) -> (r: BinaryMatrix)
        requires
            self.wf(),
            forall|v: int| 0 <= v < self.spec_params().k + self.spec_params().l ==> !#[trigger] self.is_active(v),
        ensures
            r.wf(),
            r.spec_width() == self.inactive(),
            r@.len() == self.spec_params().k + self.spec_params().l,
            forall|i: int, c: int|
                0 <= i < r@.len() && 0 <= c < self.inactive() ==> #[trigger] r.bit(i, c) == (self.tilde_row(i)[c]
                    == 1u8),
    {
        proof {
            self.lemma_wf();
        }
        let kl = self.params.num_message_ldpc();
        let n = self.num_inactive;
        let mut g = BinaryMatrix::new(n);
        let mut v: usize = 0;
        while v < kl
            invariant
                self.wf(),
                n == self.inactive(),
                kl == self.spec_params().k + self.spec_params().l,
                forall|x: int| 0 <= x < kl ==> !#[trigger] self.is_active(x),
                v <= kl,
                g.wf(),
                g.spec_width() == n,
                g@.len() == v,
                forall|i: int, c: int|
                    0 <= i < v && 0 <= c < n ==> #[trigger] g.bit(i, c) == (self.tilde_row(i)[c] == 1u8),
            decreases kl - v,
        {
            proof {
                self.lemma_wf();
            }
            let ghost g0 = g;
            let row = g.push_row();
            assert(!self.is_active(v as int));
            match self.var_status(v) {
                VariableStatus::Decoded { equ_id } => {
                    g.copy_row_from(row, &self.inactive_coeff_matrix, equ_id, n);
                    proof {
                        assert forall|i: int, c: int| 0 <= i < v + 1 && 0 <= c < n implies #[trigger] g.bit(i, c)
                            == (self.tilde_row(i)[c] == 1u8) by {
                            if i < v {
                                assert(g@[i] == g0@[i]);
                                assert(g0.bit(i, c) == (self.tilde_row(i)[c] == 1u8));
                            } else {
                                lemma_word_index(c, n as int);
                                assert(g@[i][c / 64] == self.coeffs()@[equ_id as int][c / 64]);
                            }
                        }
                    }
                },
                VariableStatus::Inactive { seq } => {
                    g.set(row, seq);
                    proof {
                        assert forall|i: int, c: int| 0 <= i < v + 1 && 0 <= c < n implies #[trigger] g.bit(i, c)
                            == (self.tilde_row(i)[c] == 1u8) by {
                            if i < v {
                                assert(g@[i] == g0@[i]);
                                assert(g0.bit(i, c) == (self.tilde_row(i)[c] == 1u8));
                            } else {
                                lemma_word_index(c, n as int);
                                lemma_zero_word_bit((c % 64) as u64);
                                assert(c < 64 * g.spec_wpr());
                            }
                        }
                    }
                },
                VariableStatus::Active => {
                    proof {
                        assert(false);
                    }
                },
            }
            v += 1;
        }
        g
    }

    /// Builds, for each decoded position `pos` but the last, the list of
    /// decoded equations adjacent to the variable decoded at `pos` that were
    /// used at a later position: the peers that back-substitution updates.
    pub fn build_bs_peers(&mut self)
        requires
            old(self).wf(),
        ensures
            final(self).wf(),
            final(self).has_peers(),
            final(self).spec_params() == old(self).spec_params(),
            final(self).decoded() == old(self).decoded(),
            final(self).inactive() == old(self).inactive(),
            final(self).original_inactive() == old(self).original_inactive(),
            final(self).max_inactive() == old(self).max_inactive(),
            final(self).strategy() == old(self).strategy(),
            final(self).var_order() == old(self).var_order(),
            final(self).var_position() == old(self).var_position(),
            final(self).equ_order() == old(self).equ_order(),
            final(self).equations() == old(self).equations(),
            final(self).coeffs() == old(self).coeffs(),
            final(self).solvable() == old(self).solvable(),
            final(self).peer_count() == old(self).decoded(),
    {
        proof {
            self.lemma_wf();
        }
        let n = self.num_decoded;
        let neq = self.sparse_equations.len();
        let mut peers: Vec<VarAdjacentList> = Vec::with_capacity(n);
        let mut pos: usize = 0;
        while pos < n
            invariant
                self.wf(),
                *self == *old(self),
                n == self.decoded(),
                neq == self.equations(),
                pos <= n,
                peers@.len() == pos,
                forall|i: int| 0 <= i < pos ==> #[trigger] all_below(adjacent_items(peers@[i]), neq as int),
            decreases n - pos,
        {
            proof {
                self.lemma_wf();
            }
            let mut peer = adjacent_new();
            if pos + 1 < n {
                let var_id = self.var_ids.id_at(pos);
                let n_adj = adjacent_len(&self.var_adjacent[var_id]);
                let mut t: usize = 0;
                while t < n_adj
                    invariant
                        self.wf(),
                        n == self.decoded(),
                        neq == self.equations(),
                        var_id < self.total(),
                        n_adj == adjacent_items(self.var_adjacent@[var_id as int]).len(),
                        t <= n_adj,
                        all_below(adjacent_items(peer), neq as int),
                    decreases n_adj - t,
                {
                    let e = adjacent_get(&self.var_adjacent[var_id], t);
                    proof {
                        assert(all_below(adjacent_items(self.var_adjacent@[var_id as int]), neq as int));
                    }
                    let ep = self.equation_ids.pos_of(e);
                    if ep > pos && ep < n && adjacent_len(&peer) < usize::MAX {
                        let ghost before = adjacent_items(peer);
                        adjacent_push(&mut peer, e);
                        assert forall|i: int| 0 <= i < adjacent_items(peer).len() implies #[trigger] adjacent_items(
                            peer,
                        )[i] < neq by {
                            if i < before.len() {
                                assert(adjacent_items(peer)[i] == before[i]);
                            }
                        }
                    }
                    t += 1;
                }
            }
            peers.push(peer);
            pos += 1;
        }
        self.bs_peers = Some(peers);
    }

    /// Number of peer lists built by [`Self::build_bs_peers`] (zero when none).
    pub closed spec fn peer_count(&self) -> int {
        match self.bs_peers {
            Some(p) => p@.len() as int,
            None => 0,
        }
    }

    /// Drops the back-substitution peer lists.
    pub fn clear_bs_peers(&mut self)
        requires
            old(self).wf(),
        ensures
            final(self).wf(),
            !final(self).has_peers(),
            final(self).spec_params() == old(self).spec_params(),
            final(self).decoded() == old(self).decoded(),
            final(self).inactive() == old(self).inactive(),
            final(self).original_inactive() == old(self).original_inactive(),
            final(self).max_inactive() == old(self).max_inactive(),
            final(self).strategy() == old(self).strategy(),
            final(self).var_order() == old(self).var_order(),
            final(self).var_position() == old(self).var_position(),
            final(self).equ_order() == old(self).equ_order(),
            final(self).equations() == old(self).equations(),
            final(self).coeffs() == old(self).coeffs(),
    {
        self.bs_peers = None;
    }

    /// The decoded variables as `(variable ID, equation index)` pairs, in the
    /// order in which they were decoded.
    pub fn iter_decoded_var(&self) -> (r: Vec<(usize, usize)>)
        requires
            self.wf(),
        ensures
            r@.len() == self.decoded(),
            forall|i: int|
                0 <= i < r@.len() ==> #[trigger] r@[i] == (self.var_order()[i], self.equ_order()[i]),
    {
        proof {
            self.lemma_wf();
        }
        let n = self.num_decoded;
        let mut out: Vec<(usize, usize)> = Vec::with_capacity(n);
        let mut pos: usize = 0;
        while pos < n
            invariant
                self.wf(),
                n == self.decoded(),
                pos <= n,
                out@.len() == pos,
                forall|i: int| 0 <= i < pos ==> #[trigger] out@[i] == (self.var_order()[i], self.equ_order()[i]),
            decreases n - pos,
        {
            proof {
                self.lemma_wf();
            }
            out.push((self.var_ids.id_at(pos), self.equation_ids.id_at(pos)));
            pos += 1;
        }
        out
    }

    /// The inactive variables as `(variable ID, column)` pairs, where the
    /// column is the variable's index in the Gaussian elimination / LU solution.
    pub fn iter_inactive_var(&self) -> (r: Vec<(usize, usize)>)
        requires
            self.wf(),
        ensures
            r@.len() == self.inactive(),
            forall|i: int|
                0 <= i < r@.len() ==> #[trigger] r@[i] == (
                    self.var_order()[self.active_end() + i],
                    self.matrix_seq(i) as usize,
                ),
            forall|i: int| 0 <= i < r@.len() ==> (#[trigger] r@[i]).1 < self.inactive(),
    {
        proof {
            self.lemma_wf();
        }
        let start = self.params.num_total() - self.num_inactive;
        let n = self.num_inactive;
        let mut out: Vec<(usize, usize)> = Vec::with_capacity(n);
        let mut i: usize = 0;
        while i < n
            invariant
                self.wf(),
                n == self.inactive(),
                start == self.active_end(),
                i <= n,
                out@.len() == i,
                forall|j: int|
                    0 <= j < i ==> #[trigger] out@[j] == (
                        self.var_order()[self.active_end() + j],
                        self.matrix_seq(j) as usize,
                    ),
                forall|j: int| 0 <= j < i ==> (#[trigger] out@[j]).1 < self.inactive(),
            decreases n - i,
        {
            proof {
                self.lemma_wf();
            }
            let seq = self.inactive_matrix_seq(i);
            out.push((self.var_ids.id_at(start + i), seq));
            i += 1;
        }
        out
    }

    /// Reverse BP before back-substitution: from the second-to-last decoded
    /// position down to the first, adds the coefficients of the position's
    /// equation into its peers and the decoded variable's data vector into
    /// the peers' data vectors. Peer lists must be built.
    pub fn reverse_bp(&mut self, manager: &mut DataManager)
        requires
            old(self).wf(),
            old(self).has_peers(),
            old(manager).wf(),
            old(manager).spec_params() == old(self).spec_params(),
        ensures
            final(self).wf(),
            final(self).same_vars(old(self)),
            final(self).equ_order() == old(self).equ_order(),
            final(self).equations() == old(self).equations(),
            final(self).has_peers(),
            Self::manager_kept(final(manager), old(manager)),
            final(manager).logged(
                old(manager),
                old(self).peer_pass_ops(old(manager).var_base() as int, true, old(self).peer_steps()),
            ),
            final(self).peer_lists() == old(self).peer_lists(),
            forall|e: int| #[trigger] final(self).eq_data_id(e) == old(self).eq_data_id(e),
    {
        self.peer_pass(manager, true);
    }

    /// Forward BP after back-substitution: from the first decoded position to
    /// the second-to-last, adds the decoded variable's data vector into the
    /// data vectors of its peers. Peer lists must be built.
    pub fn forward_bp(&mut self, manager: &mut DataManager)
        requires
            old(self).wf(),
            old(self).has_peers(),
            old(manager).wf(),
            old(manager).spec_params() == old(self).spec_params(),
        ensures
            final(self).wf(),
            final(self).same_vars(old(self)),
            final(self).equ_order() == old(self).equ_order(),
            final(self).equations() == old(self).equations(),
            final(self).coeffs() == old(self).coeffs(),
            final(self).has_peers(),
            Self::manager_kept(final(manager), old(manager)),
            final(manager).logged(
                old(manager),
                old(self).peer_pass_ops(old(manager).var_base() as int, false, old(self).peer_steps()),
            ),
            final(self).peer_lists() == old(self).peer_lists(),
            forall|e: int| #[trigger] final(self).eq_data_id(e) == old(self).eq_data_id(e),
    {
        self.peer_pass(manager, false);
    }

    /// One back-substitution pass over the decoded positions `0..num_decoded - 1`
    /// that have peer lists: downwards with coefficient updates (`reverse`),
    /// or upwards without them.
    fn peer_pass(&mut self, manager: &mut DataManager, reverse: bool)
        requires
            old(self).wf(),
            old(self).has_peers(),
            old(manager).wf(),
            old(manager).spec_params() == old(self).spec_params(),
        ensures
            final(self).wf(),
            final(self).same_vars(old(self)),
            final(self).equ_order() == old(self).equ_order(),
            final(self).equations() == old(self).equations(),
            !reverse ==> final(self).coeffs() == old(self).coeffs(),
            final(self).has_peers(),
            Self::manager_kept(final(manager), old(manager)),
            final(manager).logged(
                old(manager),
                old(self).peer_pass_ops(old(manager).var_base() as int, reverse, old(self).peer_steps()),
            ),
            final(self).peer_lists() == old(self).peer_lists(),
            forall|e: int| #[trigger] final(self).eq_data_id(e) == old(self).eq_data_id(e),
    {
        proof {
            self.lemma_wf();
            assert(old(manager).log() =~= old(manager).log() + Seq::<OpView>::empty());
        }
        let ghost base = manager.var_base() as int;
        let peers = match self.bs_peers.take() {
            Some(p) => p,
            None => {
                return ;
            },
        };
        let ghost peers0 = peers;
        let neq = self.sparse_equations.len();
        let num_inactive = self.num_inactive;
        let steps = if self.num_decoded > 0 {
            self.num_decoded - 1
        } else {
            0
        };
        let mut k: usize = 0;
        while k < steps
            invariant
                self.wf(),
                !self.has_peers(),
                self.spec_params() == old(self).spec_params(),
                self.decoded() == old(self).decoded(),
                self.inactive() == old(self).inactive(),
                self.original_inactive() == old(self).original_inactive(),
                self.max_inactive() == old(self).max_inactive(),
                self.strategy() == old(self).strategy(),
                self.var_order() == old(self).var_order(),
                self.var_position() == old(self).var_position(),
                self.equ_order() == old(self).equ_order(),
                self.equations() == old(self).equations(),
                !reverse ==> self.coeffs() == old(self).coeffs(),
                neq == self.equations(),
                num_inactive == self.inactive(),
                peers == peers0,
                forall|i: int| 0 <= i < peers@.len() ==> #[trigger] all_below(adjacent_items(peers@[i]), neq as int),
                steps < self.decoded() || steps == 0,
                steps == old(self).peer_steps(),
                k <= steps,
                Self::manager_kept(manager, old(manager)),
                manager.spec_params() == self.spec_params(),
                self.sparse_equations == old(self).sparse_equations,
                peers@ == old(self).peer_lists(),
                base == manager.var_base(),
                manager.logged(old(manager), old(self).peer_pass_ops(base, reverse, k as int)),
            decreases steps - k,
        {
            proof {
                self.lemma_wf();
            }
            let pos = if reverse {
                steps - 1 - k
            } else {
                k
            };
            let var_id = self.var_ids.id_at(pos);
            let equ_id = self.equation_ids.id_at(pos);
            let ghost m0 = *manager;
            self.scratch_targets.clear();
            if pos < peers.len() {
                let n_peer = adjacent_len(&peers[pos]);
                let mut t: usize = 0;
                while t < n_peer
                    invariant
                        self.wf(),
                        !self.has_peers(),
                        self.spec_params() == old(self).spec_params(),
                        self.decoded() == old(self).decoded(),
                        self.inactive() == old(self).inactive(),
                        self.original_inactive() == old(self).original_inactive(),
                        self.max_inactive() == old(self).max_inactive(),
                        self.strategy() == old(self).strategy(),
                        self.var_order() == old(self).var_order(),
                        self.var_position() == old(self).var_position(),
                        self.equ_order() == old(self).equ_order(),
                        self.equations() == old(self).equations(),
                        !reverse ==> self.coeffs() == old(self).coeffs(),
                        neq == self.equations(),
                        num_inactive == self.inactive(),
                        peers == peers0,
                        pos < peers@.len(),
                        equ_id < neq,
                        n_peer == adjacent_items(peers@[pos as int]).len(),
                        forall|i: int|
                            0 <= i < peers@.len() ==> #[trigger] all_below(adjacent_items(peers@[i]), neq as int),
                        t <= n_peer,
                        self.sparse_equations == old(self).sparse_equations,
                        self.scratch_targets@ == adjacent_items(peers@[pos as int]).take(t as int).map_values(
                            |e: usize| old(self).eq_data_id(e as int),
                        ),
                        *manager == m0,
                    decreases n_peer - t,
                {
                    let e = adjacent_get(&peers[pos], t);
                    proof {
                        assert(all_below(adjacent_items(peers@[pos as int]), neq as int));
                        self.lemma_wf();
                    }
                    if reverse {
                        self.inactive_coeff_matrix.xor_rows(e, equ_id, num_inactive);
                    }
                    let ghost before = self.scratch_targets@;
                    self.scratch_targets.push(self.sparse_equations[e].data_id);
                    proof {
                        let items = adjacent_items(peers@[pos as int]);
                        assert(self.scratch_targets@ =~= items.take(t + 1).map_values(
                            |e: usize| old(self).eq_data_id(e as int),
                        ));
                    }
                    t += 1;
                }
                proof {
                    let items = adjacent_items(peers@[pos as int]);
                    assert(items.take(n_peer as int) =~= items);
                }
            }
            proof {
                assert(self.scratch_targets@ == old(self).peer_targets(pos as int));
                assert(var_id == old(self).var_order()[pos as int]);
            }
            let var_data_id = manager.data_id_of_variable_vector(var_id);
            self.broadcast_src_to_scratch_targets(manager, var_data_id);
            proof {
                let step = broadcast_ops(var_data_id, old(self).peer_targets(pos as int));
                DataManager::lemma_logged_trans(old(manager), &m0, manager, old(self).peer_pass_ops(base, reverse, k as int), step);
                assert(old(self).peer_pass_ops(base, reverse, k + 1) == old(self).peer_pass_ops(base, reverse, k as int) + step);
            }
            k += 1;
        }
        self.bs_peers = Some(peers);
    }
}

/// The row of `n` bytes that is one at `seq` and zero elsewhere.
pub open spec fn unit_row(n: int, seq: int) -> Seq<u8> {
    Seq::new(n as nat, |c: int| if c == seq { 1u8 } else { 0u8 })
}

/// The unit row of `n` bytes at `seq`.
fn unit_row_vec(n: usize, seq: usize) -> (r: Vec<u8>)
    requires
        seq < n,
    ensures
        r@ == unit_row(n as int, seq as int),
{
    let mut row: Vec<u8> = Vec::with_capacity(n);
    let mut c: usize = 0;
    while c < n
        invariant
            c <= n,
            row@ == unit_row(c as int, seq as int),
        decreases n - c,
    {
        if c == seq {
            row.push(1u8);
        } else {
            row.push(0u8);
        }
        c += 1;
        assert(row@ =~= unit_row(c as int, seq as int));
    }
    row
}

/// No bit of the zero word is set.
proof fn lemma_zero_word_bit(b: u64)
    by (bit_vector)
    ensures
        (0u64 >> b) & 1u64 != 1u64,
{
}

} // verus!
