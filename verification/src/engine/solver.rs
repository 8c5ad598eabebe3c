use vstd::prelude::*;
use crate::algebra::finite_field::GF256;
use crate::algebra::linear_algebra::{Matrix, exact_rows, identity_permutation, is_permutation, num_cols};
use crate::data_manager::DataManager;
use crate::engine::bp::{BPDecoder, VarState, lemma_count_active_zero};
use crate::engine::precode::session_kept;
use crate::engine::system_solver::{SolverError, SystemSolver};
use crate::traits::code_scheme::CodeScheme;
use crate::traits::hdpc::HDPC;
use crate::types::{CodeParams, DecodeStatus};

verus! {

broadcast use crate::data_manager::group_log_grows;

/// Dense inactive system of the Gaussian elimination phase: the rows of the
/// unused check nodes (`matrix_f`, right-hand sides `ids_unused`) and, kept
/// aside until needed, the HDPC constraint rows (`matrix_d`, `ids_hdpc`);
/// `q` is the column permutation and `r` the rank of the factorized prefix.
struct InactiveSolver {
    matrix_d: Vec<Vec<u8>>,
    ids_hdpc: Vec<usize>,
    matrix_f: Vec<Vec<u8>>,
    ids_unused: Vec<usize>,
    q: Vec<usize>,
    r: usize,
}

impl InactiveSolver {
    /// Rows of the width of `q` (the number of inactive variables), one
    /// right-hand side per row, `q` a permutation, and rows `0..r` holding
    /// non-zero pivots at columns `q[0..r]`.
    spec fn wf(&self) -> bool {
        let n = self.q@.len() as int;
        &&& self.matrix_f@.len() == self.ids_unused@.len()
        &&& exact_rows(self.matrix_f@, n)
        &&& is_permutation(self.q@, n)
        &&& self.r <= self.matrix_f@.len()
        &&& self.r <= n
        &&& forall|t: int| 0 <= t < self.r ==> #[trigger] self.matrix_f@[t]@[self.q@[t] as int] != 0
        &&& self.matrix_d@.len() == self.ids_hdpc@.len()
        &&& exact_rows(self.matrix_d@, n)
    }

    /// An empty system over `num_inactive` columns.
    fn new(num_inactive: usize) -> (r: Self)
        ensures
            r.wf(),
            r.q@.len() == num_inactive,
            r.r == 0,
            r.matrix_f@.len() == 0,
            r.matrix_d@.len() == 0,
    {
        let q = identity_permutation(num_inactive);
        InactiveSolver {
            matrix_d: Vec::new(),
            ids_hdpc: Vec::new(),
            matrix_f: Vec::new(),
            ids_unused: Vec::new(),
            q,
            r: 0,
        }
    }

    /// Appends a row with right-hand side `id`.
    fn add_row(&mut self, row: Vec<u8>, id: usize)
        requires
            old(self).wf(),
            row@.len() == old(self).q@.len(),
        ensures
            final(self).wf(),
            final(self).q == old(self).q,
            final(self).r == old(self).r,
            final(self).matrix_f@ == old(self).matrix_f@.push(row),
            final(self).ids_unused@ == old(self).ids_unused@.push(id),
            final(self).matrix_d@.len() == old(self).matrix_d@.len(),
    {
        self.matrix_f.push(row);
        self.ids_unused.push(id);
        proof {
            assert forall|t: int| 0 <= t < self.r implies #[trigger] self.matrix_f@[t]@[self.q@[t] as int] != 0 by {
                assert(self.matrix_f@[t] == old(self).matrix_f@[t]);
            }
        }
    }

    /// Incremental LU over GF(256) of the rows: the rows that are not
    /// independent of the others are dropped, and their right-hand side
    /// vectors removed. Returns the new rank.
    fn lu_decomposition(&mut self, manager: &mut DataManager) -> (res: usize)
        requires
            old(self).wf(),
            old(manager).wf(),
        ensures
            final(self).wf(),
            res == final(self).r,
            final(self).matrix_f@.len() == res,
            res >= old(self).r,
            final(self).q@.len() == old(self).q@.len(),
            final(self).matrix_d@.len() == old(self).matrix_d@.len(),
            final(manager).wf(),
            final(manager).same_config(old(manager)),
            final(manager).log_grows(old(manager)),
    {
        if self.matrix_f.len() == 0 {
            return self.r;
        }
        let ghost ncols = self.q@.len() as int;
        assert(num_cols(self.matrix_f@) == ncols);
        assert(self.q@.take(ncols) =~= self.q@);
        let field = GF256::default();
        let (p, r) = Matrix::lu_decomp_incr(&field, &mut self.matrix_f, &mut self.q, self.r);
        assert(self.q@.take(ncols) =~= self.q@);
        let m = p.len();
        let mut ids_new: Vec<usize> = Vec::with_capacity(r);
        let mut i: usize = 0;
        while i < r
            invariant
                i <= r,
                r <= m,
                m == p@.len(),
                is_permutation(p@, self.ids_unused@.len() as int),
                ids_new@.len() == i,
            decreases r - i,
        {
            ids_new.push(self.ids_unused[p[i]]);
            i += 1;
        }
        let mut i: usize = r;
        while i < m
            invariant
                r <= i <= m,
                m == p@.len(),
                is_permutation(p@, self.ids_unused@.len() as int),
                manager.wf(),
                manager.same_config(old(manager)),
                manager.log_grows(old(manager)),
            decreases m - i,
        {
            manager.remove(self.ids_unused[p[i]]);
            i += 1;
        }
        self.ids_unused = ids_new;
        self.matrix_f.truncate(r);
        self.r = r;
        r
    }

    /// Whether HDPC constraint rows are kept aside.
    fn has_hdpc_constraints(&self) -> (r: bool)
        ensures
            r == (self.matrix_d@.len() > 0),
    {
        self.matrix_d.len() > 0
    }

    /// Moves the HDPC constraint rows into the system.
    fn append_hdpc_constraints(&mut self)
        requires
            old(self).wf(),
        ensures
            final(self).wf(),
            final(self).q == old(self).q,
            final(self).r == old(self).r,
            final(self).matrix_f@ == old(self).matrix_f@ + old(self).matrix_d@,
            final(self).matrix_d@.len() == 0,
    {
        self.matrix_f.append(&mut self.matrix_d);
        self.ids_unused.append(&mut self.ids_hdpc);
        proof {
            let n = self.q@.len() as int;
            assert forall|k: int| 0 <= k < self.matrix_f@.len() implies #[trigger] self.matrix_f@[k]@.len() == n by {
                if k < old(self).matrix_f@.len() {
                    assert(self.matrix_f@[k] == old(self).matrix_f@[k]);
                } else {
                    assert(self.matrix_f@[k] == old(self).matrix_d@[k - old(self).matrix_f@.len()]);
                }
            }
            assert forall|t: int| 0 <= t < self.r implies #[trigger] self.matrix_f@[t]@[self.q@[t] as int] != 0 by {
                assert(self.matrix_f@[t] == old(self).matrix_f@[t]);
            }
        }
    }

    /// Solves the factorized full-rank square system on the right-hand side
    /// vectors (forward substitution with L, then back substitution with U,
    /// dividing by the pivots) and returns the data IDs of the inactive
    /// variables' solutions, in column order: entry `q[i]` is the vector of
    /// row `i`. `None` when a pivot other than one needs GF(256) division
    /// and the manager has no field.
    fn lu_solve_incr(&mut self, manager: &mut DataManager) -> (res: Option<Vec<usize>>)
        requires
            old(self).wf(),
            old(self).matrix_f@.len() == old(self).r,
            old(self).r == old(self).q@.len(),
            old(manager).wf(),
        ensures
            *final(self) == *old(self),
            res is None ==> old(manager).field() is None,
            res matches Some(ids) ==> ids@.len() == old(self).r && forall|i: int|
                0 <= i < old(self).r ==> #[trigger] ids@[old(self).q@[i] as int] == old(self).ids_unused@[i],
            final(manager).wf(),
            final(manager).same_config(old(manager)),
            final(manager).log_grows(old(manager)),
    {
        let n = self.matrix_f.len();
        let mut j: usize = 0;
        while j + 1 < n
            invariant
                self.wf(),
                *self == *old(self),
                j < n || j == 0,
                n == self.matrix_f@.len(),
                n == self.q@.len(),
                manager.wf(),
                manager.same_config(old(manager)),
                manager.log_grows(old(manager)),
                manager.field() == old(manager).field(),
            decreases n - j,
        {
            let mut i = j + 1;
            while i < n
                invariant
                    self.wf(),
                    *self == *old(self),
                    n == self.matrix_f@.len(),
                    n == self.q@.len(),
                    j + 1 <= i <= n,
                    manager.wf(),
                    manager.same_config(old(manager)),
                    manager.log_grows(old(manager)),
                    manager.field() == old(manager).field(),
                decreases n - i,
            {
                let l = self.matrix_f[i][self.q[j]];
                if l != 0 {
                    manager.mul_add(self.ids_unused[j], l, self.ids_unused[i]);
                }
                i += 1;
            }
            j += 1;
        }
        let mut jj = n;
        while jj > 0
            invariant
                self.wf(),
                *self == *old(self),
                n == self.matrix_f@.len(),
                n == self.q@.len(),
                n == self.r,
                jj <= n,
                manager.wf(),
                manager.same_config(old(manager)),
                manager.log_grows(old(manager)),
                manager.field() == old(manager).field(),
            decreases jj,
        {
            let j = jj - 1;
            let l = self.matrix_f[j][self.q[j]];
            if l != 1 {
                if manager.gf256().is_none() {
                    return None;
                }
                manager.divide_scalar(l, self.ids_unused[j]);
            }
            let mut i = j;
            while i > 0
                invariant
                    self.wf(),
                    *self == *old(self),
                    n == self.matrix_f@.len(),
                    n == self.q@.len(),
                    i <= j,
                    j < n,
                    manager.wf(),
                    manager.same_config(old(manager)),
                    manager.log_grows(old(manager)),
                    manager.field() == old(manager).field(),
                decreases i,
            {
                let l = self.matrix_f[i - 1][self.q[j]];
                if l != 0 {
                    manager.mul_add(self.ids_unused[j], l, self.ids_unused[i - 1]);
                }
                i -= 1;
            }
            jj -= 1;
        }
        let mut ids_new: Vec<usize> = vec![0; self.r];
        let mut i: usize = 0;
        while i < self.r
            invariant
                self.wf(),
                *self == *old(self),
                self.r == self.q@.len(),
                self.r == self.ids_unused@.len(),
                ids_new@.len() == self.r,
                i <= self.r,
                forall|t: int| 0 <= t < i ==> #[trigger] ids_new@[self.q@[t] as int] == self.ids_unused@[t],
            decreases self.r - i,
        {
            let ghost before = ids_new@;
            ids_new.set(self.q[i], self.ids_unused[i]);
            proof {
                assert forall|t: int| 0 <= t < i + 1 implies #[trigger] ids_new@[self.q@[t] as int] == self.ids_unused@[t] by {
                    if t < i {
                        assert(self.q@[t] != self.q@[i as int]);
                        assert(before[self.q@[t] as int] == self.ids_unused@[t]);
                    }
                }
            }
            i += 1;
        }
        Some(ids_new)
    }
}

/// Phase of a [`Solver`].
#[derive(Debug, PartialEq, Eq, Clone, Copy, Structural)]
pub enum DecodePhase {
    /// Belief propagation.
    BP,
    /// Gaussian elimination on the inactive variables.
    GE,
}

/// Decoder built on [`BPDecoder`]: BP with inactivation, then Gaussian
/// elimination on a dense inactive system.
pub struct Solver {
    params: CodeParams,
    bp_decoder: BPDecoder,
    hdpc: Option<Box<dyn HDPC>>,
    inactive_solver: Option<InactiveSolver>,
    /// Current phase.
    pub phase: DecodePhase,
    /// Status after the last coded vector.
    pub status: DecodeStatus,
}

impl Solver {
    /// Code parameters.
    pub closed spec fn spec_params(&self) -> CodeParams {
        self.params
    }

    /// The BP decoder.
    pub closed spec fn bp(&self) -> BPDecoder {
        self.bp_decoder
    }

    /// Current phase.
    pub closed spec fn spec_phase(&self) -> DecodePhase {
        self.phase
    }

    /// Status after the last coded vector.
    pub closed spec fn spec_status(&self) -> DecodeStatus {
        self.status
    }

    /// The graph is consistent; in the Gaussian elimination phase the
    /// inactive system is consistent and has one column per inactive variable.
    pub closed spec fn wf(&self) -> bool {
        &&& self.bp_decoder.wf()
        &&& self.bp_decoder.spec_params() == self.params
        &&& self.phase == DecodePhase::GE ==> (self.inactive_solver matches Some(s) && s.wf() && s.q@.len()
            == self.bp_decoder.inactive())
    }

    /// Sets up the decoder for `custom` over `manager`'s session: a BP
    /// decoder with the scheme's degree sets and inactivation cap, and the
    /// LDPC check nodes. Fails when the scheme's parameters are not the
    /// session's, the cap is below `b + h` (or too large), or the data IDs
    /// left do not cover the LDPC check nodes.
    pub fn new<T: CodeScheme>(custom: &T, manager: &mut DataManager) -> (r: Result<Self, SolverError>)
        requires
            old(manager).wf(),
        ensures
            session_kept(final(manager), old(manager)),
            r matches Ok(s) ==> s.wf() && s.spec_params() == old(manager).spec_params() && s.spec_phase()
                == DecodePhase::BP && s.spec_status() == DecodeStatus::NotDecoded,
    {
        let params = custom.get_params();
        let gen_degree_set = custom.create_degree_set_fn();
        let (hdpc, ldpc) = custom.create_precode();
        let max_inactive_num = custom.max_inactive_num();
        let session = manager.code_params();
        SystemSolver::check_setup(&params, &session, max_inactive_num, manager.ids_left())?;
        let mut bp_decoder = BPDecoder::new(&params, gen_degree_set, max_inactive_num);
        match ldpc {
            Some(ldpc) => {
                bp_decoder.add_ldpc_check_node(manager, ldpc);
            },
            None => {},
        }
        Ok(Solver {
            params,
            bp_decoder,
            hdpc,
            inactive_solver: None,
            phase: DecodePhase::BP,
            status: DecodeStatus::NotDecoded,
        })
    }

    /// Enters the Gaussian elimination phase once BP is complete: the rows of
    /// the unused check nodes form the inactive system and, with an HDPC
    /// part, the HDPC constraints `D~ = D G~ + [0 | I]` over the inactive
    /// variables are computed and kept aside, their right-hand sides being
    /// the HDPC products of the active variable vectors. HDPC rows of the
    /// wrong shape, or data IDs running out, leave the constraints out.
    fn phase_change(&mut self, manager: &mut DataManager)
        requires
            old(self).wf(),
            old(self).phase == DecodePhase::BP,
            old(self).bp_decoder.decoded() + old(self).bp_decoder.inactive() == old(self).bp_decoder.total(),
            old(manager).wf(),
            old(manager).spec_params() == old(self).params,
        ensures
            final(self).wf(),
            final(self).phase == DecodePhase::GE,
            final(self).params == old(self).params,
            final(self).bp_decoder == old(self).bp_decoder,
            final(self).status == old(self).status,
            session_kept(final(manager), old(manager)),
    {
        let num_inactive = self.bp_decoder.num_inactive();
        let mut inactive_solver = InactiveSolver::new(num_inactive);
        let unused = self.bp_decoder.iter_unused_check();
        proof {
            self.bp_decoder.lemma_wf();
            self.bp_decoder.lemma_unused_checks_rows(self.bp_decoder.num_checks());
        }
        let mut i: usize = 0;
        while i < unused.len()
            invariant
                inactive_solver.wf(),
                inactive_solver.q@.len() == num_inactive,
                inactive_solver.matrix_d@.len() == 0,
                self.bp_decoder.wf(),
                num_inactive == self.bp_decoder.inactive(),
                unused@.map_values(|p: (Vec<u8>, usize)| (p.0@, p.1)) == self.bp_decoder.unused_checks(
                    self.bp_decoder.num_checks(),
                ),
                forall|x: int|
                    0 <= x < self.bp_decoder.unused_checks(self.bp_decoder.num_checks()).len() ==> (
                    #[trigger] self.bp_decoder.unused_checks(self.bp_decoder.num_checks())[x]).0.len()
                        == self.bp_decoder.inactive(),
                i <= unused@.len(),
            decreases unused@.len() - i,
        {
            let row = unused[i].0.clone();
            proof {
                assert(unused@.map_values(|p: (Vec<u8>, usize)| (p.0@, p.1))[i as int].0 == unused@[i as int].0@);
                assert(row@ =~= unused@[i as int].0@);
            }
            inactive_solver.add_row(row, unused[i].1);
            i += 1;
        }
        let h = self.params.h;
        match &self.hdpc {
            Some(hdpc) => {
                if manager.ids_left() >= h {
                    let mut hdpc_ids: Vec<usize> = Vec::with_capacity(h);
                    let mut t: usize = 0;
                    while t < h
                        invariant
                            t <= h,
                            hdpc_ids@.len() == t,
                            manager.wf(),
                            manager.spec_params() == self.params,
                            session_kept(manager, old(manager)),
                            manager.next_id() + (h - t) <= usize::MAX,
                        decreases h - t,
                    {
                        hdpc_ids.push(manager.temp_data_id());
                        t += 1;
                    }
                    let active_ids = manager.data_id_range_of_active_variable();
                    hdpc.mul_data(manager, &self.params, active_ids.as_slice(), hdpc_ids.as_slice());
                    let kl = self.params.num_message_ldpc();
                    let mut rows: Vec<Vec<usize>> = Vec::with_capacity(kl);
                    proof {
                        self.bp_decoder.lemma_wf();
                        lemma_count_active_zero(self.bp_decoder.states());
                    }
                    let mut v: usize = 0;
                    while v < kl
                        invariant
                            self.bp_decoder.wf(),
                            kl == self.params.k + self.params.l,
                            self.bp_decoder.spec_params() == self.params,
                            forall|x: int|
                                0 <= x < self.bp_decoder.total() ==> #[trigger] self.bp_decoder.states()[x]
                                    != VarState::Active,
                            v <= kl,
                        decreases kl - v,
                    {
                        rows.push(self.bp_decoder.indices_tilde_g_row(v));
                        v += 1;
                    }
                    let mut matrix_d = hdpc.mul_sparse(manager.gf256(), &self.params, num_inactive, rows.as_slice());
                    if Self::hdpc_rows_fit(&matrix_d, h, num_inactive) {
                        let end_index = num_inactive - h;
                        let mut i: usize = 0;
                        while i < h
                            invariant
                                i <= h,
                                matrix_d@.len() == h,
                                h <= num_inactive,
                                end_index == num_inactive - h,
                                exact_rows(matrix_d@, num_inactive as int),
                            decreases h - i,
                        {
                            let mut row: Vec<u8> = Vec::new();
                            std::mem::swap(&mut row, &mut matrix_d[i]);
                            let x = row[end_index + i] ^ 1u8;
                            row.set(end_index + i, x);
                            matrix_d.set(i, row);
                            proof {
                                assert forall|k: int| 0 <= k < matrix_d@.len() implies #[trigger] matrix_d@[k]@.len()
                                    == num_inactive by {
                                }
                            }
                            i += 1;
                        }
                        inactive_solver.matrix_d = matrix_d;
                        inactive_solver.ids_hdpc = hdpc_ids;
                    }
                }
            },
            None => {},
        }
        self.inactive_solver = Some(inactive_solver);
        self.phase = DecodePhase::GE;
    }

    /// `h` rows of `num_inactive` entries each, with `h <= num_inactive`.
    fn hdpc_rows_fit(m: &Vec<Vec<u8>>, h: usize, num_inactive: usize) -> (r: bool)
        ensures
            r == (m@.len() == h && h <= num_inactive && exact_rows(m@, num_inactive as int)),
    {
        if m.len() != h || h > num_inactive {
            return false;
        }
        let mut i: usize = 0;
        while i < m.len()
            invariant
                i <= m@.len(),
                forall|k: int| 0 <= k < i ==> #[trigger] m@[k]@.len() == num_inactive,
            decreases m@.len() - i,
        {
            if m[i].len() != num_inactive {
                return false;
            }
            i += 1;
        }
        true
    }

    /// Incremental LU of the inactive system (with the HDPC constraints
    /// appended when the rank falls short by at most `h`); on full rank,
    /// solves it and back-substitutes the inactive solutions into the
    /// variables they were eliminated from, then moves each into place.
    fn solve_inactive(&mut self, manager: &mut DataManager) -> (r: DecodeStatus)
        requires
            old(self).wf(),
            old(self).phase == DecodePhase::GE,
            old(manager).wf(),
            old(manager).spec_params() == old(self).params,
        ensures
            final(self).wf(),
            final(self).phase == DecodePhase::GE,
            final(self).params == old(self).params,
            final(self).bp_decoder == old(self).bp_decoder,
            final(self).status == old(self).status,
            session_kept(final(manager), old(manager)),
            r == DecodeStatus::Decoded ==> (final(self).inactive_solver matches Some(sol) && sol.r
                == final(self).bp_decoder.inactive()),
            r == DecodeStatus::NotDecoded ==> (final(self).inactive_solver matches Some(sol) && (sol.r
                < final(self).bp_decoder.inactive() || old(manager).field() is None)),
    {
        let num_inactive = self.bp_decoder.num_inactive();
        let mut inactive_solver = self.inactive_solver.take().unwrap();
        let mut r = inactive_solver.lu_decomposition(manager);
        if r < num_inactive && num_inactive - r <= self.params.h && inactive_solver.has_hdpc_constraints() {
            inactive_solver.append_hdpc_constraints();
            r = inactive_solver.lu_decomposition(manager);
        }
        if r < num_inactive {
            self.inactive_solver = Some(inactive_solver);
            return DecodeStatus::NotDecoded;
        }
        let solved = inactive_solver.lu_solve_incr(manager);
        self.inactive_solver = Some(inactive_solver);
        let cod_ids_sol_inactive = match solved {
            Some(ids) => ids,
            None => {
                return DecodeStatus::NotDecoded;
            },
        };
        let ghost fs = self.inactive_solver;
        let inactive_vars = self.bp_decoder.iter_inactive_var();
        proof {
            self.bp_decoder.lemma_inactive_vars_bounds(self.bp_decoder.total());
        }
        let mut k: usize = 0;
        while k < inactive_vars.len()
            invariant
                self.wf(),
                self.phase == DecodePhase::GE,
                self.params == old(self).params,
                self.bp_decoder == old(self).bp_decoder,
                self.status == old(self).status,
                cod_ids_sol_inactive@.len() == num_inactive,
                num_inactive == self.bp_decoder.inactive(),
                inactive_vars@.map_values(|t: (usize, usize, Vec<usize>)| (t.0, t.1, t.2@))
                    == self.bp_decoder.inactive_vars(self.bp_decoder.total()),
                forall|i: int|
                    0 <= i < self.bp_decoder.inactive_vars(self.bp_decoder.total()).len() ==> {
                        let t = #[trigger] self.bp_decoder.inactive_vars(self.bp_decoder.total())[i];
                        &&& t.0 < self.bp_decoder.total()
                        &&& t.1 < self.bp_decoder.inactive()
                        &&& forall|x: int| 0 <= x < t.2.len() ==> #[trigger] t.2[x] < self.bp_decoder.total()
                    },
                manager.wf(),
                manager.spec_params() == self.params,
                session_kept(manager, old(manager)),
                k <= inactive_vars@.len(),
                self.inactive_solver == fs,
                (fs matches Some(sol) && sol.r == num_inactive),
            decreases inactive_vars@.len() - k,
        {
            let var_id = inactive_vars[k].0;
            let seq = inactive_vars[k].1;
            let idx = &inactive_vars[k].2;
            proof {
                let t = self.bp_decoder.inactive_vars(self.bp_decoder.total())[k as int];
                assert(inactive_vars@.map_values(|t: (usize, usize, Vec<usize>)| (t.0, t.1, t.2@))[k as int] == t);
                assert(idx@ == t.2);
            }
            let mut data_ids: Vec<usize> = Vec::with_capacity(idx.len());
            let mut x: usize = 0;
            while x < idx.len()
                invariant
                    x <= idx@.len(),
                    forall|y: int| 0 <= y < idx@.len() ==> #[trigger] idx@[y] < self.params.total(),
                    manager.wf(),
                    manager.spec_params() == self.params,
                decreases idx@.len() - x,
            {
                data_ids.push(manager.data_id_of_variable_vector(idx[x]));
                x += 1;
            }
            let src = cod_ids_sol_inactive[seq];
            manager.broadcast_add(src, data_ids.as_slice());
            let dst = manager.data_id_of_variable_vector(var_id);
            manager.move_to(src, dst);
            k += 1;
        }
        DecodeStatus::Decoded
    }

    /// Adds coded vector `coded_id` (right-hand side `data_id`). In the BP
    /// phase BP runs; all variables decoded means decoded, and BP complete
    /// with inactive variables left switches to Gaussian elimination and
    /// tries to solve. In the elimination phase the new row joins the
    /// inactive system, which is solved again.
    pub fn add_coded_vector(&mut self, manager: &mut DataManager, coded_id: usize, data_id: usize)
        requires
            old(self).wf(),
            old(manager).wf(),
            old(manager).spec_params() == old(self).spec_params(),
        ensures
            final(self).wf(),
            final(self).spec_params() == old(self).spec_params(),
            old(self).spec_phase() == DecodePhase::GE ==> final(self).spec_phase() == DecodePhase::GE,
            final(self).spec_phase() == DecodePhase::BP ==> final(self).spec_status() == DecodeStatus::NotDecoded
                || final(self).bp().decoded() == final(self).bp().total(),
            session_kept(final(manager), old(manager)),
    {
        let check_id = self.bp_decoder.add_coded_vector(manager, coded_id, data_id);
        match self.phase {
            DecodePhase::BP => {
                let num_decoded_vars = self.bp_decoder.run(manager);
                proof {
                    self.bp_decoder.lemma_wf();
                }
                if num_decoded_vars < self.params.num_total() {
                    if self.bp_decoder.is_complete() {
                        self.phase_change(manager);
                        self.status = self.solve_inactive(manager);
                    } else {
                        self.status = DecodeStatus::NotDecoded;
                    }
                } else {
                    self.status = DecodeStatus::Decoded;
                }
            },
            DecodePhase::GE => {
                let row = self.bp_decoder.inactive_adj_matrix_row(check_id);
                proof {
                    self.bp_decoder.lemma_wf();
                    assert(self.bp_decoder.row(check_id as int).len() == self.bp_decoder.max_inactive());
                }
                let mut inactive_solver = self.inactive_solver.take().unwrap();
                inactive_solver.add_row(row, data_id);
                self.inactive_solver = Some(inactive_solver);
                self.status = self.solve_inactive(manager);
            },
        }
    }
}

} // verus!
