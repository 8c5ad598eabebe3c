//! The inactive system `F B_i = X_u'` of the Gaussian elimination phase.
use vstd::prelude::*;
use crate::algebra::finite_field::{Field, GF2, GF256, least_inverse};
use crate::algebra::linear_algebra::{
    Matrix,
    elimination_laws,
    entries,
    exact_rows,
    expanded_entry,
    is_permutation,
    lemma_expanded_entry_congruent,
    lemma_lu_product_q_congruent,
    lu_product_q,
    num_cols,
    rows_at_least,
};
use crate::data_manager::DataManager;
use crate::engine::binary_matrix::{
    BinaryMatrix,
    bit_entries,
    lemma_word_index,
    lemma_zero_row_bits,
    padded_prefix,
    row_bit,
    row_bytes_spec,
    words_for,
};
use crate::traits::hdpc::HDPC;
use crate::types::{CodeParams, OpView};

verus! {

broadcast use crate::data_manager::group_log_grows;

/// `l` times vector `src` added into `dst`: nothing for zero, a plain
/// addition for one, a multiply-add otherwise.
pub open spec fn scaled_add_ops(src: usize, l: u8, dst: usize) -> Seq<OpView> {
    if l == 0 {
        seq![]
    } else if l == 1 {
        seq![OpView::AddOneToVector { src_id: src, target_id: dst }]
    } else {
        seq![OpView::MulAdd { src_id: src, scalar: l, target_id: dst }]
    }
}

/// Vector `id` divided by the pivot `d` in the field reduced by `poly`:
/// nothing for one, else a multiplication by the inverse of `d` (by alpha
/// when that inverse is `0x02`).
pub open spec fn pivot_ops(d: u8, poly: Option<u8>, id: usize) -> Seq<OpView> {
    if d == 1 {
        seq![]
    } else if least_inverse(d, poly.unwrap()) == 2 {
        seq![OpView::MultiplyAlpha { id }]
    } else {
        seq![OpView::MultiplyScalar { scalar: least_inverse(d, poly.unwrap()), id }]
    }
}

/// System for the inactive variables in the Gaussian elimination phase.
///
/// Each row holds the inactive coefficients of an unused equation (or of an
/// HDPC constraint), with the data ID of its right-hand side. Rows exported
/// from the master system are kept packed over GF(2) until an HDPC tail of
/// dense rows forces them into bytes.
pub struct InactiveSystem {
    params: CodeParams,
    num_inactive: usize,
    /// Packed GF(2) rows, until they are turned into bytes.
    matrix_f_packed: Option<BinaryMatrix>,
    /// Dense rows, after the packed ones.
    matrix_f: Vec<Vec<u8>>,
    /// Right-hand side data ID of each row.
    rhs_data_ids: Vec<usize>,
    /// Column permutation of the incremental LU decomposition.
    q: Vec<usize>,
    /// Rows `0..num_binary_rows` are `{0,1}` rows exported from the master system.
    num_binary_rows: usize,
    /// Current rank.
    r: usize,
}

impl InactiveSystem {
    /// Number of columns (inactive variables).
    pub closed spec fn cols(&self) -> int {
        self.num_inactive as int
    }

    /// Current rank of the factorization.
    pub closed spec fn rank(&self) -> int {
        self.r as int
    }

    /// Number of packed rows.
    pub closed spec fn packed_rows(&self) -> int {
        match self.matrix_f_packed {
            Some(p) => p@.len() as int,
            None => 0,
        }
    }

    /// Number of dense rows.
    pub closed spec fn dense_rows(&self) -> int {
        self.matrix_f@.len() as int
    }

    /// Number of rows.
    pub closed spec fn rows(&self) -> int {
        self.packed_rows() + self.matrix_f@.len()
    }

    /// Right-hand side data IDs.
    pub closed spec fn rhs(&self) -> Seq<usize> {
        self.rhs_data_ids@
    }

    /// Column permutation.
    pub closed spec fn perm(&self) -> Seq<usize> {
        self.q@
    }

    /// Code parameters.
    pub closed spec fn spec_params(&self) -> CodeParams {
        self.params
    }

    /// Whether the rows are still (all or partly) packed.
    pub closed spec fn is_packed(&self) -> bool {
        self.matrix_f_packed is Some
    }

    /// Coefficient at `(row, col)`, with `col` a physical column.
    pub closed spec fn coeff(&self, row: int, col: int) -> u8 {
        if self.matrix_f_packed is Some && row < self.packed_rows() {
            if row_bit(self.matrix_f_packed->0@[row], col) {
                1u8
            } else {
                0u8
            }
        } else {
            self.matrix_f@[row - self.packed_rows()]@[col]
        }
    }

    /// Consistent system: `q` permutes the columns, every dense row has one
    /// entry per column, every row has a right-hand side, and the first
    /// `rank` rows hold non-zero pivots at the permuted columns.
    pub closed spec fn wf(&self) -> bool {
        &&& self.num_inactive + 64 < usize::MAX
        &&& is_permutation(self.q@, self.num_inactive as int)
        &&& self.matrix_f_packed matches Some(p) ==> p.wf() && p.spec_width() == self.num_inactive
        &&& forall|i: int| 0 <= i < self.matrix_f@.len() ==> (#[trigger] self.matrix_f@[i])@.len() == self.num_inactive
        &&& self.rhs_data_ids@.len() == self.rows()
        &&& self.r <= self.num_inactive
        &&& self.r <= self.rows()
        &&& forall|t: int| 0 <= t < self.r ==> #[trigger] self.coeff(t, self.q@[t] as int) != 0
        &&& self.matrix_f_packed is Some && self.matrix_f@.len() > 0 ==> self.r <= self.packed_rows()
    }

    /// The coefficients as a function of row and physical column.
    pub open spec fn coeff_fn(&self) -> spec_fn(int, int) -> u8 {
        |row: int, col: int| self.coeff(row, col)
    }

    /// An incremental decomposition of the first `m` rows of `o` over `field`
    /// that found the row permutation `p`, the column permutation `q` and
    /// rank `r`, leaving the factor entries `g`: row `p[i]` of the matrix it
    /// started from (`L U`
    /// of the factorization `o` already held, then the other rows of `o`,
    /// see [`expanded_entry`]) is row `i` of the new `L U`, logical column
    /// `c` at physical column `q[c]`.
    pub open spec fn factors<F: Field>(
        o: &Self,
        m: int,
        field: F,
        p: Seq<usize>,
        g: spec_fn(int, int) -> u8,
        q: Seq<usize>,
        r: int,
    ) -> bool {
        forall|i: int, c: int|
            0 <= i < m && 0 <= c < o.cols() ==> #[trigger] expanded_entry(
                field,
                o.coeff_fn(),
                o.perm(),
                o.rank(),
                o.cols(),
                p[i] as int,
                q[c] as int,
            ) == lu_product_q(field, g, q, r, i, c)
    }

    /// The rows that [`Self::lu_decomposition`] decomposes: all of them, or
    /// only the packed ones when the dense rows are a stale HDPC tail (added
    /// while the rank was below the packed rows).
    pub open spec fn kept_rows(&self) -> int {
        if self.dense_rows() > 0 && self.is_packed() && self.rank() < self.packed_rows() {
            self.packed_rows()
        } else {
            self.rows()
        }
    }

    /// [`Self::lu_decomposition`] eliminates over GF(2) on packed rows.
    pub open spec fn packed_elimination(&self) -> bool {
        self.is_packed() && (self.dense_rows() == 0 || self.rank() < self.packed_rows())
    }

    /// The right-hand sides `rhs[p[i]]` of the rows `r..m` after reordering
    /// by `p`, each removed.
    pub open spec fn removed_ops(rhs: Seq<usize>, p: Seq<usize>, r: int, m: int) -> Seq<OpView>
        decreases m - r,
    {
        if m <= r {
            seq![]
        } else {
            Self::removed_ops(rhs, p, r, m - 1) + seq![OpView::Remove { id: rhs[p[m - 1] as int] }]
        }
    }

    /// The removals read only the right-hand sides that `p` selects.
    pub proof fn lemma_removed_ops_congruent(rhs1: Seq<usize>, rhs2: Seq<usize>, p: Seq<usize>, r: int, m: int, k: int)
        requires
            forall|i: int| r <= i < m ==> 0 <= #[trigger] p[i] < k,
            forall|t: int| 0 <= t < k ==> #[trigger] rhs1[t] == rhs2[t],
        ensures
            Self::removed_ops(rhs1, p, r, m) == Self::removed_ops(rhs2, p, r, m),
        decreases m - r,
    {
        if m > r {
            Self::lemma_removed_ops_congruent(rhs1, rhs2, p, r, m - 1, k);
            assert(0 <= p[m - 1] < k);
        }
    }

    /// `s` is `o` after [`Self::lu_decomposition`] over `field`, with row
    /// permutation `p` and factor entries `g` (rows past the new rank
    /// included): the first `kept_rows` rows of `o` factor as [`Self::factors`]
    /// says, `s` keeps the factor rows `0..rank` and their right-hand sides in
    /// the new order.
    pub open spec fn decomposed<F: Field>(o: &Self, s: &Self, field: F, p: Seq<usize>, g: spec_fn(int, int) -> u8) -> bool {
        &&& is_permutation(p, o.kept_rows())
        &&& forall|t: int, c: int| 0 <= t < s.rank() && 0 <= c < s.cols() ==> #[trigger] g(t, c) == s.coeff(t, c)
        &&& Self::factors(o, o.kept_rows(), field, p, g, s.perm(), s.rank())
        &&& forall|i: int| 0 <= i < s.rank() ==> #[trigger] s.rhs()[i] == o.rhs()[p[i] as int]
    }

    /// Coefficient of row `i` at logical column `j` (through the column permutation).
    pub open spec fn lu_coeff(&self, i: int, j: int) -> u8 {
        self.coeff(i, self.perm()[j] as int)
    }

    /// Forward substitution with column `j` of the unit lower factor, rows
    /// `j + 1 .. i` in ascending order.
    pub open spec fn forward_col_ops(&self, j: int, i: int) -> Seq<OpView>
        decreases i - j,
    {
        if i <= j + 1 {
            seq![]
        } else {
            self.forward_col_ops(j, i - 1) + scaled_add_ops(self.rhs()[j], self.lu_coeff(i - 1, j), self.rhs()[i - 1])
        }
    }

    /// Forward substitution with columns `0 .. j` of the unit lower factor.
    pub open spec fn forward_ops(&self, j: int) -> Seq<OpView>
        decreases j,
    {
        if j <= 0 {
            seq![]
        } else {
            self.forward_ops(j - 1) + self.forward_col_ops(j - 1, self.rows())
        }
    }

    /// Backward substitution with column `j` of the upper factor, rows
    /// `j - 1` down to `i`.
    pub open spec fn backward_col_ops(&self, j: int, i: int) -> Seq<OpView>
        decreases j - i,
    {
        if i >= j {
            seq![]
        } else {
            self.backward_col_ops(j, i + 1) + scaled_add_ops(self.rhs()[j], self.lu_coeff(i, j), self.rhs()[i])
        }
    }

    /// Backward substitution with columns `rows - 1` down to `j` of the upper
    /// factor: each right-hand side divided by its pivot, then eliminated
    /// from the rows above.
    pub open spec fn backward_ops(&self, poly: Option<u8>, j: int) -> Seq<OpView>
        decreases self.rows() - j,
    {
        if j >= self.rows() {
            seq![]
        } else {
            self.backward_ops(poly, j + 1) + pivot_ops(self.lu_coeff(j, j), poly, self.rhs()[j])
                + self.backward_col_ops(j, 0)
        }
    }

    /// The operations of solving the factorized system over the field
    /// reduced by `poly`: forward, then backward substitution.
    pub open spec fn solve_ops(&self, poly: Option<u8>) -> Seq<OpView> {
        self.forward_ops(self.rows() - 1) + self.backward_ops(poly, 0)
    }

    /// Solving needs a division, impossible without GF(256): some pivot is not one.
    pub open spec fn needs_division(&self) -> bool {
        exists|j: int| 0 <= j < self.rows() && self.lu_coeff(j, j) != 1
    }

    /// The operations of [`Self::solve_ops`] depend only on the coefficients,
    /// the column permutation and the right-hand sides.
    proof fn lemma_solve_ops_congruent(&self, o: &Self, poly: Option<u8>)
        requires
            self.rows() == o.rows(),
            self.rhs() == o.rhs(),
            forall|i: int, j: int| 0 <= i < self.rows() && 0 <= j < self.rows() ==> #[trigger] self.lu_coeff(i, j) == o.lu_coeff(i, j),
        ensures
            self.solve_ops(poly) == o.solve_ops(poly),
            self.needs_division() == o.needs_division(),
    {
        let n = self.rows();
        assert forall|j: int, i: int| 0 <= j < n && i <= n implies #[trigger] self.forward_col_ops(j, i) == o.forward_col_ops(j, i) by {
            self.lemma_forward_col_congruent(o, j, i);
        }
        assert forall|j: int, i: int| 0 <= i && j < n implies #[trigger] self.backward_col_ops(j, i) == o.backward_col_ops(j, i) by {
            self.lemma_backward_col_congruent(o, j, i);
        }
        self.lemma_forward_congruent(o, n - 1);
        self.lemma_backward_congruent(o, poly, 0);
        if self.needs_division() {
            let j = choose|j: int| 0 <= j < self.rows() && self.lu_coeff(j, j) != 1;
            assert(o.lu_coeff(j, j) != 1);
        }
        if o.needs_division() {
            let j = choose|j: int| 0 <= j < o.rows() && o.lu_coeff(j, j) != 1;
            assert(self.lu_coeff(j, j) != 1);
        }
    }

    proof fn lemma_forward_col_congruent(&self, o: &Self, j: int, i: int)
        requires
            self.rows() == o.rows(),
            self.rhs() == o.rhs(),
            forall|i: int, j: int| 0 <= i < self.rows() && 0 <= j < self.rows() ==> #[trigger] self.lu_coeff(i, j) == o.lu_coeff(i, j),
            0 <= j < self.rows(),
            i <= self.rows(),
        ensures
            self.forward_col_ops(j, i) == o.forward_col_ops(j, i),
        decreases i - j,
    {
        if i > j + 1 {
            self.lemma_forward_col_congruent(o, j, i - 1);
            assert(self.lu_coeff(i - 1, j) == o.lu_coeff(i - 1, j));
        }
    }

    proof fn lemma_backward_col_congruent(&self, o: &Self, j: int, i: int)
        requires
            self.rows() == o.rows(),
            self.rhs() == o.rhs(),
            forall|i: int, j: int| 0 <= i < self.rows() && 0 <= j < self.rows() ==> #[trigger] self.lu_coeff(i, j) == o.lu_coeff(i, j),
            j < self.rows(),
            0 <= i,
        ensures
            self.backward_col_ops(j, i) == o.backward_col_ops(j, i),
        decreases j - i,
    {
        if i < j {
            self.lemma_backward_col_congruent(o, j, i + 1);
            assert(self.lu_coeff(i, j) == o.lu_coeff(i, j));
        }
    }

    proof fn lemma_forward_congruent(&self, o: &Self, j: int)
        requires
            self.rows() == o.rows(),
            j <= self.rows(),
            forall|j: int, i: int| 0 <= j < self.rows() && i <= self.rows() ==> #[trigger] self.forward_col_ops(j, i) == o.forward_col_ops(j, i),
        ensures
            self.forward_ops(j) == o.forward_ops(j),
        decreases j,
    {
        if j > 0 {
            self.lemma_forward_congruent(o, j - 1);
            assert(self.forward_col_ops(j - 1, self.rows()) == o.forward_col_ops(j - 1, o.rows()));
        }
    }

    proof fn lemma_backward_congruent(&self, o: &Self, poly: Option<u8>, j: int)
        requires
            self.rows() == o.rows(),
            self.rhs() == o.rhs(),
            forall|i: int, j: int| 0 <= i < self.rows() && 0 <= j < self.rows() ==> #[trigger] self.lu_coeff(i, j) == o.lu_coeff(i, j),
            forall|j: int, i: int| 0 <= i && j < self.rows() ==> #[trigger] self.backward_col_ops(j, i) == o.backward_col_ops(j, i),
            0 <= j,
        ensures
            self.backward_ops(poly, j) == o.backward_ops(poly, j),
        decreases self.rows() - j,
    {
        if j < self.rows() {
            self.lemma_backward_congruent(o, poly, j + 1);
            assert(self.lu_coeff(j, j) == o.lu_coeff(j, j));
            assert(self.backward_col_ops(j, 0) == o.backward_col_ops(j, 0));
        }
    }

    /// Index at which [`Self::add_row_from_master`] inserts its row: after
    /// the packed rows while rows are packed, else after all rows.
    pub open spec fn next_master_row(&self) -> int {
        if self.is_packed() {
            self.packed_rows()
        } else {
            self.rows()
        }
    }

    /// What a consistent system guarantees.
    pub proof fn lemma_wf(&self)
        requires
            self.wf(),
        ensures
            self.cols() + 64 < usize::MAX,
            is_permutation(self.perm(), self.cols()),
            self.rhs().len() == self.rows(),
            0 <= self.rank() <= self.cols(),
            self.rank() <= self.rows(),
    {
    }

    /// An empty system with no columns.
    pub fn new(params: &CodeParams) -> (r: Self)
        ensures
            r.wf(),
            r.spec_params() == *params,
            r.cols() == 0,
            r.rows() == 0,
            r.rank() == 0,
    {
        InactiveSystem {
            params: *params,
            num_inactive: 0,
            matrix_f_packed: None,
            matrix_f: Vec::new(),
            rhs_data_ids: Vec::new(),
            q: Vec::new(),
            num_binary_rows: 0,
            r: 0,
        }
    }

    /// Resets the system to `num_inactive` columns, no rows, identity column
    /// permutation and rank zero; rows will be accumulated packed.
    pub fn init(&mut self, num_inactive: usize)
        requires
            num_inactive + 64 < usize::MAX,
        ensures
            final(self).wf(),
            final(self).spec_params() == old(self).spec_params(),
            final(self).cols() == num_inactive,
            final(self).rows() == 0,
            final(self).rank() == 0,
            final(self).is_packed(),
    {
        self.num_inactive = num_inactive;
        self.matrix_f = Vec::new();
        self.rhs_data_ids = Vec::new();
        self.q = crate::algebra::linear_algebra::identity_permutation(num_inactive);
        self.num_binary_rows = 0;
        self.r = 0;
        self.matrix_f_packed = Some(BinaryMatrix::new(num_inactive));
    }

    /// Number of rows.
    fn matrix_row_count(&self) -> (r: usize)
        requires
            self.wf(),
        ensures
            r == self.rows(),
    {
        let p = match &self.matrix_f_packed {
            Some(p) => p.num_rows(),
            None => 0,
        };
        proof {
            assert(p + self.matrix_f@.len() == self.rhs_data_ids@.len());
        }
        self.rhs_data_ids.len()
    }

    /// Appends the inactive coefficients of row `equ_id` of the master matrix,
    /// with right-hand side `rhs_id`.
    pub fn add_row_from_master(&mut self, master: &BinaryMatrix, equ_id: usize, rhs_id: usize)
        requires
            old(self).wf(),
            master.wf(),
            equ_id < master@.len(),
            old(self).cols() <= master.spec_width(),
        ensures
            final(self).wf(),
            final(self).spec_params() == old(self).spec_params(),
            final(self).cols() == old(self).cols(),
            final(self).rank() == old(self).rank(),
            final(self).perm() == old(self).perm(),
            final(self).rows() == old(self).rows() + 1,
            final(self).rhs() == old(self).rhs().push(rhs_id),
            final(self).is_packed() == old(self).is_packed(),
            forall|t: int, c: int|
                0 <= t < old(self).next_master_row() && 0 <= c < old(self).cols() ==> #[trigger] final(self).coeff(
                    t,
                    c,
                ) == old(self).coeff(t, c),
            forall|c: int|
                0 <= c < old(self).cols() ==> #[trigger] final(self).coeff(old(self).next_master_row(), c) == (if master.bit(
                    equ_id as int,
                    c,
                ) {
                    1u8
                } else {
                    0u8
                }),
    {
        let n = self.num_inactive;
        if self.matrix_f_packed.is_some() {
            let mut packed = self.matrix_f_packed.take().unwrap();
            let ghost p0 = packed;
            let mut words = vec![0u64; packed.words_per_row()];
            master.copy_row_words(equ_id, words.as_mut_slice(), n);
            packed.append_row_from_words(words.as_slice(), n);
            self.matrix_f_packed = Some(packed);
            self.rhs_data_ids.push(rhs_id);
            proof {
                assert forall|c: int| 0 <= c < n implies #[trigger] row_bit(packed@[p0@.len() as int], c) == master.bit(
                    equ_id as int,
                    c,
                ) by {
                    lemma_word_index(c, n as int);
                }
                assert forall|t: int| 0 <= t < self.r implies #[trigger] self.coeff(t, self.q@[t] as int) != 0 by {
                    assert(old(self).coeff(t, self.q@[t] as int) != 0);
                    if t < p0@.len() {
                        assert(packed@[t] == p0@[t]);
                    }
                }
            }
        } else {
            let row = master.row_bytes(equ_id, n);
            self.matrix_f.push(row);
            self.rhs_data_ids.push(rhs_id);
            proof {
                assert forall|t: int| 0 <= t < self.r implies #[trigger] self.coeff(t, self.q@[t] as int) != 0 by {
                    assert(old(self).coeff(t, self.q@[t] as int) != 0);
                }
            }
        }
    }

    /// Turns the packed rows into byte rows placed before the dense ones.
    fn materialize_packed_prefix(&mut self)
        requires
            old(self).wf(),
        ensures
            final(self).wf(),
            !final(self).is_packed(),
            final(self).spec_params() == old(self).spec_params(),
            final(self).cols() == old(self).cols(),
            final(self).rank() == old(self).rank(),
            final(self).perm() == old(self).perm(),
            final(self).rows() == old(self).rows(),
            final(self).rhs() == old(self).rhs(),
            forall|t: int, c: int|
                0 <= t < old(self).rows() && 0 <= c < old(self).cols() ==> #[trigger] final(self).coeff(t, c)
                    == old(self).coeff(t, c),
    {
        if self.matrix_f_packed.is_some() {
            let packed = self.matrix_f_packed.take().unwrap();
            let mut prefix = packed.to_dense_rows(self.num_inactive);
            let ghost dense0 = self.matrix_f@;
            let ghost prefix0 = prefix@;
            prefix.append(&mut self.matrix_f);
            self.matrix_f = prefix;
            proof {
                assert(self.matrix_f@ == prefix0 + dense0);
                assert forall|t: int, c: int|
                    0 <= t < old(self).rows() && 0 <= c < old(self).cols() implies #[trigger] self.coeff(t, c)
                    == old(self).coeff(t, c) by {
                    if t < prefix0.len() {
                        assert(self.matrix_f@[t] == prefix0[t]);
                    } else {
                        assert(self.matrix_f@[t] == dense0[t - prefix0.len()]);
                    }
                }
                assert forall|t: int| 0 <= t < self.r implies #[trigger] self.coeff(t, self.q@[t] as int) != 0 by {
                    assert(old(self).coeff(t, self.q@[t] as int) != 0);
                }
                assert forall|i: int| 0 <= i < self.matrix_f@.len() implies (#[trigger] self.matrix_f@[i])@.len()
                    == self.num_inactive by {
                    if i < prefix0.len() {
                        assert(self.matrix_f@[i] == prefix0[i]);
                    } else {
                        assert(self.matrix_f@[i] == dense0[i - prefix0.len()]);
                    }
                }
            }
        }
    }

    /// True when packed master rows were added after an HDPC dense tail.
    fn has_stale_hdpc_tail(&self) -> (r: bool)
        requires
            self.wf(),
        ensures
            r == (self.matrix_f@.len() > 0 && self.is_packed() && self.rank() < self.packed_rows()),
    {
        match &self.matrix_f_packed {
            Some(p) => self.matrix_f.len() > 0 && self.r < p.num_rows(),
            None => false,
        }
    }

    /// Drops the dense HDPC rows of an earlier attempt and their right-hand sides.
    fn clear_hdpc_tail(&mut self)
        requires
            old(self).wf(),
            old(self).rank() <= old(self).packed_rows(),
        ensures
            final(self).wf(),
            final(self).is_packed() == old(self).is_packed(),
            final(self).spec_params() == old(self).spec_params(),
            final(self).cols() == old(self).cols(),
            final(self).rank() == old(self).rank(),
            final(self).perm() == old(self).perm(),
            final(self).rows() == old(self).packed_rows(),
            final(self).rhs() == old(self).rhs().take(old(self).packed_rows()),
            forall|t: int, c: int| 0 <= t < final(self).rows() ==> #[trigger] final(self).coeff(t, c) == old(self).coeff(t, c),
            final(self).dense_rows() == 0,
    {
        let tail = self.matrix_f.len();
        if tail == 0 {
            assert(self.rhs_data_ids@ =~= self.rhs_data_ids@.take(self.packed_rows()));
            return ;
        }
        let keep = self.rhs_data_ids.len() - tail;
        self.rhs_data_ids.truncate(keep);
        self.matrix_f.clear();
        proof {
            assert forall|t: int| 0 <= t < self.r implies #[trigger] self.coeff(t, self.q@[t] as int) != 0 by {
                assert(old(self).coeff(t, self.q@[t] as int) != 0);
            }
        }
    }

    /// Coefficient at `(row, logical_col)`, the column taken through `q`.
    fn lu_get_coeff(&self, row: usize, logical_col: usize) -> (r: u8)
        requires
            self.wf(),
            row < self.rows(),
            logical_col < self.cols(),
        ensures
            r == self.coeff(row as int, self.perm()[logical_col as int] as int),
    {
        let col = self.q[logical_col];
        match &self.matrix_f_packed {
            Some(packed) => {
                if row < packed.num_rows() {
                    if packed.get(row, col) {
                        1u8
                    } else {
                        0u8
                    }
                } else {
                    let k = row - packed.num_rows();
                    self.matrix_f[k][col]
                }
            },
            None => self.matrix_f[row][col],
        }
    }

    /// Allocates `h` zeroed temporary vectors and has the HDPC write into
    /// them its product with the active variable vectors.
    fn hdpc_rhs(&self, hdpc: &dyn HDPC, manager: &mut DataManager) -> (r: Vec<usize>)
        requires
            old(manager).wf(),
            old(manager).next_id() + self.spec_params().h <= usize::MAX,
        ensures
            r@.len() == self.spec_params().h,
            final(manager).wf(),
            final(manager).same_layout(old(manager)),
            final(manager).log_grows(old(manager)),
            final(manager).next_id() == old(manager).next_id() + self.spec_params().h,
            final(manager).coded() == old(manager).coded(),
    {
        let h = self.params.h;
        let mut ids: Vec<usize> = Vec::with_capacity(h);
        let mut i: usize = 0;
        while i < h
            invariant
                h == self.spec_params().h,
                i <= h,
                ids@.len() == i,
                manager.wf(),
                manager.same_layout(old(manager)),
                manager.log_grows(old(manager)),
                manager.next_id() == old(manager).next_id() + i,
                manager.coded() == old(manager).coded(),
                old(manager).next_id() + h <= usize::MAX,
            decreases h - i,
        {
            let d = manager.temp_data_id();
            ids.push(d);
            i += 1;
        }
        let active = manager.data_id_range_of_active_variable();
        hdpc.mul_data(manager, &self.params, active.as_slice(), ids.as_slice());
        ids
    }

    /// `rows` are `h` rows of one entry per column, with room for the identity
    /// part at columns `b..b + h`.
    fn hdpc_rows_fit(&self, rows: &Vec<Vec<u8>>) -> (r: bool)
        requires
            self.wf(),
        ensures
            r == (rows@.len() == self.spec_params().h && self.spec_params().b + self.spec_params().h <= self.cols()
                && exact_rows(rows@, self.cols())),
    {
        let h = self.params.h;
        if rows.len() != h || self.params.b > self.num_inactive || h > self.num_inactive - self.params.b {
            return false;
        }
        let mut i: usize = 0;
        while i < rows.len()
            invariant
                i <= rows@.len(),
                forall|k: int| 0 <= k < i ==> #[trigger] rows@[k]@.len() == self.cols(),
            decreases rows@.len() - i,
        {
            if rows[i].len() != self.num_inactive {
                return false;
            }
            i += 1;
        }
        true
    }

    /// Appends the `h` HDPC constraints as dense rows: `D \tilde{G}` with the
    /// identity added at columns `b..b + h`, right-hand sides being fresh
    /// vectors holding the HDPC product of the active variable vectors.
    /// Nothing is appended when the HDPC product is not `h` rows of one entry
    /// per column (or `b + h` exceeds the columns).
    pub fn append_hdpc_constraints(&mut self, hdpc: &dyn HDPC, tilde_g_rows: &[Vec<u8>], manager: &mut DataManager)
        requires
            old(self).wf(),
            old(manager).wf(),
            old(manager).next_id() + old(self).spec_params().h <= usize::MAX,
        ensures
            final(self).wf(),
            final(self).spec_params() == old(self).spec_params(),
            final(self).cols() == old(self).cols(),
            final(self).rank() == old(self).rank(),
            final(self).perm() == old(self).perm(),
            final(self).is_packed() == old(self).is_packed(),
            final(self).rows() >= old(self).rows(),
            final(manager).wf(),
            final(manager).same_layout(old(manager)),
            final(manager).log_grows(old(manager)),
            final(manager).next_id() <= old(manager).next_id() + old(self).spec_params().h,
            final(manager).next_id() >= old(manager).next_id(),
            final(manager).coded() == old(manager).coded(),
            old(self).spec_params().b + old(self).spec_params().h > old(self).cols() ==> *final(self) == *old(self)
                && *final(manager) == *old(manager),
            final(self).rows() == old(self).rows() && old(self).spec_params().h > 0 ==> *final(self) == *old(self) && *final(manager)
                == *old(manager),
            final(self).rows() != old(self).rows() ==> final(self).rows() == old(self).rows() + old(self).spec_params().h
                && final(manager).next_id() == old(manager).next_id() + old(self).spec_params().h
                && final(self).rhs().take(old(self).rows()) == old(self).rhs(),
    {
        let matrix_d = hdpc.mul_binary_from_rows(manager.gf256(), &self.params, tilde_g_rows);
        self.append_hdpc_rows(matrix_d, hdpc, manager);
    }

    /// `s1` is `s0` with the HDPC constraint rows built from the HDPC
    /// product `d` (`D \tilde{G}`, one row per HDPC variable) appended: row
    /// `i` is row `i` of `d` with one added at column `b + i`, the HDPC
    /// variable of that constraint. They are appended exactly when `d` has
    /// `h > 0` rows of one entry per column and `b + h` columns fit.
    pub open spec fn hdpc_rows_appended(s0: &Self, s1: &Self, d: Seq<Vec<u8>>) -> bool {
        let p = s0.spec_params();
        &&& (p.h > 0 && d.len() == p.h && p.b + p.h <= s0.cols() && exact_rows(d, s0.cols())) <==> s1.rows()
            != s0.rows()
        &&& s1.rows() != s0.rows() ==> forall|i: int, c: int|
            0 <= i < p.h && 0 <= c < s0.cols() ==> #[trigger] s1.coeff(s0.rows() + i, c) == d[i]@[c] ^ (if c == p.b
                + i {
                1u8
            } else {
                0u8
            })
    }

    /// The HDPC constraints hold their own HDPC variables: each appended row
    /// differs from the HDPC product exactly at the column of its HDPC
    /// variable, where the two differ by one, and the rows that were there
    /// keep their coefficients.
    pub proof fn lemma_hdpc_rows_law(s0: &Self, s1: &Self, d: Seq<Vec<u8>>)
        requires
            Self::hdpc_rows_appended(s0, s1, d),
            s1.rows() != s0.rows(),
        ensures
            forall|i: int, c: int|
                0 <= i < s0.spec_params().h && 0 <= c < s0.cols() ==> (#[trigger] s1.coeff(s0.rows() + i, c) != d[i]@[c]
                    <==> c == s0.spec_params().b + i),
            forall|i: int|
                0 <= i < s0.spec_params().h ==> #[trigger] s1.coeff(s0.rows() + i, s0.spec_params().b + i) == d[i]@[s0.spec_params().b
                    + i] ^ 1u8,
    {
        assert forall|i: int, c: int|
            0 <= i < s0.spec_params().h && 0 <= c < s0.cols() implies (#[trigger] s1.coeff(s0.rows() + i, c) != d[i]@[c]
            <==> c == s0.spec_params().b + i) by {
            let x = d[i]@[c];
            assert(x ^ 0u8 == x && x ^ 1u8 != x) by (bit_vector);
        }
        assert forall|i: int| 0 <= i < s0.spec_params().h implies #[trigger] s1.coeff(s0.rows() + i, s0.spec_params().b + i)
            == d[i]@[s0.spec_params().b + i] ^ 1u8 by {
            assert(s0.spec_params().b + i < s0.cols());
        }
    }

    /// Appends the HDPC constraint rows built from the HDPC product
    /// `matrix_d` (see [`Self::hdpc_rows_appended`]), right-hand sides being
    /// fresh vectors holding the HDPC product of the active variable
    /// vectors.
    pub fn append_hdpc_rows(&mut self, matrix_d: Vec<Vec<u8>>, hdpc: &dyn HDPC, manager: &mut DataManager)
        requires
            old(self).wf(),
            old(manager).wf(),
            old(manager).next_id() + old(self).spec_params().h <= usize::MAX,
        ensures
            final(self).wf(),
            final(self).spec_params() == old(self).spec_params(),
            final(self).cols() == old(self).cols(),
            final(self).rank() == old(self).rank(),
            final(self).perm() == old(self).perm(),
            final(self).is_packed() == old(self).is_packed(),
            final(self).rows() >= old(self).rows(),
            final(manager).wf(),
            final(manager).same_layout(old(manager)),
            final(manager).log_grows(old(manager)),
            final(manager).next_id() <= old(manager).next_id() + old(self).spec_params().h,
            final(manager).next_id() >= old(manager).next_id(),
            final(manager).coded() == old(manager).coded(),
            old(self).spec_params().b + old(self).spec_params().h > old(self).cols() ==> *final(self) == *old(self)
                && *final(manager) == *old(manager),
            final(self).rows() == old(self).rows() && old(self).spec_params().h > 0 ==> *final(self) == *old(self) && *final(manager)
                == *old(manager),
            final(self).rows() != old(self).rows() ==> final(self).rows() == old(self).rows() + old(self).spec_params().h
                && final(manager).next_id() == old(manager).next_id() + old(self).spec_params().h
                && final(self).rhs().take(old(self).rows()) == old(self).rhs(),
            Self::hdpc_rows_appended(old(self), final(self), matrix_d@),
    {
        let mut matrix_d = matrix_d;
        if !self.hdpc_rows_fit(&matrix_d) {
            return ;
        }
        let mut ids = self.hdpc_rhs(hdpc, manager);
        let b = self.params.b;
        let h = self.params.h;
        let n = self.num_inactive;
        let ghost dm = matrix_d@;
        proof {
            assert forall|t: int, c: int| 0 <= t < h && 0 <= c < n implies #[trigger] matrix_d@[t]@[c] == dm[t]@[c] ^ 0u8 by {
                let y = dm[t]@[c];
                assert(y ^ 0u8 == y) by (bit_vector);
            }
        }
        let mut i: usize = 0;
        while i < h
            invariant
                i <= h,
                matrix_d@.len() == h,
                b + h <= n,
                exact_rows(matrix_d@, n as int),
                dm.len() == h,
                forall|t: int, c: int|
                    0 <= t < h && 0 <= c < n ==> #[trigger] matrix_d@[t]@[c] == dm[t]@[c] ^ (if t < i && c == b + t {
                        1u8
                    } else {
                        0u8
                    }),
            decreases h - i,
        {
            let mut row: Vec<u8> = Vec::new();
            std::mem::swap(&mut row, &mut matrix_d[i]);
            let ghost row0 = row@;
            let ghost md = matrix_d@;
            let x = row[i + b] ^ 1u8;
            row.set(i + b, x);
            matrix_d.set(i, row);
            proof {
                assert forall|t: int, c: int| 0 <= t < h && 0 <= c < n implies #[trigger] matrix_d@[t]@[c] == dm[t]@[c] ^ (
                if t < i + 1 && c == b + t {
                    1u8
                } else {
                    0u8
                }) by {
                    let y = dm[t]@[c];
                    assert(y ^ 0u8 == y && (y ^ 0u8) ^ 1u8 == y ^ 1u8) by (bit_vector);
                    if t != i {
                        assert(matrix_d@[t] == md[t]);
                    }
                }
            }
            i += 1;
        }
        let ghost dense0 = self.matrix_f@;
        let ghost d0 = matrix_d@;
        let ghost s_before = *self;
        self.rhs_data_ids.append(&mut ids);
        self.num_binary_rows = self.rhs_data_ids.len() - h;
        self.matrix_f.append(&mut matrix_d);
        proof {
            assert forall|t: int, c: int| 0 <= t < h && 0 <= c < n implies #[trigger] self.coeff(old(self).rows() + t, c)
                == dm[t]@[c] ^ (if c == b + t {
                1u8
            } else {
                0u8
            }) by {
                assert(self.matrix_f@[dense0.len() + t] == d0[t]);
            }
            assert(self.matrix_f@ == dense0 + d0);
            assert forall|k: int| 0 <= k < self.matrix_f@.len() implies (#[trigger] self.matrix_f@[k])@.len()
                == self.num_inactive by {
                if k < dense0.len() {
                    assert(self.matrix_f@[k] == dense0[k]);
                } else {
                    assert(self.matrix_f@[k] == d0[k - dense0.len()]);
                }
            }
            assert forall|t: int| 0 <= t < self.r implies #[trigger] self.coeff(t, self.q@[t] as int) != 0 by {
                assert(old(self).coeff(t, self.q@[t] as int) != 0);
                if !(self.matrix_f_packed is Some && t < self.packed_rows()) {
                    assert(self.matrix_f@[t - self.packed_rows()] == dense0[t - self.packed_rows()]);
                }
            }
        }
    }

    /// GF(2) variant of [`Self::append_hdpc_constraints`] for a packed
    /// \(\tilde{G}\): the HDPC product is packed (non-zero entries count as
    /// one), the identity added at columns `b..b + h`, and the rows appended
    /// to the packed rows while rows are packed.
    pub fn append_hdpc_constraints_packed(&mut self, hdpc: &dyn HDPC, tilde_g: &BinaryMatrix, manager: &mut DataManager)
        requires
            old(self).wf(),
            tilde_g.wf(),
            old(self).cols() <= tilde_g.spec_width(),
            old(manager).wf(),
            old(manager).next_id() + old(self).spec_params().h <= usize::MAX,
        ensures
            final(self).wf(),
            final(self).spec_params() == old(self).spec_params(),
            final(self).cols() == old(self).cols(),
            final(self).rank() == old(self).rank(),
            final(self).perm() == old(self).perm(),
            final(self).is_packed() == old(self).is_packed(),
            final(self).rows() >= old(self).rows(),
            final(manager).wf(),
            final(manager).same_layout(old(manager)),
            final(manager).log_grows(old(manager)),
            final(manager).next_id() <= old(manager).next_id() + old(self).spec_params().h,
            final(manager).next_id() >= old(manager).next_id(),
            final(manager).coded() == old(manager).coded(),
            old(self).spec_params().b + old(self).spec_params().h > old(self).cols() ==> *final(self) == *old(self)
                && *final(manager) == *old(manager),
            final(self).rows() == old(self).rows() && old(self).spec_params().h > 0 ==> *final(self) == *old(self) && *final(manager)
                == *old(manager),
            final(self).rows() != old(self).rows() ==> final(self).rows() == old(self).rows() + old(self).spec_params().h
                && final(manager).next_id() == old(manager).next_id() + old(self).spec_params().h
                && final(self).rhs().take(old(self).rows()) == old(self).rhs(),
    {
        let n = self.num_inactive;
        let rows = tilde_g.to_dense_rows(n);
        let matrix_d = hdpc.mul_binary_from_rows(manager.gf256(), &self.params, rows.as_slice());
        self.append_hdpc_rows_packed(matrix_d, hdpc, manager);
    }

    /// Where [`Self::append_hdpc_rows_packed`] puts the new rows of `s0`:
    /// after the packed rows while rows are packed, otherwise at the end.
    pub open spec fn packed_append_row(s0: &Self) -> int {
        if s0.is_packed() {
            s0.packed_rows()
        } else {
            s0.rows()
        }
    }

    /// `s1` is `s0` with the GF(2) HDPC constraint rows built from the HDPC
    /// product `d` appended (at [`Self::packed_append_row`]): row `i` has a
    /// one where `d[i]` is non-zero, flipped at column `b + i`, the HDPC
    /// variable of that constraint. They are appended exactly when `d` has
    /// `h > 0` rows of one entry per column and `b + h` columns fit.
    pub open spec fn hdpc_packed_rows_appended(s0: &Self, s1: &Self, d: Seq<Vec<u8>>) -> bool {
        let p = s0.spec_params();
        &&& (p.h > 0 && d.len() == p.h && p.b + p.h <= s0.cols() && exact_rows(d, s0.cols())) <==> s1.rows()
            != s0.rows()
        &&& s1.rows() != s0.rows() ==> forall|i: int, c: int|
            0 <= i < p.h && 0 <= c < s0.cols() ==> #[trigger] s1.coeff(Self::packed_append_row(s0) + i, c) == (if (d[i]@[c]
                != 0) != (c == p.b + i) {
                1u8
            } else {
                0u8
            })
    }

    /// The GF(2) HDPC constraints hold their own HDPC variables: each
    /// appended row is the support of the HDPC product row except at the
    /// column of its HDPC variable, where it is the opposite.
    pub proof fn lemma_hdpc_packed_rows_law(s0: &Self, s1: &Self, d: Seq<Vec<u8>>)
        requires
            Self::hdpc_packed_rows_appended(s0, s1, d),
            s1.rows() != s0.rows(),
        ensures
            forall|i: int, c: int|
                0 <= i < s0.spec_params().h && 0 <= c < s0.cols() && c != s0.spec_params().b + i ==> (#[trigger] s1.coeff(
                    Self::packed_append_row(s0) + i,
                    c,
                ) == 1 <==> d[i]@[c] != 0),
            forall|i: int|
                0 <= i < s0.spec_params().h ==> (#[trigger] s1.coeff(Self::packed_append_row(s0) + i, s0.spec_params().b + i)
                    == 1 <==> d[i]@[s0.spec_params().b + i] == 0),
    {
        assert forall|i: int| 0 <= i < s0.spec_params().h implies (#[trigger] s1.coeff(
            Self::packed_append_row(s0) + i,
            s0.spec_params().b + i,
        ) == 1 <==> d[i]@[s0.spec_params().b + i] == 0) by {
            assert(s0.spec_params().b + i < s0.cols());
        }
    }

    /// Appends the GF(2) HDPC constraint rows built from the HDPC product
    /// `matrix_d` (see [`Self::hdpc_packed_rows_appended`]), right-hand sides
    /// being fresh vectors holding the HDPC product of the active variable
    /// vectors.
    pub fn append_hdpc_rows_packed(&mut self, matrix_d: Vec<Vec<u8>>, hdpc: &dyn HDPC, manager: &mut DataManager)
        requires
            old(self).wf(),
            old(manager).wf(),
            old(manager).next_id() + old(self).spec_params().h <= usize::MAX,
        ensures
            final(self).wf(),
            final(self).spec_params() == old(self).spec_params(),
            final(self).cols() == old(self).cols(),
            final(self).rank() == old(self).rank(),
            final(self).perm() == old(self).perm(),
            final(self).is_packed() == old(self).is_packed(),
            final(self).rows() >= old(self).rows(),
            final(manager).wf(),
            final(manager).same_layout(old(manager)),
            final(manager).log_grows(old(manager)),
            final(manager).next_id() <= old(manager).next_id() + old(self).spec_params().h,
            final(manager).next_id() >= old(manager).next_id(),
            final(manager).coded() == old(manager).coded(),
            old(self).spec_params().b + old(self).spec_params().h > old(self).cols() ==> *final(self) == *old(self)
                && *final(manager) == *old(manager),
            final(self).rows() == old(self).rows() && old(self).spec_params().h > 0 ==> *final(self) == *old(self) && *final(manager)
                == *old(manager),
            final(self).rows() != old(self).rows() ==> final(self).rows() == old(self).rows() + old(self).spec_params().h
                && final(manager).next_id() == old(manager).next_id() + old(self).spec_params().h
                && final(self).rhs().take(old(self).rows()) == old(self).rhs(),
            Self::hdpc_packed_rows_appended(old(self), final(self), matrix_d@),
    {
        let n = self.num_inactive;
        if !self.hdpc_rows_fit(&matrix_d) {
            return ;
        }
        let mut ids = self.hdpc_rhs(hdpc, manager);
        let b = self.params.b;
        let h = self.params.h;
        let mut packed_d = BinaryMatrix::new(n);
        let mut i: usize = 0;
        while i < h
            invariant
                i <= h,
                matrix_d@.len() == h,
                b + h <= n,
                exact_rows(matrix_d@, n as int),
                packed_d.wf(),
                packed_d.spec_width() == n,
                packed_d@.len() == i,
                forall|t: int, x: int|
                    0 <= t < i && 0 <= x < n ==> #[trigger] row_bit(packed_d@[t], x) == ((matrix_d@[t]@[x] != 0) != (x
                        == b + t)),
            decreases h - i,
        {
            let row = packed_d.push_row();
            proof {
                assert forall|x: int| 0 <= x < 64 * packed_d.spec_wpr() implies !#[trigger] row_bit(packed_d@[i as int], x) by {
                    lemma_zero_row_bits(packed_d.spec_wpr() as int, x);
                }
            }
            let mut c: usize = 0;
            while c < n
                invariant
                    i < h,
                    row == i,
                    matrix_d@.len() == h,
                    exact_rows(matrix_d@, n as int),
                    packed_d.wf(),
                    packed_d.spec_width() == n,
                    packed_d@.len() == i + 1,
                    c <= n,
                    forall|t: int, x: int|
                        0 <= t < i && 0 <= x < n ==> #[trigger] row_bit(packed_d@[t], x) == ((matrix_d@[t]@[x] != 0) != (x
                            == b + t)),
                    forall|x: int|
                        0 <= x < 64 * packed_d.spec_wpr() ==> #[trigger] row_bit(packed_d@[i as int], x) == (x < c
                            && matrix_d@[i as int]@[x] != 0),
                decreases n - c,
            {
                if matrix_d[i][c] != 0 {
                    packed_d.set(row, c);
                }
                c += 1;
            }
            proof {
                let nn = n as int;
                assert(nn <= 64 * ((nn + 63) / 64)) by (nonlinear_arith)
                    requires
                        nn >= 0,
                ;
            }
            packed_d.flip(row, i + b);
            i += 1;
        }
        let ghost dense0 = self.matrix_f@;
        self.rhs_data_ids.append(&mut ids);
        self.num_binary_rows = self.rhs_data_ids.len();
        if self.matrix_f_packed.is_some() {
            let mut packed = self.matrix_f_packed.take().unwrap();
            let ghost p0 = packed;
            packed.append_all_rows_from(&packed_d, n);
            self.matrix_f_packed = Some(packed);
            proof {
                assert forall|t: int, c: int| 0 <= t < h && 0 <= c < n implies #[trigger] self.coeff(p0@.len() + t, c) == (if (
                matrix_d@[t]@[c] != 0) != (c == b + t) {
                    1u8
                } else {
                    0u8
                }) by {
                    lemma_word_index(c, n as int);
                    assert(packed@[p0@.len() + t] == padded_prefix(packed_d@[t], words_for(n as int), p0.spec_wpr() as int));
                    assert(row_bit(packed@[p0@.len() + t], c) == row_bit(packed_d@[t], c));
                }
                assert(self.r <= p0@.len());
                assert forall|t: int| 0 <= t < self.r implies #[trigger] self.coeff(t, self.q@[t] as int) != 0 by {
                    assert(old(self).coeff(t, self.q@[t] as int) != 0);
                    assert(packed@[t] == p0@[t]);
                }
            }
        } else {
            let mut extra = packed_d.to_dense_rows(n);
            let ghost e0 = extra@;
            self.matrix_f.append(&mut extra);
            proof {
                assert forall|t: int, c: int| 0 <= t < h && 0 <= c < n implies #[trigger] self.coeff(dense0.len() + t, c) == (if (
                matrix_d@[t]@[c] != 0) != (c == b + t) {
                    1u8
                } else {
                    0u8
                }) by {
                    assert(self.matrix_f@[dense0.len() + t] == e0[t]);
                    assert(e0[t]@ == row_bytes_spec(packed_d@[t], n as int));
                }
                assert(self.matrix_f@ == dense0 + e0);
                assert forall|k: int| 0 <= k < self.matrix_f@.len() implies (#[trigger] self.matrix_f@[k])@.len()
                    == self.num_inactive by {
                    if k < dense0.len() {
                        assert(self.matrix_f@[k] == dense0[k]);
                    } else {
                        assert(self.matrix_f@[k] == e0[k - dense0.len()]);
                    }
                }
                assert forall|t: int| 0 <= t < self.r implies #[trigger] self.coeff(t, self.q@[t] as int) != 0 by {
                    assert(old(self).coeff(t, self.q@[t] as int) != 0);
                    assert(self.matrix_f@[t] == dense0[t]);
                }
            }
        }
    }

    /// At full rank the factorization has a non-zero pivot in every column.
    pub proof fn lemma_full_rank_pivots(&self)
        requires
            self.wf(),
            self.rank() == self.cols(),
        ensures
            self.rows() >= self.cols(),
            forall|j: int| 0 <= j < self.cols() ==> #[trigger] self.coeff(j, self.perm()[j] as int) != 0,
    {
    }

    /// The factorization has `num_inactive` rows and a non-zero pivot at
    /// every diagonal position (columns taken through `q`).
    pub fn has_full_rank_factorization(&self) -> (r: bool)
        requires
            self.wf(),
        ensures
            r == (self.rows() >= self.cols() && forall|j: int|
                0 <= j < self.cols() ==> #[trigger] self.coeff(j, self.perm()[j] as int) != 0),
    {
        if self.matrix_row_count() < self.num_inactive {
            return false;
        }
        let mut j: usize = 0;
        while j < self.num_inactive
            invariant
                self.wf(),
                self.rows() >= self.cols(),
                j <= self.cols(),
                forall|x: int| 0 <= x < j ==> #[trigger] self.coeff(x, self.perm()[x] as int) != 0,
            decreases self.cols() - j,
        {
            if self.lu_get_coeff(j, j) == 0 {
                return false;
            }
            j += 1;
        }
        true
    }

    /// True when the rows are only packed GF(2) master exports (no dense rows).
    pub fn is_binary_only(&self) -> (r: bool)
        ensures
            r == (self.dense_rows() == 0 && self.is_packed()),
    {
        self.matrix_f.len() == 0 && self.matrix_f_packed.is_some()
    }

    /// Incremental LU decomposition of the rows (rank `r` so far): packed over
    /// GF(2) while every row is packed, otherwise on byte rows over `gf`
    /// (GF(2) when `None`). Returns the row permutation and the new rank;
    /// `r` itself is left for the caller to update.
    fn factor(&mut self, gf: Option<&GF256>) -> (res: (Vec<usize>, usize))
        requires
            old(self).wf(),
        ensures
            final(self).wf(),
            final(self).spec_params() == old(self).spec_params(),
            final(self).cols() == old(self).cols(),
            final(self).rank() == old(self).rank(),
            final(self).rows() == old(self).rows(),
            final(self).rhs() == old(self).rhs(),
            final(self).is_packed() ==> final(self).dense_rows() == 0,
            final(self).is_packed() ==> old(self).is_packed(),
            is_permutation(res.0@, old(self).rows()),
            old(self).rank() <= res.1 <= old(self).rows(),
            res.1 <= old(self).cols(),
            forall|t: int| 0 <= t < res.1 ==> #[trigger] final(self).coeff(t, final(self).perm()[t] as int) != 0,
            old(self).is_packed() && old(self).dense_rows() == 0 ==> Self::factors(
                old(self),
                old(self).rows(),
                GF2 {  },
                res.0@,
                final(self).coeff_fn(),
                final(self).perm(),
                res.1 as int,
            ),
            !(old(self).is_packed() && old(self).dense_rows() == 0) && gf is Some && elimination_laws(*gf.unwrap())
                ==> Self::factors(old(self), old(self).rows(), *gf.unwrap(), res.0@, final(self).coeff_fn(), final(self).perm(), res.1 as int),
    {
        let n = self.num_inactive;
        let r = self.r;
        proof {
            assert(self.q@.take(n as int) =~= self.q@);
        }
        if self.matrix_f_packed.is_some() && self.matrix_f.len() == 0 {
            let mut packed = self.matrix_f_packed.take().unwrap();
            proof {
                assert forall|t: int| 0 <= t < r implies #[trigger] packed.bit(t, self.q@[t] as int) by {
                    assert(old(self).coeff(t, self.q@[t] as int) != 0);
                }
            }
            let ghost packed0 = packed@;
            let res = packed.lu_decomp_incr_gf2(&mut self.q, r, n);
            self.matrix_f_packed = Some(packed);
            proof {
                assert(self.q@.take(n as int) =~= self.q@);
                let m = old(self).rows();
                assert forall|x: int, y: int| 0 <= x < m && 0 <= y < n implies #[trigger] old(self).coeff_fn()(x, y)
                    == bit_entries(packed0)(x, y) by {
                }
                assert forall|x: int, y: int| 0 <= x < m && 0 <= y < n implies #[trigger] self.coeff_fn()(x, y)
                    == bit_entries(packed@)(x, y) by {
                }
                lemma_expanded_entry_congruent(GF2 {  }, old(self).coeff_fn(), bit_entries(packed0), old(self).q@, r as int, m, n as int);
                lemma_lu_product_q_congruent(GF2 {  }, self.coeff_fn(), bit_entries(packed@), self.q@, res.1 as int, m, n as int);
                assert(Self::factors(old(self), old(self).rows(), GF2 {  }, res.0@, self.coeff_fn(), self.perm(), res.1 as int));
                assert forall|t: int| 0 <= t < res.1 implies #[trigger] self.coeff(t, self.q@[t] as int) != 0 by {
                    assert(packed.bit(t, self.q@[t] as int));
                }
            }
            return res;
        }
        self.materialize_packed_prefix();
        if self.matrix_f.len() == 0 {
            return (Vec::new(), 0);
        }
        proof {
            assert(num_cols(self.matrix_f@) == n);
            assert(rows_at_least(self.matrix_f@, num_cols(self.matrix_f@)));
            assert(exact_rows(self.matrix_f@, n as int));
            assert forall|t: int| 0 <= t < r implies #[trigger] self.matrix_f@[t]@[self.q@[t] as int] != 0 by {
                assert(self.coeff(t, self.q@[t] as int) != 0);
            }
        }
        let ghost dense0 = self.matrix_f@;
        let ghost mat = *self;
        let res = match gf {
            Some(g) => Matrix::lu_decomp_incr(g, &mut self.matrix_f, &mut self.q, r),
            None => Matrix::lu_decomp_incr(&GF2::new(), &mut self.matrix_f, &mut self.q, r),
        };
        proof {
            assert(self.q@.take(n as int) =~= self.q@);
            if gf is Some {
                let g = gf.unwrap();
                if elimination_laws(*g) && !(old(self).is_packed() && old(self).dense_rows() == 0) {
                    let m = old(self).rows();
                    assert forall|x: int, y: int| 0 <= x < m && 0 <= y < n implies #[trigger] old(self).coeff_fn()(x, y)
                        == entries(dense0)(x, y) by {
                        assert(old(self).coeff(x, y) == mat.coeff(x, y));
                        assert(mat.coeff(x, y) == dense0[x]@[y]);
                    }
                    assert forall|x: int, y: int| 0 <= x < m && 0 <= y < n implies #[trigger] self.coeff_fn()(x, y)
                        == entries(self.matrix_f@)(x, y) by {
                    }
                    lemma_expanded_entry_congruent(*g, old(self).coeff_fn(), entries(dense0), old(self).q@, r as int, m, n as int);
                    lemma_lu_product_q_congruent(*g, self.coeff_fn(), entries(self.matrix_f@), self.q@, res.1 as int, m, n as int);
                    assert(Self::factors(old(self), old(self).rows(), *g, res.0@, self.coeff_fn(), self.perm(), res.1 as int));
                }
            }
            assert forall|t: int| 0 <= t < res.1 implies #[trigger] self.coeff(t, self.q@[t] as int) != 0 by {
                assert(self.matrix_f@[t]@[self.q@[t] as int] != 0);
            }
        }
        res
    }

    /// Incremental LU decomposition of the system (rank so far kept). Rows
    /// are reordered by the row permutation, right-hand sides with them, and
    /// the rows beyond the new rank are dropped; their right-hand side
    /// vectors are removed through the manager when `remove_redundant_rhs`.
    /// A stale dense HDPC tail (packed rows added after it) is dropped first.
    /// Returns the new rank.
    pub fn lu_decomposition(&mut self, manager: &mut DataManager, remove_redundant_rhs: bool) -> (res: usize)
        requires
            old(self).wf(),
            old(manager).wf(),
        ensures
            final(self).wf(),
            res == final(self).rank(),
            final(self).rows() == res,
            final(self).rank() >= old(self).rank(),
            res <= final(self).cols(),
            final(self).spec_params() == old(self).spec_params(),
            final(self).cols() == old(self).cols(),
            final(self).is_packed() ==> old(self).is_packed() && final(self).dense_rows() == 0,
            final(manager).wf(),
            final(manager).same_layout(old(manager)),
            final(manager).log_grows(old(manager)),
            final(manager).next_id() == old(manager).next_id(),
            final(manager).coded() == old(manager).coded(),
            exists|p: Seq<usize>|
                #![trigger is_permutation(p, old(self).kept_rows())]
                is_permutation(p, old(self).kept_rows()) && (forall|i: int|
                    0 <= i < res ==> #[trigger] final(self).rhs()[i] == old(self).rhs()[p[i] as int])
                    && final(manager).logged(
                    old(manager),
                    if remove_redundant_rhs {
                        Self::removed_ops(old(self).rhs(), p, res as int, old(self).kept_rows())
                    } else {
                        seq![]
                    },
                ),
            old(self).packed_elimination() ==> exists|p: Seq<usize>, g: spec_fn(int, int) -> u8|
                #![trigger Self::decomposed(old(self), final(self), GF2 {  }, p, g)]
                Self::decomposed(old(self), final(self), GF2 {  }, p, g),
            !old(self).packed_elimination() && old(manager).spec_gf256() is Some && elimination_laws(
                old(manager).spec_gf256().unwrap(),
            ) ==> exists|p: Seq<usize>, g: spec_fn(int, int) -> u8|
                #![trigger Self::decomposed(old(self), final(self), old(manager).spec_gf256().unwrap(), p, g)]
                Self::decomposed(old(self), final(self), old(manager).spec_gf256().unwrap(), p, g),
    {
        if self.has_stale_hdpc_tail() {
            self.clear_hdpc_tail();
        }
        let ghost start = *self;
        proof {
            assert(start.rows() == old(self).kept_rows());
            assert(start.is_packed() && start.dense_rows() == 0 <==> old(self).packed_elimination());
            assert(forall|t: int, c: int| 0 <= t < start.rows() ==> #[trigger] start.coeff(t, c) == old(self).coeff(t, c));
            assert(forall|t: int| 0 <= t < start.rows() ==> #[trigger] start.rhs()[t] == old(self).rhs()[t]);
        }
        let gf = manager.gf256();
        let (p, r) = self.factor(gf);
        let ghost fs = *self;
        let m = self.rhs_data_ids.len();
        let mut ids_new: Vec<usize> = Vec::with_capacity(r);
        let mut i: usize = 0;
        while i < m
            invariant
                self.wf(),
                m == self.rows(),
                m == self.rhs().len(),
                is_permutation(p@, m as int),
                r <= m,
                i <= m,
                ids_new@.len() == (if i < r { i } else { r }),
                forall|t: int| 0 <= t < r ==> #[trigger] self.coeff(t, self.perm()[t] as int) != 0,
                self.is_packed() ==> self.dense_rows() == 0,
                self.rank() <= r,
                r <= self.cols(),
                *self == fs,
                forall|t: int| 0 <= t < ids_new@.len() ==> #[trigger] ids_new@[t] == fs.rhs()[p@[t] as int],
                manager.logged(
                    old(manager),
                    if remove_redundant_rhs {
                        Self::removed_ops(fs.rhs(), p@, r as int, if i < r { r as int } else { i as int })
                    } else {
                        seq![]
                    },
                ),
            decreases m - i,
        {
            let pi = p[i];
            let id = self.rhs_data_ids[pi];
            if i < r {
                ids_new.push(id);
            } else if remove_redundant_rhs {
                let ghost m0 = *manager;
                manager.remove(id);
                proof {
                    DataManager::lemma_logged_trans(old(manager), &m0, manager, Self::removed_ops(fs.rhs(), p@, r as int, i as int), seq![OpView::Remove { id }]);
                }
            }
            i += 1;
        }
        let ghost before = *self;
        self.rhs_data_ids = ids_new;
        if self.matrix_f_packed.is_some() {
            let mut packed = self.matrix_f_packed.take().unwrap();
            packed.truncate_rows(r);
            self.matrix_f_packed = Some(packed);
        } else {
            self.matrix_f.truncate(r);
        }
        if self.num_binary_rows > r {
            self.num_binary_rows = r;
        }
        self.r = r;
        proof {
            assert forall|t: int| 0 <= t < r implies #[trigger] self.coeff(t, self.q@[t] as int) != 0 by {
                assert(before.coeff(t, before.perm()[t] as int) != 0);
            }
            assert forall|t: int, c: int| 0 <= t < r && 0 <= c < self.cols() implies #[trigger] fs.coeff_fn()(t, c)
                == self.coeff(t, c) by {
                assert(fs.coeff(t, c) == self.coeff(t, c));
            }
            let kept = old(self).kept_rows();
            let n = old(self).cols();
            Self::lemma_removed_ops_congruent(fs.rhs(), old(self).rhs(), p@, r as int, kept, kept);
            assert(is_permutation(p@, kept));
            assert(old(self).perm().take(n) =~= old(self).perm());
            assert forall|i: int| 0 <= i < r implies #[trigger] self.rhs()[i] == old(self).rhs()[p@[i] as int] by {
                assert(p@[i] < kept);
            }
            if old(self).packed_elimination() {
                lemma_expanded_entry_congruent(GF2 {  }, start.coeff_fn(), old(self).coeff_fn(), old(self).perm(), old(self).rank(), kept, n);
                assert forall|i: int, c: int| 0 <= i < kept && 0 <= c < n implies #[trigger] expanded_entry(
                    GF2 {  },
                    old(self).coeff_fn(),
                    old(self).perm(),
                    old(self).rank(),
                    n,
                    p@[i] as int,
                    self.perm()[c] as int,
                ) == lu_product_q(GF2 {  }, fs.coeff_fn(), self.perm(), r as int, i, c) by {
                    assert(p@[i] < kept);
                    assert(self.perm()[c] < n);
                    assert(expanded_entry(GF2 {  }, start.coeff_fn(), start.perm(), start.rank(), start.cols(), p@[i] as int, fs.perm()[c] as int)
                        == lu_product_q(GF2 {  }, fs.coeff_fn(), fs.perm(), r as int, i, c));
                }
                assert(Self::decomposed(old(self), self, GF2 {  }, p@, fs.coeff_fn()));
            }
            if !old(self).packed_elimination() && old(manager).spec_gf256() is Some && elimination_laws(
                old(manager).spec_gf256().unwrap(),
            ) {
                let g = old(manager).spec_gf256().unwrap();
                assert(*gf.unwrap() == g);
                lemma_expanded_entry_congruent(g, start.coeff_fn(), old(self).coeff_fn(), old(self).perm(), old(self).rank(), kept, n);
                assert forall|i: int, c: int| 0 <= i < kept && 0 <= c < n implies #[trigger] expanded_entry(
                    g,
                    old(self).coeff_fn(),
                    old(self).perm(),
                    old(self).rank(),
                    n,
                    p@[i] as int,
                    self.perm()[c] as int,
                ) == lu_product_q(g, fs.coeff_fn(), self.perm(), r as int, i, c) by {
                    assert(p@[i] < kept);
                    assert(self.perm()[c] < n);
                    assert(expanded_entry(g, start.coeff_fn(), start.perm(), start.rank(), start.cols(), p@[i] as int, fs.perm()[c] as int)
                        == lu_product_q(g, fs.coeff_fn(), fs.perm(), r as int, i, c));
                }
                assert(Self::decomposed(old(self), self, g, p@, fs.coeff_fn()));
            }
        }
        r
    }

    /// Solves `F B_i = X_u'` in place on the data vectors once the rank is
    /// the number of columns: forward and backward substitution over the
    /// factorization, through the manager, which records exactly the
    /// operations of [`Self::solve_ops`]. Returns the data ID holding each
    /// inactive variable (index = column); `None` when a pivot other than one
    /// would need division and the session has no GF(256).
    pub fn lu_solve(&mut self, manager: &mut DataManager) -> (res: Option<Vec<usize>>)
        requires
            old(self).wf(),
            old(self).rank() == old(self).cols(),
            old(self).rows() == old(self).cols(),
            old(manager).wf(),
        ensures
            final(self).wf(),
            final(self).rank() == old(self).rank(),
            final(self).cols() == old(self).cols(),
            final(self).rows() == old(self).rows(),
            final(self).spec_params() == old(self).spec_params(),
            res is None <==> old(manager).field() is None && old(self).needs_division(),
            res matches Some(ids) ==> ids@.len() == old(self).cols() && forall|i: int|
                0 <= i < old(self).cols() ==> #[trigger] ids@[old(self).perm()[i] as int] == old(self).rhs()[i],
            res is Some ==> final(manager).logged(old(manager), old(self).solve_ops(old(manager).field())),
            final(manager).wf(),
            final(manager).same_layout(old(manager)),
            final(manager).log_grows(old(manager)),
            final(manager).next_id() == old(manager).next_id(),
            final(manager).coded() == old(manager).coded(),
    {
        if self.is_binary_only() {
            Some(self.lu_solve_gf2_packed(manager))
        } else {
            let ghost before = *self;
            self.materialize_packed_prefix();
            proof {
                assert forall|i: int, j: int| 0 <= i < self.rows() && 0 <= j < self.rows() implies #[trigger] self.lu_coeff(i, j) == before.lu_coeff(i, j) by {
                    assert(self.perm()[j] < self.cols());
                }
                self.lemma_solve_ops_congruent(&before, manager.field());
            }
            self.lu_solve_dense(manager)
        }
    }

    /// The data IDs of the solution: the right-hand side of row `i` holds the
    /// variable of column `q[i]`.
    fn solution_ids(&self) -> (ids: Vec<usize>)
        requires
            self.wf(),
            self.rank() == self.cols(),
            self.rows() == self.cols(),
        ensures
            ids@.len() == self.cols(),
            forall|i: int| 0 <= i < self.cols() ==> #[trigger] ids@[self.perm()[i] as int] == self.rhs()[i],
    {
        let n = self.r;
        let mut ids_new = vec![0usize; n];
        let mut i: usize = 0;
        while i < n
            invariant
                self.wf(),
                n == self.cols(),
                n == self.rank(),
                n == self.rows(),
                i <= n,
                ids_new@.len() == n,
                forall|x: int| 0 <= x < i ==> #[trigger] ids_new@[self.perm()[x] as int] == self.rhs()[x],
            decreases n - i,
        {
            let qi = self.q[i];
            let ghost before = ids_new@;
            ids_new.set(qi, self.rhs_data_ids[i]);
            proof {
                assert forall|x: int| 0 <= x < i + 1 implies #[trigger] ids_new@[self.perm()[x] as int] == self.rhs()[x] by {
                    if x < i {
                        assert(self.perm()[x] != self.perm()[i as int]);
                        assert(ids_new@[self.perm()[x] as int] == before[self.perm()[x] as int]);
                    }
                }
            }
            i += 1;
        }
        ids_new
    }

    /// GF(2) substitution on the packed rows (every coefficient is 0 or 1).
    fn lu_solve_gf2_packed(&mut self, manager: &mut DataManager) -> (res: Vec<usize>)
        requires
            old(self).wf(),
            old(self).rank() == old(self).cols(),
            old(self).rows() == old(self).cols(),
            old(self).is_packed(),
            old(self).dense_rows() == 0,
            old(manager).wf(),
        ensures
            *final(self) == *old(self),
            !old(self).needs_division(),
            res@.len() == old(self).cols(),
            forall|i: int| 0 <= i < old(self).cols() ==> #[trigger] res@[old(self).perm()[i] as int] == old(self).rhs()[i],
            final(manager).logged(old(manager), old(self).solve_ops(old(manager).field())),
            final(manager).wf(),
            final(manager).same_layout(old(manager)),
            final(manager).log_grows(old(manager)),
            final(manager).next_id() == old(manager).next_id(),
            final(manager).coded() == old(manager).coded(),
    {
        let n = self.rhs_data_ids.len();
        let packed = self.matrix_f_packed.as_ref().unwrap();
        let ghost field = manager.field();
        proof {
            assert(old(manager).log() =~= old(manager).log() + Seq::<OpView>::empty());
            assert(manager.logged(old(manager), self.forward_ops(0)));
            assert forall|t: int| 0 <= t < n implies #[trigger] self.lu_coeff(t, t) == 1 by {
                assert(self.coeff(t, self.perm()[t] as int) != 0);
            }
            if self.needs_division() {
                let t = choose|t: int| 0 <= t < self.rows() && self.lu_coeff(t, t) != 1;
                assert(self.lu_coeff(t, t) == 1);
            }
        }
        let mut j: usize = 0;
        while j + 1 < n
            invariant
                self.wf(),
                n == self.rows(),
                n == self.cols(),
                self.is_packed(),
                self.dense_rows() == 0,
                self.matrix_f_packed == Some(*packed),
                packed.wf(),
                packed.spec_width() == n,
                packed@.len() == n,
                j < n || j == 0,
                manager.wf(),
                manager.same_layout(old(manager)),
                manager.log_grows(old(manager)),
                manager.next_id() == old(manager).next_id(),
                manager.coded() == old(manager).coded(),
                manager.field() == field,
                field == old(manager).field(),
                manager.logged(old(manager), self.forward_ops(j as int)),
            decreases n - j,
        {
            let phys_col = self.q[j];
            let mut i = j + 1;
            proof {
                assert(self.forward_ops(j as int) + self.forward_col_ops(j as int, i as int) =~= self.forward_ops(j as int));
            }
            while i < n
                invariant
                    self.wf(),
                    n == self.rows(),
                    n == self.cols(),
                    self.is_packed(),
                    self.dense_rows() == 0,
                    self.matrix_f_packed == Some(*packed),
                    packed.wf(),
                    packed.spec_width() == n,
                    packed@.len() == n,
                    j + 1 <= i <= n,
                    phys_col < n,
                    phys_col == self.perm()[j as int],
                    manager.wf(),
                    manager.same_layout(old(manager)),
                    manager.log_grows(old(manager)),
                    manager.next_id() == old(manager).next_id(),
                    manager.coded() == old(manager).coded(),
                    manager.field() == field,
                    manager.logged(old(manager), self.forward_ops(j as int) + self.forward_col_ops(j as int, i as int)),
                decreases n - i,
            {
                let ghost m0 = *manager;
                let ghost step = scaled_add_ops(self.rhs()[j as int], self.lu_coeff(i as int, j as int), self.rhs()[i as int]);
                if packed.get(i, phys_col) {
                    manager.add_one_to_vector(self.rhs_data_ids[j], self.rhs_data_ids[i]);
                } else {
                    assert(m0.log() =~= m0.log() + step);
                }
                proof {
                    let pre = self.forward_ops(j as int) + self.forward_col_ops(j as int, i as int);
                    DataManager::lemma_logged_trans(old(manager), &m0, manager, pre, step);
                    assert(pre + step =~= self.forward_ops(j as int) + self.forward_col_ops(j as int, i + 1));
                }
                i += 1;
            }
            j += 1;
        }
        let ghost fwd = self.forward_ops(j as int);
        proof {
            assert(fwd == self.forward_ops(n - 1));
            assert(fwd + self.backward_ops(field, n as int) =~= fwd);
        }
        let mut jj = n;
        while jj > 0
            invariant
                self.wf(),
                n == self.rows(),
                n == self.cols(),
                self.is_packed(),
                self.dense_rows() == 0,
                self.matrix_f_packed == Some(*packed),
                packed.wf(),
                packed.spec_width() == n,
                packed@.len() == n,
                jj <= n,
                manager.wf(),
                manager.same_layout(old(manager)),
                manager.log_grows(old(manager)),
                manager.next_id() == old(manager).next_id(),
                manager.coded() == old(manager).coded(),
                manager.field() == field,
                fwd == self.forward_ops(n - 1),
                forall|t: int| 0 <= t < n ==> #[trigger] self.lu_coeff(t, t) == 1,
                manager.logged(old(manager), fwd + self.backward_ops(field, jj as int)),
            decreases jj,
        {
            let j = jj - 1;
            let phys_col = self.q[j];
            let ghost base = fwd + self.backward_ops(field, jj as int) + pivot_ops(self.lu_coeff(j as int, j as int), field, self.rhs()[j as int]);
            proof {
                assert(self.lu_coeff(j as int, j as int) == 1);
                assert(base + self.backward_col_ops(j as int, j as int) =~= fwd + self.backward_ops(field, jj as int));
            }
            let mut i = j;
            while i > 0
                invariant
                    self.wf(),
                    n == self.rows(),
                    n == self.cols(),
                    self.is_packed(),
                    self.dense_rows() == 0,
                    self.matrix_f_packed == Some(*packed),
                    packed.wf(),
                    packed.spec_width() == n,
                    packed@.len() == n,
                    i <= j,
                    j < n,
                    phys_col < n,
                    phys_col == self.perm()[j as int],
                    manager.wf(),
                    manager.same_layout(old(manager)),
                    manager.log_grows(old(manager)),
                    manager.next_id() == old(manager).next_id(),
                    manager.coded() == old(manager).coded(),
                    manager.field() == field,
                    manager.logged(old(manager), base + self.backward_col_ops(j as int, i as int)),
                decreases i,
            {
                let ghost m1 = *manager;
                let ghost step = scaled_add_ops(self.rhs()[j as int], self.lu_coeff(i - 1, j as int), self.rhs()[i - 1]);
                if packed.get(i - 1, phys_col) {
                    manager.add_one_to_vector(self.rhs_data_ids[j], self.rhs_data_ids[i - 1]);
                } else {
                    assert(m1.log() =~= m1.log() + step);
                }
                proof {
                    let pre = base + self.backward_col_ops(j as int, i as int);
                    DataManager::lemma_logged_trans(old(manager), &m1, manager, pre, step);
                    assert(pre + step =~= base + self.backward_col_ops(j as int, i - 1));
                }
                i -= 1;
            }
            proof {
                assert(base + self.backward_col_ops(j as int, 0) =~= fwd + self.backward_ops(field, j as int));
            }
            jj -= 1;
        }
        self.solution_ids()
    }

    /// Substitution on byte rows over the session's field: unit lower part
    /// forward, then each pivot divided out and the upper part backward.
    fn lu_solve_dense(&mut self, manager: &mut DataManager) -> (res: Option<Vec<usize>>)
        requires
            old(self).wf(),
            old(self).rank() == old(self).cols(),
            old(self).rows() == old(self).cols(),
            old(manager).wf(),
        ensures
            *final(self) == *old(self),
            res is None <==> old(manager).field() is None && old(self).needs_division(),
            res matches Some(ids) ==> ids@.len() == old(self).cols() && forall|i: int|
                0 <= i < old(self).cols() ==> #[trigger] ids@[old(self).perm()[i] as int] == old(self).rhs()[i],
            res is Some ==> final(manager).logged(old(manager), old(self).solve_ops(old(manager).field())),
            final(manager).wf(),
            final(manager).same_layout(old(manager)),
            final(manager).log_grows(old(manager)),
            final(manager).next_id() == old(manager).next_id(),
            final(manager).coded() == old(manager).coded(),
    {
        let n = self.matrix_row_count();
        let ghost field = manager.field();
        proof {
            assert(old(manager).log() =~= old(manager).log() + Seq::<OpView>::empty());
            assert(manager.logged(old(manager), self.forward_ops(0)));
        }
        let mut j: usize = 0;
        while j + 1 < n
            invariant
                self.wf(),
                n == self.rows(),
                n == self.cols(),
                j < n || j == 0,
                manager.wf(),
                manager.same_layout(old(manager)),
                manager.log_grows(old(manager)),
                manager.next_id() == old(manager).next_id(),
                manager.coded() == old(manager).coded(),
                manager.field() == field,
                field == old(manager).field(),
                manager.logged(old(manager), self.forward_ops(j as int)),
            decreases n - j,
        {
            let mut i = j + 1;
            proof {
                assert(self.forward_ops(j as int) + self.forward_col_ops(j as int, i as int) =~= self.forward_ops(j as int));
            }
            while i < n
                invariant
                    self.wf(),
                    n == self.rows(),
                    n == self.cols(),
                    j + 1 <= i <= n,
                    manager.wf(),
                    manager.same_layout(old(manager)),
                    manager.log_grows(old(manager)),
                    manager.next_id() == old(manager).next_id(),
                    manager.coded() == old(manager).coded(),
                    manager.field() == field,
                    manager.logged(old(manager), self.forward_ops(j as int) + self.forward_col_ops(j as int, i as int)),
                decreases n - i,
            {
                let ghost m0 = *manager;
                let l = self.lu_get_coeff(i, j);
                let ghost step = scaled_add_ops(self.rhs()[j as int], l, self.rhs()[i as int]);
                if l == 1 {
                    manager.add_one_to_vector(self.rhs_data_ids[j], self.rhs_data_ids[i]);
                } else if l != 0 {
                    manager.mul_add(self.rhs_data_ids[j], l, self.rhs_data_ids[i]);
                } else {
                    assert(m0.log() =~= m0.log() + step);
                }
                proof {
                    let pre = self.forward_ops(j as int) + self.forward_col_ops(j as int, i as int);
                    DataManager::lemma_logged_trans(old(manager), &m0, manager, pre, step);
                    assert(pre + step =~= self.forward_ops(j as int) + self.forward_col_ops(j as int, i + 1));
                }
                i += 1;
            }
            j += 1;
        }
        let ghost fwd = self.forward_ops(j as int);
        proof {
            assert(fwd == self.forward_ops(n - 1));
            assert(fwd + self.backward_ops(field, n as int) =~= fwd);
        }
        let mut jj = n;
        while jj > 0
            invariant
                self.wf(),
                n == self.rows(),
                n == self.cols(),
                n == self.rank(),
                jj <= n,
                manager.wf(),
                manager.same_layout(old(manager)),
                manager.log_grows(old(manager)),
                manager.next_id() == old(manager).next_id(),
                manager.coded() == old(manager).coded(),
                manager.field() == field,
                field == old(manager).field(),
                fwd == self.forward_ops(n - 1),
                manager.logged(old(manager), fwd + self.backward_ops(field, jj as int)),
                field is None ==> forall|t: int| jj <= t < n ==> #[trigger] self.lu_coeff(t, t) == 1,
            decreases jj,
        {
            let j = jj - 1;
            let ghost m0 = *manager;
            let d = self.lu_get_coeff(j, j);
            proof {
                assert(self.coeff(j as int, self.perm()[j as int] as int) != 0);
            }
            let ghost piv = pivot_ops(d, field, self.rhs()[j as int]);
            if d != 1 {
                if manager.gf256().is_none() {
                    return None;
                }
                manager.divide_scalar(d, self.rhs_data_ids[j]);
            } else {
                assert(m0.log() =~= m0.log() + piv);
            }
            proof {
                DataManager::lemma_logged_trans(old(manager), &m0, manager, fwd + self.backward_ops(field, jj as int), piv);
            }
            let ghost base = fwd + self.backward_ops(field, jj as int) + piv;
            proof {
                assert(base + self.backward_col_ops(j as int, j as int) =~= base);
            }
            let mut i = j;
            while i > 0
                invariant
                    self.wf(),
                    n == self.rows(),
                    n == self.cols(),
                    i <= j,
                    j < n,
                    manager.wf(),
                    manager.same_layout(old(manager)),
                    manager.log_grows(old(manager)),
                    manager.next_id() == old(manager).next_id(),
                    manager.coded() == old(manager).coded(),
                    manager.field() == field,
                    manager.logged(old(manager), base + self.backward_col_ops(j as int, i as int)),
                decreases i,
            {
                let ghost m1 = *manager;
                let l = self.lu_get_coeff(i - 1, j);
                let ghost step = scaled_add_ops(self.rhs()[j as int], l, self.rhs()[i - 1]);
                if l == 1 {
                    manager.add_one_to_vector(self.rhs_data_ids[j], self.rhs_data_ids[i - 1]);
                } else if l != 0 {
                    manager.mul_add(self.rhs_data_ids[j], l, self.rhs_data_ids[i - 1]);
                } else {
                    assert(m1.log() =~= m1.log() + step);
                }
                proof {
                    let pre = base + self.backward_col_ops(j as int, i as int);
                    DataManager::lemma_logged_trans(old(manager), &m1, manager, pre, step);
                    assert(pre + step =~= base + self.backward_col_ops(j as int, i - 1));
                }
                i -= 1;
            }
            proof {
                assert(base + self.backward_col_ops(j as int, 0) =~= fwd + self.backward_ops(field, j as int));
            }
            jj -= 1;
        }
        proof {
            if field is None && self.needs_division() {
                let t = choose|t: int| 0 <= t < self.rows() && self.lu_coeff(t, t) != 1;
                assert(self.lu_coeff(t, t) == 1);
            }
        }
        Some(self.solution_ids())
    }
}

} // verus!
