use vstd::prelude::*;
use crate::algebra::binary_vector::xor_seq;
use crate::algebra::finite_field::{Field, GF256, is_primitive_polynomial_spec, lemma_u8_facts, xtime};

verus! {

/// `p` lists each of `0..n` exactly once.
pub open spec fn is_permutation(p: Seq<usize>, n: int) -> bool {
    &&& p.len() == n
    &&& forall|i: int| 0 <= i < n ==> #[trigger] p[i] < n
    &&& forall|i: int, j: int| 0 <= i < j < n ==> #[trigger] p[i] != #[trigger] p[j]
}

/// Every row of `a` has at least `n` entries.
pub open spec fn rows_at_least(a: Seq<Vec<u8>>, n: int) -> bool {
    forall|k: int| 0 <= k < a.len() ==> #[trigger] a[k]@.len() >= n
}

/// Every row of `a` has exactly `n` entries.
pub open spec fn exact_rows(a: Seq<Vec<u8>>, n: int) -> bool {
    forall|k: int| 0 <= k < a.len() ==> #[trigger] a[k]@.len() == n
}

/// Number of columns of a matrix given as rows: the length of its first row (zero when empty).
pub open spec fn num_cols(a: Seq<Vec<u8>>) -> int {
    if a.len() > 0 {
        a[0]@.len() as int
    } else {
        0
    }
}

/// Entry `(row, col)` of `A * B` where `arow` is the row of `A`, summed over the first `upto`
/// rows of `B`; entries beyond a row of `B` count as zero.
pub open spec fn mat_mul_entry<F: Field>(field: F, arow: Seq<u8>, b: Seq<Vec<u8>>, col: int, upto: int) -> u8
    decreases upto,
{
    if upto <= 0 {
        0
    } else {
        let prev = mat_mul_entry(field, arow, b, col, upto - 1);
        if col < b[upto - 1]@.len() {
            prev ^ field.spec_mul(arow[upto - 1], b[upto - 1]@[col])
        } else {
            prev
        }
    }
}

/// `a[i][lo] * v[lo] + ... + a[i][hi - 1] * v[hi - 1]` (addition is XOR).
pub open spec fn row_dot<F: Field>(field: F, a: Seq<Vec<u8>>, v: Seq<u8>, i: int, lo: int, hi: int) -> u8
    decreases hi - lo,
{
    if lo >= hi {
        0
    } else {
        field.spec_mul(a[i]@[lo], v[lo]) ^ row_dot(field, a, v, i, lo + 1, hi)
    }
}

/// Column `k` of the rows `b`.
pub open spec fn column(b: Seq<Vec<u8>>, k: int) -> Seq<u8> {
    Seq::new(b.len(), |i: int| b[i]@[k])
}

/// `L v`, for the unit lower triangular factor stored below the diagonal of `a`.
pub open spec fn unit_lower_apply<F: Field>(field: F, a: Seq<Vec<u8>>, v: Seq<u8>) -> Seq<u8> {
    Seq::new(v.len(), |i: int| v[i] ^ row_dot(field, a, v, i, 0, i))
}

/// `U v`, for the upper triangular factor stored on and above the diagonal of `a`.
pub open spec fn upper_apply<F: Field>(field: F, a: Seq<Vec<u8>>, v: Seq<u8>) -> Seq<u8> {
    Seq::new(v.len(), |i: int| row_dot(field, a, v, i, i, v.len() as int))
}

/// Multiplying by the inverse of a non-zero element and then by the element
/// gives back the value.
pub open spec fn inverse_cancels<F: Field>(field: F) -> bool {
    forall|d: u8, v: u8| d != 0 ==> #[trigger] field.spec_mul(d, field.spec_mul(field.spec_inverse(d), v)) == v
}

/// GF(256) over a whitelisted polynomial has the laws that
/// [`LinearSys::lin_solve`], [`LinearSys::lu_solve`] and [`Matrix::lu_decomp`]
/// rely on.
pub proof fn lemma_gf256_solving_laws(gf: GF256)
    requires
        is_primitive_polynomial_spec(gf.spec_primitive_polynomial()),
    ensures
        solving_laws(gf),
{
    assert forall|d: u8, v: u8| d != 0 implies #[trigger] gf.spec_mul(d, gf.spec_mul(gf.spec_inverse(d), v)) == v by {
        gf.lemma_inverse_laws(d, 0);
        let inv = gf.spec_inverse(d);
        gf.lemma_mul_laws(d, inv, v);
        gf.lemma_mul_laws(v, 0, 0);
    }
    assert forall|x: u8, d: u8| d != 0 implies #[trigger] gf.spec_mul(gf.spec_divide(x, d), d) == x by {
        gf.lemma_inverse_laws(0, d);
        gf.lemma_inverse_laws(x, d);
    }
    assert forall|x: u8| #[trigger] gf.spec_mul(x, 0) == 0 by {
        gf.lemma_mul_laws(x, 0, 0);
        gf.lemma_mul_laws(0, x, 0);
    }
    reveal(ring_laws);
    assert forall|x: u8, y: u8, z: u8| #[trigger] gf.spec_mul(gf.spec_mul(x, y), z) == gf.spec_mul(x, gf.spec_mul(y, z)) by {
        gf.lemma_mul_laws(x, y, z);
    }
    assert forall|x: u8, y: u8, z: u8| #[trigger] gf.spec_mul(x, y ^ z) == gf.spec_mul(x, y) ^ gf.spec_mul(x, z) by {
        gf.lemma_mul_laws(x, y, z);
    }
    assert forall|x: u8, y: u8, z: u8| #[trigger] gf.spec_mul(x ^ y, z) == gf.spec_mul(x, z) ^ gf.spec_mul(y, z) by {
        gf.lemma_mul_laws(z, x, y);
        gf.lemma_mul_laws(x, z, 0);
        gf.lemma_mul_laws(y, z, 0);
        gf.lemma_mul_laws(x ^ y, z, 0);
    }
    assert forall|x: u8| #[trigger] gf.spec_mul(0, x) == 0 by {
        gf.lemma_mul_laws(x, 0, 0);
    }
}

/// A sum extended by one term at its upper end.
pub proof fn lemma_row_dot_extend<F: Field>(field: F, a: Seq<Vec<u8>>, v: Seq<u8>, i: int, lo: int, hi: int)
    requires
        lo <= hi,
    ensures
        row_dot(field, a, v, i, lo, hi + 1) == row_dot(field, a, v, i, lo, hi) ^ field.spec_mul(a[i]@[hi], v[hi]),
    decreases hi - lo,
{
    let t = field.spec_mul(a[i]@[hi], v[hi]);
    if lo == hi {
        lemma_u8_facts(t, 0, 0, 0, 0);
        assert(row_dot(field, a, v, i, lo + 1, hi + 1) == 0);
    } else {
        lemma_row_dot_extend(field, a, v, i, lo + 1, hi);
        let h = field.spec_mul(a[i]@[lo], v[lo]);
        lemma_u8_facts(h, row_dot(field, a, v, i, lo + 1, hi), t, 0, 0);
    }
}

/// A sum depends only on the entries of `v` in `lo..hi`.
pub proof fn lemma_row_dot_congruent<F: Field>(field: F, a: Seq<Vec<u8>>, v: Seq<u8>, w: Seq<u8>, i: int, lo: int, hi: int)
    requires
        forall|t: int| lo <= t < hi ==> v[t] == w[t],
    ensures
        row_dot(field, a, v, i, lo, hi) == row_dot(field, a, w, i, lo, hi),
    decreases hi - lo,
{
    if lo < hi {
        lemma_row_dot_congruent(field, a, v, w, i, lo + 1, hi);
    }
}

/// The laws that elimination relies on: dividing by a non-zero element and
/// multiplying back gives the value, and anything times zero is zero.
pub open spec fn elimination_laws<F: Field>(field: F) -> bool {
    &&& forall|x: u8, d: u8| d != 0 ==> #[trigger] field.spec_mul(field.spec_divide(x, d), d) == x
    &&& forall|x: u8| #[trigger] field.spec_mul(x, 0) == 0
}

/// Entry `(t, c)` of the upper factor stored in the first `r` rows of `a`:
/// on and above the diagonal, zero elsewhere.
pub open spec fn upper_entry(a: Seq<Vec<u8>>, r: int, t: int, c: int) -> u8 {
    if t < r && c >= t {
        a[t]@[c]
    } else {
        0
    }
}

/// `L[i][0] U[0][c] + ... + L[i][hi - 1] U[hi - 1][c]`, with `L` stored
/// below the diagonal of `a` and `U` its [`upper_entry`].
pub open spec fn lower_sum<F: Field>(field: F, a: Seq<Vec<u8>>, r: int, i: int, c: int, hi: int) -> u8
    decreases hi,
{
    if hi <= 0 {
        0
    } else {
        lower_sum(field, a, r, i, c, hi - 1) ^ field.spec_mul(a[i]@[hi - 1], upper_entry(a, r, hi - 1, c))
    }
}

/// Entry `(i, c)` of `L U` for the factorization of rank `r` stored in `a`:
/// `L` unit lower triangular (below the diagonal, first `r` columns), `U`
/// upper triangular in the first `r` rows.
pub open spec fn lu_product_entry<F: Field>(field: F, a: Seq<Vec<u8>>, r: int, i: int, c: int) -> u8 {
    upper_entry(a, r, i, c) ^ lower_sum(field, a, r, i, c, if i < r {
        i
    } else {
        r
    })
}

/// A sum over the first `hi` factor rows depends only on those rows and on
/// the first `hi` entries of row `i`.
proof fn lemma_lower_sum_congruent<F: Field>(
    field: F,
    a1: Seq<Vec<u8>>,
    a2: Seq<Vec<u8>>,
    r1: int,
    r2: int,
    i: int,
    c: int,
    hi: int,
)
    requires
        hi <= r1,
        hi <= r2,
        forall|t: int| 0 <= t < hi ==> #[trigger] a1[t] == a2[t],
        forall|t: int| 0 <= t < hi ==> #[trigger] a1[i]@[t] == a2[i]@[t],
    ensures
        lower_sum(field, a1, r1, i, c, hi) == lower_sum(field, a2, r2, i, c, hi),
    decreases hi,
{
    if hi > 0 {
        lemma_lower_sum_congruent(field, a1, a2, r1, r2, i, c, hi - 1);
        assert(a1[hi - 1] == a2[hi - 1]);
        assert(a1[i]@[hi - 1] == a2[i]@[hi - 1]);
    }
}

/// The relation of row `rho` of the permuted original to the partial
/// factorization: the factor rows `0..r`, the rest of the row from column
/// `jr` on, and the lower sum over the first `hr` factor rows.
spec fn lu_row_rel<F: Field>(
    field: F,
    a0: Seq<Vec<u8>>,
    a: Seq<Vec<u8>>,
    p: Seq<usize>,
    r: int,
    jr: int,
    hr: int,
    rho: int,
    c: int,
) -> bool {
    a0[p[rho] as int]@[c] == (if rho < r {
        upper_entry(a, r, rho, c)
    } else if c >= jr {
        a[rho]@[c]
    } else {
        0u8
    }) ^ lower_sum(field, a, r, rho, c, hr)
}

/// The relation between steps: rank `i`, columns before `j` done.
spec fn outer_rel<F: Field>(field: F, a0: Seq<Vec<u8>>, a: Seq<Vec<u8>>, p: Seq<usize>, i: int, j: int, rho: int, c: int) -> bool {
    lu_row_rel(field, a0, a, p, i, j, if rho < i {
        rho
    } else {
        i
    }, rho, c)
}

/// The relation while column `j` is eliminated with pivot row `i`, the rows
/// before `kk` done.
spec fn mid_rel<F: Field>(
    field: F,
    a0: Seq<Vec<u8>>,
    a: Seq<Vec<u8>>,
    p: Seq<usize>,
    i: int,
    j: int,
    kk: int,
    rho: int,
    c: int,
) -> bool {
    lu_row_rel(field, a0, a, p, i + 1, if rho < kk {
        j + 1
    } else {
        j
    }, if rho <= i {
        rho
    } else if rho < kk {
        i + 1
    } else {
        i
    }, rho, c)
}

/// Invariant between elimination steps.
spec fn lu_outer<F: Field>(field: F, a0: Seq<Vec<u8>>, a: Seq<Vec<u8>>, p: Seq<usize>, n: int, i: int, j: int) -> bool {
    &&& forall|rho: int, c: int| 0 <= rho < a.len() && 0 <= c < n ==> #[trigger] outer_rel(field, a0, a, p, i, j, rho, c)
    &&& forall|rho: int, c: int| i <= rho < a.len() && i <= c < j ==> #[trigger] a[rho]@[c] == 0
}

/// Invariant while column `j` is eliminated with pivot row `i`.
spec fn lu_mid<F: Field>(field: F, a0: Seq<Vec<u8>>, a: Seq<Vec<u8>>, p: Seq<usize>, n: int, i: int, j: int, kk: int) -> bool {
    &&& forall|rho: int, c: int| 0 <= rho < a.len() && 0 <= c < n ==> #[trigger] mid_rel(field, a0, a, p, i, j, kk, rho, c)
    &&& forall|rho: int, c: int| i < rho < kk && i + 1 <= c < j + 1 ==> #[trigger] a[rho]@[c] == 0
    &&& forall|rho: int, c: int| kk <= rho < a.len() && i <= c < j ==> #[trigger] a[rho]@[c] == 0
    &&& forall|c: int| i <= c < j ==> #[trigger] a[i]@[c] == 0
}

/// Swapping two rows at or after `i`, and their permutation entries, keeps
/// the invariant.
proof fn lemma_lu_swap<F: Field>(field: F, a0: Seq<Vec<u8>>, a: Seq<Vec<u8>>, p: Seq<usize>, n: int, i: int, j: int, k: int)
    requires
        lu_outer(field, a0, a, p, n, i, j),
        0 <= i <= k < a.len(),
        p.len() == a.len(),
    ensures
        lu_outer(
            field,
            a0,
            a.update(i, a[k]).update(k, a[i]),
            p.update(i, p[k]).update(k, p[i]),
            n,
            i,
            j,
        ),
{
    let a2 = a.update(i, a[k]).update(k, a[i]);
    let p2 = p.update(i, p[k]).update(k, p[i]);
    assert forall|rho: int, c: int| 0 <= rho < a2.len() && 0 <= c < n implies #[trigger] outer_rel(field, a0, a2, p2, i, j, rho, c) by {
        let src = if rho == i {
            k
        } else if rho == k {
            i
        } else {
            rho
        };
        assert(outer_rel(field, a0, a, p, i, j, src, c));
        assert(a2[rho] == a[src]);
        assert(p2[rho] == p[src]);
        let hr = if rho < i {
            rho
        } else {
            i
        };
        assert forall|t: int| 0 <= t < hr implies #[trigger] a[t] == a2[t] by {}
        assert forall|t: int| 0 <= t < hr implies #[trigger] a[src]@[t] == a2[rho]@[t] by {}
        lemma_lower_sum_congruent_rows(field, a, a2, i, src, rho, c, hr);
    }
    assert forall|rho: int, c: int| i <= rho < a2.len() && i <= c < j implies #[trigger] a2[rho]@[c] == 0 by {
        if rho == i {
            assert(a[k]@[c] == 0);
        } else if rho == k {
            assert(a[i]@[c] == 0);
        } else {
            assert(a[rho]@[c] == 0);
        }
    }
}

/// A lower sum for row `i1` of `a1` equals that for row `i2` of `a2` when the
/// factor rows and the row entries agree.
proof fn lemma_lower_sum_congruent_rows<F: Field>(
    field: F,
    a1: Seq<Vec<u8>>,
    a2: Seq<Vec<u8>>,
    r: int,
    i1: int,
    i2: int,
    c: int,
    hi: int,
)
    requires
        hi <= r,
        forall|t: int| 0 <= t < hi ==> #[trigger] a1[t] == a2[t],
        forall|t: int| 0 <= t < hi ==> #[trigger] a1[i1]@[t] == a2[i2]@[t],
    ensures
        lower_sum(field, a1, r, i1, c, hi) == lower_sum(field, a2, r, i2, c, hi),
    decreases hi,
{
    if hi > 0 {
        lemma_lower_sum_congruent_rows(field, a1, a2, r, i1, i2, c, hi - 1);
        assert(a1[hi - 1] == a2[hi - 1]);
        assert(a1[i1]@[hi - 1] == a2[i2]@[hi - 1]);
    }
}

/// No pivot in column `j`: the column is zero from row `i` on and is done.
proof fn lemma_lu_no_pivot<F: Field>(field: F, a0: Seq<Vec<u8>>, a: Seq<Vec<u8>>, p: Seq<usize>, n: int, i: int, j: int)
    requires
        lu_outer(field, a0, a, p, n, i, j),
        forall|rho: int| i <= rho < a.len() ==> #[trigger] a[rho]@[j] == 0,
    ensures
        lu_outer(field, a0, a, p, n, i, j + 1),
{
    assert forall|rho: int, c: int| 0 <= rho < a.len() && 0 <= c < n implies #[trigger] outer_rel(field, a0, a, p, i, j + 1, rho, c) by {
        assert(outer_rel(field, a0, a, p, i, j, rho, c));
        if rho >= i && c == j {
            assert(a[rho]@[j] == 0);
        }
    }
    assert forall|rho: int, c: int| i <= rho < a.len() && i <= c < j + 1 implies #[trigger] a[rho]@[c] == 0 by {
        if c < j {
            assert(a[rho]@[c] == 0);
        }
    }
}

/// A pivot at `(i, j)`: the invariant in its elimination form.
proof fn lemma_lu_start<F: Field>(field: F, a0: Seq<Vec<u8>>, a: Seq<Vec<u8>>, p: Seq<usize>, n: int, i: int, j: int)
    requires
        lu_outer(field, a0, a, p, n, i, j),
        0 <= i < a.len(),
        i <= j,
    ensures
        lu_mid(field, a0, a, p, n, i, j, i + 1),
{
    assert forall|rho: int, c: int| 0 <= rho < a.len() && 0 <= c < n implies #[trigger] mid_rel(field, a0, a, p, i, j, i + 1, rho, c) by {
        assert(outer_rel(field, a0, a, p, i, j, rho, c));
        let hr = if rho < i {
            rho
        } else {
            i
        };
        lemma_lower_sum_congruent(field, a, a, i, i + 1, rho, c, hr);
        if rho == i && i <= c < j {
            assert(a[i]@[c] == 0);
        }
    }
    assert forall|rho: int, c: int| i + 1 <= rho < a.len() && i <= c < j implies #[trigger] a[rho]@[c] == 0 by {}
    assert forall|c: int| i <= c < j implies #[trigger] a[i]@[c] == 0 by {}
}

/// Row `kk` eliminated against pivot row `i`: the multiplier `l` stored at
/// column `i`, column `j` cleared, `l` times the pivot row added after it.
proof fn lemma_lu_elim<F: Field>(
    field: F,
    a0: Seq<Vec<u8>>,
    a: Seq<Vec<u8>>,
    a2: Seq<Vec<u8>>,
    p: Seq<usize>,
    n: int,
    i: int,
    j: int,
    kk: int,
    l: u8,
)
    requires
        lu_mid(field, a0, a, p, n, i, j, kk),
        elimination_laws(field),
        0 <= i <= j < n,
        i < kk < a.len(),
        rows_at_least(a, n),
        a[i]@[j] != 0,
        l == field.spec_divide(a[kk]@[j], a[i]@[j]),
        a2.len() == a.len(),
        forall|t: int| 0 <= t < a.len() && t != kk ==> #[trigger] a2[t] == a[t],
        a2[kk]@.len() == a[kk]@.len(),
        forall|c: int|
            0 <= c < n ==> #[trigger] a2[kk]@[c] == (if c == i {
                l
            } else if c == j {
                0u8
            } else if c > j {
                a[kk]@[c] ^ field.spec_mul(l, a[i]@[c])
            } else {
                a[kk]@[c]
            }),
    ensures
        lu_mid(field, a0, a2, p, n, i, j, kk + 1),
{
    assert forall|rho: int, c: int| 0 <= rho < a2.len() && 0 <= c < n implies #[trigger] mid_rel(field, a0, a2, p, i, j, kk + 1, rho, c) by {
        assert(mid_rel(field, a0, a, p, i, j, kk, rho, c));
        if rho != kk {
            let hr = if rho <= i {
                rho
            } else if rho < kk {
                i + 1
            } else {
                i
            };
            assert forall|t: int| 0 <= t < hr implies #[trigger] a[t] == a2[t] by {}
            assert forall|t: int| 0 <= t < hr implies #[trigger] a[rho]@[t] == a2[rho]@[t] by {}
            lemma_lower_sum_congruent(field, a, a2, i + 1, i + 1, rho, c, hr);
        } else {
            assert forall|t: int| 0 <= t < i implies #[trigger] a[t] == a2[t] by {}
            assert forall|t: int| 0 <= t < i implies #[trigger] a[kk]@[t] == a2[kk]@[t] by {
                assert(a2[kk]@[t] == a[kk]@[t]);
            }
            lemma_lower_sum_congruent(field, a, a2, i + 1, i + 1, kk, c, i);
            let s = lower_sum(field, a, i + 1, kk, c, i);
            let u = upper_entry(a2, i + 1, i, c);
            assert(a2[i] == a[i]);
            let mm = field.spec_mul(l, u);
            assert(lower_sum(field, a2, i + 1, kk, c, i + 1) == s ^ mm);
            let old_r = if c >= j {
                a[kk]@[c]
            } else {
                0u8
            };
            assert(a0[p[kk] as int]@[c] == old_r ^ s);
            if c > j {
                assert(u == a[i]@[c]);
                lemma_u8_facts(a[kk]@[c], mm, s, mm, 0);
                lemma_u8_facts(mm, 0, 0, 0, 0);
                lemma_u8_facts(a[kk]@[c] ^ s, 0, 0, 0, 0);
            } else if c == j {
                assert(u == a[i]@[j]);
                assert(field.spec_mul(field.spec_divide(a[kk]@[j], a[i]@[j]), a[i]@[j]) == a[kk]@[j]);
                lemma_u8_facts(s ^ mm, 0, 0, 0, 0);
                lemma_u8_commute(mm, s);
            } else {
                if c >= i {
                    assert(a[i]@[c] == 0);
                }
                assert(u == 0);
                assert(mm == 0);
                lemma_u8_facts(s, 0, 0, 0, 0);
                lemma_u8_facts(0, 0, 0, 0, 0);
            }
        }
    }
    assert forall|rho: int, c: int| i < rho < kk + 1 && i + 1 <= c < j + 1 implies #[trigger] a2[rho]@[c] == 0 by {
        if rho < kk {
            assert(a[rho]@[c] == 0);
        } else {
            if c < j {
                assert(a[kk]@[c] == 0);
            }
        }
    }
    assert forall|rho: int, c: int| kk + 1 <= rho < a2.len() && i <= c < j implies #[trigger] a2[rho]@[c] == 0 by {
        assert(a[rho]@[c] == 0);
    }
    assert forall|c: int| i <= c < j implies #[trigger] a2[i]@[c] == 0 by {
        assert(a[i]@[c] == 0);
    }
}

/// XOR commutes.
proof fn lemma_u8_commute(x: u8, y: u8)
    by (bit_vector)
    ensures
        x ^ y == y ^ x,
{
}

/// Column `j` eliminated from every row after `i`: the next step's invariant.
proof fn lemma_lu_finish<F: Field>(field: F, a0: Seq<Vec<u8>>, a: Seq<Vec<u8>>, p: Seq<usize>, n: int, i: int, j: int)
    requires
        lu_mid(field, a0, a, p, n, i, j, a.len() as int),
        0 <= i < a.len(),
    ensures
        lu_outer(field, a0, a, p, n, i + 1, j + 1),
{
    assert forall|rho: int, c: int| 0 <= rho < a.len() && 0 <= c < n implies #[trigger] outer_rel(field, a0, a, p, i + 1, j + 1, rho, c) by {
        assert(mid_rel(field, a0, a, p, i, j, a.len() as int, rho, c));
    }
    assert forall|rho: int, c: int| i + 1 <= rho < a.len() && i + 1 <= c < j + 1 implies #[trigger] a[rho]@[c] == 0 by {}
}

/// Multiplication is associative, distributes over addition (XOR) on both
/// sides, and zero is absorbing.
#[verifier::opaque]
pub open spec fn ring_laws<F: Field>(field: F) -> bool {
    &&& forall|x: u8, y: u8, z: u8| #[trigger] field.spec_mul(field.spec_mul(x, y), z) == field.spec_mul(x, field.spec_mul(y, z))
    &&& forall|x: u8, y: u8, z: u8| #[trigger] field.spec_mul(x, y ^ z) == field.spec_mul(x, y) ^ field.spec_mul(x, z)
    &&& forall|x: u8, y: u8, z: u8| #[trigger] field.spec_mul(x ^ y, z) == field.spec_mul(x, z) ^ field.spec_mul(y, z)
    &&& forall|x: u8| #[trigger] field.spec_mul(0, x) == 0
    &&& forall|x: u8| #[trigger] field.spec_mul(x, 0) == 0
}

/// The laws of [`ring_laws`] at the given elements.
pub proof fn lemma_ring_facts<F: Field>(field: F, x: u8, y: u8, z: u8)
    requires
        ring_laws(field),
    ensures
        field.spec_mul(field.spec_mul(x, y), z) == field.spec_mul(x, field.spec_mul(y, z)),
        field.spec_mul(x, y ^ z) == field.spec_mul(x, y) ^ field.spec_mul(x, z),
        field.spec_mul(x ^ y, z) == field.spec_mul(x, z) ^ field.spec_mul(y, z),
        field.spec_mul(0, x) == 0,
        field.spec_mul(x, 0) == 0,
{
    reveal(ring_laws);
}

/// `f(lo) x[lo] + ... + f(hi - 1) x[hi - 1]`.
pub open spec fn dot_fn<F: Field>(field: F, f: spec_fn(int) -> u8, x: Seq<u8>, lo: int, hi: int) -> u8
    decreases hi - lo,
{
    if lo >= hi {
        0
    } else {
        field.spec_mul(f(lo), x[lo]) ^ dot_fn(field, f, x, lo + 1, hi)
    }
}

/// Sums over a pointwise sum split.
proof fn lemma_dot_add<F: Field>(field: F, f: spec_fn(int) -> u8, g: spec_fn(int) -> u8, h: spec_fn(int) -> u8, x: Seq<u8>, lo: int, hi: int)
    requires
        ring_laws(field),
        forall|c: int| lo <= c < hi ==> #[trigger] h(c) == f(c) ^ g(c),
    ensures
        dot_fn(field, h, x, lo, hi) == dot_fn(field, f, x, lo, hi) ^ dot_fn(field, g, x, lo, hi),
    decreases hi - lo,
{
    if lo < hi {
        lemma_dot_add(field, f, g, h, x, lo + 1, hi);
        let mf = field.spec_mul(f(lo), x[lo]);
        let mg = field.spec_mul(g(lo), x[lo]);
        assert(h(lo) == f(lo) ^ g(lo));
        lemma_ring_facts(field, f(lo), g(lo), x[lo]);
        lemma_u8_facts(mf, mg, dot_fn(field, f, x, lo + 1, hi), dot_fn(field, g, x, lo + 1, hi), 0);
    } else {
        lemma_u8_facts(0, 0, 0, 0, 0);
    }
}

/// A common factor comes out of a sum.
proof fn lemma_dot_scale<F: Field>(field: F, f: spec_fn(int) -> u8, h: spec_fn(int) -> u8, s: u8, x: Seq<u8>, lo: int, hi: int)
    requires
        ring_laws(field),
        forall|c: int| lo <= c < hi ==> #[trigger] h(c) == field.spec_mul(s, f(c)),
    ensures
        dot_fn(field, h, x, lo, hi) == field.spec_mul(s, dot_fn(field, f, x, lo, hi)),
    decreases hi - lo,
{
    if lo < hi {
        lemma_dot_scale(field, f, h, s, x, lo + 1, hi);
        assert(h(lo) == field.spec_mul(s, f(lo)));
        lemma_ring_facts(field, s, f(lo), x[lo]);
        lemma_ring_facts(field, s, field.spec_mul(f(lo), x[lo]), dot_fn(field, f, x, lo + 1, hi));
    } else {
        lemma_ring_facts(field, s, 0, 0);
    }
}

/// A sum depends only on `f` in `lo..hi`.
proof fn lemma_dot_congruent<F: Field>(field: F, f: spec_fn(int) -> u8, g: spec_fn(int) -> u8, x: Seq<u8>, lo: int, hi: int)
    requires
        forall|c: int| lo <= c < hi ==> #[trigger] f(c) == g(c),
    ensures
        dot_fn(field, f, x, lo, hi) == dot_fn(field, g, x, lo, hi),
    decreases hi - lo,
{
    if lo < hi {
        assert(f(lo) == g(lo));
        lemma_dot_congruent(field, f, g, x, lo + 1, hi);
    }
}

/// Leading zero coefficients add nothing.
proof fn lemma_dot_zero_prefix<F: Field>(field: F, f: spec_fn(int) -> u8, x: Seq<u8>, lo: int, mid: int, hi: int)
    requires
        ring_laws(field),
        lo <= mid <= hi,
        forall|c: int| lo <= c < mid ==> #[trigger] f(c) == 0,
    ensures
        dot_fn(field, f, x, lo, hi) == dot_fn(field, f, x, mid, hi),
    decreases mid - lo,
{
    if lo < mid {
        lemma_dot_zero_prefix(field, f, x, lo + 1, mid, hi);
        assert(f(lo) == 0);
        lemma_ring_facts(field, x[lo], 0, 0);
        lemma_u8_facts(dot_fn(field, f, x, lo + 1, hi), 0, 0, 0, 0);
    }
}

/// A row sum is the sum of the row's entries as coefficients.
proof fn lemma_row_dot_as_dot<F: Field>(field: F, a: Seq<Vec<u8>>, f: spec_fn(int) -> u8, v: Seq<u8>, i: int, lo: int, hi: int)
    requires
        forall|c: int| lo <= c < hi ==> #[trigger] f(c) == a[i]@[c],
    ensures
        row_dot(field, a, v, i, lo, hi) == dot_fn(field, f, v, lo, hi),
    decreases hi - lo,
{
    if lo < hi {
        assert(f(lo) == a[i]@[lo]);
        lemma_row_dot_as_dot(field, a, f, v, i, lo + 1, hi);
    }
}

/// Row `t` of the upper factor of a rank-`n` factorization in `a`, as coefficients.
pub open spec fn upper_row(a: Seq<Vec<u8>>, n: int, t: int) -> spec_fn(int) -> u8 {
    |c: int| upper_entry(a, n, t, c)
}

/// The lower sums of row `i` up to `h`, as coefficients.
pub open spec fn lower_row<F: Field>(field: F, a: Seq<Vec<u8>>, n: int, i: int, h: int) -> spec_fn(int) -> u8 {
    |c: int| lower_sum(field, a, n, i, c, h)
}

/// Row `i` of `L U` (rank `n` factorization in `a`) times `x` is `L (U x)`
/// at row `i`.
proof fn lemma_lu_times<F: Field>(field: F, a: Seq<Vec<u8>>, f0: spec_fn(int) -> u8, x: Seq<u8>, n: int, i: int)
    requires
        ring_laws(field),
        0 <= i < n,
        x.len() == n,
        forall|c: int| 0 <= c < n ==> #[trigger] f0(c) == lu_product_entry(field, a, n, i, c),
    ensures
        dot_fn(field, f0, x, 0, n) == upper_apply(field, a, x)[i] ^ row_dot(field, a, upper_apply(field, a, x), i, 0, i),
{
    let y = upper_apply(field, a, x);
    assert forall|t: int| 0 <= t < n implies #[trigger] dot_fn(field, upper_row(a, n, t), x, 0, n) == y[t] by {
        let u = upper_row(a, n, t);
        lemma_dot_zero_prefix(field, u, x, 0, t, n);
        lemma_row_dot_as_dot(field, a, u, x, t, t, n);
    }
    lemma_lu_times_lower(field, a, x, n, i, i);
    lemma_dot_add(field, upper_row(a, n, i), lower_row(field, a, n, i, i), f0, x, 0, n);
}

/// The lower sums of row `i` up to `h`, times `x`, are `L (U x)` without
/// the diagonal, up to `h`.
proof fn lemma_lu_times_lower<F: Field>(field: F, a: Seq<Vec<u8>>, x: Seq<u8>, n: int, i: int, h: int)
    requires
        ring_laws(field),
        0 <= h <= i < n,
        x.len() == n,
        forall|t: int| 0 <= t < n ==> #[trigger] dot_fn(field, upper_row(a, n, t), x, 0, n) == upper_apply(field, a, x)[t],
    ensures
        dot_fn(field, lower_row(field, a, n, i, h), x, 0, n) == row_dot(field, a, upper_apply(field, a, x), i, 0, h),
    decreases h,
{
    let y = upper_apply(field, a, x);
    let l_h = lower_row(field, a, n, i, h);
    if h == 0 {
        let z = |c: int| 0u8;
        lemma_dot_congruent(field, l_h, z, x, 0, n);
        lemma_dot_zero_prefix(field, z, x, 0, n, n);
    } else {
        lemma_lu_times_lower(field, a, x, n, i, h - 1);
        let l_prev = lower_row(field, a, n, i, h - 1);
        let u = upper_row(a, n, h - 1);
        let s = a[i]@[h - 1];
        let g = |c: int| field.spec_mul(s, u(c));
        lemma_dot_add(field, l_prev, g, l_h, x, 0, n);
        lemma_dot_scale(field, u, g, s, x, 0, n);
        assert(dot_fn(field, u, x, 0, n) == y[h - 1]);
        lemma_row_dot_extend(field, a, y, i, 0, h - 1);
    }
}

/// The laws for solving a linear system: those of elimination, of a ring,
/// and multiplication by an inverse undone.
pub open spec fn solving_laws<F: Field>(field: F) -> bool {
    elimination_laws(field) && ring_laws(field) && inverse_cancels(field)
}

/// Row `p[i]` of the original times column `k` of the solution gives the
/// original right-hand side, from the factorization and the substitution.
proof fn lemma_lin_solve_row<F: Field>(
    field: F,
    a0: Seq<Vec<u8>>,
    a: Seq<Vec<u8>>,
    a_n: Seq<Vec<u8>>,
    p: Seq<usize>,
    bn: Seq<Vec<u8>>,
    xs: Seq<Vec<u8>>,
    b: Seq<Vec<u8>>,
    b0: Seq<Vec<u8>>,
    n: int,
    i: int,
    k: int,
)
    requires
        solving_laws(field),
        0 <= i < n,
        n <= a.len(),
        a_n.len() == n,
        forall|t: int| 0 <= t < n ==> #[trigger] a_n[t] == a[t],
        forall|t: int, c: int|
            0 <= t < a0.len() && 0 <= c < n ==> #[trigger] a0[p[t] as int]@[c] == lu_product_entry(field, a, n, t, c),
        i < a0.len(),
        bn.len() == n,
        xs.len() == n,
        0 <= k < bn[i]@.len(),
        bn[i]@[k] == b0[p[i] as int]@[k],
        forall|kk: int| 0 <= kk < bn[0]@.len() ==> #[trigger] unit_lower_apply(field, a_n, upper_apply(field, a_n, column(xs, kk))) == column(bn, kk),
        bn[i]@.len() == bn[0]@.len(),
        b.len() >= n,
        forall|t: int| 0 <= t < n ==> #[trigger] b[t] == xs[t],
    ensures
        row_dot(field, a0, column(b, k), p[i] as int, 0, n) == b0[p[i] as int]@[k],
{
    let x = column(xs, k);
    let f0 = |c: int| a0[p[i] as int]@[c];
    assert forall|c: int| 0 <= c < n implies #[trigger] f0(c) == lu_product_entry(field, a_n, n, i, c) by {
        assert(a0[p[i] as int]@[c] == lu_product_entry(field, a, n, i, c));
        assert forall|t: int| 0 <= t < i implies #[trigger] a[t] == a_n[t] by {}
        assert forall|t: int| 0 <= t < i implies #[trigger] a[i]@[t] == a_n[i]@[t] by {}
        lemma_lower_sum_congruent(field, a, a_n, n, n, i, c, i);
    }
    lemma_lu_times(field, a_n, f0, x, n, i);
    lemma_row_dot_as_dot(field, a0, f0, x, p[i] as int, 0, n);
    assert(unit_lower_apply(field, a_n, upper_apply(field, a_n, x)) == column(bn, k));
    assert(unit_lower_apply(field, a_n, upper_apply(field, a_n, x))[i] == column(bn, k)[i]);
    assert forall|t: int| 0 <= t < n implies column(b, k)[t] == x[t] by {
        assert(b[t] == xs[t]);
    }
    lemma_row_dot_congruent(field, a0, column(b, k), x, p[i] as int, 0, n);
}

/// The entries of a matrix given as rows, by row and column.
pub open spec fn entries(a: Seq<Vec<u8>>) -> spec_fn(int, int) -> u8 {
    |row: int, col: int| a[row]@[col]
}

/// Entry `(t, c)`, `c` a logical column, of the upper factor stored in the
/// first `r` rows of the matrix with entries `g`, logical column `c` at
/// physical column `q[c]`.
pub open spec fn upper_entry_q(g: spec_fn(int, int) -> u8, q: Seq<usize>, r: int, t: int, c: int) -> u8 {
    if t < r && c >= t {
        g(t, q[c] as int)
    } else {
        0
    }
}

/// [`lower_sum`] with logical columns at physical columns `q`.
pub open spec fn lower_sum_q<F: Field>(field: F, g: spec_fn(int, int) -> u8, q: Seq<usize>, r: int, i: int, c: int, hi: int) -> u8
    decreases hi,
{
    if hi <= 0 {
        0
    } else {
        lower_sum_q(field, g, q, r, i, c, hi - 1) ^ field.spec_mul(g(i, q[hi - 1] as int), upper_entry_q(g, q, r, hi - 1, c))
    }
}

/// [`lu_product_entry`] with logical columns at physical columns `q`.
pub open spec fn lu_product_q<F: Field>(field: F, g: spec_fn(int, int) -> u8, q: Seq<usize>, r: int, i: int, c: int) -> u8 {
    upper_entry_q(g, q, r, i, c) ^ lower_sum_q(field, g, q, r, i, c, if i < r {
        i
    } else {
        r
    })
}

/// The logical column at physical column `phi`.
pub open spec fn col_of(q: Seq<usize>, n: int, phi: int) -> int {
    choose|c: int| 0 <= c < n && q[c] == phi
}

/// The entries of the matrix that an incremental decomposition starts from
/// (see [`expanded_entry`]).
pub open spec fn expanded<F: Field>(field: F, g0: spec_fn(int, int) -> u8, q0: Seq<usize>, r0: int, n: int) -> spec_fn(int, int) -> u8 {
    |x: int, phi: int| expanded_entry(field, g0, q0, r0, n, x, phi)
}

/// Entry `(x, phi)` of the matrix that an incremental decomposition starts
/// from: its first `r0` rows are `L U` of the factorization in `g0` (logical
/// columns at `q0`), the other rows are those of `g0`.
pub open spec fn expanded_entry<F: Field>(field: F, g0: spec_fn(int, int) -> u8, q0: Seq<usize>, r0: int, n: int, x: int, phi: int) -> u8 {
    if x < r0 {
        lu_product_q(field, g0, q0, r0, x, col_of(q0, n, phi))
    } else {
        g0(x, phi)
    }
}

/// A permutation of `0..n` takes every value of `0..n`.
pub proof fn lemma_permutation_onto(p: Seq<usize>, n: int)
    requires
        is_permutation(p, n),
    ensures
        forall|y: usize| y < n ==> #[trigger] p.contains(y),
{
    let x = vstd::set_lib::set_int_range(0, n);
    let f = |i: int| p[i] as int;
    vstd::set_lib::lemma_int_range(0, n);
    let y = x.map(f);
    assert(vstd::relations::injective_on(f, x)) by {
        assert forall|a: int, b: int| x.contains(a) && x.contains(b) && #[trigger] f(a) == #[trigger] f(b) implies a == b by {
            if a < b {
                assert(p[a] != p[b]);
            } else if b < a {
                assert(p[b] != p[a]);
            }
        }
    }
    vstd::set_lib::lemma_map_size(x, y, f);
    assert(y.subset_of(x)) by {
        assert forall|z: int| y.contains(z) implies x.contains(z) by {
            let a = choose|a: int| x.contains(a) && z == f(a);
            assert(p[a] < n);
        }
    }
    vstd::set_lib::lemma_subset_equality(y, x);
    assert forall|v: usize| v < n implies #[trigger] p.contains(v) by {
        assert(x.contains(v as int));
        assert(y.contains(v as int));
        let a = choose|a: int| x.contains(a) && v == f(a);
        assert(0 <= a < n && p[a] == v);
    }
}

/// `L U` of a factorization reads only the entries inside the `m x n`
/// matrix, so it is the same for entries that agree there.
pub proof fn lemma_lu_product_q_congruent<F: Field>(
    field: F,
    g1: spec_fn(int, int) -> u8,
    g2: spec_fn(int, int) -> u8,
    q: Seq<usize>,
    r: int,
    m: int,
    n: int,
)
    requires
        0 <= r <= m,
        r <= n,
        q.len() >= n,
        forall|c: int| 0 <= c < n ==> #[trigger] q[c] < n,
        forall|x: int, y: int| 0 <= x < m && 0 <= y < n ==> #[trigger] g1(x, y) == g2(x, y),
    ensures
        forall|i: int, c: int|
            0 <= i < m && 0 <= c < n ==> #[trigger] lu_product_q(field, g1, q, r, i, c) == lu_product_q(field, g2, q, r, i, c),
{
    assert forall|i: int, c: int| 0 <= i < m && 0 <= c < n implies #[trigger] lu_product_q(field, g1, q, r, i, c)
        == lu_product_q(field, g2, q, r, i, c) by {
        let hi = if i < r {
            i
        } else {
            r
        };
        assert forall|t: int| 0 <= t < hi implies #[trigger] g1(i, q[t] as int) == g2(i, q[t] as int) by {
            assert(q[t] < n);
        }
        assert forall|t: int| 0 <= t < hi implies #[trigger] upper_entry_q(g1, q, r, t, c) == upper_entry_q(g2, q, r, t, c) by {
            assert(q[c] < n);
            assert(g1(t, q[c] as int) == g2(t, q[c] as int));
        }
        lemma_lower_sum_q_congruent(field, g1, q, g2, q, r, r, i, i, c, c, hi);
        assert(q[c] < n);
        assert(g1(i, q[c] as int) == g2(i, q[c] as int));
    }
}

/// The starting matrix of an incremental decomposition ([`expanded_entry`])
/// reads only the entries inside the `m x n` matrix.
pub proof fn lemma_expanded_entry_congruent<F: Field>(
    field: F,
    g1: spec_fn(int, int) -> u8,
    g2: spec_fn(int, int) -> u8,
    q0: Seq<usize>,
    r0: int,
    m: int,
    n: int,
)
    requires
        0 <= r0 <= m,
        r0 <= n <= usize::MAX,
        q0.len() >= n,
        is_permutation(q0.take(n), n),
        forall|x: int, y: int| 0 <= x < m && 0 <= y < n ==> #[trigger] g1(x, y) == g2(x, y),
    ensures
        forall|x: int, phi: int|
            0 <= x < m && 0 <= phi < n ==> #[trigger] expanded_entry(field, g1, q0, r0, n, x, phi) == expanded_entry(
                field,
                g2,
                q0,
                r0,
                n,
                x,
                phi,
            ),
{
    lemma_qperm(q0, n);
    lemma_permutation_onto(q0.take(n), n);
    lemma_lu_product_q_congruent(field, g1, g2, q0, r0, m, n);
    assert forall|x: int, phi: int| 0 <= x < m && 0 <= phi < n implies #[trigger] expanded_entry(field, g1, q0, r0, n, x, phi)
        == expanded_entry(field, g2, q0, r0, n, x, phi) by {
        if x < r0 {
            assert(q0.take(n).contains(phi as usize));
            let i = choose|i: int| 0 <= i < q0.take(n).len() && #[trigger] q0.take(n)[i] == phi as usize;
            assert(q0.take(n)[i] == q0[i]);
            assert(q0[i] == phi);
            let c = col_of(q0, n, phi);
            assert(0 <= c < n);
        }
    }
}

/// Lower sums agree when their row entries and factor entries agree.
pub(crate) proof fn lemma_lower_sum_q_congruent<F: Field>(
    field: F,
    g1: spec_fn(int, int) -> u8,
    q1: Seq<usize>,
    g2: spec_fn(int, int) -> u8,
    q2: Seq<usize>,
    r1: int,
    r2: int,
    i1: int,
    i2: int,
    c1: int,
    c2: int,
    hi: int,
)
    requires
        hi <= r1,
        hi <= r2,
        forall|t: int| 0 <= t < hi ==> #[trigger] g1(i1, q1[t] as int) == g2(i2, q2[t] as int),
        forall|t: int| 0 <= t < hi ==> #[trigger] upper_entry_q(g1, q1, r1, t, c1) == upper_entry_q(g2, q2, r2, t, c2),
    ensures
        lower_sum_q(field, g1, q1, r1, i1, c1, hi) == lower_sum_q(field, g2, q2, r2, i2, c2, hi),
    decreases hi,
{
    if hi > 0 {
        lemma_lower_sum_q_congruent(field, g1, q1, g2, q2, r1, r2, i1, i2, c1, c2, hi - 1);
        assert(g1(i1, q1[hi - 1] as int) == g2(i2, q2[hi - 1] as int));
        assert(upper_entry_q(g1, q1, r1, hi - 1, c1) == upper_entry_q(g2, q2, r2, hi - 1, c2));
    }
}

/// The relation of row `rho` to the partial factorization: factor rows
/// `0..r`, the rest of the row from logical column `jr`, the lower sum over
/// the first `hr` factor rows; `e` gives the entries of the starting matrix.
pub(crate) open spec fn qrel<F: Field>(
    field: F,
    e: spec_fn(int, int) -> u8,
    g: spec_fn(int, int) -> u8,
    q: Seq<usize>,
    p: Seq<usize>,
    r: int,
    jr: int,
    hr: int,
    rho: int,
    c: int,
) -> bool {
    e(p[rho] as int, q[c] as int) == (if rho < r {
        upper_entry_q(g, q, r, rho, c)
    } else if c >= jr {
        g(rho, q[c] as int)
    } else {
        0u8
    }) ^ lower_sum_q(field, g, q, r, rho, c, hr)
}

/// Between pivot steps: rank `i`, logical columns before `j` done.
pub(crate) open spec fn qouter_rel<F: Field>(field: F, e: spec_fn(int, int) -> u8, g: spec_fn(int, int) -> u8, q: Seq<usize>, p: Seq<usize>, i: int, j: int, rho: int, c: int) -> bool {
    qrel(field, e, g, q, p, i, j, if rho < i {
        rho
    } else {
        i
    }, rho, c)
}

/// Eliminating with factor row `i` (of `f` factor rows), rows `f..kk` done.
pub(crate) open spec fn qstep_rel<F: Field>(
    field: F,
    e: spec_fn(int, int) -> u8,
    g: spec_fn(int, int) -> u8,
    q: Seq<usize>,
    p: Seq<usize>,
    f: int,
    i: int,
    kk: int,
    rho: int,
    c: int,
) -> bool {
    qrel(field, e, g, q, p, f, if rho < kk {
        i + 1
    } else {
        i
    }, if rho < f {
        rho
    } else if rho < kk {
        i + 1
    } else {
        i
    }, rho, c)
}

/// Invariant between pivot steps: every row related, and the skipped
/// logical columns `i..j` zero from row `i` on.
pub(crate) open spec fn qouter<F: Field>(field: F, e: spec_fn(int, int) -> u8, g: spec_fn(int, int) -> u8, q: Seq<usize>, p: Seq<usize>, m: int, n: int, i: int, j: int) -> bool {
    &&& forall|rho: int, c: int| 0 <= rho < m && 0 <= c < n ==> #[trigger] qouter_rel(field, e, g, q, p, i, j, rho, c)
    &&& forall|rho: int, c: int| i <= rho < m && i <= c < j ==> #[trigger] g(rho, q[c] as int) == 0
}

/// Invariant while eliminating with factor row `i`.
pub(crate) open spec fn qstep<F: Field>(field: F, e: spec_fn(int, int) -> u8, g: spec_fn(int, int) -> u8, q: Seq<usize>, p: Seq<usize>, m: int, n: int, f: int, i: int, kk: int) -> bool {
    forall|rho: int, c: int| 0 <= rho < m && 0 <= c < n ==> #[trigger] qstep_rel(field, e, g, q, p, f, i, kk, rho, c)
}

/// Logical columns `i + 1 ..= j` are zero in the rows `lo..m`.
pub(crate) open spec fn qzero(g: spec_fn(int, int) -> u8, q: Seq<usize>, m: int, lo: int, i: int, j: int) -> bool {
    forall|rho: int, c: int| lo <= rho < m && i < c <= j ==> #[trigger] g(rho, q[c] as int) == 0
}

/// `q` maps the logical columns `0..n` one to one onto the physical ones.
pub(crate) open spec fn qperm(q: Seq<usize>, n: int) -> bool {
    &&& q.len() >= n
    &&& forall|c: int| 0 <= c < n ==> #[trigger] q[c] < n
    &&& forall|c: int, d: int| 0 <= c < n && 0 <= d < n && c != d ==> #[trigger] q[c] != #[trigger] q[d]
}

/// A permutation of `0..n` (as the first `n` entries of `q`) is one to one.
pub(crate) proof fn lemma_qperm(q: Seq<usize>, n: int)
    requires
        q.len() >= n,
        is_permutation(q.take(n), n),
    ensures
        qperm(q, n),
{
    assert forall|c: int, d: int| 0 <= c < n && 0 <= d < n && c != d implies #[trigger] q[c] != #[trigger] q[d] by {
        if c < d {
            assert(q.take(n)[c] != q.take(n)[d]);
        } else {
            assert(q.take(n)[d] != q.take(n)[c]);
        }
    }
    assert forall|c: int| 0 <= c < n implies #[trigger] q[c] < n by {
        assert(q.take(n)[c] < n);
    }
}

/// The initial state of an incremental decomposition.
pub(crate) proof fn lemma_q_init<F: Field>(field: F, g: spec_fn(int, int) -> u8, q: Seq<usize>, p: Seq<usize>, m: int, n: int, r: int)
    requires
        qperm(q, n),
        0 <= r <= m,
        p.len() == m,
        forall|x: int| 0 <= x < m ==> #[trigger] p[x] == x,
    ensures
        qstep(field, expanded(field, g, q, r, n), g, q, p, m, n, r, 0, r),
{
    let e = expanded(field, g, q, r, n);
    assert forall|rho: int, c: int| 0 <= rho < m && 0 <= c < n implies #[trigger] qstep_rel(field, e, g, q, p, r, 0, r, rho, c) by {
        assert(p[rho] == rho);
        if rho < r {
            let c2 = col_of(q, n, q[c] as int);
            assert(0 <= c2 < n && q[c2] == q[c]);
            assert(c2 == c);
        } else {
            lemma_u8_facts(g(rho, q[c] as int), 0, 0, 0, 0);
        }
    }
}

/// Swapping two rows at or after `i`, and their permutation entries, keeps
/// the invariant.
pub(crate) proof fn lemma_q_swap_rows<F: Field>(
    field: F,
    e: spec_fn(int, int) -> u8,
    g: spec_fn(int, int) -> u8,
    g2: spec_fn(int, int) -> u8,
    q: Seq<usize>,
    p: Seq<usize>,
    m: int,
    n: int,
    i: int,
    j: int,
    k: int,
)
    requires
        qouter(field, e, g, q, p, m, n, i, j),
        0 <= i <= k < m,
        p.len() == m,
        forall|rho: int, phi: int| 0 <= rho < m ==> #[trigger] g2(rho, phi) == g(if rho == i {
            k
        } else if rho == k {
            i
        } else {
            rho
        }, phi),
    ensures
        qouter(field, e, g2, q, p.update(i, p[k]).update(k, p[i]), m, n, i, j),
{
    let p2 = p.update(i, p[k]).update(k, p[i]);
    assert forall|rho: int, c: int| 0 <= rho < m && 0 <= c < n implies #[trigger] qouter_rel(field, e, g2, q, p2, i, j, rho, c) by {
        let src = if rho == i {
            k
        } else if rho == k {
            i
        } else {
            rho
        };
        assert(qouter_rel(field, e, g, q, p, i, j, src, c));
        assert(g2(rho, q[c] as int) == g(src, q[c] as int));
        let hr = if rho < i {
            rho
        } else {
            i
        };
        assert forall|t: int| 0 <= t < hr implies #[trigger] g(src, q[t] as int) == g2(rho, q[t] as int) by {}
        assert forall|t: int| 0 <= t < hr implies #[trigger] upper_entry_q(g, q, i, t, c) == upper_entry_q(g2, q, i, t, c) by {
            assert(g2(t, q[c] as int) == g(t, q[c] as int));
        }
        lemma_lower_sum_q_congruent(field, g, q, g2, q, i, i, src, rho, c, c, hr);
    }
    assert forall|rho: int, c: int| i <= rho < m && i <= c < j implies #[trigger] g2(rho, q[c] as int) == 0 by {
        if rho == i {
            assert(g(k, q[c] as int) == 0);
        } else if rho == k {
            assert(g(i, q[c] as int) == 0);
        } else {
            assert(g(rho, q[c] as int) == 0);
        }
    }
}

/// No pivot in logical column `j`: the column is zero from row `i` on and is done.
pub(crate) proof fn lemma_q_no_pivot<F: Field>(field: F, e: spec_fn(int, int) -> u8, g: spec_fn(int, int) -> u8, q: Seq<usize>, p: Seq<usize>, m: int, n: int, i: int, j: int)
    requires
        qouter(field, e, g, q, p, m, n, i, j),
        forall|rho: int| i <= rho < m ==> #[trigger] g(rho, q[j] as int) == 0,
    ensures
        qouter(field, e, g, q, p, m, n, i, j + 1),
{
    assert forall|rho: int, c: int| 0 <= rho < m && 0 <= c < n implies #[trigger] qouter_rel(field, e, g, q, p, i, j + 1, rho, c) by {
        assert(qouter_rel(field, e, g, q, p, i, j, rho, c));
        if rho >= i && c == j {
            assert(g(rho, q[j] as int) == 0);
        }
    }
    assert forall|rho: int, c: int| i <= rho < m && i <= c < j + 1 implies #[trigger] g(rho, q[c] as int) == 0 by {
        if c < j {
            assert(g(rho, q[c] as int) == 0);
        }
    }
}

/// Swapping logical columns `i` and `j` brings the pivot column to `i`; the
/// zero columns move to `i + 1 ..= j`.
pub(crate) proof fn lemma_q_swap_cols<F: Field>(field: F, e: spec_fn(int, int) -> u8, g: spec_fn(int, int) -> u8, q: Seq<usize>, p: Seq<usize>, m: int, n: int, i: int, j: int)
    requires
        qouter(field, e, g, q, p, m, n, i, j),
        0 <= i <= j < n,
        q.len() >= n,
    ensures
        qouter(field, e, g, q.update(i, q[j]).update(j, q[i]), p, m, n, i, i),
        qzero(g, q.update(i, q[j]).update(j, q[i]), m, i, i, j),
{
    let q2 = q.update(i, q[j]).update(j, q[i]);
    assert forall|rho: int, c: int| 0 <= rho < m && 0 <= c < n implies #[trigger] qouter_rel(field, e, g, q2, p, i, i, rho, c) by {
        let sc = if c == i {
            j
        } else if c == j {
            i
        } else {
            c
        };
        assert(q2[c] == q[sc]);
        assert(qouter_rel(field, e, g, q, p, i, j, rho, sc));
        let hr = if rho < i {
            rho
        } else {
            i
        };
        assert forall|t: int| 0 <= t < hr implies #[trigger] g(rho, q[t] as int) == g(rho, q2[t] as int) by {
            assert(q2[t] == q[t]);
        }
        assert forall|t: int| 0 <= t < hr implies #[trigger] upper_entry_q(g, q, i, t, sc) == upper_entry_q(g, q2, i, t, c) by {}
        lemma_lower_sum_q_congruent(field, g, q, g, q2, i, i, rho, rho, sc, c, hr);
        if rho >= i && c == j && i < j {
            assert(g(rho, q[i] as int) == 0);
        }
        if rho >= i && i < c < j {
            assert(g(rho, q[c] as int) == 0);
        }
    }
    assert forall|rho: int, c: int| i <= rho < m && i < c <= j implies #[trigger] g(rho, q2[c] as int) == 0 by {
        if c == j {
            assert(g(rho, q[i] as int) == 0);
        } else {
            assert(q2[c] == q[c]);
            assert(g(rho, q[c] as int) == 0);
        }
    }
}

/// A pivot at logical `(i, i)`: the elimination form with `i + 1` factor rows.
pub(crate) proof fn lemma_q_start<F: Field>(field: F, e: spec_fn(int, int) -> u8, g: spec_fn(int, int) -> u8, q: Seq<usize>, p: Seq<usize>, m: int, n: int, i: int)
    requires
        qouter(field, e, g, q, p, m, n, i, i),
        0 <= i < m,
    ensures
        qstep(field, e, g, q, p, m, n, i + 1, i, i + 1),
{
    assert forall|rho: int, c: int| 0 <= rho < m && 0 <= c < n implies #[trigger] qstep_rel(field, e, g, q, p, i + 1, i, i + 1, rho, c) by {
        assert(qouter_rel(field, e, g, q, p, i, i, rho, c));
        let hr = if rho < i {
            rho
        } else {
            i
        };
        assert forall|t: int| 0 <= t < hr implies #[trigger] g(rho, q[t] as int) == g(rho, q[t] as int) by {}
        assert forall|t: int| 0 <= t < hr implies #[trigger] upper_entry_q(g, q, i, t, c) == upper_entry_q(g, q, i + 1, t, c) by {}
        lemma_lower_sum_q_congruent(field, g, q, g, q, i, i + 1, rho, rho, c, c, hr);
    }
}

/// Row `kk` eliminated with factor row `i`: the multiplier `l` at logical
/// column `i`, `l` times the factor row added after it.
pub(crate) proof fn lemma_q_elim<F: Field>(
    field: F,
    e: spec_fn(int, int) -> u8,
    g: spec_fn(int, int) -> u8,
    g2: spec_fn(int, int) -> u8,
    q: Seq<usize>,
    p: Seq<usize>,
    m: int,
    n: int,
    f: int,
    i: int,
    kk: int,
    l: u8,
)
    requires
        qstep(field, e, g, q, p, m, n, f, i, kk),
        0 <= i < f <= kk < m,
        i < n,
        field.spec_mul(l, g(i, q[i] as int)) == g(kk, q[i] as int),
        field.spec_mul(l, 0) == 0,
        forall|t: int, phi: int| 0 <= t < m && t != kk ==> #[trigger] g2(t, phi) == g(t, phi),
        forall|c: int|
            0 <= c < n ==> #[trigger] g2(kk, q[c] as int) == (if c == i {
                l
            } else if c > i {
                g(kk, q[c] as int) ^ field.spec_mul(l, g(i, q[c] as int))
            } else {
                g(kk, q[c] as int)
            }),
    ensures
        qstep(field, e, g2, q, p, m, n, f, i, kk + 1),
{
    assert forall|rho: int, c: int| 0 <= rho < m && 0 <= c < n implies #[trigger] qstep_rel(field, e, g2, q, p, f, i, kk + 1, rho, c) by {
        assert(qstep_rel(field, e, g, q, p, f, i, kk, rho, c));
        if rho != kk {
            let hr = if rho < f {
                rho
            } else if rho < kk {
                i + 1
            } else {
                i
            };
            assert(g2(rho, q[c] as int) == g(rho, q[c] as int));
            assert forall|t: int| 0 <= t < hr implies #[trigger] g(rho, q[t] as int) == g2(rho, q[t] as int) by {}
            assert forall|t: int| 0 <= t < hr implies #[trigger] upper_entry_q(g, q, f, t, c) == upper_entry_q(g2, q, f, t, c) by {
                assert(g2(t, q[c] as int) == g(t, q[c] as int));
            }
            lemma_lower_sum_q_congruent(field, g, q, g2, q, f, f, rho, rho, c, c, hr);
        } else {
            assert forall|t: int| 0 <= t < i implies #[trigger] g(kk, q[t] as int) == g2(kk, q[t] as int) by {}
            assert forall|t: int| 0 <= t < i implies #[trigger] upper_entry_q(g, q, f, t, c) == upper_entry_q(g2, q, f, t, c) by {
                assert(g2(t, q[c] as int) == g(t, q[c] as int));
            }
            lemma_lower_sum_q_congruent(field, g, q, g2, q, f, f, kk, kk, c, c, i);
            let s = lower_sum_q(field, g, q, f, kk, c, i);
            let u = upper_entry_q(g2, q, f, i, c);
            let mm = field.spec_mul(l, u);
            assert(g2(kk, q[i] as int) == l);
            assert(lower_sum_q(field, g2, q, f, kk, c, i + 1) == s ^ mm);
            let x = g(kk, q[c] as int);
            assert(g2(i, q[c] as int) == g(i, q[c] as int));
            if c > i {
                assert(u == g(i, q[c] as int));
                lemma_u8_facts(x, mm, s, mm, 0);
                lemma_u8_facts(mm, 0, 0, 0, 0);
                lemma_u8_facts(x ^ s, 0, 0, 0, 0);
            } else if c == i {
                assert(u == g(i, q[i] as int));
                lemma_u8_facts(s ^ mm, 0, 0, 0, 0);
                lemma_u8_commute(mm, s);
            } else {
                assert(u == 0);
                assert(mm == 0);
                lemma_u8_facts(s, 0, 0, 0, 0);
            }
        }
    }
}

/// All rows after factor row `i` eliminated: the step with the next factor row.
pub(crate) proof fn lemma_q_next<F: Field>(field: F, e: spec_fn(int, int) -> u8, g: spec_fn(int, int) -> u8, q: Seq<usize>, p: Seq<usize>, m: int, n: int, f: int, i: int)
    requires
        qstep(field, e, g, q, p, m, n, f, i, m),
        f <= m,
    ensures
        qstep(field, e, g, q, p, m, n, f, i + 1, f),
{
    assert forall|rho: int, c: int| 0 <= rho < m && 0 <= c < n implies #[trigger] qstep_rel(field, e, g, q, p, f, i + 1, f, rho, c) by {
        assert(qstep_rel(field, e, g, q, p, f, i, m, rho, c));
    }
}

/// The factor rows all used: the state between pivot steps.
pub(crate) proof fn lemma_q_to_outer<F: Field>(field: F, e: spec_fn(int, int) -> u8, g: spec_fn(int, int) -> u8, q: Seq<usize>, p: Seq<usize>, m: int, n: int, f: int)
    requires
        qstep(field, e, g, q, p, m, n, f, f, f),
    ensures
        qouter(field, e, g, q, p, m, n, f, f),
{
    assert forall|rho: int, c: int| 0 <= rho < m && 0 <= c < n implies #[trigger] qouter_rel(field, e, g, q, p, f, f, rho, c) by {
        assert(qstep_rel(field, e, g, q, p, f, f, f, rho, c));
    }
}

/// Zero columns `i + 1 ..= j` stay zero when a row is eliminated.
pub(crate) proof fn lemma_q_zero_elim<F: Field>(
    field: F,
    g: spec_fn(int, int) -> u8,
    g2: spec_fn(int, int) -> u8,
    q: Seq<usize>,
    m: int,
    n: int,
    i: int,
    j: int,
    kk: int,
    l: u8,
)
    requires
        qzero(g, q, m, i, i, j),
        field.spec_mul(l, 0) == 0,
        0 <= i < kk < m,
        j < n,
        forall|t: int, phi: int| 0 <= t < m && t != kk ==> #[trigger] g2(t, phi) == g(t, phi),
        forall|c: int|
            0 <= c < n ==> #[trigger] g2(kk, q[c] as int) == (if c == i {
                l
            } else if c > i {
                g(kk, q[c] as int) ^ field.spec_mul(l, g(i, q[c] as int))
            } else {
                g(kk, q[c] as int)
            }),
    ensures
        qzero(g2, q, m, i, i, j),
{
    assert forall|rho: int, c: int| i <= rho < m && i < c <= j implies #[trigger] g2(rho, q[c] as int) == 0 by {
        assert(g(rho, q[c] as int) == 0);
        if rho == kk {
            assert(g(i, q[c] as int) == 0);
            lemma_u8_facts(0, 0, 0, 0, 0);
        }
    }
}

/// The pivot step done: the state between pivot steps, the zero columns
/// counted as done.
pub(crate) proof fn lemma_q_finish<F: Field>(field: F, e: spec_fn(int, int) -> u8, g: spec_fn(int, int) -> u8, q: Seq<usize>, p: Seq<usize>, m: int, n: int, i: int, j: int)
    requires
        qstep(field, e, g, q, p, m, n, i + 1, i, m),
        qzero(g, q, m, i, i, j),
        0 <= i < m,
        i <= j,
    ensures
        qouter(field, e, g, q, p, m, n, i + 1, j + 1),
{
    assert forall|rho: int, c: int| 0 <= rho < m && 0 <= c < n implies #[trigger] qouter_rel(field, e, g, q, p, i + 1, j + 1, rho, c) by {
        assert(qstep_rel(field, e, g, q, p, i + 1, i, m, rho, c));
        if rho > i && i < c <= j {
            assert(g(rho, q[c] as int) == 0);
        }
    }
    assert forall|rho: int, c: int| i + 1 <= rho < m && i + 1 <= c < j + 1 implies #[trigger] g(rho, q[c] as int) == 0 by {}
}

/// The final state of an incremental decomposition: every row of the
/// starting matrix, permuted, is a row of `L U`.
pub(crate) proof fn lemma_q_done<F: Field>(field: F, e: spec_fn(int, int) -> u8, g: spec_fn(int, int) -> u8, q: Seq<usize>, p: Seq<usize>, m: int, n: int, i: int, j: int)
    requires
        qouter(field, e, g, q, p, m, n, i, j),
        j == n || i == m,
    ensures
        forall|rho: int, c: int| 0 <= rho < m && 0 <= c < n ==> #[trigger] e(p[rho] as int, q[c] as int) == lu_product_q(field, g, q, i, rho, c),
{
    assert forall|rho: int, c: int| 0 <= rho < m && 0 <= c < n implies #[trigger] e(p[rho] as int, q[c] as int) == lu_product_q(field, g, q, i, rho, c) by {
        assert(qouter_rel(field, e, g, q, p, i, j, rho, c));
    }
}


/// A vector of `n` zero bytes.
pub fn zeros(n: usize) -> (r: Vec<u8>)
    ensures
        r@ == Seq::new(n as nat, |i: int| 0u8),
{
    let mut v: Vec<u8> = Vec::with_capacity(n);
    let mut i: usize = 0;
    while i < n
        invariant
            i <= n,
            v@ == Seq::new(i as nat, |j: int| 0u8),
        decreases n - i,
    {
        v.push(0u8);
        i += 1;
    }
    v
}

/// Swaps rows `i` and `k` of a matrix.
pub fn swap_rows(a: &mut Vec<Vec<u8>>, i: usize, k: usize)
    requires
        i < old(a)@.len(),
        k < old(a)@.len(),
    ensures
        final(a)@ == old(a)@.update(i as int, old(a)@[k as int]).update(k as int, old(a)@[i as int]),
{
    if i == k {
        assert(a@ =~= a@.update(i as int, a@[k as int]).update(k as int, a@[i as int]));
        return ;
    }
    let mut tmp: Vec<u8> = Vec::new();
    std::mem::swap(&mut a[i], &mut tmp);
    std::mem::swap(&mut a[k], &mut tmp);
    std::mem::swap(&mut a[i], &mut tmp);
}

/// Swaps entries `i` and `k` of an index vector.
pub fn swap_entries(p: &mut Vec<usize>, i: usize, k: usize)
    requires
        i < old(p)@.len(),
        k < old(p)@.len(),
    ensures
        final(p)@ == old(p)@.update(i as int, old(p)@[k as int]).update(k as int, old(p)@[i as int]),
{
    let vi = p[i];
    let vk = p[k];
    p.set(i, vk);
    p.set(k, vi);
}

/// The identity permutation `0..n`.
pub fn identity_permutation(n: usize) -> (r: Vec<usize>)
    ensures
        r@ == Seq::new(n as nat, |i: int| i as usize),
        is_permutation(r@, n as int),
{
    let mut v: Vec<usize> = Vec::with_capacity(n);
    let mut i: usize = 0;
    while i < n
        invariant
            i <= n,
            v@ == Seq::new(i as nat, |j: int| j as usize),
        decreases n - i,
    {
        v.push(i);
        i += 1;
    }
    v
}

/// Swapping two entries keeps a permutation a permutation.
pub proof fn lemma_swap_keeps_permutation(p: Seq<usize>, n: int, i: int, k: int)
    requires
        is_permutation(p, n),
        0 <= i < n,
        0 <= k < n,
    ensures
        is_permutation(p.update(i, p[k]).update(k, p[i]), n),
{
    let q = p.update(i, p[k]).update(k, p[i]);
    assert forall|x: int, y: int| 0 <= x < y < n implies #[trigger] q[x] != #[trigger] q[y] by {
        let sx = if x == k { i } else if x == i { k } else { x };
        let sy = if y == k { i } else if y == i { k } else { y };
        assert(q[x] == p[sx]);
        assert(q[y] == p[sy]);
        if sx < sy {
            assert(p[sx] != p[sy]);
        } else {
            assert(p[sy] != p[sx]);
        }
    }
    assert forall|x: int| 0 <= x < n implies #[trigger] q[x] < n by {
        let sx = if x == k { i } else if x == i { k } else { x };
        assert(q[x] == p[sx]);
    }
}

/// Element-wise vector operations over GF(256).
pub struct Vector;

impl Vector {
    /// XORs `b` into `a` element-wise; the lengths must agree.
    pub fn add_inplace(a: &mut [u8], b: &[u8])
        requires
            old(a)@.len() == b@.len(),
        ensures
            final(a)@ == xor_seq(old(a)@, b@),
    {
        let ghost a0 = a@;
        let mut i: usize = 0;
        while i < a.len()
            invariant
                a@.len() == b@.len(),
                a0.len() == b@.len(),
                i <= a@.len(),
                forall|j: int| 0 <= j < i ==> a@[j] == a0[j] ^ b@[j],
                forall|j: int| i <= j < a@.len() ==> a@[j] == a0[j],
            decreases a@.len() - i,
        {
            a[i] = a[i] ^ b[i];
            i += 1;
        }
        assert(a@ =~= xor_seq(a0, b@));
    }

    /// Multiply a vector by alpha in place: `result[i] = result[i] * alpha`.
    pub fn multiply_alpha_inplace(field: &GF256, result: &mut [u8])
        ensures
            final(result)@ == Seq::new(old(result)@.len(), |i: int| xtime(old(result)@[i], field.poly())),
    {
        let ghost r0 = result@;
        let mut i: usize = 0;
        while i < result.len()
            invariant
                result@.len() == r0.len(),
                i <= result@.len(),
                forall|j: int| 0 <= j < i ==> result@[j] == xtime(r0[j], field.poly()),
                forall|j: int| i <= j < result@.len() ==> result@[j] == r0[j],
            decreases result@.len() - i,
        {
            result[i] = field.mul_alpha(result[i]);
            i += 1;
        }
        assert(result@ =~= Seq::new(r0.len(), |i: int| xtime(r0[i], field.poly())));
    }

    /// Multiply a vector by a scalar in place: `result[i] = scalar * result[i]`.
    pub fn scalar_vector_multiply_inplace<F: Field>(field: &F, scalar: u8, result: &mut [u8])
        ensures
            final(result)@ == Seq::new(old(result)@.len(), |i: int| field.spec_mul(scalar, old(result)@[i])),
    {
        let ghost r0 = result@;
        let mut i: usize = 0;
        while i < result.len()
            invariant
                result@.len() == r0.len(),
                i <= result@.len(),
                forall|j: int| 0 <= j < i ==> result@[j] == field.spec_mul(scalar, r0[j]),
                forall|j: int| i <= j < result@.len() ==> result@[j] == r0[j],
            decreases result@.len() - i,
        {
            result[i] = field.mul(scalar, result[i]);
            i += 1;
        }
        assert(result@ =~= Seq::new(r0.len(), |i: int| field.spec_mul(scalar, r0[i])));
    }
}

/// Matrix operations over a finite field, including multiplication, permutation, and LU decomposition.
pub struct Matrix;

impl Matrix {
    /// Multiplies `a` (m×n) and `b` (n×p) over the field, returning the m×p product.
    pub fn multiply<F: Field>(field: &F, a: &[Vec<u8>], b: &[Vec<u8>]) -> (r: Vec<Vec<u8>>)
        requires
            num_cols(a@) == b@.len(),
            forall|j: int| 0 <= j < b@.len() ==> #[trigger] b@[j]@.len() <= num_cols(b@),
        ensures
            r@.len() == a@.len(),
            forall|i: int| 0 <= i < r@.len() ==> #[trigger] r@[i]@.len() == num_cols(b@),
            forall|i: int, k: int|
                0 <= i < r@.len() && 0 <= k < num_cols(b@) ==> #[trigger] r@[i]@[k] == mat_mul_entry(
                    *field,
                    a@[i]@,
                    b@,
                    k,
                    if a@[i]@.len() < num_cols(a@) {
                        a@[i]@.len() as int
                    } else {
                        num_cols(a@)
                    },
                ),
    {
        let m = a.len();
        let n = if m > 0 {
            a[0].len()
        } else {
            0
        };
        let p = if n > 0 {
            b[0].len()
        } else {
            0
        };
        let mut result: Vec<Vec<u8>> = Vec::with_capacity(m);
        let mut i: usize = 0;
        while i < m
            invariant
                m == a@.len(),
                n == num_cols(a@),
                n == b@.len(),
                p == num_cols(b@),
                forall|j: int| 0 <= j < b@.len() ==> #[trigger] b@[j]@.len() <= num_cols(b@),
                i <= m,
                result@.len() == i,
                forall|x: int| 0 <= x < i ==> #[trigger] result@[x]@.len() == p,
                forall|x: int, k: int|
                    0 <= x < i && 0 <= k < p ==> #[trigger] result@[x]@[k] == mat_mul_entry(
                        *field,
                        a@[x]@,
                        b@,
                        k,
                        if a@[x]@.len() < n {
                            a@[x]@.len() as int
                        } else {
                            n as int
                        },
                    ),
            decreases m - i,
        {
            let mut row = zeros(p);
            let arow = &a[i];
            let upto = if arow.len() < n {
                arow.len()
            } else {
                n
            };
            let mut j: usize = 0;
            while j < upto
                invariant
                    upto <= arow@.len(),
                    upto <= b@.len(),
                    arow@ == a@[i as int]@,
                    forall|jj: int| 0 <= jj < b@.len() ==> #[trigger] b@[jj]@.len() <= p,
                    j <= upto,
                    row@.len() == p,
                    forall|k: int| 0 <= k < p ==> #[trigger] row@[k] == mat_mul_entry(*field, arow@, b@, k, j as int),
                decreases upto - j,
            {
                let a_ij = arow[j];
                let brow = &b[j];
                let mut k: usize = 0;
                while k < brow.len()
                    invariant
                        brow@ == b@[j as int]@,
                        brow@.len() <= p,
                        row@.len() == p,
                        k <= brow@.len(),
                        j < upto,
                        upto <= arow@.len(),
                        a_ij == arow@[j as int],
                        forall|kk: int| 0 <= kk < k ==> #[trigger] row@[kk] == mat_mul_entry(*field, arow@, b@, kk, j + 1),
                        forall|kk: int| k <= kk < p ==> #[trigger] row@[kk] == mat_mul_entry(*field, arow@, b@, kk, j as int),
                    decreases brow@.len() - k,
                {
                    let prod = field.mul(a_ij, brow[k]);
                    let cur = row[k];
                    row.set(k, cur ^ prod);
                    k += 1;
                }
                proof {
                    assert forall|kk: int| 0 <= kk < p implies #[trigger] row@[kk] == mat_mul_entry(*field, arow@, b@, kk, j + 1) by {
                        if kk >= brow@.len() {
                            assert(mat_mul_entry(*field, arow@, b@, kk, j + 1) == mat_mul_entry(*field, arow@, b@, kk, j as int));
                        }
                    }
                }
                j += 1;
            }
            result.push(row);
            i += 1;
        }
        result
    }

    /// Permutes the rows of `a` in place so that row `x` becomes the old row `p[x]`,
    /// following each cycle of `p` with swaps.
    pub fn permute_rows_inplace(a: &mut Vec<Vec<u8>>, p: &[usize])
        requires
            p@.len() >= old(a)@.len(),
            forall|x: int| 0 <= x < old(a)@.len() ==> #[trigger] p@[x] < old(a)@.len(),
        ensures
            final(a)@.len() == old(a)@.len(),
            is_permutation(p@.take(old(a)@.len() as int), old(a)@.len() as int) ==> forall|x: int|
                0 <= x < old(a)@.len() ==> #[trigger] final(a)@[x] == old(a)@[p@[x] as int],
    {
        let n = a.len();
        let ghost old_a = a@;
        let ghost inj = forall|x: int, y: int|
            0 <= x < n && 0 <= y < n && x != y ==> #[trigger] p@[x] != #[trigger] p@[y];
        proof {
            if is_permutation(p@.take(n as int), n as int) {
                assert forall|x: int, y: int|
                    0 <= x < n && 0 <= y < n && x != y implies #[trigger] p@[x] != #[trigger] p@[y] by {
                    if x < y {
                        assert(p@.take(n as int)[x] != p@.take(n as int)[y]);
                    } else {
                        assert(p@.take(n as int)[y] != p@.take(n as int)[x]);
                    }
                }
            }
        }
        let mut visited: Vec<bool> = Vec::with_capacity(n);
        let mut t: usize = 0;
        while t < n
            invariant
                t <= n,
                visited@.len() == t,
                forall|x: int| 0 <= x < t ==> !#[trigger] visited@[x],
            decreases n - t,
        {
            visited.push(false);
            t += 1;
        }
        let ghost mut vs: Set<int> = Set::empty();
        let mut i: usize = 0;
        while i < n
            invariant
                n == a@.len(),
                n == old_a.len(),
                n == visited@.len(),
                i <= n,
                vs.finite(),
                forall|x: int| #[trigger] vs.contains(x) <==> (0 <= x < n && visited@[x]),
                forall|x: int| 0 <= x < n ==> #[trigger] p@[x] < n,
                inj == (forall|x: int, y: int|
                    0 <= x < n && 0 <= y < n && x != y ==> #[trigger] p@[x] != #[trigger] p@[y]),
                p@.len() >= n,
                forall|x: int| 0 <= x < n && visited@[x] ==> #[trigger] visited@[p@[x] as int],
                inj ==> forall|y: int|
                    0 <= y < n && #[trigger] visited@[y] ==> exists|x: int|
                        0 <= x < n && visited@[x] && #[trigger] p@[x] == y,
                forall|x: int| 0 <= x < i ==> #[trigger] visited@[x] || p@[x] == x,
                inj ==> forall|x: int| 0 <= x < n && #[trigger] visited@[x] ==> a@[x] == old_a[p@[x] as int],
                inj ==> forall|x: int| 0 <= x < n && !#[trigger] visited@[x] ==> a@[x] == old_a[x],
            decreases n - i,
        {
            if visited[i] || p[i] == i {
                i += 1;
                continue;
            }
            let mut j = i;
            while !visited[j]
                invariant
                    n == a@.len(),
                    n == old_a.len(),
                    n == visited@.len(),
                    i < n,
                    j < n,
                    p@[i as int] != i,
                    p@.len() >= n,
                    vs.finite(),
                    forall|x: int| #[trigger] vs.contains(x) <==> (0 <= x < n && visited@[x]),
                    forall|x: int| 0 <= x < n ==> #[trigger] p@[x] < n,
                    inj == (forall|x: int, y: int|
                        0 <= x < n && 0 <= y < n && x != y ==> #[trigger] p@[x] != #[trigger] p@[y]),
                    forall|x: int|
                        0 <= x < n && visited@[x] ==> #[trigger] visited@[p@[x] as int] || p@[x] == j,
                    inj ==> forall|y: int|
                        0 <= y < n && #[trigger] visited@[y] && y != i ==> exists|x: int|
                            0 <= x < n && visited@[x] && #[trigger] p@[x] == y,
                    !visited@[i as int] ==> j == i,
                    visited@[i as int] ==> exists|x: int| 0 <= x < n && visited@[x] && #[trigger] p@[x] == j,
                    forall|x: int| 0 <= x < i ==> #[trigger] visited@[x] || p@[x] == x,
                    inj ==> forall|x: int| 0 <= x < n && #[trigger] visited@[x] ==> a@[x] == old_a[p@[x] as int],
                    inj && !visited@[j as int] ==> a@[j as int] == old_a[i as int],
                    inj ==> forall|x: int|
                        0 <= x < n && !#[trigger] visited@[x] && x != j ==> a@[x] == old_a[x],
                    inj && visited@[j as int] ==> j == i,
                decreases n - vs.len(),
            {
                proof {
                    vstd::set_lib::lemma_int_range(0, n as int);
                    vstd::set_lib::lemma_len_subset(vs.insert(j as int), vstd::set_lib::set_int_range(0, n as int));
                }
                let ghost old_vis = visited@;
                let ghost jo = j;
                visited.set(j, true);
                proof {
                    vs = vs.insert(j as int);
                }
                let k = p[j];
                proof {
                    if inj && old_vis[k as int] && k != i {
                        let x = choose|x: int| 0 <= x < n && old_vis[x] && #[trigger] p@[x] == k as int;
                        assert(p@[x] == p@[jo as int]);
                    }
                    if inj && k == j {
                        if j == i {
                        } else {
                            let x = choose|x: int| 0 <= x < n && old_vis[x] && #[trigger] p@[x] == j as int;
                            assert(p@[x] == p@[jo as int]);
                        }
                    }
                }
                if k != i {
                    swap_rows(a, j, k);
                }
                j = k;
                proof {
                    assert(visited@[jo as int]);
                    assert(p@[jo as int] == j);
                    if inj {
                    assert forall|y: int|
                        0 <= y < n && #[trigger] visited@[y] && y != i implies exists|x: int|
                            0 <= x < n && visited@[x] && #[trigger] p@[x] == y by {
                        if y == jo {
                            if jo != i {
                                let x = choose|x: int| 0 <= x < n && old_vis[x] && #[trigger] p@[x] == jo as int;
                                assert(visited@[x]);
                            }
                        } else {
                            assert(old_vis[y]);
                            let x = choose|x: int| 0 <= x < n && old_vis[x] && #[trigger] p@[x] == y;
                            assert(visited@[x]);
                        }
                    }
                    }
                }
            }
            proof {
                if inj {
                    assert forall|y: int|
                        0 <= y < n && #[trigger] visited@[y] implies exists|x: int|
                            0 <= x < n && visited@[x] && #[trigger] p@[x] == y by {
                        if y == i {
                            assert(j == i);
                        }
                    }
                }
            }
            i += 1;
        }
        proof {
            if inj {
                assert forall|x: int| 0 <= x < n implies #[trigger] a@[x] == old_a[p@[x] as int] by {
                    if !visited@[x] {
                        assert(p@[x] == x);
                    }
                }
            }
        }
    }

    /// LU decomposition of `a` in place (L below the diagonal, U on and above it)
    /// with row pivoting. Returns the row permutation `p` and the rank `r`.
    ///
    /// Over a field with [`elimination_laws`], row `p[i]` of the old `a` is row
    /// `i` of `L U` ([`lu_product_entry`]).
    pub fn lu_decomp<F: Field>(field: &F, a: &mut Vec<Vec<u8>>) -> (res: (Vec<usize>, usize))
        requires
            rows_at_least(old(a)@, num_cols(old(a)@)),
        ensures
            final(a)@.len() == old(a)@.len(),
            rows_at_least(final(a)@, num_cols(old(a)@)),
            is_permutation(res.0@, old(a)@.len() as int),
            res.1 <= old(a)@.len(),
            res.1 <= num_cols(old(a)@),
            res.1 == num_cols(old(a)@) ==> forall|t: int| 0 <= t < res.1 ==> #[trigger] final(a)@[t]@[t] != 0,
            elimination_laws(*field) ==> forall|i: int, c: int|
                0 <= i < old(a)@.len() && 0 <= c < num_cols(old(a)@) ==> #[trigger] old(a)@[res.0@[i] as int]@[c]
                    == lu_product_entry(*field, final(a)@, res.1 as int, i, c),
            exists|pivots: Seq<int>|
                #![trigger echelon(final(a)@, pivots, res.1 as int, num_cols(old(a)@))]
                echelon(final(a)@, pivots, res.1 as int, num_cols(old(a)@)) && (elimination_laws(*field)
                    ==> echelon_zeros(final(a)@, pivots, res.1 as int, num_cols(old(a)@))),
    {
        let m = a.len();
        let n = if m > 0 {
            a[0].len()
        } else {
            0
        };
        let ghost a0 = a@;
        let mut p = identity_permutation(m);
        proof {
            assert forall|rho: int, c: int| 0 <= rho < a@.len() && 0 <= c < n implies #[trigger] outer_rel(*field, a0, a@, p@, 0, 0, rho, c) by {
                lemma_u8_facts(a@[rho]@[c], 0, 0, 0, 0);
            }
        }
        let mut i: usize = 0;
        let ghost mut piv: Seq<int> = Seq::empty();
        let mut j: usize = 0;
        let mut done = m == 0;
        while j < n && !done
            invariant
                m == a@.len(),
                n == num_cols(old(a)@),
                a0 == old(a)@,
                rows_at_least(a@, n as int),
                is_permutation(p@, m as int),
                i <= m,
                i <= j,
                j <= n,
                piv.len() == i,
                forall|t: int| 0 <= t < i ==> 0 <= #[trigger] piv[t] < j,
                forall|s: int, t: int| 0 <= s < t < i ==> #[trigger] piv[s] < #[trigger] piv[t],
                forall|t: int| 0 <= t < i ==> #[trigger] a@[t]@[piv[t]] != 0,
                forall|t: int| 0 <= t < i ==> t <= #[trigger] piv[t],
                elimination_laws(*field) ==> forall|t: int, c: int|
                    0 <= t < i && t <= c < piv[t] ==> #[trigger] a@[t]@[c] == 0,
                done ==> i == m,
                !done ==> i < m,
                elimination_laws(*field) ==> lu_outer(*field, a0, a@, p@, n as int, i as int, j as int),
            decreases n - j,
        {
            let ghost a_start = a@;
            let mut pivot_found = false;
            let mut k = i;
            while k < m && !pivot_found
                invariant
                    m == a@.len(),
                    rows_at_least(a@, n as int),
                    is_permutation(p@, m as int),
                    i < m,
                    i <= k,
                    j < n,
                    pivot_found ==> a@[i as int]@[j as int] != 0,
                    forall|t: int| 0 <= t < i ==> #[trigger] a@[t] == a_start[t],
                    elimination_laws(*field) ==> forall|t: int, c: int|
                        0 <= t < i && t <= c < piv[t] ==> #[trigger] a@[t]@[c] == 0,
                    !pivot_found ==> forall|t: int| i <= t < k ==> #[trigger] a@[t]@[j as int] == 0,
                    elimination_laws(*field) ==> lu_outer(*field, a0, a@, p@, n as int, i as int, j as int),
                decreases m - k + (if pivot_found {
                    0int
                } else {
                    1int
                }),
            {
                if a[k][j] != 0 {
                    proof {
                        lemma_swap_keeps_permutation(p@, m as int, i as int, k as int);
                        if elimination_laws(*field) {
                            lemma_lu_swap(*field, a0, a@, p@, n as int, i as int, j as int, k as int);
                        }
                    }
                    swap_entries(&mut p, i, k);
                    swap_rows(a, i, k);
                    pivot_found = true;
                } else {
                    k += 1;
                }
            }
            if pivot_found {
                proof {
                    if elimination_laws(*field) {
                        lemma_lu_start(*field, a0, a@, p@, n as int, i as int, j as int);
                    }
                }
                let mut kk = i + 1;
                while kk < m
                    invariant
                        m == a@.len(),
                        n == num_cols(old(a)@),
                        a0 == old(a)@,
                        rows_at_least(a@, n as int),
                        i < m,
                        i <= j,
                        j < n,
                        i + 1 <= kk <= m,
                        a@[i as int]@[j as int] != 0,
                        forall|t: int| 0 <= t < i ==> #[trigger] a@[t] == a_start[t],
                        elimination_laws(*field) ==> forall|t: int, c: int|
                            0 <= t < i && t <= c < piv[t] ==> #[trigger] a@[t]@[c] == 0,
                        elimination_laws(*field) ==> lu_mid(*field, a0, a@, p@, n as int, i as int, j as int, kk as int),
                    decreases m - kk,
                {
                    let ghost a_row = a@;
                    let pivot = a[i][j];
                    let l = field.divide(a[kk][j], pivot);
                    a[kk][j] = 0;
                    a[kk][i] = l;
                    let mut col = j + 1;
                    while col < n
                        invariant
                            m == a@.len(),
                            rows_at_least(a@, n as int),
                            i < kk < m,
                            i <= j,
                            j < n,
                            j + 1 <= col <= n,
                            forall|t: int| 0 <= t < m && t != kk ==> #[trigger] a@[t] == a_row[t],
                            a@[kk as int]@.len() == a_row[kk as int]@.len(),
                            forall|c: int|
                                0 <= c < n ==> #[trigger] a@[kk as int]@[c] == (if c == i {
                                    l
                                } else if c == j {
                                    0u8
                                } else if j < c < col {
                                    a_row[kk as int]@[c] ^ field.spec_mul(l, a_row[i as int]@[c])
                                } else {
                                    a_row[kk as int]@[c]
                                }),
                        decreases n - col,
                    {
                        let v = a[i][col];
                        let prod = field.mul(l, v);
                        let cur = a[kk][col];
                        a[kk][col] = field.add(cur, prod);
                        col += 1;
                    }
                    proof {
                        if elimination_laws(*field) {
                            lemma_lu_elim(*field, a0, a_row, a@, p@, n as int, i as int, j as int, kk as int, l);
                        }
                    }
                    kk += 1;
                }
                proof {
                    if elimination_laws(*field) {
                        lemma_lu_finish(*field, a0, a@, p@, n as int, i as int, j as int);
                    }
                    piv = piv.push(j as int);
                }
                i += 1;
                if i == m {
                    done = true;
                }
            } else {
                proof {
                    if elimination_laws(*field) {
                        lemma_lu_no_pivot(*field, a0, a@, p@, n as int, i as int, j as int);
                    }
                }
            }
            j += 1;
        }
        proof {
            if elimination_laws(*field) {
                assert(lu_outer(*field, a0, a@, p@, n as int, i as int, j as int));
                assert(i < m ==> j == n);
                assert(echelon_zeros(a@, piv, i as int, n as int));
            }
            assert(echelon(a@, piv, i as int, n as int));
            assert(n == num_cols(old(a)@));
            if i == n {
                lemma_full_pivots(piv, n as int);
                assert forall|t: int| 0 <= t < i implies #[trigger] a@[t]@[t] != 0 by {
                    assert(piv[t] == t);
                    assert(a@[t]@[piv[t]] != 0);
                }
            }
            if elimination_laws(*field) {
                assert forall|rho: int, c: int| 0 <= rho < a0.len() && 0 <= c < n implies #[trigger] a0[p@[rho] as int]@[c]
                    == lu_product_entry(*field, a@, i as int, rho, c) by {
                    assert(outer_rel(*field, a0, a@, p@, i as int, j as int, rho, c));
                }
            }
        }
        let res = (p, i);
        proof {
            assert(echelon(a@, piv, res.1 as int, num_cols(old(a)@)) && (elimination_laws(*field) ==> echelon_zeros(
                a@,
                piv,
                res.1 as int,
                num_cols(old(a)@),
            )));
        }
        res
    }

    /// Incremental LU decomposition of `a`. Rows `0..r` already hold a factorization
    /// whose pivots are `a[t][q[t]]`; the remaining rows are eliminated against them
    /// and then decomposed, swapping columns through `q`. Returns the row permutation
    /// `p` of this call and the new rank.
    ///
    /// When `q` permutes the columns and the field has [`elimination_laws`], row
    /// `p[i]` of the starting matrix ([`expanded_entry`]: `L U` of the given factor
    /// rows, then the other rows) is row `i` of the new `L U` ([`lu_product_q`]),
    /// logical column `c` at physical column `q[c]`.
    pub fn lu_decomp_incr<F: Field>(
        field: &F,
        a: &mut Vec<Vec<u8>>,
        q: &mut Vec<usize>,
        r: usize,
    ) -> (res: (Vec<usize>, usize))
        requires
            rows_at_least(old(a)@, num_cols(old(a)@)),
            old(q)@.len() >= num_cols(old(a)@),
            forall|x: int| 0 <= x < num_cols(old(a)@) ==> #[trigger] old(q)@[x] < num_cols(old(a)@),
            r <= old(a)@.len(),
            r <= num_cols(old(a)@),
            forall|t: int| 0 <= t < r ==> #[trigger] old(a)@[t]@[old(q)@[t] as int] != 0,
        ensures
            final(a)@.len() == old(a)@.len(),
            rows_at_least(final(a)@, num_cols(old(a)@)),
            exact_rows(old(a)@, num_cols(old(a)@)) ==> exact_rows(final(a)@, num_cols(old(a)@)),
            final(q)@.len() == old(q)@.len(),
            forall|x: int| 0 <= x < num_cols(old(a)@) ==> #[trigger] final(q)@[x] < num_cols(old(a)@),
            is_permutation(old(q)@.take(num_cols(old(a)@)), num_cols(old(a)@)) ==> is_permutation(
                final(q)@.take(num_cols(old(a)@)),
                num_cols(old(a)@),
            ),
            is_permutation(res.0@, old(a)@.len() as int),
            r <= res.1 <= old(a)@.len(),
            res.1 <= num_cols(old(a)@),
            forall|t: int| 0 <= t < res.1 ==> #[trigger] final(a)@[t]@[final(q)@[t] as int] != 0,
            forall|t: int| 0 <= t < r ==> #[trigger] res.0@[t] == t,
            forall|t: int| 0 <= t < r ==> #[trigger] final(q)@[t] == old(q)@[t],
            is_permutation(old(q)@.take(num_cols(old(a)@)), num_cols(old(a)@)) && elimination_laws(*field) ==> forall|
                i: int,
                c: int,
            |
                0 <= i < old(a)@.len() && 0 <= c < num_cols(old(a)@) ==> #[trigger] expanded_entry(
                    *field,
                    entries(old(a)@),
                    old(q)@,
                    r as int,
                    num_cols(old(a)@),
                    res.0@[i] as int,
                    final(q)@[c] as int,
                ) == lu_product_q(*field, entries(final(a)@), final(q)@, res.1 as int, i, c),
    {
        let m = a.len();
        let n = if m > 0 {
            a[0].len()
        } else {
            0
        };
        let ghost q0 = q@;
        let ghost a0 = a@;
        let ghost good = is_permutation(q0.take(n as int), n as int) && elimination_laws(*field);
        let ghost e = expanded(*field, entries(a0), q0, r as int, n as int);
        let mut p = identity_permutation(m);
        proof {
            if good {
                lemma_qperm(q0, n as int);
                lemma_q_init(*field, entries(a0), q0, p@, m as int, n as int, r as int);
            }
        }
        let mut i: usize = 0;
        while i < r
            invariant
                forall|t: int| 0 <= t < r ==> #[trigger] p@[t] == t,
                forall|t: int| 0 <= t < r ==> #[trigger] q@[t] == q0[t],
                m == a@.len(),
                n == num_cols(old(a)@),
                a0 == old(a)@,
                q0 == old(q)@,
                rows_at_least(a@, n as int),
                exact_rows(old(a)@, n as int) ==> exact_rows(a@, n as int),
                q@ == q0,
                q@.len() >= n,
                forall|x: int| 0 <= x < n ==> #[trigger] q@[x] < n,
                r <= m,
                r <= n,
                i <= r,
                forall|t: int| 0 <= t < r ==> #[trigger] old(a)@[t]@[q0[t] as int] != 0,
                forall|t: int| 0 <= t < r ==> #[trigger] a@[t] == old(a)@[t],
                p@ == Seq::new(m as nat, |x: int| x as usize),
                good ==> qperm(q@, n as int) && elimination_laws(*field),
                good ==> qstep(*field, e, entries(a@), q@, p@, m as int, n as int, r as int, i as int, r as int),
            decreases r - i,
        {
            let mut k = r;
            while k < m
                invariant
                    forall|t: int| 0 <= t < r ==> #[trigger] p@[t] == t,
                    forall|t: int| 0 <= t < r ==> #[trigger] q@[t] == q0[t],
                    m == a@.len(),
                    rows_at_least(a@, n as int),
                    exact_rows(old(a)@, n as int) ==> exact_rows(a@, n as int),
                    q@.len() >= n,
                    forall|x: int| 0 <= x < n ==> #[trigger] q@[x] < n,
                    i < r,
                    r <= k <= m,
                    r <= n,
                    q@ == q0,
                    forall|t: int| 0 <= t < r ==> #[trigger] old(a)@[t]@[q0[t] as int] != 0,
                    forall|t: int| 0 <= t < r ==> #[trigger] a@[t] == old(a)@[t],
                    good ==> qperm(q@, n as int) && elimination_laws(*field),
                    good ==> qstep(*field, e, entries(a@), q@, p@, m as int, n as int, r as int, i as int, k as int),
                decreases m - k,
            {
                let ghost a_row = a@;
                let qi = q[i];
                let pivot = a[i][qi];
                let l = field.divide(a[k][qi], pivot);
                a[k][qi] = l;
                let mut col = i + 1;
                while col < n
                    invariant
                        forall|t: int| 0 <= t < r ==> #[trigger] p@[t] == t,
                        forall|t: int| 0 <= t < r ==> #[trigger] q@[t] == q0[t],
                        m == a@.len(),
                        rows_at_least(a@, n as int),
                        exact_rows(old(a)@, n as int) ==> exact_rows(a@, n as int),
                        q@.len() >= n,
                        forall|x: int| 0 <= x < n ==> #[trigger] q@[x] < n,
                        i < r,
                        r <= k < m,
                        i + 1 <= col <= n,
                        q@ == q0,
                        forall|t: int| 0 <= t < r ==> #[trigger] a@[t] == old(a)@[t],
                        forall|t: int| 0 <= t < m && t != k ==> #[trigger] a@[t] == a_row[t],
                        a@[k as int]@.len() == a_row[k as int]@.len(),
                        good ==> qperm(q@, n as int),
                        good ==> forall|c: int|
                            0 <= c < n ==> #[trigger] a@[k as int]@[q@[c] as int] == (if c == i {
                                l
                            } else if i < c < col {
                                a_row[k as int]@[q@[c] as int] ^ field.spec_mul(l, a_row[i as int]@[q@[c] as int])
                            } else {
                                a_row[k as int]@[q@[c] as int]
                            }),
                    decreases n - col,
                {
                    let qc = q[col];
                    let v = a[i][qc];
                    let prod = field.mul(l, v);
                    let cur = a[k][qc];
                    a[k][qc] = field.add(cur, prod);
                    col += 1;
                }
                proof {
                    if good {
                        assert(field.spec_mul(l, a_row[i as int]@[q@[i as int] as int]) == a_row[k as int]@[q@[i as int] as int]);
                        assert(field.spec_mul(l, 0) == 0);
                        lemma_q_elim(*field, e, entries(a_row), entries(a@), q@, p@, m as int, n as int, r as int, i as int, k as int, l);
                    }
                }
                k += 1;
            }
            proof {
                if good {
                    lemma_q_next(*field, e, entries(a@), q@, p@, m as int, n as int, r as int, i as int);
                }
            }
            i += 1;
        }
        proof {
            if good {
                lemma_q_to_outer(*field, e, entries(a@), q@, p@, m as int, n as int, r as int);
            }
        }
        let mut i = r;
        let mut j = r;
        let mut done = r == m;
        while j < n && !done
            invariant
                forall|t: int| 0 <= t < r ==> #[trigger] p@[t] == t,
                forall|t: int| 0 <= t < r ==> #[trigger] q@[t] == q0[t],
                r <= i,
                m == a@.len(),
                n == num_cols(old(a)@),
                a0 == old(a)@,
                q0 == old(q)@,
                rows_at_least(a@, n as int),
                exact_rows(old(a)@, n as int) ==> exact_rows(a@, n as int),
                q@.len() == q0.len(),
                q@.len() >= n,
                forall|x: int| 0 <= x < n ==> #[trigger] q@[x] < n,
                is_permutation(q0.take(n as int), n as int) ==> is_permutation(q@.take(n as int), n as int),
                forall|x: int| n <= x < q@.len() ==> #[trigger] q@[x] == q0[x],
                is_permutation(p@, m as int),
                r <= i <= m,
                i <= j <= n,
                forall|t: int| 0 <= t < i ==> #[trigger] a@[t]@[q@[t] as int] != 0,
                done ==> i == m,
                !done ==> i < m,
                good ==> qperm(q@, n as int) && elimination_laws(*field),
                good ==> qouter(*field, e, entries(a@), q@, p@, m as int, n as int, i as int, j as int),
            decreases n - j,
        {
            let ghost a_start = a@;
            let ghost q_start = q@;
            let mut pivot_found = false;
            let mut k = i;
            while k < m && !pivot_found
                invariant
                    forall|t: int| 0 <= t < r ==> #[trigger] p@[t] == t,
                    forall|t: int| 0 <= t < r ==> #[trigger] q@[t] == q0[t],
                    r <= i,
                    m == a@.len(),
                    rows_at_least(a@, n as int),
                    exact_rows(old(a)@, n as int) ==> exact_rows(a@, n as int),
                    is_permutation(p@, m as int),
                    q@ == q_start,
                    q@.len() >= n,
                    forall|x: int| 0 <= x < n ==> #[trigger] q@[x] < n,
                    i < m,
                    i <= k,
                    j < n,
                    pivot_found ==> a@[i as int]@[q@[j as int] as int] != 0,
                    forall|t: int| 0 <= t < i ==> #[trigger] a@[t] == a_start[t],
                    !pivot_found ==> forall|t: int| i <= t < k ==> #[trigger] a@[t]@[q@[j as int] as int] == 0,
                    good ==> qouter(*field, e, entries(a@), q@, p@, m as int, n as int, i as int, j as int),
                decreases m - k + (if pivot_found {
                    0int
                } else {
                    1int
                }),
            {
                let qj = q[j];
                if a[k][qj] != 0 {
                    proof {
                        lemma_swap_keeps_permutation(p@, m as int, i as int, k as int);
                        if good {
                            let a2 = a@.update(i as int, a@[k as int]).update(k as int, a@[i as int]);
                            lemma_q_swap_rows(*field, e, entries(a@), entries(a2), q@, p@, m as int, n as int, i as int, j as int, k as int);
                        }
                    }
                    swap_entries(&mut p, i, k);
                    swap_rows(a, i, k);
                    pivot_found = true;
                } else {
                    k += 1;
                }
            }
            if pivot_found {
                proof {
                    if is_permutation(q0.take(n as int), n as int) {
                        lemma_swap_keeps_permutation(q@.take(n as int), n as int, i as int, j as int);
                        assert(q@.update(i as int, q@[j as int]).update(j as int, q@[i as int]).take(n as int)
                            =~= q@.take(n as int).update(i as int, q@[j as int]).update(j as int, q@[i as int]));
                    }
                    if good {
                        lemma_q_swap_cols(*field, e, entries(a@), q@, p@, m as int, n as int, i as int, j as int);
                    }
                }
                let ghost q_before = q@;
                swap_entries(q, i, j);
                proof {
                    if good {
                        assert(qperm(q@, n as int)) by {
                            assert forall|c: int, d: int| 0 <= c < n && 0 <= d < n && c != d implies #[trigger] q@[c]
                                != #[trigger] q@[d] by {
                                let sc = if c == i {
                                    j as int
                                } else if c == j {
                                    i as int
                                } else {
                                    c
                                };
                                let sd = if d == i {
                                    j as int
                                } else if d == j {
                                    i as int
                                } else {
                                    d
                                };
                                assert(q@[c] == q_before[sc]);
                                assert(q@[d] == q_before[sd]);
                            }
                        }
                        lemma_q_start(*field, e, entries(a@), q@, p@, m as int, n as int, i as int);
                    }
                }
                let mut kk = i + 1;
                while kk < m
                    invariant
                        forall|t: int| 0 <= t < r ==> #[trigger] p@[t] == t,
                        forall|t: int| 0 <= t < r ==> #[trigger] q@[t] == q0[t],
                        r <= i,
                        m == a@.len(),
                        rows_at_least(a@, n as int),
                        exact_rows(old(a)@, n as int) ==> exact_rows(a@, n as int),
                        q@.len() >= n,
                        forall|x: int| 0 <= x < n ==> #[trigger] q@[x] < n,
                        i < m,
                        i <= j,
                        j < n,
                        i + 1 <= kk <= m,
                        a@[i as int]@[q@[i as int] as int] != 0,
                        forall|t: int| 0 <= t <= i ==> #[trigger] a@[t] == a_start[t] || t == i,
                        forall|t: int| 0 <= t < i ==> #[trigger] a@[t]@[q@[t] as int] != 0,
                        good ==> qperm(q@, n as int) && elimination_laws(*field),
                        good ==> qstep(*field, e, entries(a@), q@, p@, m as int, n as int, i + 1, i as int, kk as int),
                        good ==> qzero(entries(a@), q@, m as int, i as int, i as int, j as int),
                    decreases m - kk,
                {
                    let ghost a_row = a@;
                    let qi = q[i];
                    let pivot = a[i][qi];
                    let l = field.divide(a[kk][qi], pivot);
                    a[kk][qi] = l;
                    let mut col = i + 1;
                    while col < n
                        invariant
                            forall|t: int| 0 <= t < r ==> #[trigger] p@[t] == t,
                            forall|t: int| 0 <= t < r ==> #[trigger] q@[t] == q0[t],
                            r <= i,
                            m == a@.len(),
                            rows_at_least(a@, n as int),
                            exact_rows(old(a)@, n as int) ==> exact_rows(a@, n as int),
                            q@.len() >= n,
                            forall|x: int| 0 <= x < n ==> #[trigger] q@[x] < n,
                            i < kk < m,
                            i + 1 <= col <= n,
                            forall|t: int| 0 <= t < m && t != kk ==> #[trigger] a@[t] == a_row[t],
                            a@[kk as int]@.len() == a_row[kk as int]@.len(),
                            good ==> qperm(q@, n as int),
                            good ==> forall|c: int|
                                0 <= c < n ==> #[trigger] a@[kk as int]@[q@[c] as int] == (if c == i {
                                    l
                                } else if i < c < col {
                                    a_row[kk as int]@[q@[c] as int] ^ field.spec_mul(l, a_row[i as int]@[q@[c] as int])
                                } else {
                                    a_row[kk as int]@[q@[c] as int]
                                }),
                        decreases n - col,
                    {
                        let qc = q[col];
                        let v = a[i][qc];
                        let prod = field.mul(l, v);
                        let cur = a[kk][qc];
                        a[kk][qc] = field.add(cur, prod);
                        col += 1;
                    }
                    proof {
                        if good {
                            assert(field.spec_mul(l, a_row[i as int]@[q@[i as int] as int]) == a_row[kk as int]@[q@[i as int] as int]);
                            assert(field.spec_mul(l, 0) == 0);
                            lemma_q_elim(*field, e, entries(a_row), entries(a@), q@, p@, m as int, n as int, i + 1, i as int, kk as int, l);
                            lemma_q_zero_elim(*field, entries(a_row), entries(a@), q@, m as int, n as int, i as int, j as int, kk as int, l);
                        }
                    }
                    kk += 1;
                }
                proof {
                    if good {
                        lemma_q_finish(*field, e, entries(a@), q@, p@, m as int, n as int, i as int, j as int);
                    }
                }
                i += 1;
                if i == m {
                    done = true;
                }
            } else {
                proof {
                    if good {
                        lemma_q_no_pivot(*field, e, entries(a@), q@, p@, m as int, n as int, i as int, j as int);
                    }
                }
            }
            j += 1;
        }
        proof {
            if good {
                lemma_q_done(*field, e, entries(a@), q@, p@, m as int, n as int, i as int, j as int);
                assert forall|rho: int, c: int| 0 <= rho < m && 0 <= c < n implies #[trigger] expanded_entry(
                    *field,
                    entries(a0),
                    q0,
                    r as int,
                    n as int,
                    p@[rho] as int,
                    q@[c] as int,
                ) == lu_product_q(*field, entries(a@), q@, i as int, rho, c) by {
                    assert(e(p@[rho] as int, q@[c] as int) == lu_product_q(*field, entries(a@), q@, i as int, rho, c));
                }
            }
        }
        (p, i)
    }
}

/// The decimal digit `d` (below ten) as a character.
pub open spec fn digit_char(d: nat) -> char {
    if d == 0 {
        '0'
    } else if d == 1 {
        '1'
    } else if d == 2 {
        '2'
    } else if d == 3 {
        '3'
    } else if d == 4 {
        '4'
    } else if d == 5 {
        '5'
    } else if d == 6 {
        '6'
    } else if d == 7 {
        '7'
    } else if d == 8 {
        '8'
    } else {
        '9'
    }
}

/// `n` written in decimal, without leading zeros.
pub open spec fn decimal(n: nat) -> Seq<char>
    decreases n,
{
    if n < 10 {
        seq![digit_char(n)]
    } else {
        decimal(n / 10) + seq![digit_char(n % 10)]
    }
}

/// The error text of [`LinearSys::lin_solve`] for a matrix of rank `rank`.
pub open spec fn rank_error_text(rank: nat) -> Seq<char> {
    "The matrix is not invertible, rank = "@ + decimal(rank)
}

/// Message of the error returned by [`LinearSys::lin_solve`] for a
/// rank-deficient matrix: std's `format!` with the rank written by its
/// `Display`, which for an unsigned integer is its decimal digits.
#[verifier::external_body]
fn rank_error_message(rank: usize) -> (r: String)
    ensures
        r@ == rank_error_text(rank as nat),
{
    format!("The matrix is not invertible, rank = {}", rank)
}

/// `a` has fewer than `num_cols(a)` independent rows: with `r` below the
/// number of columns, row `p[i]` of `a` is row `i` of `L U` for the
/// factors stored in `lu` ([`lu_product_entry`]), so every row of `a` is a
/// combination of the `r` rows of `U`.
pub open spec fn rank_deficient<F: Field>(field: F, a: Seq<Vec<u8>>, lu: Seq<Vec<u8>>, p: Seq<usize>, r: int) -> bool {
    &&& 0 <= r < num_cols(a)
    &&& forall|i: int, c: int|
        0 <= i < a.len() && 0 <= c < num_cols(a) ==> #[trigger] a[p[i] as int]@[c] == lu_product_entry(field, lu, r, i, c)
}

/// The first `r` rows of `u` are in echelon form with pivots at the
/// increasing columns `piv`: row `t`'s pivot, at or right of the diagonal,
/// is non-zero.
pub open spec fn echelon(u: Seq<Vec<u8>>, piv: Seq<int>, r: int, n: int) -> bool {
    &&& piv.len() == r
    &&& forall|t: int| 0 <= t < r ==> t <= #[trigger] piv[t] < n && u[t]@[piv[t]] != 0
    &&& forall|s: int, t: int| 0 <= s < t < r ==> #[trigger] piv[s] < #[trigger] piv[t]
}

/// The zeros of an echelon factorization in place: row `t < r` is zero
/// from the diagonal up to its pivot `piv[t]`, and the rows past `r` are
/// zero from column `r` on (only multipliers remain in them).
pub open spec fn echelon_zeros(u: Seq<Vec<u8>>, piv: Seq<int>, r: int, n: int) -> bool {
    &&& forall|t: int, c: int| 0 <= t < r && t <= c < piv[t] ==> #[trigger] u[t]@[c] == 0
    &&& forall|rho: int, c: int| r <= rho < u.len() && r <= c < n ==> #[trigger] u[rho]@[c] == 0
}

/// All rows of `b` have the same length.
pub open spec fn uniform_rows(b: Seq<Vec<u8>>) -> bool {
    forall|i: int, j: int| 0 <= i < b.len() && 0 <= j < b.len() ==> #[trigger] b[i]@.len() == #[trigger] b[j]@.len()
}

/// Linear solver for systems over a finite field (a testing aid).
pub struct LinearSys;

impl LinearSys {
    /// Solves `A X = B` in place: on success `b` holds `X`.
    ///
    /// Returns an error when the LU decomposition of `a` does not reach full column rank;
    /// `b` is then left untouched. On success, over a field with [`solving_laws`],
    /// `X` (the first `n` rows of `b`, `n` the number of columns of `A`) satisfies the
    /// `n` equations of `A X = B` that the row pivoting selected.
    pub fn lin_solve<F: Field>(field: &F, a: &mut Vec<Vec<u8>>, b: &mut Vec<Vec<u8>>) -> (res: Result<(), String>)
        requires
            old(a)@.len() > 0,
            num_cols(old(a)@) > 0,
            rows_at_least(old(a)@, num_cols(old(a)@)),
            old(b)@.len() == old(a)@.len(),
            uniform_rows(old(b)@),
        ensures
            final(a)@.len() == old(a)@.len(),
            final(b)@.len() == old(b)@.len(),
            forall|t: int| 0 <= t < final(b)@.len() ==> #[trigger] final(b)@[t]@.len() == old(b)@[t]@.len(),
            res is Err ==> final(b)@ == old(b)@,
            res matches Err(e) ==> exists|r: nat|
                #![trigger rank_error_text(r)]
                r < num_cols(old(a)@) && e@ == rank_error_text(r),
            (res matches Err(e) && elimination_laws(*field)) ==> exists|p: Seq<usize>, r: nat|
                #![trigger is_permutation(p, old(a)@.len() as int), rank_deficient(*field, old(a)@, final(a)@, p, r as int)]
                is_permutation(p, old(a)@.len() as int) && rank_deficient(*field, old(a)@, final(a)@, p, r as int)
                    && res->Err_0@ == rank_error_text(r),
            res is Ok && solving_laws(*field) ==> exists|p: Seq<usize>|
                #![trigger is_permutation(p, old(a)@.len() as int)]
                is_permutation(p, old(a)@.len() as int) && forall|i: int, k: int|
                    0 <= i < num_cols(old(a)@) && 0 <= k < old(b)@[0]@.len() ==> #[trigger] row_dot(
                        *field,
                        old(a)@,
                        column(final(b)@, k),
                        p[i] as int,
                        0,
                        num_cols(old(a)@),
                    ) == old(b)@[p[i] as int]@[k],
    {
        let ghost a0 = a@;
        let ghost b0 = b@;
        let n = a[0].len();
        let (p, r) = Matrix::lu_decomp(field, a);
        if r == n {
            assert(p@.take(b@.len() as int) =~= p@);
            Matrix::permute_rows_inplace(b, p.as_slice());
            let ghost bp = b@;
            let a_n = vstd::slice::slice_subrange(a.as_slice(), 0, n);
            let mut b_tail = b.split_off(n);
            let ghost bn = b@;
            assert forall|t: int| 0 <= t < a_n@.len() implies #[trigger] a_n@[t]@.len() >= a_n@.len() by {
                assert(a_n@[t] == a@[t]);
            }
            assert forall|t: int| 0 <= t < a_n@.len() implies #[trigger] a_n@[t]@[t] != 0 by {
                assert(a_n@[t] == a@[t]);
            }
            assert(uniform_rows(b@)) by {
                assert forall|x: int, y: int| 0 <= x < b@.len() && 0 <= y < b@.len() implies #[trigger] b@[x]@.len()
                    == #[trigger] b@[y]@.len() by {
                    assert(b@[x] == b0[p@[x] as int]);
                    assert(b@[y] == b0[p@[y] as int]);
                }
            }
            let res = Self::lu_solve(field, a_n, b);
            let ghost xs = b@;
            b.append(&mut b_tail);
            proof {
                if solving_laws(*field) {
                    assert forall|i: int, k: int| 0 <= i < n && 0 <= k < b0[0]@.len() implies #[trigger] row_dot(
                        *field,
                        a0,
                        column(b@, k),
                        p@[i] as int,
                        0,
                        n as int,
                    ) == b0[p@[i] as int]@[k] by {
                        self::lemma_lin_solve_row(*field, a0, a@, a_n@, p@, bn, xs, b@, b0, n as int, i, k);
                    }
                    assert(is_permutation(p@, a0.len() as int));
                }
            }
            match res {
                Ok(()) => Ok(()),
                Err(e) => Err(e),
            }
        } else {
            proof {
                if elimination_laws(*field) {
                    assert(rank_deficient(*field, a0, a@, p@, r as int));
                }
            }
            Err(rank_error_message(r))
        }
    }

    /// Solves `A X = B` given the in-place LU decomposition of a square `A`
    /// (forward substitution with the unit lower part, backward substitution with
    /// the upper part). Fails when `a` and `b` have different row counts.
    ///
    /// On success, over a field in which dividing by a non-zero element undoes
    /// multiplying by it, each column `x` of the new `b` solves `L (U x) = b0`
    /// for the matching column `b0` of the old `b`.
    pub fn lu_solve<F: Field>(field: &F, a: &[Vec<u8>], b: &mut Vec<Vec<u8>>) -> (res: Result<(), String>)
        requires
            a@.len() == old(b)@.len() ==> {
                &&& a@.len() >= 1
                &&& rows_at_least(a@, a@.len() as int)
                &&& forall|t: int| 0 <= t < a@.len() ==> #[trigger] a@[t]@[t] != 0
                &&& uniform_rows(old(b)@)
            },
        ensures
            res is Ok <==> a@.len() == old(b)@.len(),
            res is Err ==> final(b)@ == old(b)@,
            res matches Err(e) ==> e@ == "The number of rows in A and b must be the same"@,
            final(b)@.len() == old(b)@.len(),
            forall|t: int| 0 <= t < final(b)@.len() ==> #[trigger] final(b)@[t]@.len() == old(b)@[t]@.len(),
            res is Ok && inverse_cancels(*field) ==> forall|k: int|
                0 <= k < old(b)@[0]@.len() ==> #[trigger] unit_lower_apply(
                    *field,
                    a@,
                    upper_apply(*field, a@, column(final(b)@, k)),
                ) == column(old(b)@, k),
    {
        let n = a.len();
        if n != b.len() {
            let e = "The number of rows in A and b must be the same".to_string();
            proof {
                broadcast use vstd::string::to_string_from_display_ensures_for_str;
            }
            return Err(e);
        }
        let ghost b0 = b@;
        let ghost m = b0[0]@.len() as int;
        proof {
            assert forall|r: int, k: int| 0 <= r < b@.len() && 0 <= k < m implies #[trigger] b0[r]@[k] == b@[r]@[k]
                ^ row_dot(*field, a@, column(b@, k), r, 0, fwd_lim(r, 0, 1)) by {
                if r > 0 {
                    assert(row_dot(*field, a@, column(b@, k), r, 0, 0) == 0);
                }
                lemma_u8_facts(b0[r]@[k], 0, 0, 0, 0);
            }
        }
        let mut j: usize = 0;
        while j < n - 1
            invariant
                n == a@.len(),
                n == b@.len(),
                n >= 1,
                rows_at_least(a@, n as int),
                j <= n - 1,
                forall|t: int| 0 <= t < n ==> #[trigger] b@[t]@.len() == b0[t]@.len(),
                uniform_rows(b0),
                b0.len() == n,
                m == b0[0]@.len(),
                fwd_inv(*field, a@, b0, b@, m, j as int, j + 1),
            decreases n - 1 - j,
        {
            let mut i = j + 1;
            while i < n
                invariant
                    n == a@.len(),
                    n == b@.len(),
                    rows_at_least(a@, n as int),
                    j < i <= n,
                    j < n - 1,
                    forall|t: int| 0 <= t < n ==> #[trigger] b@[t]@.len() == b0[t]@.len(),
                    uniform_rows(b0),
                    b0.len() == n,
                    m == b0[0]@.len(),
                    fwd_inv(*field, a@, b0, b@, m, j as int, i as int),
                decreases n - i,
            {
                let scalar = a[i][j];
                assert(b@[j as int]@.len() == b0[j as int]@.len());
                assert(b@[i as int]@.len() == b0[i as int]@.len());
                assert(b0[j as int]@.len() == b0[i as int]@.len());
                let ghost b1 = b@;
                combined_vector_operation_inplace(field, b, i, scalar, j);
                proof {
                    assert forall|r: int| 0 <= r < b1.len() implies #[trigger] b1[r]@.len() == m by {
                        assert(b0[r]@.len() == b0[0]@.len());
                    }
                    lemma_fwd_step(*field, a@, b0, b1, b@, m, j as int, i as int);
                }
                i += 1;
            }
            proof {
                assert forall|r: int, k: int| 0 <= r < b@.len() && 0 <= k < m implies #[trigger] b0[r]@[k] == b@[r]@[k]
                    ^ row_dot(*field, a@, column(b@, k), r, 0, fwd_lim(r, j + 1, j + 2)) by {
                    assert(fwd_lim(r, j as int, n as int) == fwd_lim(r, j + 1, j + 2));
                }
            }
            j += 1;
        }
        let ghost y = b@;
        proof {
            assert forall|r: int, k: int| 0 <= r < b@.len() && 0 <= k < m implies #[trigger] y[r]@[k] == (if r >= n {
                row_dot(*field, a@, column(b@, k), r, r, n as int)
            } else if r >= 0 {
                b@[r]@[k] ^ row_dot(*field, a@, column(b@, k), r, n as int, n as int)
            } else {
                b@[r]@[k] ^ row_dot(*field, a@, column(b@, k), r, n + 1, n as int)
            }) by {
                lemma_u8_facts(y[r]@[k], 0, 0, 0, 0);
            }
            assert(bwd_inv(*field, a@, y, b@, m, n as int, 0));
            assert(fwd_inv(*field, a@, b0, y, m, n - 1, n as int));
        }
        let mut jj = n;
        while jj > 0
            invariant
                n == a@.len(),
                n == b@.len(),
                rows_at_least(a@, n as int),
                forall|t: int| 0 <= t < n ==> #[trigger] a@[t]@[t] != 0,
                jj <= n,
                forall|t: int| 0 <= t < n ==> #[trigger] b@[t]@.len() == b0[t]@.len(),
                uniform_rows(b0),
                b0.len() == n,
                m == b0[0]@.len(),
                inverse_cancels(*field) ==> bwd_inv(*field, a@, y, b@, m, jj as int, 0),
                fwd_inv(*field, a@, b0, y, m, n - 1, n as int),
            decreases jj,
        {
            let j = jj - 1;
            let d = a[j][j];
            let inv = field.inverse(d);
            let ghost b1 = b@;
            Vector::scalar_vector_multiply_inplace(field, inv, &mut b[j]);
            proof {
                assert forall|r: int| 0 <= r < b1.len() implies #[trigger] b1[r]@.len() == m by {
                    assert(b0[r]@.len() == b0[0]@.len());
                }
                if inverse_cancels(*field) {
                    lemma_bwd_scale(*field, a@, y, b1, b@, m, j as int);
                }
            }
            let mut i = j;
            while i > 0
                invariant
                    n == a@.len(),
                    n == b@.len(),
                    rows_at_least(a@, n as int),
                    j < n,
                    i <= j,
                    forall|t: int| 0 <= t < n ==> #[trigger] b@[t]@.len() == b0[t]@.len(),
                    uniform_rows(b0),
                    b0.len() == n,
                    m == b0[0]@.len(),
                    inverse_cancels(*field) ==> bwd_inv(*field, a@, y, b@, m, j as int, i as int),
                decreases i,
            {
                let scalar = a[i - 1][j];
                assert(b@[j as int]@.len() == b0[j as int]@.len());
                assert(b@[i - 1]@.len() == b0[i - 1]@.len());
                assert(b0[j as int]@.len() == b0[i - 1]@.len());
                let ghost b2 = b@;
                combined_vector_operation_inplace(field, b, i - 1, scalar, j);
                proof {
                    assert forall|r: int| 0 <= r < b2.len() implies #[trigger] b2[r]@.len() == m by {
                        assert(b0[r]@.len() == b0[0]@.len());
                    }
                    if inverse_cancels(*field) {
                        lemma_bwd_step(*field, a@, y, b2, b@, m, j as int, i as int);
                    }
                }
                i -= 1;
            }
            jj -= 1;
        }
        proof {
            if inverse_cancels(*field) {
                assert forall|k: int| 0 <= k < m implies #[trigger] unit_lower_apply(
                    *field,
                    a@,
                    upper_apply(*field, a@, column(b@, k)),
                ) == column(b0, k) by {
                    let x = column(b@, k);
                    let yk = column(y, k);
                    assert(upper_apply(*field, a@, x) =~= yk);
                    assert(unit_lower_apply(*field, a@, yk) =~= column(b0, k));
                }
            }
        }
        Ok(())
    }
}

/// Limit of the forward-substitution sum of row `r` once column `j` has
/// been eliminated from the rows before `i`.
spec fn fwd_lim(r: int, j: int, i: int) -> int {
    if r <= j {
        r
    } else if r < i {
        j + 1
    } else {
        j
    }
}

/// During forward substitution: each original entry is the current one plus
/// the lower-factor sum eliminated so far.
spec fn fwd_inv<F: Field>(field: F, a: Seq<Vec<u8>>, b0: Seq<Vec<u8>>, b: Seq<Vec<u8>>, m: int, j: int, i: int) -> bool {
    forall|r: int, k: int|
        0 <= r < b.len() && 0 <= k < m ==> #[trigger] b0[r]@[k] == b[r]@[k] ^ row_dot(field, a, column(b, k), r, 0, fwd_lim(r, j, i))
}

/// During backward substitution with column `j`, rows `i..j` done: rows from
/// `j` on hold the solution, the others what remains of the forward result.
spec fn bwd_inv<F: Field>(field: F, a: Seq<Vec<u8>>, y: Seq<Vec<u8>>, b: Seq<Vec<u8>>, m: int, j: int, i: int) -> bool {
    forall|r: int, k: int|
        0 <= r < b.len() && 0 <= k < m ==> #[trigger] y[r]@[k] == (if r >= j {
            row_dot(field, a, column(b, k), r, r, b.len() as int)
        } else if r >= i {
            b[r]@[k] ^ row_dot(field, a, column(b, k), r, j, b.len() as int)
        } else {
            b[r]@[k] ^ row_dot(field, a, column(b, k), r, j + 1, b.len() as int)
        })
}

/// All rows of `b` have `m` entries.
spec fn all_rows_len(b: Seq<Vec<u8>>, m: int) -> bool {
    forall|r: int| 0 <= r < b.len() ==> #[trigger] b[r]@.len() == m
}

/// One forward elimination step, on row `i` with column `j`.
proof fn lemma_fwd_step<F: Field>(field: F, a: Seq<Vec<u8>>, b0: Seq<Vec<u8>>, b1: Seq<Vec<u8>>, b2: Seq<Vec<u8>>, m: int, j: int, i: int)
    requires
        fwd_inv(field, a, b0, b1, m, j, i),
        0 <= j < i < b1.len(),
        b2.len() == b1.len(),
        all_rows_len(b1, m),
        forall|t: int| 0 <= t < b1.len() && t != i ==> #[trigger] b2[t] == b1[t],
        b2[i]@ == Seq::new(b1[i]@.len(), |k: int| b1[i]@[k] ^ field.spec_mul(a[i]@[j], b1[j]@[k])),
    ensures
        fwd_inv(field, a, b0, b2, m, j, i + 1),
{
    assert forall|r: int, k: int| 0 <= r < b2.len() && 0 <= k < m implies #[trigger] b0[r]@[k] == b2[r]@[k] ^ row_dot(
        field,
        a,
        column(b2, k),
        r,
        0,
        fwd_lim(r, j, i + 1),
    ) by {
        let c1 = column(b1, k);
        let c2 = column(b2, k);
        let u = b1[r]@[k];
        let d = row_dot(field, a, c1, r, 0, fwd_lim(r, j, i));
        assert(b0[r]@[k] == u ^ d);
        if r == i {
            lemma_row_dot_congruent(field, a, c1, c2, r, 0, j);
            lemma_row_dot_extend(field, a, c2, r, 0, j);
            let mm = field.spec_mul(a[i]@[j], b1[j]@[k]);
            assert(c2[j] == b1[j]@[k]);
            assert(b2[r]@[k] == u ^ mm);
            lemma_u8_facts(u, mm, d, mm, 0);
            lemma_u8_facts(mm, 0, 0, 0, 0);
            lemma_u8_facts(u ^ d, 0, 0, 0, 0);
        } else {
            lemma_row_dot_congruent(field, a, c1, c2, r, 0, fwd_lim(r, j, i));
        }
    }
}

/// The pivot row `j` divided by its pivot at the start of backward step `j`.
proof fn lemma_bwd_scale<F: Field>(field: F, a: Seq<Vec<u8>>, y: Seq<Vec<u8>>, b1: Seq<Vec<u8>>, b2: Seq<Vec<u8>>, m: int, j: int)
    requires
        bwd_inv(field, a, y, b1, m, j + 1, 0),
        inverse_cancels(field),
        0 <= j < b1.len(),
        a[j]@[j] != 0,
        b2.len() == b1.len(),
        all_rows_len(b1, m),
        forall|t: int| 0 <= t < b1.len() && t != j ==> #[trigger] b2[t] == b1[t],
        b2[j]@ == Seq::new(b1[j]@.len(), |k: int| field.spec_mul(field.spec_inverse(a[j]@[j]), b1[j]@[k])),
    ensures
        bwd_inv(field, a, y, b2, m, j, j),
{
    let n = b1.len() as int;
    assert forall|r: int, k: int| 0 <= r < b2.len() && 0 <= k < m implies #[trigger] y[r]@[k] == (if r >= j {
        row_dot(field, a, column(b2, k), r, r, n)
    } else if r >= j {
        b2[r]@[k] ^ row_dot(field, a, column(b2, k), r, j, n)
    } else {
        b2[r]@[k] ^ row_dot(field, a, column(b2, k), r, j + 1, n)
    }) by {
        let c1 = column(b1, k);
        let c2 = column(b2, k);
        assert(y[r]@[k] == (if r >= j + 1 {
            row_dot(field, a, c1, r, r, n)
        } else {
            b1[r]@[k] ^ row_dot(field, a, c1, r, j + 1, n)
        }));
        if r == j {
            lemma_row_dot_congruent(field, a, c1, c2, r, j + 1, n);
            let d = a[j]@[j];
            let u = b1[j]@[k];
            assert(c2[j] == field.spec_mul(field.spec_inverse(d), u));
            assert(field.spec_mul(d, field.spec_mul(field.spec_inverse(d), u)) == u);
        } else if r > j {
            lemma_row_dot_congruent(field, a, c1, c2, r, r, n);
        } else {
            lemma_row_dot_congruent(field, a, c1, c2, r, j + 1, n);
        }
    }
}

/// One backward elimination step, on row `i - 1` with column `j`.
proof fn lemma_bwd_step<F: Field>(field: F, a: Seq<Vec<u8>>, y: Seq<Vec<u8>>, b1: Seq<Vec<u8>>, b2: Seq<Vec<u8>>, m: int, j: int, i: int)
    requires
        bwd_inv(field, a, y, b1, m, j, i),
        0 < i <= j < b1.len(),
        b2.len() == b1.len(),
        all_rows_len(b1, m),
        forall|t: int| 0 <= t < b1.len() && t != i - 1 ==> #[trigger] b2[t] == b1[t],
        b2[i - 1]@ == Seq::new(b1[i - 1]@.len(), |k: int| b1[i - 1]@[k] ^ field.spec_mul(a[i - 1]@[j], b1[j]@[k])),
    ensures
        bwd_inv(field, a, y, b2, m, j, i - 1),
{
    let n = b1.len() as int;
    assert forall|r: int, k: int| 0 <= r < b2.len() && 0 <= k < m implies #[trigger] y[r]@[k] == (if r >= j {
        row_dot(field, a, column(b2, k), r, r, n)
    } else if r >= i - 1 {
        b2[r]@[k] ^ row_dot(field, a, column(b2, k), r, j, n)
    } else {
        b2[r]@[k] ^ row_dot(field, a, column(b2, k), r, j + 1, n)
    }) by {
        let c1 = column(b1, k);
        let c2 = column(b2, k);
        if r == i - 1 {
            let u = b1[r]@[k];
            let mm = field.spec_mul(a[r]@[j], b1[j]@[k]);
            let rest = row_dot(field, a, c1, r, j + 1, n);
            assert(y[r]@[k] == u ^ rest);
            lemma_row_dot_congruent(field, a, c1, c2, r, j + 1, n);
            assert(c2[j] == b1[j]@[k]);
            assert(row_dot(field, a, c2, r, j, n) == mm ^ rest);
            assert(b2[r]@[k] == u ^ mm);
            lemma_u8_facts(u, mm, mm ^ rest, 0, 0);
            lemma_u8_facts(mm, mm, rest, 0, 0);
            lemma_u8_facts(rest, 0, 0, 0, 0);
        } else if r >= j {
            lemma_row_dot_congruent(field, a, c1, c2, r, r, n);
        } else if r >= i {
            lemma_row_dot_congruent(field, a, c1, c2, r, j, n);
        } else {
            lemma_row_dot_congruent(field, a, c1, c2, r, j + 1, n);
        }
    }
}

/// In-place `b[i][k] = b[i][k] + scalar * b[j][k]` for every `k` of row `i`.
fn combined_vector_operation_inplace<F: Field>(field: &F, b: &mut Vec<Vec<u8>>, i: usize, scalar: u8, j: usize)
    requires
        i < old(b)@.len(),
        j < old(b)@.len(),
        old(b)@[j as int]@.len() >= old(b)@[i as int]@.len(),
    ensures
        final(b)@.len() == old(b)@.len(),
        forall|t: int| 0 <= t < final(b)@.len() && t != i ==> #[trigger] final(b)@[t] == old(b)@[t],
        final(b)@[i as int]@ == Seq::new(
            old(b)@[i as int]@.len(),
            |k: int| old(b)@[i as int]@[k] ^ field.spec_mul(scalar, old(b)@[j as int]@[k]),
        ),
{
    let ghost b0 = b@;
    let len = b[i].len();
    let mut k: usize = 0;
    while k < len
        invariant
            b@.len() == b0.len(),
            i < b@.len(),
            j < b@.len(),
            len == b0[i as int]@.len(),
            b0[j as int]@.len() >= len,
            b@[i as int]@.len() == len,
            k <= len,
            forall|t: int| 0 <= t < b@.len() && t != i ==> #[trigger] b@[t] == b0[t],
            forall|x: int| 0 <= x < k ==> #[trigger] b@[i as int]@[x] == b0[i as int]@[x] ^ field.spec_mul(scalar, b0[j as int]@[x]),
            forall|x: int| k <= x < len ==> #[trigger] b@[i as int]@[x] == b0[i as int]@[x],
        decreases len - k,
    {
        let v = b[j][k];
        let prod = field.mul(scalar, v);
        let cur = b[i][k];
        b[i][k] = field.add(cur, prod);
        k += 1;
    }
    assert(b@[i as int]@ =~= Seq::new(
        b0[i as int]@.len(),
        |k: int| b0[i as int]@[k] ^ field.spec_mul(scalar, b0[j as int]@[k]),
    ));
}

/// Strictly increasing pivot columns that fill all `n` columns sit on the diagonal.
proof fn lemma_full_pivots(piv: Seq<int>, n: int)
    requires
        piv.len() == n,
        forall|t: int| 0 <= t < n ==> 0 <= #[trigger] piv[t] < n,
        forall|s: int, t: int| 0 <= s < t < n ==> #[trigger] piv[s] < #[trigger] piv[t],
    ensures
        forall|t: int| 0 <= t < n ==> #[trigger] piv[t] == t,
{
    assert forall|t: int| 0 <= t < n implies #[trigger] piv[t] >= t by {
        lemma_pivot_lower(piv, n, t);
    }
    assert forall|t: int| 0 <= t < n implies #[trigger] piv[t] <= t by {
        lemma_pivot_upper(piv, n, t);
    }
}

proof fn lemma_pivot_lower(piv: Seq<int>, n: int, t: int)
    requires
        piv.len() == n,
        0 <= t < n,
        forall|t: int| 0 <= t < n ==> 0 <= #[trigger] piv[t] < n,
        forall|s: int, t: int| 0 <= s < t < n ==> #[trigger] piv[s] < #[trigger] piv[t],
    ensures
        piv[t] >= t,
    decreases t,
{
    if t > 0 {
        lemma_pivot_lower(piv, n, t - 1);
        assert(piv[t - 1] < piv[t]);
    }
}

proof fn lemma_pivot_upper(piv: Seq<int>, n: int, t: int)
    requires
        piv.len() == n,
        0 <= t < n,
        forall|t: int| 0 <= t < n ==> 0 <= #[trigger] piv[t] < n,
        forall|s: int, t: int| 0 <= s < t < n ==> #[trigger] piv[s] < #[trigger] piv[t],
    ensures
        piv[t] <= t,
    decreases n - t,
{
    if t < n - 1 {
        lemma_pivot_upper(piv, n, t + 1);
        assert(piv[t] < piv[t + 1]);
    }
}

} // verus!
