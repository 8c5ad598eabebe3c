use vstd::prelude::*;
use crate::algebra::finite_field::{Field, GF2, GF256, is_primitive_polynomial_spec};
use crate::algebra::linear_algebra::{
    Matrix,
    elimination_laws,
    exact_rows,
    is_permutation,
    lu_product_entry,
    num_cols,
    rows_at_least,
};
use crate::data_manager::DataManager;
use crate::traits::ldpc::LDPC;
use crate::types::{CodeParams, GF2_FIELD_POLY};

verus! {

broadcast use crate::data_manager::group_log_grows;

/// Positions `j` with `v[j] == 1`, in increasing order.
pub open spec fn one_positions(v: Seq<u8>, n: int) -> Seq<usize>
    decreases n,
{
    if n <= 0 {
        seq![]
    } else if v[n - 1] == 1 {
        one_positions(v, n - 1).push((n - 1) as usize)
    } else {
        one_positions(v, n - 1)
    }
}

/// The positions of the ones of `v`.
pub fn ones_of(v: &[u8]) -> (r: Vec<usize>)
    ensures
        r@ == one_positions(v@, v@.len() as int),
{
    let mut out: Vec<usize> = Vec::new();
    let mut j: usize = 0;
    while j < v.len()
        invariant
            j <= v@.len(),
            out@ == one_positions(v@, j as int),
        decreases v@.len() - j,
    {
        if v[j] == 1 {
            out.push(j);
        }
        j += 1;
    }
    out
}

/// The entries of `ids` that are at least `b`, each lowered by `b`, in order.
pub open spec fn shifted_down(ids: Seq<usize>, b: usize) -> Seq<usize>
    decreases ids.len(),
{
    if ids.len() == 0 {
        seq![]
    } else {
        shifted_down(ids.drop_last(), b) + (if ids.last() >= b {
            seq![(ids.last() - b) as usize]
        } else {
            seq![]
        })
    }
}

/// The entries of `ids` that are at least `b`, each lowered by `b`.
pub fn shift_down(ids: &[usize], b: usize) -> (r: Vec<usize>)
    ensures
        r@ == shifted_down(ids@, b),
{
    let mut c: Vec<usize> = Vec::new();
    let mut t: usize = 0;
    while t < ids.len()
        invariant
            t <= ids@.len(),
            c@ == shifted_down(ids@.take(t as int), b),
        decreases ids@.len() - t,
    {
        proof {
            assert(ids@.take(t + 1).drop_last() =~= ids@.take(t as int));
        }
        if ids[t] >= b {
            c.push(ids[t] - b);
        }
        t += 1;
    }
    assert(ids@.take(ids@.len() as int) =~= ids@);
    c
}

/// Columns of `S_h`, the part of `S_i` over the HDPC variables: for each
/// LDPC check `0..l`, its inactive variable indices `>= b`, shifted down by `b`
/// (see [`shift_down`]).
pub fn sh_columns(ldpc: &dyn LDPC, params: &CodeParams) -> (r: Vec<Vec<usize>>)
    ensures
        r@.len() == params.l,
{
    let mut cols: Vec<Vec<usize>> = Vec::new();
    let mut row: usize = 0;
    while row < params.l
        invariant
            row <= params.l,
            cols@.len() == row,
        decreases params.l - row,
    {
        let ids = ldpc.inactive_row(row);
        cols.push(shift_down(ids.as_slice(), params.b));
        row += 1;
    }
    cols
}

/// Entry `(i, j)` of `I + m`: `m[i][j]`, with one added on the diagonal.
pub open spec fn identity_plus_entry(m: Seq<Vec<u8>>, i: int, j: int) -> u8 {
    m[i]@[j] ^ (if i == j {
        1u8
    } else {
        0u8
    })
}

/// `m` is an `h x h` matrix.
pub open spec fn is_square(m: Seq<Vec<u8>>, h: int) -> bool {
    m.len() == h && exact_rows(m, h)
}

/// `(p, lu)` factors `I + m` over `field` with row permutation `p` and rank
/// `r`: row `p[i]` of `I + m` is row `i` of `L U` ([`lu_product_entry`]).
pub open spec fn factors_identity_plus<F: Field>(field: F, m: Seq<Vec<u8>>, h: int, p: Seq<usize>, lu: Seq<Vec<u8>>, r: int) -> bool {
    &&& is_permutation(p, h)
    &&& forall|i: int, j: int|
        0 <= i < h && 0 <= j < h ==> #[trigger] identity_plus_entry(m, p[i] as int, j) == lu_product_entry(field, lu, r, i, j)
}

/// A factorization of `I + m` of full rank differs from the product `m`
/// exactly by the identity: row `i` of `L U` and row `p[i]` of `m` differ
/// only at column `p[i]`, by one there.
pub proof fn lemma_identity_plus_law<F: Field>(field: F, m: Seq<Vec<u8>>, h: int, p: Seq<usize>, lu: Seq<Vec<u8>>)
    requires
        factors_identity_plus(field, m, h, p, lu, h),
    ensures
        forall|i: int, j: int|
            0 <= i < h && 0 <= j < h ==> (#[trigger] lu_product_entry(field, lu, h, i, j) != m[p[i] as int]@[j] <==> j
                == p[i] as int),
        forall|i: int| 0 <= i < h ==> #[trigger] lu_product_entry(field, lu, h, i, p[i] as int) == m[p[i] as int]@[p[i] as int] ^ 1u8,
{
    assert forall|i: int, j: int| 0 <= i < h && 0 <= j < h implies (#[trigger] lu_product_entry(field, lu, h, i, j)
        != m[p[i] as int]@[j] <==> j == p[i] as int) by {
        let y = m[p[i] as int]@[j];
        assert(y ^ 0u8 == y && y ^ 1u8 != y) by (bit_vector);
        assert(identity_plus_entry(m, p[i] as int, j) == lu_product_entry(field, lu, h, i, j));
    }
    assert forall|i: int| 0 <= i < h implies #[trigger] lu_product_entry(field, lu, h, i, p[i] as int) == m[p[i] as int]@[p[i] as int]
        ^ 1u8 by {
        assert(p[i] < h);
        assert(identity_plus_entry(m, p[i] as int, p[i] as int) == lu_product_entry(field, lu, h, i, p[i] as int));
    }
}

/// LU decomposition of `I + product` for an `h x h` matrix `product` (the
/// HDPC product `D_s S_h`): `None` when it is not `h x h` or the sum is singular;
/// otherwise the row permutation `p` and the factors in the in-place L/U
/// layout of [`Matrix::lu_decomp`], with a non-zero diagonal. Over a field
/// with [`elimination_laws`] the factors reproduce the sum, and `None` for a
/// square product means the sum factors with fewer than `h` pivots.
pub fn identity_plus_lu(gf: Option<&GF256>, product: Vec<Vec<u8>>, h: usize) -> (r: Option<(Vec<usize>, Vec<Vec<u8>>)>)
    ensures
        !is_square(product@, h as int) ==> r is None,
        r matches Some(pm) ==> {
            &&& is_permutation(pm.0@, h as int)
            &&& pm.1@.len() == h
            &&& rows_at_least(pm.1@, h as int)
            &&& forall|t: int| 0 <= t < h ==> #[trigger] pm.1@[t]@[t] != 0
        },
        gf is Some && elimination_laws(*gf.unwrap()) && (r matches Some(pm)) ==> factors_identity_plus(
            *gf.unwrap(),
            product@,
            h as int,
            r.unwrap().0@,
            r.unwrap().1@,
            h as int,
        ),
        gf is Some && elimination_laws(*gf.unwrap()) && is_square(product@, h as int) && r is None ==> exists|
            p: Seq<usize>,
            lu: Seq<Vec<u8>>,
            rank: int,
        |
            #![trigger factors_identity_plus(*gf.unwrap(), product@, h as int, p, lu, rank)]
            0 <= rank < h && factors_identity_plus(*gf.unwrap(), product@, h as int, p, lu, rank),
{
    let mut m = product;
    let ghost m0 = m@;
    if m.len() != h {
        return None;
    }
    let mut i: usize = 0;
    while i < h
        invariant
            m@.len() == h,
            m0.len() == h,
            m0 == product@,
            i <= h,
            forall|t: int| 0 <= t < i ==> #[trigger] m@[t]@.len() == h,
            forall|t: int| 0 <= t < i ==> #[trigger] m0[t]@.len() == h,
            forall|t: int| i <= t < h ==> #[trigger] m@[t] == m0[t],
            forall|t: int, c: int| 0 <= t < i && 0 <= c < h ==> #[trigger] m@[t]@[c] == identity_plus_entry(m0, t, c),
        decreases h - i,
    {
        if m[i].len() != h {
            assert(m0[i as int]@.len() != h);
            assert(!exact_rows(m0, h as int));
            return None;
        }
        let mut row: Vec<u8> = Vec::new();
        std::mem::swap(&mut row, &mut m[i]);
        let ghost mm = m@;
        let ghost row0 = row@;
        let x = row[i] ^ 1u8;
        row.set(i, x);
        m.set(i, row);
        proof {
            assert forall|t: int, c: int| 0 <= t < i + 1 && 0 <= c < h implies #[trigger] m@[t]@[c] == identity_plus_entry(
                m0,
                t,
                c,
            ) by {
                let y = m0[t]@[c];
                assert(y ^ 0u8 == y) by (bit_vector);
                if t < i {
                    assert(m@[t] == mm[t]);
                } else {
                    assert(row0 == m0[t]@);
                }
            }
            assert forall|t: int| i + 1 <= t < h implies #[trigger] m@[t] == m0[t] by {
                assert(m@[t] == mm[t]);
            }
        }
        i += 1;
    }
    assert(rows_at_least(m@, num_cols(m@)));
    let ghost mp = m@;
    let (p, r) = match gf {
        Some(g) => Matrix::lu_decomp(g, &mut m),
        None => Matrix::lu_decomp(&GF2::new(), &mut m),
    };
    proof {
        if gf is Some && elimination_laws(*gf.unwrap()) {
            let g = *gf.unwrap();
            assert(num_cols(mp) == h);
            assert forall|a: int, j: int| 0 <= a < h && 0 <= j < h implies #[trigger] identity_plus_entry(m0, p@[a] as int, j)
                == lu_product_entry(g, m@, r as int, a, j) by {
                assert(p@[a] < h);
                assert(mp[p@[a] as int]@[j] == lu_product_entry(g, m@, r as int, a, j));
            }
            assert(factors_identity_plus(g, m0, h as int, p@, m@, r as int));
        }
    }
    if r != h {
        return None;
    }
    Some((p, m))
}

/// High-density parity-check precode.
///
/// Implementors define how the HDPC matrix is multiplied against data
/// vectors and against binary or sparse matrices. [`gf_poly`](HDPC::gf_poly)
/// selects the field: [`GF2_FIELD_POLY`] for an XOR-only HDPC, or a GF(256)
/// primitive polynomial such as `0x11D`.
pub trait HDPC {
    /// Multiplies the HDPC matrix by the data vectors `x_ids`, writing the
    /// products into `y_ids` through the data manager (default: nothing).
    ///
    /// Implementations keep the manager consistent and its layout and
    /// allocation state as they were.
    fn mul_data(&self, manager: &mut DataManager, params: &CodeParams, x_ids: &[usize], y_ids: &[usize])
        requires
            old(manager).wf(),
        ensures
            final(manager).wf(),
            final(manager).same_layout(old(manager)),
            final(manager).log_grows(old(manager)),
            final(manager).next_id() == old(manager).next_id(),
            final(manager).coded() == old(manager).coded(),
    {
    }

    /// Multiplies the HDPC matrix by a binary matrix given as its columns
    /// `v` (0/1 bytes) and returns the product rows.
    ///
    /// `gf` is the manager's field (`None` for a GF(2)-only HDPC). The
    /// default hands the positions of the ones of each column to
    /// [`mul_sparse`](HDPC::mul_sparse).
    fn mul_binary(&self, gf: Option<&GF256>, params: &CodeParams, n: usize, v: &[Vec<u8>]) -> Vec<Vec<u8>> {
        let mut s: Vec<Vec<usize>> = Vec::with_capacity(v.len());
        let mut i: usize = 0;
        while i < v.len()
            invariant
                i <= v@.len(),
                s@.len() == i,
                forall|t: int| 0 <= t < i ==> #[trigger] s@[t]@ == one_positions(v@[t]@, v@[t]@.len() as int),
            decreases v@.len() - i,
        {
            s.push(ones_of(v[i].as_slice()));
            i += 1;
        }
        self.mul_sparse(gf, params, n, s.as_slice())
    }

    /// Multiplies the HDPC matrix by \(\tilde{G}\) given as its rows.
    ///
    /// The default calls [`mul_binary`](HDPC::mul_binary) with `n` the
    /// length of the first row; GF(256) precodes should override.
    fn mul_binary_from_rows(&self, gf: Option<&GF256>, params: &CodeParams, rows: &[Vec<u8>]) -> Vec<Vec<u8>> {
        let n = if rows.len() > 0 {
            rows[0].len()
        } else {
            0
        };
        self.mul_binary(gf, params, n, rows)
    }

    /// Multiplies the HDPC matrix by a sparse matrix given as the non-zero
    /// positions of each column (default: no rows).
    fn mul_sparse(&self, gf: Option<&GF256>, params: &CodeParams, n: usize, s: &[Vec<usize>]) -> (r: Vec<Vec<u8>>)
        default_ensures
            r@.len() == 0,
    {
        Vec::new()
    }

    /// Like [`mul_sparse`](HDPC::mul_sparse) with the dimensions of the
    /// sub-matrix `S_h` (default: no rows).
    fn mul_sparse_sh(&self, gf: Option<&GF256>, params: &CodeParams, s: &[Vec<usize>]) -> (r: Vec<Vec<u8>>)
        default_ensures
            r@.len() == 0,
    {
        Vec::new()
    }

    /// LU decomposition of \(I' + D_s S_h\) for ordinary precoding.
    ///
    /// Returns the row permutation `p` (length `h`) and the `h x h` matrix in
    /// the in-place L/U layout of [`Matrix::lu_decomp`], with a non-zero
    /// diagonal; `None` when the product is not `h x h` or is singular.
    fn lu_idssh(&self, gf: Option<&GF256>, params: &CodeParams, ldpc: &dyn LDPC) -> (r: Option<(Vec<usize>, Vec<Vec<u8>>)>)
        ensures
            r matches Some(pm) ==> {
                &&& is_permutation(pm.0@, params.h as int)
                &&& pm.1@.len() == params.h
                &&& rows_at_least(pm.1@, params.h as int)
                &&& forall|t: int| 0 <= t < params.h ==> #[trigger] pm.1@[t]@[t] != 0
            },
    {
        let cols = sh_columns(ldpc, params);
        let m = self.mul_sparse_sh(gf, params, cols.as_slice());
        identity_plus_lu(gf, m, params.h)
    }

    /// Primitive polynomial of the session's GF(256), or [`GF2_FIELD_POLY`]
    /// for an XOR-only HDPC (default: `0x11D`). Implementations return one of
    /// these two kinds of value.
    fn gf_poly(&self) -> (r: u16)
        ensures
            r == GF2_FIELD_POLY || is_primitive_polynomial_spec(r),
    {
        assert(crate::algebra::finite_field::primitive_polynomials()[0] == 0x11Du16);
        0x11Du16
    }
}

} // verus!
