use vstd::prelude::*;
use crate::algebra::finite_field::{Field, GF2, lemma_u8_facts};
use crate::algebra::linear_algebra::{
    expanded, expanded_entry, identity_permutation, is_permutation, lemma_q_done, lemma_q_elim, lemma_q_finish,
    lemma_q_init, lemma_q_next, lemma_q_no_pivot, lemma_q_start, lemma_q_swap_cols, lemma_q_swap_rows, lemma_q_to_outer,
    lemma_q_zero_elim, lemma_qperm, lemma_swap_keeps_permutation, lu_product_q, qouter, qperm, qstep, qzero, swap_entries,
};

verus! {

/// Bits per packed word.
const WORD_BITS: usize = 64;

/// Number of `u64` words that hold `cols` columns (at least one).
pub open spec fn words_for(cols: int) -> int {
    if cols <= 0 {
        1
    } else {
        (cols + 63) / 64
    }
}

/// Bit `c` (`c < 64`) of a word.
pub open spec fn word_bit(w: u64, c: u64) -> bool {
    (w >> c) & 1u64 == 1u64
}

/// Column `c` of a packed row.
pub open spec fn row_bit(row: Seq<u64>, c: int) -> bool {
    word_bit(row[c / 64], (c % 64) as u64)
}

/// A row of zero words has no bit set.
pub proof fn lemma_zero_row_bits(wpr: int, c: int)
    requires
        0 <= c < 64 * wpr,
    ensures
        !row_bit(Seq::new(wpr as nat, |k: int| 0u64), c),
{
    assert(0 <= c / 64 < wpr);
    lemma_u64_facts(0u64, 0u64, 0u64, (c % 64) as u64, 0u64);
}

/// The entries (zero or one) of packed rows, by row and column.
pub open spec fn bit_entries(rows: Seq<Seq<u64>>) -> spec_fn(int, int) -> u8 {
    |row: int, col: int| if row_bit(rows[row], col) {
        1u8
    } else {
        0u8
    }
}

/// Mask of the `rem` lowest bits.
pub open spec fn low_mask(rem: u64) -> u64 {
    ((1u64 << rem) - 1u64) as u64
}

/// `dst` with the packed columns `0..num` of `src` XORed in, word by word.
pub open spec fn xor_prefix(dst: Seq<u64>, src: Seq<u64>, num: int) -> Seq<u64> {
    Seq::new(
        dst.len(),
        |i: int|
            if i < num / 64 {
                dst[i] ^ src[i]
            } else if i == num / 64 && num % 64 != 0 {
                dst[i] ^ (src[i] & low_mask((num % 64) as u64))
            } else {
                dst[i]
            },
    )
}

/// `wpr` words, the first `nw` taken from `src` and the rest zero.
pub open spec fn padded_prefix(src: Seq<u64>, nw: int, wpr: int) -> Seq<u64> {
    Seq::new(wpr as nat, |k: int| if k < nw { src[k] } else { 0u64 })
}

/// The columns `0..num` of a packed row as 0/1 bytes.
pub open spec fn row_bytes_spec(row: Seq<u64>, num: int) -> Seq<u8> {
    Seq::new(num as nat, |c: int| if row_bit(row, c) { 1u8 } else { 0u8 })
}

/// Bit identities on words.
pub proof fn lemma_u64_facts(w: u64, v: u64, b: u64, c: u64, rem: u64)
    by (bit_vector)
    ensures
        b < 64 && c < 64 ==> (((w | (1u64 << b)) >> c) & 1u64 == 1u64) == (c == b || (w >> c) & 1u64
            == 1u64),
        b < 64 && c < 64 ==> (((w ^ (1u64 << b)) >> c) & 1u64 == 1u64) == ((c == b) != ((w >> c)
            & 1u64 == 1u64)),
        b < 64 && c < 64 ==> (((w & !(1u64 << b)) >> c) & 1u64 == 1u64) == (c != b && (w >> c) & 1u64
            == 1u64),
        c < 64 ==> (((w ^ v) >> c) & 1u64 == 1u64) == (((w >> c) & 1u64 == 1u64) != ((v >> c) & 1u64
            == 1u64)),
        0 < rem < 64 && c < 64 ==> (((w ^ (v & ((1u64 << rem) - 1u64) as u64)) >> c) & 1u64 == 1u64)
            == (((w >> c) & 1u64 == 1u64) != (c < rem && (v >> c) & 1u64 == 1u64)),
        rem < 64 ==> (1u64 << rem) >= 1u64,
        (0u64 >> c) & 1u64 != 1u64,
        w ^ 0u64 == w,
        w != 0 ==> (w & (w - 1u64) as u64) < w,
        0 < rem < 64 && w & ((1u64 << rem) - 1u64) as u64 == w && c < 64 && (w >> c) & 1u64 == 1u64
            ==> c < rem,
        0 < rem < 64 && w & ((1u64 << rem) - 1u64) as u64 == w ==> (w & (w - 1u64) as u64) & ((1u64
            << rem) - 1u64) as u64 == (w & (w - 1u64) as u64),
        0 < rem < 64 ==> (v & ((1u64 << rem) - 1u64) as u64) & ((1u64 << rem) - 1u64) as u64 == (v
            & ((1u64 << rem) - 1u64) as u64),
{
}

/// Column semantics of [`xor_prefix`]: columns below `num` are XORed, the others kept.
pub proof fn lemma_xor_prefix_bits(dst: Seq<u64>, src: Seq<u64>, num: int, c: int)
    requires
        0 <= num,
        0 <= c < 64 * dst.len(),
        src.len() >= words_for(num),
        num <= 64 * dst.len(),
    ensures
        row_bit(xor_prefix(dst, src, num), c) == if c < num {
            row_bit(dst, c) != row_bit(src, c)
        } else {
            row_bit(dst, c)
        },
{
    let i = c / 64;
    let b = (c % 64) as u64;
    let x = xor_prefix(dst, src, num);
    if i < num / 64 {
        lemma_u64_facts(dst[i], src[i], 0, b, 0);
    } else if i == num / 64 && num % 64 != 0 {
        lemma_u64_facts(dst[i], src[i], 0, b, (num % 64) as u64);
    }
}

/// A column below `width` sits in one of the row's words.
pub proof fn lemma_word_index(seq: int, width: int)
    requires
        0 <= seq < width,
    ensures
        seq / 64 < words_for(width),
        (seq + 1) / 64 <= words_for(width),
{
}

/// Number of `u64` words that hold `cols` columns (at least one).
fn words_for_cols(cols: usize) -> (r: usize)
    ensures
        r == words_for(cols as int),
{
    let q = cols / WORD_BITS;
    let r = if cols % WORD_BITS != 0 {
        q + 1
    } else {
        q
    };
    if r == 0 {
        1
    } else {
        r
    }
}

/// `x & (x - 1)` clears the lowest set bit `t` of `x` and keeps the others.
proof fn lemma_clear_lowest(x: u64, t: u64, p: u64)
    by (bit_vector)
    requires
        x != 0,
        t < 64,
        p < 64,
        (x >> t) & 1u64 == 1u64,
        x << ((64 - t) as u64) == 0u64,
    ensures
        (((x & ((x - 1u64) as u64)) >> p) & 1u64 == 1u64) == (p != t && (x >> p) & 1u64 == 1u64),
{
}

/// Bit `p` of `v` under the mask of the `rem` lowest bits.
proof fn lemma_mask_bit(v: u64, p: u64, rem: u64)
    by (bit_vector)
    requires
        0 < rem < 64,
        p < 64,
    ensures
        (((v & ((1u64 << rem) - 1u64) as u64) >> p) & 1u64 == 1u64) == (p < rem && (v >> p) & 1u64 == 1u64),
{
}

/// The bits `p` of `w0` whose column `base + p` has `q_inv[base + p] >= start`.
fn select_bits(w0: u64, q_inv: &[usize], base: usize, start: usize) -> (apply: u64)
    requires
        forall|p: u64| p < 64 && #[trigger] word_bit(w0, p) ==> base + p < q_inv@.len(),
    ensures
        forall|p: u64|
            p < 64 ==> #[trigger] word_bit(apply, p) == (word_bit(w0, p) && q_inv@[base + p] >= start),
{
    let mut src_w = w0;
    let mut apply = 0_u64;
    proof {
        assert forall|p: u64| p < 64 implies #[trigger] word_bit(apply, p) == (word_bit(w0, p) && !word_bit(
            src_w,
            p,
        ) && q_inv@[base + p] >= start) by {
            lemma_u64_facts(0, 0, 0, p, 0);
        }
    }
    while src_w != 0
        invariant
            forall|p: u64| p < 64 && #[trigger] word_bit(w0, p) ==> base + p < q_inv@.len(),
            forall|p: u64| p < 64 && #[trigger] word_bit(src_w, p) ==> word_bit(w0, p),
            forall|p: u64|
                p < 64 ==> #[trigger] word_bit(apply, p) == (word_bit(w0, p) && !word_bit(src_w, p)
                    && q_inv@[base + p] >= start),
        decreases src_w,
    {
        let tz = src_w.trailing_zeros() as usize;
        proof {
            vstd::std_specs::bits::axiom_u64_trailing_zeros(src_w);
            lemma_u64_facts(src_w, 0, 0, 0, 0);
        }
        let ghost old_src = src_w;
        let ghost old_apply = apply;
        assert(tz < 64);
        assert(word_bit(src_w, tz as u64));
        assert(word_bit(w0, tz as u64));
        let qlen = q_inv.len();
        assert(base + tz < qlen);
        let phys = base + tz;
        let take = q_inv[phys] >= start;
        if take {
            apply |= 1_u64 << tz;
        }
        src_w &= src_w - 1;
        proof {
            assert forall|p: u64| p < 64 implies (#[trigger] word_bit(src_w, p)) == (p != tz as u64 && word_bit(
                old_src,
                p,
            )) by {
                lemma_clear_lowest(old_src, tz as u64, p);
            }
            assert forall|p: u64| p < 64 implies #[trigger] word_bit(apply, p) == (word_bit(w0, p) && !word_bit(
                src_w,
                p,
            ) && q_inv@[base + p] >= start) by {
                lemma_u64_facts(old_apply, 0, tz as u64, p, 0);
                assert(word_bit(src_w, p) == (p != tz as u64 && word_bit(old_src, p)));
                assert(word_bit(old_apply, p) == (word_bit(w0, p) && !word_bit(old_src, p) && q_inv@[base + p]
                    >= start));
                if p == tz as u64 {
                    assert(word_bit(apply, p) == take);
                } else {
                    assert(word_bit(apply, p) == word_bit(old_apply, p));
                }
            }
        }
    }
    proof {
        assert forall|p: u64| p < 64 implies #[trigger] word_bit(apply, p) == (word_bit(w0, p) && q_inv@[base
            + p] >= start) by {
            lemma_u64_facts(0, 0, 0, p, 0);
        }
    }
    apply
}

/// Row-major GF(2) matrix: column `seq` of row `equ_id` is bit `seq % 64` of word `seq / 64`.
///
/// Every row has the same number of words, fixed by the allocated `width`;
/// only the columns below a caller-supplied `num_inactive <= width` are live.
#[derive(Debug)]
pub struct BinaryMatrix {
    width: usize,
    words_per_row: usize,
    rows: Vec<Vec<u64>>,
}

impl View for BinaryMatrix {
    type V = Seq<Seq<u64>>;

    closed spec fn view(&self) -> Seq<Seq<u64>> {
        self.rows@.map_values(|r: Vec<u64>| r@)
    }
}

impl Clone for BinaryMatrix {
    /// A copy with the same width, layout and rows.
    fn clone(&self) -> (r: Self)
        ensures
            r@ == self@,
            r.spec_width() == self.spec_width(),
            r.spec_wpr() == self.spec_wpr(),
    {
        let mut rows: Vec<Vec<u64>> = Vec::with_capacity(self.rows.len());
        let mut i: usize = 0;
        while i < self.rows.len()
            invariant
                i <= self.rows@.len(),
                rows@.len() == i,
                forall|t: int| 0 <= t < i ==> #[trigger] rows@[t]@ == self.rows@[t]@,
            decreases self.rows@.len() - i,
        {
            rows.push(self.rows[i].clone());
            i += 1;
        }
        let r = BinaryMatrix { width: self.width, words_per_row: self.words_per_row, rows };
        assert(r@ =~= self@);
        r
    }
}

impl BinaryMatrix {
    proof fn lemma_view(&self)
        ensures
            self@.len() == self.rows@.len(),
            forall|t: int| 0 <= t < self.rows@.len() ==> #[trigger] self@[t] == self.rows@[t]@,
    {
    }

    /// Replace word `w` of row `r`.
    fn update_word(&mut self, r: usize, w: usize, val: u64)
        requires
            old(self).wf(),
            r < old(self)@.len(),
            w < old(self).spec_wpr(),
        ensures
            final(self).wf(),
            final(self).spec_width() == old(self).spec_width(),
            final(self).spec_wpr() == old(self).spec_wpr(),
            final(self)@ == old(self)@.update(r as int, old(self)@[r as int].update(w as int, val)),
    {
        proof {
            self.lemma_view();
        }
        let mut row: Vec<u64> = Vec::new();
        std::mem::swap(&mut self.rows[r], &mut row);
        assert(row@ == old(self)@[r as int]);
        row.set(w, val);
        self.rows.set(r, row);
        proof {
            self.lemma_view();
            old(self).lemma_view();
        }
        assert(self@ =~= old(self)@.update(r as int, old(self)@[r as int].update(w as int, val)));
    }

    /// Allocated number of columns.
    pub closed spec fn spec_width(&self) -> nat {
        self.width as nat
    }

    /// Words per row.
    pub closed spec fn spec_wpr(&self) -> nat {
        self.words_per_row as nat
    }

    /// Well-formedness: every row has `words_for(width)` words.
    pub open spec fn wf(&self) -> bool {
        &&& self.spec_wpr() == words_for(self.spec_width() as int)
        &&& self.spec_width() + 64 < usize::MAX
        &&& forall|r: int| 0 <= r < self@.len() ==> #[trigger] self@[r].len() == self.spec_wpr()
    }

    /// Coefficient at `(r, c)`.
    pub open spec fn bit(&self, r: int, c: int) -> bool {
        row_bit(self@[r], c)
    }

    /// Create an empty matrix with the given column capacity.
    pub fn new(width: usize) -> (r: Self)
        requires
            width + 64 < usize::MAX,
        ensures
            r.wf(),
            r.spec_width() == width,
            r@ == Seq::<Seq<u64>>::empty(),
    {
        let m = BinaryMatrix { width, words_per_row: words_for_cols(width), rows: Vec::new() };
        assert(m@ =~= Seq::<Seq<u64>>::empty());
        m
    }

    /// Maximum number of columns (allocated row width).
    pub fn width(&self) -> (r: usize)
        ensures
            r == self.spec_width(),
    {
        self.width
    }

    /// Number of rows stored.
    pub fn num_rows(&self) -> (r: usize)
        ensures
            r == self@.len(),
    {
        self.rows.len()
    }

    /// `u64` words per allocated row.
    pub fn words_per_row(&self) -> (r: usize)
        ensures
            r == self.spec_wpr(),
    {
        self.words_per_row
    }

    /// Packed row `equ_id`.
    pub fn row_words(&self, equ_id: usize) -> (r: &[u64])
        requires
            equ_id < self@.len(),
        ensures
            r@ == self@[equ_id as int],
    {
        self.rows[equ_id].as_slice()
    }

    /// Mutable access to the packed words of row `row_id` (only the columns
    /// `0..num_inactive` of a caller are live).
    pub fn row_words_mut(&mut self, row_id: usize) -> (r: &mut [u64])
        requires
            old(self).wf(),
            row_id < old(self)@.len(),
        ensures
            r@ == old(self)@[row_id as int],
            final(self)@ == old(self)@.update(row_id as int, final(r)@),
            final(self).spec_width() == old(self).spec_width(),
            final(self).spec_wpr() == old(self).spec_wpr(),
    {
        proof {
            self.lemma_view();
        }
        self.rows[row_id].as_mut_slice()
    }

    /// Copy the live words of row `equ_id` (those holding columns `0..num_inactive`) into `dst`.
    pub fn copy_row_words(&self, equ_id: usize, dst: &mut [u64], num_inactive: usize)
        requires
            self.wf(),
            num_inactive <= self.spec_width(),
            equ_id < self@.len(),
            old(dst)@.len() >= words_for(num_inactive as int),
        ensures
            final(dst)@ == Seq::new(
                old(dst)@.len(),
                |k: int|
                    if k < words_for(num_inactive as int) {
                        self@[equ_id as int][k]
                    } else {
                        old(dst)@[k]
                    },
            ),
    {
        let nwords = words_for_cols(num_inactive);
        let row = self.row_words(equ_id);
        let ghost d0 = dst@;
        let mut k: usize = 0;
        while k < nwords
            invariant
                nwords == words_for(num_inactive as int),
                nwords <= row@.len(),
                nwords <= dst@.len(),
                dst@.len() == d0.len(),
                row@ == self@[equ_id as int],
                k <= nwords,
                forall|x: int| 0 <= x < k ==> #[trigger] dst@[x] == row@[x],
                forall|x: int| k <= x < dst@.len() ==> #[trigger] dst@[x] == d0[x],
            decreases nwords - k,
        {
            dst[k] = row[k];
            k += 1;
        }
        assert(dst@ =~= Seq::new(
            d0.len(),
            |k: int|
                if k < words_for(num_inactive as int) {
                    self@[equ_id as int][k]
                } else {
                    d0[k]
                },
        ));
    }

    /// Append a row built from the live words of `src`; returns the new row index.
    pub fn append_row_from_words(&mut self, src: &[u64], num_inactive: usize) -> (r: usize)
        requires
            old(self).wf(),
            num_inactive <= old(self).spec_width(),
            src@.len() >= words_for(num_inactive as int),
        ensures
            final(self).wf(),
            final(self).spec_width() == old(self).spec_width(),
            r == old(self)@.len(),
            final(self)@ == old(self)@.push(
                padded_prefix(src@, words_for(num_inactive as int), old(self).spec_wpr() as int),
            ),
    {
        let nwords = words_for_cols(num_inactive);
        let wpr = self.words_per_row;
        let mut row: Vec<u64> = Vec::with_capacity(wpr);
        let mut k: usize = 0;
        while k < wpr
            invariant
                nwords == words_for(num_inactive as int),
                nwords <= src@.len(),
                k <= wpr,
                row@ == Seq::new(k as nat, |x: int| if x < nwords { src@[x] } else { 0u64 }),
            decreases wpr - k,
        {
            if k < nwords {
                row.push(src[k]);
            } else {
                row.push(0u64);
            }
            k += 1;
        }
        let equ_id = self.rows.len();
        self.rows.push(row);
        assert(self@ =~= old(self)@.push(
            padded_prefix(src@, words_for(num_inactive as int), old(self).spec_wpr() as int),
        ));
        equ_id
    }

    /// XOR row `src` into row `dst` over columns `0..num_inactive`.
    pub fn xor_row_words(&mut self, dst: usize, src: usize, num_inactive: usize)
        requires
            old(self).wf(),
            num_inactive <= old(self).spec_width(),
            dst < old(self)@.len(),
            src < old(self)@.len(),
        ensures
            final(self).wf(),
            final(self).spec_width() == old(self).spec_width(),
            final(self)@ == old(self)@.update(
                dst as int,
                xor_prefix(old(self)@[dst as int], old(self)@[src as int], num_inactive as int),
            ),
    {
        self.xor_rows(dst, src, num_inactive);
    }

    /// XOR the packed columns `0..num_inactive` of `src` into row `dst`.
    pub fn xor_row_from_words(&mut self, dst: usize, src: &[u64], num_inactive: usize)
        requires
            old(self).wf(),
            num_inactive <= old(self).spec_width(),
            dst < old(self)@.len(),
            src@.len() >= words_for(num_inactive as int),
        ensures
            final(self).wf(),
            final(self).spec_width() == old(self).spec_width(),
            final(self)@ == old(self)@.update(
                dst as int,
                xor_prefix(old(self)@[dst as int], src@, num_inactive as int),
            ),
    {
        proof { self.lemma_view(); }
        let ghost old_row = self@[dst as int];
        let full_words = num_inactive / WORD_BITS;
        let rem = num_inactive % WORD_BITS;
        let mut row: Vec<u64> = Vec::new();
        std::mem::swap(&mut self.rows[dst], &mut row);
        assert(row@ == old_row);
        let mut i: usize = 0;
        while i < full_words
            invariant
                full_words == num_inactive / 64,
                full_words <= old_row.len(),
                full_words <= src@.len(),
                row@.len() == old_row.len(),
                i <= full_words,
                forall|x: int| 0 <= x < i ==> #[trigger] row@[x] == old_row[x] ^ src@[x],
                forall|x: int| i <= x < old_row.len() ==> #[trigger] row@[x] == old_row[x],
            decreases full_words - i,
        {
            let cur = row[i];
            row.set(i, cur ^ src[i]);
            i += 1;
        }
        if rem > 0 {
            proof {
                lemma_u64_facts(0, 0, 0, 0, rem as u64);
            }
            let mask = (1u64 << rem) - 1;
            let cur = row[full_words];
            row.set(full_words, cur ^ (src[full_words] & mask));
        }
        assert(row@ =~= xor_prefix(old(self)@[dst as int], src@, num_inactive as int));
        self.rows.set(dst, row);
        proof {
            self.lemma_view();
            old(self).lemma_view();
        }
        assert(self@ =~= old(self)@.update(
            dst as int,
            xor_prefix(old(self)@[dst as int], src@, num_inactive as int),
        ));
    }

    /// Copy the live words of row `src_row` of `src` into row `dst_row` of `self`.
    pub fn copy_row_from(&mut self, dst_row: usize, src: &BinaryMatrix, src_row: usize, num_inactive: usize)
        requires
            old(self).wf(),
            src.wf(),
            num_inactive <= old(self).spec_width(),
            num_inactive <= src.spec_width(),
            dst_row < old(self)@.len(),
            src_row < src@.len(),
        ensures
            final(self).wf(),
            final(self).spec_width() == old(self).spec_width(),
            final(self)@ == old(self)@.update(
                dst_row as int,
                Seq::new(
                    old(self).spec_wpr(),
                    |k: int|
                        if k < words_for(num_inactive as int) {
                            src@[src_row as int][k]
                        } else {
                            old(self)@[dst_row as int][k]
                        },
                ),
            ),
    {
        let nwords = words_for_cols(num_inactive);
        let srow = src.row_words(src_row);
        proof { self.lemma_view(); }
        let ghost old_row = self@[dst_row as int];
        let mut row: Vec<u64> = Vec::new();
        std::mem::swap(&mut self.rows[dst_row], &mut row);
        assert(row@ == old_row);
        let mut k: usize = 0;
        while k < nwords
            invariant
                nwords == words_for(num_inactive as int),
                nwords <= srow@.len(),
                nwords <= old_row.len(),
                row@.len() == old_row.len(),
                k <= nwords,
                forall|x: int| 0 <= x < k ==> #[trigger] row@[x] == srow@[x],
                forall|x: int| k <= x < old_row.len() ==> #[trigger] row@[x] == old_row[x],
            decreases nwords - k,
        {
            row.set(k, srow[k]);
            k += 1;
        }
        assert(row@ =~= Seq::new(
            old(self).spec_wpr(),
            |k: int|
                if k < words_for(num_inactive as int) {
                    src@[src_row as int][k]
                } else {
                    old(self)@[dst_row as int][k]
                },
        ));
        self.rows.set(dst_row, row);
        proof {
            self.lemma_view();
            old(self).lemma_view();
        }
        assert(self@ =~= old(self)@.update(
            dst_row as int,
            Seq::new(
                old(self).spec_wpr(),
                |k: int|
                    if k < words_for(num_inactive as int) {
                        src@[src_row as int][k]
                    } else {
                        old(self)@[dst_row as int][k]
                    },
            ),
        ));
    }

    /// Append every row of `src`, keeping its live words.
    pub fn append_all_rows_from(&mut self, src: &BinaryMatrix, num_inactive: usize)
        requires
            old(self).wf(),
            src.wf(),
            num_inactive <= old(self).spec_width(),
            num_inactive <= src.spec_width(),
        ensures
            final(self).wf(),
            final(self).spec_width() == old(self).spec_width(),
            final(self)@ == old(self)@ + Seq::new(
                src@.len(),
                |r: int| padded_prefix(src@[r], words_for(num_inactive as int), old(self).spec_wpr() as int),
            ),
    {
        let ghost expected = Seq::new(
            src@.len(),
            |r: int| padded_prefix(src@[r], words_for(num_inactive as int), old(self).spec_wpr() as int),
        );
        let n = src.num_rows();
        let mut src_row: usize = 0;
        while src_row < n
            invariant
                self.wf(),
                self.spec_width() == old(self).spec_width(),
                self.spec_wpr() == old(self).spec_wpr(),
                src.wf(),
                num_inactive <= self.spec_width(),
                num_inactive <= src.spec_width(),
                n == src@.len(),
                src_row <= n,
                expected.len() == n,
                forall|r: int| 0 <= r < n ==> #[trigger] expected[r] == padded_prefix(src@[r], words_for(num_inactive as int), old(self).spec_wpr() as int),
                self@ == old(self)@ + expected.take(src_row as int),
            decreases n - src_row,
        {
            let mut words = crate::engine::binary_matrix::zero_words(self.words_per_row);
            src.copy_row_words(src_row, words.as_mut_slice(), num_inactive);
            assert(padded_prefix(words@, words_for(num_inactive as int), self.spec_wpr() as int)
                =~= padded_prefix(src@[src_row as int], words_for(num_inactive as int), self.spec_wpr() as int));
            self.append_row_from_words(words.as_slice(), num_inactive);
            assert(expected.take(src_row + 1) =~= expected.take(src_row as int).push(expected[src_row as int]));
            src_row += 1;
        }
        assert(expected.take(n as int) =~= expected);
    }

    /// Append all rows of `src` by moving its storage (consumes `src`).
    pub fn append_matrix(&mut self, src: BinaryMatrix)
        requires
            old(self).wf(),
            src.wf(),
            old(self).spec_width() == src.spec_width(),
        ensures
            final(self).wf(),
            final(self).spec_width() == old(self).spec_width(),
            final(self)@ == old(self)@ + src@,
    {
        let ghost src_view = src@;
        proof {
            src.lemma_view();
            old(self).lemma_view();
        }
        let mut src = src;
        self.rows.append(&mut src.rows);
        proof {
            self.lemma_view();
        }
        assert(self@ =~= old(self)@ + src_view);
    }

    /// Expand all rows to dense 0/1 byte rows over columns `0..num_inactive`.
    pub fn to_dense_rows(&self, num_inactive: usize) -> (r: Vec<Vec<u8>>)
        requires
            self.wf(),
            num_inactive <= self.spec_width(),
        ensures
            r@.len() == self@.len(),
            forall|i: int| 0 <= i < r@.len() ==> #[trigger] r@[i]@ == row_bytes_spec(self@[i], num_inactive as int),
    {
        let n = self.num_rows();
        let mut out: Vec<Vec<u8>> = Vec::with_capacity(n);
        let mut r: usize = 0;
        while r < n
            invariant
                self.wf(),
                num_inactive <= self.spec_width(),
                n == self@.len(),
                r <= n,
                out@.len() == r,
                forall|i: int| 0 <= i < r ==> #[trigger] out@[i]@ == row_bytes_spec(self@[i], num_inactive as int),
            decreases n - r,
        {
            out.push(self.row_bytes(r, num_inactive));
            r += 1;
        }
        out
    }

    /// Append a zero row; returns its index.
    pub fn push_row(&mut self) -> (r: usize)
        requires
            old(self).wf(),
        ensures
            final(self).wf(),
            final(self).spec_width() == old(self).spec_width(),
            r == old(self)@.len(),
            final(self)@ == old(self)@.push(Seq::new(old(self).spec_wpr(), |k: int| 0u64)),
    {
        let equ_id = self.rows.len();
        let row = zero_words(self.words_per_row);
        self.rows.push(row);
        assert(self@ =~= old(self)@.push(Seq::new(old(self).spec_wpr(), |k: int| 0u64)));
        equ_id
    }

    /// Clear every column of row `row_idx`.
    pub fn clear_row(&mut self, row_idx: usize)
        requires
            old(self).wf(),
            row_idx < old(self)@.len(),
        ensures
            final(self).wf(),
            final(self).spec_width() == old(self).spec_width(),
            final(self)@ == old(self)@.update(row_idx as int, Seq::new(old(self).spec_wpr(), |k: int| 0u64)),
    {
        let row = zero_words(self.words_per_row);
        self.rows.set(row_idx, row);
        assert(self@ =~= old(self)@.update(row_idx as int, Seq::new(old(self).spec_wpr(), |k: int| 0u64)));
    }

    /// Coefficient at `(equ_id, seq)`.
    pub fn get(&self, equ_id: usize, seq: usize) -> (r: bool)
        requires
            self.wf(),
            seq < self.spec_width(),
            equ_id < self@.len(),
        ensures
            r == self.bit(equ_id as int, seq as int),
    {
        let words = self.row_words(equ_id);
        let word = seq / WORD_BITS;
        let bit = seq % WORD_BITS;
        (words[word] >> bit) & 1 == 1
    }

    /// Set coefficient at `(equ_id, seq)` to 1.
    pub fn set(&mut self, equ_id: usize, seq: usize)
        requires
            old(self).wf(),
            seq < old(self).spec_width(),
            equ_id < old(self)@.len(),
        ensures
            final(self).wf(),
            final(self).spec_width() == old(self).spec_width(),
            final(self)@.len() == old(self)@.len(),
            forall|t: int| 0 <= t < final(self)@.len() && t != equ_id ==> #[trigger] final(self)@[t] == old(self)@[t],
            forall|c: int|
                0 <= c < 64 * old(self).spec_wpr() ==> #[trigger] row_bit(final(self)@[equ_id as int], c) == (c
                    == seq || row_bit(old(self)@[equ_id as int], c)),
    {
        let word = seq / WORD_BITS;
        let bit = seq % WORD_BITS;
        proof {
            self.lemma_view();
        }
        proof {
            lemma_word_index(seq as int, self.spec_width() as int);
        }
        let cur = self.row_words(equ_id)[word];
        self.update_word(equ_id, word, cur | (1u64 << bit));
        proof {
            assert forall|c: int|
                0 <= c < 64 * old(self).spec_wpr() implies #[trigger] row_bit(self@[equ_id as int], c) == (c == seq
                    || row_bit(old(self)@[equ_id as int], c)) by {
                lemma_u64_facts(cur, 0, bit as u64, (c % 64) as u64, 0);
            }
        }
    }

    /// Toggle coefficient at `(equ_id, seq)`.
    pub fn flip(&mut self, equ_id: usize, seq: usize)
        requires
            old(self).wf(),
            seq < old(self).spec_width(),
            equ_id < old(self)@.len(),
        ensures
            final(self).wf(),
            final(self).spec_width() == old(self).spec_width(),
            final(self)@.len() == old(self)@.len(),
            forall|t: int| 0 <= t < final(self)@.len() && t != equ_id ==> #[trigger] final(self)@[t] == old(self)@[t],
            forall|c: int|
                0 <= c < 64 * old(self).spec_wpr() ==> #[trigger] row_bit(final(self)@[equ_id as int], c) == ((c
                    == seq) != row_bit(old(self)@[equ_id as int], c)),
    {
        let word = seq / WORD_BITS;
        let bit = seq % WORD_BITS;
        proof {
            self.lemma_view();
        }
        proof {
            lemma_word_index(seq as int, self.spec_width() as int);
        }
        let cur = self.row_words(equ_id)[word];
        self.update_word(equ_id, word, cur ^ (1u64 << bit));
        proof {
            assert forall|c: int|
                0 <= c < 64 * old(self).spec_wpr() implies #[trigger] row_bit(self@[equ_id as int], c) == ((c == seq)
                    != row_bit(old(self)@[equ_id as int], c)) by {
                lemma_u64_facts(cur, 0, bit as u64, (c % 64) as u64, 0);
            }
        }
    }

    /// Clear coefficient at `(equ_id, seq)`.
    pub fn clear(&mut self, equ_id: usize, seq: usize)
        requires
            old(self).wf(),
            seq < old(self).spec_width(),
            equ_id < old(self)@.len(),
        ensures
            final(self).wf(),
            final(self).spec_width() == old(self).spec_width(),
            final(self)@.len() == old(self)@.len(),
            forall|t: int| 0 <= t < final(self)@.len() && t != equ_id ==> #[trigger] final(self)@[t] == old(self)@[t],
            forall|c: int|
                0 <= c < 64 * old(self).spec_wpr() ==> #[trigger] row_bit(final(self)@[equ_id as int], c) == (c
                    != seq && row_bit(old(self)@[equ_id as int], c)),
    {
        let word = seq / WORD_BITS;
        let bit = seq % WORD_BITS;
        proof {
            self.lemma_view();
        }
        proof {
            lemma_word_index(seq as int, self.spec_width() as int);
        }
        let cur = self.row_words(equ_id)[word];
        self.update_word(equ_id, word, cur & !(1u64 << bit));
        proof {
            assert forall|c: int|
                0 <= c < 64 * old(self).spec_wpr() implies #[trigger] row_bit(self@[equ_id as int], c) == (c != seq
                    && row_bit(old(self)@[equ_id as int], c)) by {
                lemma_u64_facts(cur, 0, bit as u64, (c % 64) as u64, 0);
            }
        }
    }

    /// XOR columns `0..num_inactive` of row `src` into row `dst` (`dst ^= src`).
    pub fn xor_rows(&mut self, dst: usize, src: usize, num_inactive: usize)
        requires
            old(self).wf(),
            num_inactive <= old(self).spec_width(),
            dst < old(self)@.len(),
            src < old(self)@.len(),
        ensures
            final(self).wf(),
            final(self).spec_width() == old(self).spec_width(),
            final(self)@ == old(self)@.update(
                dst as int,
                xor_prefix(old(self)@[dst as int], old(self)@[src as int], num_inactive as int),
            ),
    {
        if num_inactive == 0 {
            proof {
                assert(xor_prefix(old(self)@[dst as int], old(self)@[src as int], 0) =~= old(self)@[dst as int]);
                assert(self@ =~= old(self)@.update(
                    dst as int,
                    xor_prefix(old(self)@[dst as int], old(self)@[src as int], num_inactive as int),
                ));
            }
            return ;
        }
        let src_words = self.rows[src].clone();
        assert(src_words@ == old(self)@[src as int]);
        self.xor_row_from_words(dst, src_words.as_slice(), num_inactive);
    }

    /// XOR the 0/1 prefix `other[..num_inactive]` into row `equ_id` (a column flips where `other` is non-zero).
    pub fn xor_row_bytes(&mut self, equ_id: usize, other: &[u8], num_inactive: usize)
        requires
            old(self).wf(),
            num_inactive <= old(self).spec_width(),
            other@.len() >= num_inactive,
            equ_id < old(self)@.len(),
        ensures
            final(self).wf(),
            final(self).spec_width() == old(self).spec_width(),
            final(self)@.len() == old(self)@.len(),
            forall|t: int| 0 <= t < final(self)@.len() && t != equ_id ==> #[trigger] final(self)@[t] == old(self)@[t],
            forall|c: int|
                0 <= c < 64 * old(self).spec_wpr() ==> #[trigger] row_bit(final(self)@[equ_id as int], c) == (
                row_bit(old(self)@[equ_id as int], c) != (c < num_inactive && other@[c] != 0)),
    {
        let mut seq: usize = 0;
        while seq < num_inactive
            invariant
                self.wf(),
                self.spec_width() == old(self).spec_width(),
                self.spec_wpr() == old(self).spec_wpr(),
                self@.len() == old(self)@.len(),
                num_inactive <= self.spec_width(),
                other@.len() >= num_inactive,
                equ_id < self@.len(),
                seq <= num_inactive,
                forall|t: int| 0 <= t < self@.len() && t != equ_id ==> #[trigger] self@[t] == old(self)@[t],
                forall|c: int|
                    0 <= c < 64 * old(self).spec_wpr() ==> #[trigger] row_bit(self@[equ_id as int], c) == (
                    row_bit(old(self)@[equ_id as int], c) != (c < seq && other@[c] != 0)),
            decreases num_inactive - seq,
        {
            if other[seq] != 0 {
                self.flip(equ_id, seq);
            }
            seq += 1;
        }
    }

    /// Row `equ_id` as `num_inactive` bytes (0/1).
    pub fn row_bytes(&self, equ_id: usize, num_inactive: usize) -> (r: Vec<u8>)
        requires
            self.wf(),
            num_inactive <= self.spec_width(),
            equ_id < self@.len(),
        ensures
            r@ == row_bytes_spec(self@[equ_id as int], num_inactive as int),
    {
        let mut out: Vec<u8> = Vec::with_capacity(num_inactive);
        let mut c: usize = 0;
        while c < num_inactive
            invariant
                self.wf(),
                num_inactive <= self.spec_width(),
                equ_id < self@.len(),
                c <= num_inactive,
                out@ == row_bytes_spec(self@[equ_id as int], c as int),
            decreases num_inactive - c,
        {
            if self.get(equ_id, c) {
                out.push(1u8);
            } else {
                out.push(0u8);
            }
            assert(out@ =~= row_bytes_spec(self@[equ_id as int], c + 1));
            c += 1;
        }
        out
    }

    /// Set column indices `seq` in `0..num_inactive` of row `equ_id`, in increasing order.
    pub fn iter_set_bits(&self, equ_id: usize, num_inactive: usize) -> (r: Vec<usize>)
        requires
            self.wf(),
            num_inactive <= self.spec_width(),
            equ_id < self@.len(),
        ensures
            r@ == set_bits(self@[equ_id as int], num_inactive as int),
    {
        proof {
            self.lemma_view();
        }
        let words = self.rows[equ_id].clone();
        assert(words@ =~= self@[equ_id as int]);
        let mut it = RowSetBitsIter::new(words, num_inactive);
        let mut out: Vec<usize> = Vec::new();
        loop
            invariant_except_break
                0 <= it.pos() <= num_inactive,
                out@ == set_bits(self@[equ_id as int], it.pos()),
            invariant
                it.wf(),
                equ_id < self@.len(),
                it.row() == self@[equ_id as int],
                it.num() == num_inactive,
            ensures
                out@ == set_bits(self@[equ_id as int], num_inactive as int),
            decreases num_inactive - it.pos(),
        {
            let ghost p0 = it.pos();
            match it.next() {
                Some(c) => {
                    proof {
                        lemma_set_bits_gap(self@[equ_id as int], p0, c as int);
                    }
                    out.push(c);
                },
                None => {
                    proof {
                        lemma_set_bits_gap(self@[equ_id as int], p0, num_inactive as int);
                    }
                    break;
                },
            }
        }
        out
    }

    /// Coefficient at `(row, logical_col)` when columns are permuted by `q`.
    pub fn get_logical(&self, row: usize, q: &[usize], logical_col: usize) -> (r: bool)
        requires
            self.wf(),
            row < self@.len(),
            logical_col < q@.len(),
            q@[logical_col as int] < self.spec_width(),
        ensures
            r == self.bit(row as int, q@[logical_col as int] as int),
    {
        self.get(row, q[logical_col])
    }

    /// Set the coefficient at `(row, logical_col)` (columns permuted by `q`) to `val`.
    pub fn set_logical(&mut self, row: usize, q: &[usize], logical_col: usize, val: bool)
        requires
            old(self).wf(),
            row < old(self)@.len(),
            logical_col < q@.len(),
            q@[logical_col as int] < old(self).spec_width(),
        ensures
            final(self).wf(),
            final(self).spec_width() == old(self).spec_width(),
            final(self)@.len() == old(self)@.len(),
            forall|t: int| 0 <= t < final(self)@.len() && t != row ==> #[trigger] final(self)@[t] == old(self)@[t],
            forall|c: int|
                0 <= c < 64 * old(self).spec_wpr() ==> #[trigger] row_bit(final(self)@[row as int], c) == (if c
                    == q@[logical_col as int] {
                    val
                } else {
                    row_bit(old(self)@[row as int], c)
                }),
    {
        if val {
            self.set(row, q[logical_col]);
        } else {
            self.clear(row, q[logical_col]);
        }
    }

    /// Swap two rows in place.
    pub fn swap_rows(&mut self, a: usize, b: usize)
        requires
            old(self).wf(),
            a < old(self)@.len(),
            b < old(self)@.len(),
        ensures
            final(self).wf(),
            final(self).spec_width() == old(self).spec_width(),
            final(self)@ == old(self)@.update(a as int, old(self)@[b as int]).update(b as int, old(self)@[a as int]),
    {
        if a == b {
            assert(self@ =~= old(self)@.update(a as int, old(self)@[b as int]).update(b as int, old(self)@[a as int]));
            return ;
        }
        let mut tmp: Vec<u64> = Vec::new();
        std::mem::swap(&mut self.rows[a], &mut tmp);
        std::mem::swap(&mut self.rows[b], &mut tmp);
        std::mem::swap(&mut self.rows[a], &mut tmp);
        assert(self@ =~= old(self)@.update(a as int, old(self)@[b as int]).update(b as int, old(self)@[a as int]));
    }

    /// Keep only the first `n` rows.
    pub fn truncate_rows(&mut self, n: usize)
        requires
            old(self).wf(),
            n <= old(self)@.len(),
        ensures
            final(self).wf(),
            final(self).spec_width() == old(self).spec_width(),
            final(self)@ == old(self)@.take(n as int),
    {
        self.rows.truncate(n);
        assert(self@ =~= old(self)@.take(n as int));
    }

    /// XOR into row `dst` the columns of row `src` whose logical index `q_inv[col]` is at least
    /// `start_logical_col`, over the physical columns `0..num_inactive`.
    fn xor_rows_logical_upper(
        &mut self,
        dst: usize,
        src: usize,
        q_inv: &[usize],
        start_logical_col: usize,
        num_inactive: usize,
    )
        requires
            old(self).wf(),
            dst < old(self)@.len(),
            src < old(self)@.len(),
            dst != src,
            num_inactive <= old(self).spec_width(),
            q_inv@.len() >= num_inactive,
        ensures
            final(self).wf(),
            final(self).spec_width() == old(self).spec_width(),
            final(self)@.len() == old(self)@.len(),
            forall|t: int| 0 <= t < final(self)@.len() && t != dst ==> #[trigger] final(self)@[t] == old(self)@[t],
            forall|c: int|
                0 <= c < 64 * old(self).spec_wpr() ==> #[trigger] row_bit(final(self)@[dst as int], c) == (row_bit(
                    old(self)@[dst as int],
                    c,
                ) != (c < num_inactive && q_inv@[c] >= start_logical_col && row_bit(old(self)@[src as int], c))),
    {
        let ghost d0 = old(self)@[dst as int];
        let ghost s0 = old(self)@[src as int];
        let ghost wpr = old(self).spec_wpr();
        let full_words = num_inactive / WORD_BITS;
        let rem = num_inactive % WORD_BITS;
        proof {
            if num_inactive > 0 {
                lemma_word_index((num_inactive - 1) as int, self.spec_width() as int);
            }
        }
        let mut word_idx: usize = 0;
        while word_idx < full_words
            invariant
                self.wf(),
                self.spec_width() == old(self).spec_width(),
                self.spec_wpr() == wpr,
                self@.len() == old(self)@.len(),
                dst < self@.len(),
                src < self@.len(),
                dst != src,
                full_words == num_inactive / 64,
                rem == num_inactive % 64,
                full_words <= wpr,
                num_inactive <= self.spec_width(),
                num_inactive > 0 ==> (num_inactive - 1) / 64 < wpr,
                q_inv@.len() >= num_inactive,
                word_idx <= full_words,
                d0 == old(self)@[dst as int],
                s0 == old(self)@[src as int],
                forall|t: int| 0 <= t < self@.len() && t != dst ==> #[trigger] self@[t] == old(self)@[t],
                forall|c: int|
                    0 <= c < 64 * wpr ==> #[trigger] row_bit(self@[dst as int], c) == (row_bit(d0, c) != (c < word_idx
                        * 64 && q_inv@[c] >= start_logical_col && row_bit(s0, c))),
            decreases full_words - word_idx,
        {
            let base = word_idx * WORD_BITS;
            let w0 = self.row_words(src)[word_idx];
            proof {
                assert(self@[src as int] == s0);
                assert forall|p: u64| p < 64 && #[trigger] word_bit(w0, p) implies base + p < q_inv@.len() by {
                }
            }
            if w0 != 0 {
                let apply = select_bits(w0, q_inv, base, start_logical_col);
                if apply != 0 {
                    let ghost before = self@[dst as int];
                    let cur = self.row_words(dst)[word_idx];
                    self.update_word(dst, word_idx, cur ^ apply);
                    proof {
                        assert forall|c: int| 0 <= c < 64 * wpr implies #[trigger] row_bit(self@[dst as int], c) == (
                        row_bit(d0, c) != (c < (word_idx + 1) * 64 && q_inv@[c] >= start_logical_col && row_bit(
                            s0,
                            c,
                        ))) by {
                            assert(row_bit(before, c) == (row_bit(d0, c) != (c < word_idx * 64 && q_inv@[c]
                                >= start_logical_col && row_bit(s0, c))));
                            if c / 64 == word_idx as int {
                                let p = (c % 64) as u64;
                                lemma_u64_facts(cur, apply, 0, p, 0);
                                assert(word_bit(apply, p) == (word_bit(w0, p) && q_inv@[base + p] >= start_logical_col));
                                assert(base + p == c);
                            }
                        }
                    }
                } else {
                    proof {
                        assert forall|c: int| 0 <= c < 64 * wpr implies #[trigger] row_bit(self@[dst as int], c) == (
                        row_bit(d0, c) != (c < (word_idx + 1) * 64 && q_inv@[c] >= start_logical_col && row_bit(
                            s0,
                            c,
                        ))) by {
                            if c / 64 == word_idx as int {
                                let p = (c % 64) as u64;
                                lemma_u64_facts(0, 0, 0, p, 0);
                                assert(word_bit(apply, p) == (word_bit(w0, p) && q_inv@[base + p] >= start_logical_col));
                                assert(base + p == c);
                            }
                        }
                    }
                }
            } else {
                proof {
                    assert forall|c: int| 0 <= c < 64 * wpr implies #[trigger] row_bit(self@[dst as int], c) == (
                    row_bit(d0, c) != (c < (word_idx + 1) * 64 && q_inv@[c] >= start_logical_col && row_bit(s0, c)))
                        by {
                        if c / 64 == word_idx as int {
                            let p = (c % 64) as u64;
                            lemma_u64_facts(0, 0, 0, p, 0);
                        }
                    }
                }
            }
            word_idx += 1;
        }
        if rem == 0 {
            proof {
                assert forall|c: int| 0 <= c < 64 * wpr implies #[trigger] row_bit(self@[dst as int], c) == (row_bit(
                    d0,
                    c,
                ) != (c < num_inactive && q_inv@[c] >= start_logical_col && row_bit(s0, c))) by {
                    assert(num_inactive == full_words * 64);
                }
            }
            return ;
        }
        let word_idx = full_words;
        let base = full_words * WORD_BITS;
        proof {
            lemma_u64_facts(0, 0, 0, 0, rem as u64);
            assert(word_idx < wpr);
        }
        let rem_mask = (1_u64 << rem) - 1;
        let w0 = self.row_words(src)[word_idx] & rem_mask;
        proof {
            assert(self@[src as int] == s0);
            assert forall|p: u64| p < 64 implies #[trigger] word_bit(w0, p) == (p < rem && word_bit(
                s0[word_idx as int],
                p,
            )) by {
                lemma_mask_bit(s0[word_idx as int], p, rem as u64);
            }
            assert forall|p: u64| p < 64 && #[trigger] word_bit(w0, p) implies base + p < q_inv@.len() by {
            }
        }
        let apply = select_bits(w0, q_inv, base, start_logical_col);
        let cur = self.row_words(dst)[word_idx];
        let ghost before = self@[dst as int];
        self.update_word(dst, word_idx, cur ^ (apply & rem_mask));
        proof {
            assert forall|c: int| 0 <= c < 64 * wpr implies #[trigger] row_bit(self@[dst as int], c) == (row_bit(
                d0,
                c,
            ) != (c < num_inactive && q_inv@[c] >= start_logical_col && row_bit(s0, c))) by {
                assert(row_bit(before, c) == (row_bit(d0, c) != (c < full_words * 64 && q_inv@[c]
                    >= start_logical_col && row_bit(s0, c))));
                if c / 64 == word_idx as int {
                    let p = (c % 64) as u64;
                    lemma_u64_facts(cur, apply, 0, p, rem as u64);
                    assert(word_bit(apply, p) == (word_bit(w0, p) && q_inv@[base + p] >= start_logical_col));
                    assert(base + p == c);
                }
            }
        }
    }

    /// Inverse of the column permutation `q` on its first `n` entries.
    fn build_q_inv(q: &[usize], n: usize) -> (r: Vec<usize>)
        requires
            forall|l: int| 0 <= l < n && l < q@.len() ==> #[trigger] q@[l] < n,
        ensures
            r@.len() == n,
            qperm(q@, n as int) ==> forall|c: int| 0 <= c < n ==> #[trigger] r@[q@[c] as int] == c,
    {
        let mut q_inv = vec![0usize; n];
        let mut logical: usize = 0;
        while logical < n && logical < q.len()
            invariant
                q_inv@.len() == n,
                logical <= n,
                forall|l: int| 0 <= l < n && l < q@.len() ==> #[trigger] q@[l] < n,
                qperm(q@, n as int) ==> forall|c: int| 0 <= c < logical ==> #[trigger] q_inv@[q@[c] as int] == c,
            decreases n - logical,
        {
            let phys = q[logical];
            let ghost before = q_inv@;
            q_inv.set(phys, logical);
            proof {
                if qperm(q@, n as int) {
                    assert forall|c: int| 0 <= c < logical + 1 implies #[trigger] q_inv@[q@[c] as int] == c by {
                        if c < logical {
                            assert(q@[c] != q@[logical as int]);
                            assert(q_inv@[q@[c] as int] == before[q@[c] as int]);
                        }
                    }
                }
            }
            logical += 1;
        }
        q_inv
    }

    fn q_inv_swap(q_inv: &mut Vec<usize>, pi: usize, pj: usize, i: usize, j: usize)
        requires
            pi < old(q_inv)@.len(),
            pj < old(q_inv)@.len(),
        ensures
            final(q_inv)@ == old(q_inv)@.update(pi as int, j).update(pj as int, i),
    {
        q_inv.set(pi, j);
        q_inv.set(pj, i);
    }

    /// One elimination step on packed rows, read as entries: row `kk` keeps
    /// its bit `l` at logical column `i` and has `l` times row `i` added after it.
    proof fn lemma_elim_entries(&self, old_rows: Seq<Seq<u64>>, q: Seq<usize>, q_inv: Seq<usize>, n: int, i: int, kk: int, l: bool)
        requires
            0 <= i < kk < old_rows.len(),
            old_rows.len() == self@.len(),
            n <= 64 * self.spec_wpr(),
            qperm(q, n),
            i < n,
            forall|c: int| 0 <= c < n ==> #[trigger] q_inv[q[c] as int] == c,
            q_inv.len() >= n,
            l == row_bit(old_rows[kk], q[i] as int),
            row_bit(old_rows[i], q[i] as int),
            forall|t: int| 0 <= t < self@.len() && t != kk ==> #[trigger] self@[t] == old_rows[t],
            l ==> forall|c: int|
                0 <= c < 64 * self.spec_wpr() ==> #[trigger] row_bit(self@[kk], c) == (row_bit(old_rows[kk], c) != (c < n
                    && q_inv[c] >= i + 1 && row_bit(old_rows[i], c))),
            !l ==> self@[kk] == old_rows[kk],
        ensures
            ({
                let l8: u8 = if l {
                    1
                } else {
                    0
                };
                let fld = GF2 {  };
                let g = bit_entries(old_rows);
                let g2 = bit_entries(self@);
                &&& fld.spec_mul(l8, g(i, q[i] as int)) == g(kk, q[i] as int)
                &&& fld.spec_mul(l8, 0) == 0
                &&& forall|t: int, phi: int| 0 <= t < old_rows.len() && t != kk ==> #[trigger] g2(t, phi) == g(t, phi)
                &&& forall|c: int|
                    0 <= c < n ==> #[trigger] g2(kk, q[c] as int) == (if c == i {
                        l8
                    } else if c > i {
                        g(kk, q[c] as int) ^ fld.spec_mul(l8, g(i, q[c] as int))
                    } else {
                        g(kk, q[c] as int)
                    })
            }),
    {
        let l8: u8 = if l {
            1
        } else {
            0
        };
        let fld = GF2 {  };
        let g = bit_entries(old_rows);
        let g2 = bit_entries(self@);
        lemma_u8_facts(1, 0, 0, 0, 0);
        lemma_u8_facts(0, 0, 0, 0, 0);
        assert forall|t: int, phi: int| 0 <= t < old_rows.len() && t != kk implies #[trigger] g2(t, phi) == g(t, phi) by {
            assert(self@[t] == old_rows[t]);
        }
        assert forall|c: int| 0 <= c < n implies #[trigger] g2(kk, q[c] as int) == (if c == i {
            l8
        } else if c > i {
            g(kk, q[c] as int) ^ fld.spec_mul(l8, g(i, q[c] as int))
        } else {
            g(kk, q[c] as int)
        }) by {
            assert(q[c] < n);
            assert(q_inv[q[c] as int] == c);
            if l {
                assert(row_bit(self@[kk], q[c] as int) == (row_bit(old_rows[kk], q[c] as int) != (q[c] < n && q_inv[q[c] as int] >= i + 1
                    && row_bit(old_rows[i], q[c] as int))));
            }
        }
    }

    /// Incremental LU over GF(2) on packed rows, with the same pivoting as
    /// [`Matrix::lu_decomp_incr`](crate::algebra::linear_algebra::Matrix::lu_decomp_incr) over GF(2):
    /// rows `0..r` already hold pivots at logical columns `q[0..r]`. Returns the row
    /// permutation of this call and the new rank.
    pub fn lu_decomp_incr_gf2(&mut self, q: &mut Vec<usize>, r: usize, num_inactive: usize) -> (res: (
        Vec<usize>,
        usize,
    ))
        requires
            old(self).wf(),
            num_inactive <= old(self).spec_width(),
            old(q)@.len() >= num_inactive,
            forall|x: int| 0 <= x < num_inactive ==> #[trigger] old(q)@[x] < num_inactive,
            r <= old(self)@.len(),
            r <= num_inactive,
            forall|t: int| 0 <= t < r ==> #[trigger] old(self).bit(t, old(q)@[t] as int),
        ensures
            final(self).wf(),
            final(self).spec_width() == old(self).spec_width(),
            final(self)@.len() == old(self)@.len(),
            final(q)@.len() == old(q)@.len(),
            forall|x: int| 0 <= x < num_inactive ==> #[trigger] final(q)@[x] < num_inactive,
            is_permutation(old(q)@.take(num_inactive as int), num_inactive as int) ==> is_permutation(
                final(q)@.take(num_inactive as int),
                num_inactive as int,
            ),
            is_permutation(res.0@, old(self)@.len() as int),
            r <= res.1 <= old(self)@.len(),
            res.1 <= num_inactive,
            forall|t: int| 0 <= t < res.1 ==> #[trigger] final(self).bit(t, final(q)@[t] as int),
            forall|t: int| 0 <= t < r ==> #[trigger] res.0@[t] == t,
            forall|t: int| 0 <= t < r ==> #[trigger] final(q)@[t] == old(q)@[t],
            is_permutation(old(q)@.take(num_inactive as int), num_inactive as int) ==> forall|i: int, c: int|
                0 <= i < old(self)@.len() && 0 <= c < num_inactive ==> #[trigger] expanded_entry(
                    GF2 {  },
                    bit_entries(old(self)@),
                    old(q)@,
                    r as int,
                    num_inactive as int,
                    res.0@[i] as int,
                    final(q)@[c] as int,
                ) == lu_product_q(GF2 {  }, bit_entries(final(self)@), final(q)@, res.1 as int, i, c),
    {
        let m = self.num_rows();
        let n = num_inactive;
        let ghost q0 = q@;
        let ghost s0 = self@;
        let ghost good = is_permutation(q0.take(n as int), n as int);
        let ghost fld = GF2 {  };
        let ghost e = expanded(fld, bit_entries(s0), q0, r as int, n as int);
        let mut p = identity_permutation(m);
        proof {
            if good {
                lemma_qperm(q0, n as int);
                lemma_q_init(fld, bit_entries(s0), q0, p@, m as int, n as int, r as int);
            }
        }
        let mut q_inv = Self::build_q_inv(q.as_slice(), n);
        let mut i: usize = 0;
        while i < r
            invariant
                forall|t: int| 0 <= t < r ==> #[trigger] p@[t] == t,
                forall|t: int| 0 <= t < r ==> #[trigger] q@[t] == q0[t],
                self.wf(),
                self.spec_width() == old(self).spec_width(),
                m == self@.len(),
                n == num_inactive,
                n <= self.spec_width(),
                q@ == q0,
                q@.len() >= n,
                q_inv@.len() == n,
                forall|x: int| 0 <= x < n ==> #[trigger] q@[x] < n,
                r <= m,
                r <= n,
                i <= r,
                forall|t: int| 0 <= t < r ==> #[trigger] self@[t] == old(self)@[t],
                forall|t: int| 0 <= t < r ==> #[trigger] old(self).bit(t, q0[t] as int),
                s0 == old(self)@,
                p@ == Seq::new(m as nat, |x: int| x as usize),
                good ==> qperm(q@, n as int),
                good ==> forall|c: int| 0 <= c < n ==> #[trigger] q_inv@[q@[c] as int] == c,
                good ==> qstep(fld, e, bit_entries(self@), q@, p@, m as int, n as int, r as int, i as int, r as int),
            decreases r - i,
        {
            let mut k = r;
            while k < m
                invariant
                    forall|t: int| 0 <= t < r ==> #[trigger] p@[t] == t,
                    forall|t: int| 0 <= t < r ==> #[trigger] q@[t] == q0[t],
                    self.wf(),
                    self.spec_width() == old(self).spec_width(),
                    m == self@.len(),
                    n <= self.spec_width(),
                    q@.len() >= n,
                    q_inv@.len() == n,
                    forall|x: int| 0 <= x < n ==> #[trigger] q@[x] < n,
                    i < r,
                    r <= n,
                    r <= k <= m,
                    forall|t: int| 0 <= t < r ==> #[trigger] self@[t] == old(self)@[t],
                    forall|t: int| 0 <= t < r ==> #[trigger] old(self).bit(t, q0[t] as int),
                    q@ == q0,
                    n == num_inactive,
                    good ==> qperm(q@, n as int),
                    good ==> forall|c: int| 0 <= c < n ==> #[trigger] q_inv@[q@[c] as int] == c,
                    good ==> qstep(fld, e, bit_entries(self@), q@, p@, m as int, n as int, r as int, i as int, k as int),
                decreases m - k,
            {
                let ghost s_row = self@;
                let l = self.get_logical(k, q.as_slice(), i);
                if l {
                    self.xor_rows_logical_upper(k, i, q_inv.as_slice(), i + 1, n);
                }
                proof {
                    if good {
                        assert(old(self).bit(i as int, q0[i as int] as int));
                        assert(s_row[i as int] == old(self)@[i as int]);
                        self.lemma_elim_entries(s_row, q@, q_inv@, n as int, i as int, k as int, l);
                        let l8: u8 = if l {
                            1
                        } else {
                            0
                        };
                        lemma_q_elim(fld, e, bit_entries(s_row), bit_entries(self@), q@, p@, m as int, n as int, r as int, i as int, k as int, l8);
                    }
                }
                k += 1;
            }
            proof {
                if good {
                    lemma_q_next(fld, e, bit_entries(self@), q@, p@, m as int, n as int, r as int, i as int);
                }
            }
            i += 1;
        }
        proof {
            assert forall|t: int| 0 <= t < r implies #[trigger] self.bit(t, q@[t] as int) by {
                assert(self@[t] == old(self)@[t]);
                assert(old(self).bit(t, q0[t] as int));
            }
            if good {
                lemma_q_to_outer(fld, e, bit_entries(self@), q@, p@, m as int, n as int, r as int);
            }
        }
        let mut i = r;
        let mut j = r;
        let mut done = r == m;
        while j < n && !done
            invariant
                forall|t: int| 0 <= t < r ==> #[trigger] p@[t] == t,
                forall|t: int| 0 <= t < r ==> #[trigger] q@[t] == q0[t],
                r <= i,
                self.wf(),
                self.spec_width() == old(self).spec_width(),
                m == self@.len(),
                n == num_inactive,
                n <= self.spec_width(),
                q@.len() == q0.len(),
                q@.len() >= n,
                q_inv@.len() == n,
                forall|x: int| 0 <= x < n ==> #[trigger] q@[x] < n,
                is_permutation(q0.take(n as int), n as int) ==> is_permutation(q@.take(n as int), n as int),
                is_permutation(p@, m as int),
                r <= i <= m,
                i <= j <= n,
                forall|t: int| 0 <= t < i ==> #[trigger] self.bit(t, q@[t] as int),
                done ==> i == m,
                !done ==> i < m,
                good ==> qperm(q@, n as int),
                good ==> forall|c: int| 0 <= c < n ==> #[trigger] q_inv@[q@[c] as int] == c,
                good ==> qouter(fld, e, bit_entries(self@), q@, p@, m as int, n as int, i as int, j as int),
            decreases n - j,
        {
            let ghost s_start = *self;
            let ghost q_start = q@;
            let mut pivot_found = false;
            let mut k = i;
            while k < m && !pivot_found
                invariant
                    forall|t: int| 0 <= t < r ==> #[trigger] p@[t] == t,
                    forall|t: int| 0 <= t < r ==> #[trigger] q@[t] == q0[t],
                    r <= i,
                    self.wf(),
                    q@ == q_start,
                    self.spec_width() == old(self).spec_width(),
                    m == self@.len(),
                    n <= self.spec_width(),
                    is_permutation(p@, m as int),
                    q@.len() >= n,
                    forall|x: int| 0 <= x < n ==> #[trigger] q@[x] < n,
                    i < m,
                    i <= k,
                    j < n,
                    pivot_found ==> self.bit(i as int, q@[j as int] as int),
                    forall|t: int| 0 <= t < i ==> #[trigger] self@[t] == s_start@[t],
                    !pivot_found ==> forall|t: int| i <= t < k ==> #[trigger] bit_entries(self@)(t, q@[j as int] as int) == 0,
                    good ==> qouter(fld, e, bit_entries(self@), q@, p@, m as int, n as int, i as int, j as int),
                decreases m - k + (if pivot_found { 0int } else { 1int }),
            {
                if self.get_logical(k, q.as_slice(), j) {
                    proof {
                        lemma_swap_keeps_permutation(p@, m as int, i as int, k as int);
                        if good {
                            let s2 = self@.update(i as int, self@[k as int]).update(k as int, self@[i as int]);
                            lemma_q_swap_rows(fld, e, bit_entries(self@), bit_entries(s2), q@, p@, m as int, n as int, i as int, j as int, k as int);
                        }
                    }
                    swap_entries(&mut p, i, k);
                    self.swap_rows(i, k);
                    pivot_found = true;
                } else {
                    k += 1;
                }
            }
            proof {
                assert forall|t: int| 0 <= t < i implies #[trigger] self.bit(t, q@[t] as int) by {
                    assert(s_start.bit(t, q_start[t] as int));
                    assert(self@[t] == s_start@[t]);
                }
            }
            if pivot_found {
                let pi = q[i];
                let pj = q[j];
                proof {
                    if is_permutation(q0.take(n as int), n as int) {
                        lemma_swap_keeps_permutation(q@.take(n as int), n as int, i as int, j as int);
                        assert(q@.update(i as int, q@[j as int]).update(j as int, q@[i as int]).take(n as int)
                            =~= q@.take(n as int).update(i as int, q@[j as int]).update(j as int, q@[i as int]));
                    }
                }
                proof {
                    if good {
                        lemma_q_swap_cols(fld, e, bit_entries(self@), q@, p@, m as int, n as int, i as int, j as int);
                    }
                }
                let ghost q_before = q@;
                let ghost qi_before = q_inv@;
                swap_entries(q, i, j);
                Self::q_inv_swap(&mut q_inv, pi, pj, i, j);
                proof {
                    if good {
                        assert forall|c: int, d: int| 0 <= c < n && 0 <= d < n && c != d implies #[trigger] q@[c] != #[trigger] q@[d] by {
                            let sc = if c == i {
                                j as int
                            } else if c == j {
                                i as int
                            } else {
                                c
                            };
                            let sd = if d == i {
                                j as int
                            } else if d == j {
                                i as int
                            } else {
                                d
                            };
                            assert(q@[c] == q_before[sc]);
                            assert(q@[d] == q_before[sd]);
                        }
                        assert(qperm(q@, n as int));
                        assert forall|c: int| 0 <= c < n implies #[trigger] q_inv@[q@[c] as int] == c by {
                            if c != i && c != j {
                                assert(q_before[c] != q_before[i as int]);
                                assert(q_before[c] != q_before[j as int]);
                            }
                        }
                        lemma_q_start(fld, e, bit_entries(self@), q@, p@, m as int, n as int, i as int);
                    }
                }
                let mut kk = i + 1;
                while kk < m
                    invariant
                        forall|t: int| 0 <= t < r ==> #[trigger] p@[t] == t,
                        forall|t: int| 0 <= t < r ==> #[trigger] q@[t] == q0[t],
                        r <= i,
                        self.wf(),
                        self.spec_width() == old(self).spec_width(),
                        m == self@.len(),
                        n <= self.spec_width(),
                        q@.len() >= n,
                        q_inv@.len() == n,
                        forall|x: int| 0 <= x < n ==> #[trigger] q@[x] < n,
                        i < m,
                        i <= j,
                        j < n,
                        i + 1 <= kk <= m,
                        forall|t: int| 0 <= t <= i ==> #[trigger] self.bit(t, q@[t] as int),
                        n == num_inactive,
                        good ==> qperm(q@, n as int),
                        good ==> forall|c: int| 0 <= c < n ==> #[trigger] q_inv@[q@[c] as int] == c,
                        good ==> qstep(fld, e, bit_entries(self@), q@, p@, m as int, n as int, i + 1, i as int, kk as int),
                        good ==> qzero(bit_entries(self@), q@, m as int, i as int, i as int, j as int),
                    decreases m - kk,
                {
                    let ghost s_row = *self;
                    let l = self.get_logical(kk, q.as_slice(), i);
                    if l {
                        self.xor_rows_logical_upper(kk, i, q_inv.as_slice(), i + 1, n);
                        assert forall|t: int| 0 <= t <= i implies #[trigger] self.bit(t, q@[t] as int) by {
                            assert(s_row.bit(t, q@[t] as int));
                            assert(self@[t] == s_row@[t]);
                        }
                    }
                    proof {
                        if good {
                            assert(s_row.bit(i as int, q@[i as int] as int));
                            self.lemma_elim_entries(s_row@, q@, q_inv@, n as int, i as int, kk as int, l);
                            let l8: u8 = if l {
                                1
                            } else {
                                0
                            };
                            lemma_q_elim(fld, e, bit_entries(s_row@), bit_entries(self@), q@, p@, m as int, n as int, i + 1, i as int, kk as int, l8);
                            lemma_q_zero_elim(fld, bit_entries(s_row@), bit_entries(self@), q@, m as int, n as int, i as int, j as int, kk as int, l8);
                        }
                    }
                    kk += 1;
                }
                proof {
                    if good {
                        lemma_q_finish(fld, e, bit_entries(self@), q@, p@, m as int, n as int, i as int, j as int);
                    }
                }
                i += 1;
                if i == m {
                    done = true;
                }
            } else {
                proof {
                    if good {
                        lemma_q_no_pivot(fld, e, bit_entries(self@), q@, p@, m as int, n as int, i as int, j as int);
                    }
                }
            }
            j += 1;
        }
        proof {
            if good {
                lemma_q_done(fld, e, bit_entries(self@), q@, p@, m as int, n as int, i as int, j as int);
                assert forall|rho: int, c: int| 0 <= rho < m && 0 <= c < n implies #[trigger] expanded_entry(
                    fld,
                    bit_entries(s0),
                    q0,
                    r as int,
                    n as int,
                    p@[rho] as int,
                    q@[c] as int,
                ) == lu_product_q(fld, bit_entries(self@), q@, i as int, rho, c) by {
                    assert(e(p@[rho] as int, q@[c] as int) == lu_product_q(fld, bit_entries(self@), q@, i as int, rho, c));
                }
            }
        }
        (p, i)
    }
}

/// Set columns `c < n` of a packed row, in increasing order.
pub open spec fn set_bits(row: Seq<u64>, n: int) -> Seq<usize>
    decreases n,
{
    if n <= 0 {
        Seq::empty()
    } else {
        let prev = set_bits(row, n - 1);
        if row_bit(row, n - 1) {
            prev.push((n - 1) as usize)
        } else {
            prev
        }
    }
}

/// XOR with the same word twice cancels.
proof fn lemma_xor_cancel(a: u64, b: u64)
    by (bit_vector)
    ensures
        (a ^ b) ^ b == a,
{
}

/// XORing the same source row into a row twice leaves the row unchanged:
/// [`BinaryMatrix::xor_rows`] applied twice with the same rows is the identity.
pub proof fn lemma_xor_prefix_twice(dst: Seq<u64>, src: Seq<u64>, num: int)
    ensures
        xor_prefix(xor_prefix(dst, src, num), src, num) == dst,
{
    let once = xor_prefix(dst, src, num);
    let twice = xor_prefix(once, src, num);
    assert forall|i: int| 0 <= i < dst.len() implies #[trigger] twice[i] == dst[i] by {
        if i < num / 64 {
            lemma_xor_cancel(dst[i], src[i]);
        } else if i == num / 64 && num % 64 != 0 {
            lemma_xor_cancel(dst[i], src[i] & low_mask((num % 64) as u64));
        }
    }
    assert(twice =~= dst);
}

/// Every column listed by [`set_bits`] is below `n`.
pub proof fn lemma_set_bits_below(row: Seq<u64>, n: int)
    requires
        n <= usize::MAX,
    ensures
        forall|i: int| 0 <= i < set_bits(row, n).len() ==> #[trigger] set_bits(row, n)[i] < n,
    decreases n,
{
    if n > 0 {
        lemma_set_bits_below(row, n - 1);
        let prev = set_bits(row, n - 1);
        assert forall|i: int| 0 <= i < set_bits(row, n).len() implies #[trigger] set_bits(row, n)[i] < n by {
            if i < prev.len() {
                assert(set_bits(row, n)[i] == prev[i]);
            }
        }
    }
}

/// [`BinaryMatrix::iter_set_bits`] lists exactly the columns where
/// [`BinaryMatrix::row_bytes`] holds a one, in increasing order.
pub proof fn lemma_set_bits_match_row_bytes(row: Seq<u64>, n: int)
    requires
        0 <= n <= usize::MAX,
    ensures
        forall|c: int| 0 <= c < n ==> (set_bits(row, n).contains(c as usize) <==> #[trigger] row_bytes_spec(row, n)[c] == 1u8),
        forall|i: int, j: int| 0 <= i < j < set_bits(row, n).len() ==> #[trigger] set_bits(row, n)[i] < #[trigger] set_bits(row, n)[j],
    decreases n,
{
    if n > 0 {
        lemma_set_bits_match_row_bytes(row, n - 1);
        lemma_set_bits_below(row, n - 1);
        let prev = set_bits(row, n - 1);
        let cur = set_bits(row, n);
        assert forall|c: int| 0 <= c < n implies (cur.contains(c as usize) <==> #[trigger] row_bytes_spec(row, n)[c] == 1u8) by {
            assert(row_bytes_spec(row, n)[c] == (if row_bit(row, c) { 1u8 } else { 0u8 }));
            if c < n - 1 {
                assert(row_bytes_spec(row, n - 1)[c] == row_bytes_spec(row, n)[c]);
                if cur.contains(c as usize) {
                    let i = choose|i: int| 0 <= i < cur.len() && cur[i] == c as usize;
                    if i < prev.len() {
                        assert(prev[i] == c as usize);
                    }
                }
                if prev.contains(c as usize) {
                    let i = choose|i: int| 0 <= i < prev.len() && prev[i] == c as usize;
                    assert(cur[i] == c as usize);
                }
            } else {
                if cur.contains(c as usize) {
                    let i = choose|i: int| 0 <= i < cur.len() && cur[i] == c as usize;
                    if i < prev.len() {
                        assert(prev[i] < n - 1);
                    }
                }
                if row_bit(row, c) {
                    assert(cur[prev.len() as int] == c as usize);
                }
            }
        }
        assert forall|i: int, j: int| 0 <= i < j < cur.len() implies #[trigger] cur[i] < #[trigger] cur[j] by {
            if j < prev.len() {
                assert(cur[i] == prev[i] && cur[j] == prev[j]);
            } else {
                assert(cur[i] == prev[i]);
            }
        }
    }
}

/// A row of `n` zero words.
pub fn zero_words(n: usize) -> (r: Vec<u64>)
    ensures
        r@ == Seq::new(n as nat, |i: int| 0u64),
{
    let mut v: Vec<u64> = Vec::with_capacity(n);
    let mut i: usize = 0;
    while i < n
        invariant
            i <= n,
            v@ == Seq::new(i as nat, |j: int| 0u64),
        decreases n - i,
    {
        v.push(0u64);
        i += 1;
    }
    v
}

/// Bit `j` of `m >> s` is bit `s + j` of `m`.
proof fn lemma_shift_bit(m: u64, s: u64, j: u64)
    by (bit_vector)
    requires
        s < 64,
        j < 64,
    ensures
        (((m >> s) >> j) & 1u64 == 1u64) == (s + j < 64 && ((m >> ((s + j) as u64)) & 1u64 == 1u64)),
{
}

/// No column of `row` in `p..c` is set: the set columns below `c` are those below `p`.
pub proof fn lemma_set_bits_gap(row: Seq<u64>, p: int, c: int)
    requires
        0 <= p <= c,
        forall|x: int| p <= x < c ==> !row_bit(row, x),
    ensures
        set_bits(row, c) == set_bits(row, p),
    decreases c - p,
{
    if c > p {
        lemma_set_bits_gap(row, p, c - 1);
    }
}

/// Cursor over the set columns `c < num_inactive` of a packed row, in
/// increasing order.
pub struct RowSetBitsIter {
    words: Vec<u64>,
    num_inactive: usize,
    word_idx: usize,
    sub_word_offset: usize,
}

impl RowSetBitsIter {
    /// The packed row.
    pub closed spec fn row(&self) -> Seq<u64> {
        self.words@
    }

    /// Number of live columns.
    pub closed spec fn num(&self) -> int {
        self.num_inactive as int
    }

    /// First column not yet visited.
    pub closed spec fn pos(&self) -> int {
        self.word_idx * 64 + self.sub_word_offset
    }

    /// The row holds the live columns and the position is in range.
    pub closed spec fn wf(&self) -> bool {
        &&& self.num_inactive <= 64 * self.words@.len()
        &&& self.num_inactive + 64 < usize::MAX
        &&& self.sub_word_offset <= 64
        &&& self.word_idx * 64 <= self.num_inactive + 64
    }

    /// A cursor at column zero.
    pub fn new(words: Vec<u64>, num_inactive: usize) -> (r: Self)
        requires
            num_inactive <= 64 * words@.len(),
            num_inactive + 64 < usize::MAX,
        ensures
            r.wf(),
            r.row() == words@,
            r.num() == num_inactive,
            r.pos() == 0,
    {
        RowSetBitsIter { words, num_inactive, word_idx: 0, sub_word_offset: 0 }
    }

    /// The next set column at or after the position (which moves past it),
    /// or `None` when no live column from the position on is set.
    pub fn next(&mut self) -> (r: Option<usize>)
        requires
            old(self).wf(),
        ensures
            final(self).wf(),
            final(self).row() == old(self).row(),
            final(self).num() == old(self).num(),
            r matches Some(c) ==> {
                &&& old(self).pos() <= c < old(self).num()
                &&& row_bit(old(self).row(), c as int)
                &&& forall|x: int| old(self).pos() <= x < c ==> !row_bit(old(self).row(), x)
                &&& final(self).pos() == c + 1
            },
            r is None ==> forall|x: int| old(self).pos() <= x < old(self).num() ==> !row_bit(old(self).row(), x),
    {
        loop
            invariant
                self.wf(),
                self.words@ == old(self).words@,
                self.num_inactive == old(self).num_inactive,
                old(self).pos() <= self.pos(),
                forall|x: int| old(self).pos() <= x < self.pos() && x < self.num_inactive ==> !row_bit(self.words@, x),
            decreases (self.num_inactive + 63) / 64 - self.word_idx,
        {
            let global_base = self.word_idx * 64;
            if global_base >= self.num_inactive {
                return None;
            }
            let rest = self.num_inactive - global_base;
            let bits_in_word: usize = if rest < 64 {
                rest
            } else {
                64
            };
            if self.sub_word_offset >= bits_in_word {
                self.word_idx += 1;
                self.sub_word_offset = 0;
                continue;
            }
            proof {
                assert(self.word_idx < self.words@.len());
            }
            let word = self.words[self.word_idx];
            let mut w = word;
            if bits_in_word < 64 {
                proof {
                    lemma_u64_facts(0, 0, 0, 0, bits_in_word as u64);
                }
                w &= (1_u64 << bits_in_word) - 1;
            }
            let ghost m = w;
            proof {
                assert forall|p: u64| p < 64 implies #[trigger] word_bit(m, p) == (p < bits_in_word && word_bit(word, p)) by {
                    if bits_in_word < 64 {
                        lemma_mask_bit(word, p, bits_in_word as u64);
                    }
                }
            }
            let sub = self.sub_word_offset;
            w >>= sub;
            proof {
                assert forall|j: u64| j < 64 implies #[trigger] word_bit(w, j) == (sub + j < 64 && word_bit(m, (sub + j) as u64)) by {
                    lemma_shift_bit(m, sub as u64, j);
                }
            }
            if w != 0 {
                let tz = w.trailing_zeros() as usize;
                proof {
                    vstd::std_specs::bits::axiom_u64_trailing_zeros(w);
                    assert(word_bit(w, tz as u64));
                    assert(word_bit(m, (sub + tz) as u64));
                    let c = global_base + sub + tz;
                    assert(c / 64 == self.word_idx as int);
                    assert(c % 64 == sub + tz);
                    assert forall|x: int| old(self).pos() <= x < c implies !row_bit(self.words@, x) by {
                        if x >= self.pos() {
                            let j = (x - self.pos()) as u64;
                            assert(j < tz);
                            assert((w >> j) & 1u64 == 0u64);
                            assert(!word_bit(w, j));
                            assert(x / 64 == self.word_idx as int);
                            assert(x % 64 == sub + j);
                        }
                    }
                }
                let seq = global_base + sub + tz;
                self.sub_word_offset = sub + tz + 1;
                return Some(seq);
            }
            proof {
                assert forall|x: int| old(self).pos() <= x < (self.word_idx + 1) * 64 && x < self.num_inactive implies !row_bit(
                    self.words@,
                    x,
                ) by {
                    if x >= self.pos() {
                        let j = (x - self.pos()) as u64;
                        assert(x / 64 == self.word_idx as int);
                        assert(x % 64 == sub + j);
                        lemma_u64_facts(0, 0, 0, j, 0);
                        assert(!word_bit(w, j));
                    }
                }
            }
            self.word_idx += 1;
            self.sub_word_offset = 0;
        }
    }
}

} // verus!
