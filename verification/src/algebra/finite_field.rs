use vstd::prelude::*;

verus! {

/// Finite field operations over `u8` elements.
///
/// Addition is XOR in every field of characteristic two used here;
/// multiplication, inversion and division are field specific and are
/// described by the spec functions of the implementation.
pub trait Field {
    /// Value of `mul(a, b)`.
    spec fn spec_mul(&self, a: u8, b: u8) -> u8;

    /// Value of `inverse(a)` for `a != 0`.
    spec fn spec_inverse(&self, a: u8) -> u8;

    /// Value of `divide(a, b)` for `b != 0`.
    spec fn spec_divide(&self, a: u8, b: u8) -> u8;

    /// Field addition (bitwise XOR).
    fn add(&self, a: u8, b: u8) -> (r: u8)
        ensures
            r == a ^ b,
    {
        a ^ b
    }

    /// Field multiplication.
    fn mul(&self, a: u8, b: u8) -> (r: u8)
        ensures
            r == self.spec_mul(a, b),
    ;

    /// Multiplicative inverse of a non-zero element.
    fn inverse(&self, a: u8) -> (r: u8)
        requires
            a != 0,
        ensures
            r == self.spec_inverse(a),
    ;

    /// Division by a non-zero element.
    fn divide(&self, a: u8, b: u8) -> (r: u8)
        requires
            b != 0,
        ensures
            r == self.spec_divide(a, b),
    ;
}

/// Monic primitive degree-8 polynomials over GF(2) for generator `0x02` (not AES `0x11B`).
pub const PRIMITIVE_POLYNOMIALS: [u16; 16] = [
    0x11Du16, 0x12Bu16, 0x12Du16, 0x14Du16, 0x15Fu16, 0x163u16, 0x165u16, 0x169u16, 0x171u16,
    0x187u16, 0x18Du16, 0x1A9u16, 0x1C3u16, 0x1CFu16, 0x1E7u16, 0x1F5u16,
];

/// The whitelist of primitive polynomials, as a sequence.
pub open spec fn primitive_polynomials() -> Seq<u16> {
    seq![
        0x11Du16, 0x12Bu16, 0x12Du16, 0x14Du16, 0x15Fu16, 0x163u16, 0x165u16, 0x169u16, 0x171u16,
        0x187u16, 0x18Du16, 0x1A9u16, 0x1C3u16, 0x1CFu16, 0x1E7u16, 0x1F5u16,
    ]
}

/// Whether `pp` is one of the whitelisted primitive polynomials.
pub open spec fn is_primitive_polynomial_spec(pp: u16) -> bool {
    primitive_polynomials().contains(pp)
}

/// Returns true if `pp` is one of [`PRIMITIVE_POLYNOMIALS`].
pub fn is_primitive_polynomial(pp: u16) -> (r: bool)
    ensures
        r == is_primitive_polynomial_spec(pp),
{
    let table = PRIMITIVE_POLYNOMIALS;
    assert(table@ == primitive_polynomials());
    let mut i: usize = 0;
    while i < 16
        invariant
            i <= 16,
            table@ == primitive_polynomials(),
            forall|j: int| 0 <= j < i ==> primitive_polynomials()[j] != pp,
        decreases 16 - i,
    {
        if table[i] == pp {
            assert(primitive_polynomials()[i as int] == pp);
            return true;
        }
        i += 1;
    }
    assert(!primitive_polynomials().contains(pp));
    false
}

/// Error from [`GF256::try_new_with_primitive_polynomial`]: the rejected polynomial.
#[derive(Debug, Clone, Copy, PartialEq, Eq, Structural)]
pub struct InvalidPrimitivePolynomial(pub u16);

/// GF(2) for LU over 0/1 matrices (binary HDPC sessions).
pub struct GF2 {}

impl Field for GF2 {
    open spec fn spec_mul(&self, a: u8, b: u8) -> u8 {
        if a == 0 || b == 0 {
            0
        } else {
            1
        }
    }

    open spec fn spec_inverse(&self, a: u8) -> u8 {
        1
    }

    open spec fn spec_divide(&self, a: u8, b: u8) -> u8 {
        a
    }

    fn mul(&self, a: u8, b: u8) -> (r: u8) {
        if a == 0 || b == 0 {
            0
        } else {
            1
        }
    }

    fn inverse(&self, a: u8) -> (r: u8) {
        1
    }

    fn divide(&self, a: u8, b: u8) -> (r: u8) {
        a
    }
}

impl GF2 {
    /// Creates the (stateless) GF(2) field.
    pub fn new() -> (r: Self) {
        GF2 {  }
    }
}

impl Default for GF2 {
    fn default() -> (r: Self) {
        GF2::new()
    }
}

/// Multiplication by `x` modulo `x^8 + poly` (carry-less shift with reduction).
pub open spec fn xtime(a: u8, poly: u8) -> u8 {
    if a & 0x80u8 != 0 {
        (a << 1u8) ^ poly
    } else {
        a << 1u8
    }
}

/// Product of `a` and `b` in GF(2)[x] / (x^8 + poly), by shift-and-add over the bits of `b`.
pub open spec fn gf_mul(a: u8, b: u8, poly: u8) -> u8
    decreases b,
{
    if b == 0 {
        0u8
    } else {
        proof {
            lemma_u8_facts(b, 0, 0, 0, poly);
        }
        let rest = gf_mul(xtime(a, poly), b >> 1u8, poly);
        if b & 1u8 != 0u8 {
            a ^ rest
        } else {
            rest
        }
    }
}

/// Byte identities used by the field proofs.
pub proof fn lemma_u8_facts(w: u8, x: u8, y: u8, z: u8, p: u8)
    by (bit_vector)
    ensures
        w != 0u8 ==> w >> 1u8 < w,
        w ^ 0u8 == w,
        0u8 ^ w == w,
        w ^ w == 0u8,
        (w ^ x) ^ y == w ^ (x ^ y),
        (w ^ x) ^ (y ^ z) == (w ^ y) ^ (x ^ z),
        xtime(w ^ x, p) == xtime(w, p) ^ xtime(x, p),
        xtime(0u8, p) == 0u8,
        xtime(1u8, p) == 2u8,
        w < 128u8 ==> xtime(w, p) == w << 1u8,
        w >= 128u8 ==> xtime(w, p) == (w << 1u8) ^ p,
        1u8 >> 1u8 == 0u8,
        1u8 & 1u8 != 0u8,
        2u8 >> 1u8 == 1u8,
        2u8 & 1u8 == 0u8,
{
}

/// Shift identities for multiplying by a power of `x`.
proof fn lemma_shift_facts(k: u8, b: u8, a: u8, rest: u8, p: u8)
    by (bit_vector)
    ensures
        a == 1u8 << k && k < 7u8 ==> xtime(a, p) == 1u8 << (k + 1) as u8,
        k < 7u8 && (b as u16) < (1u16 << (8u8 - k) as u16) ==> ((b >> 1u8) as u16) < (1u16 << (8u8
            - (k + 1) as u8) as u16),
        a == 1u8 << k && k < 7u8 && rest == (b >> 1u8) << (k + 1) as u8 && (b as u16) < (1u16 << (
        8u8 - k) as u16) ==> (if b & 1u8 != 0u8 {
            a ^ rest
        } else {
            rest
        }) == b << k,
        k == 7u8 && b != 0u8 && (b as u16) < (1u16 << (8u8 - k) as u16) ==> b == 1u8,
        a == 1u8 << k && k == 7u8 && b == 1u8 && rest == 0u8 ==> (if b & 1u8 != 0u8 {
            a ^ rest
        } else {
            rest
        }) == b << k,
        0u8 << k == 0u8,
        1u8 << 0u8 == 1u8,
        (b as u16) < (1u16 << (8u8 - 0u8) as u16),
        b << 0u8 == b,
{
}

/// Conversions between a primitive polynomial and its reduction byte.
proof fn lemma_u16_facts(pp: u16, q: u8)
    by (bit_vector)
    ensures
        0x100u16 <= pp < 0x200u16 ==> (0x100u16 + ((pp & 0xFFu16) as u8) as u16) as u16 == pp,
        (0x100u16 + q as u16) as u16 == 0x11Du16 ==> q == 0x1Du8,
{
}

/// `j` is the least non-zero element whose product with `a` is one, or zero
/// when no such element exists.
pub open spec fn is_least_inverse(a: u8, j: u8, poly: u8) -> bool {
    &&& j != 0 ==> gf_mul(a, j, poly) == 1 && forall|k: u8| 1 <= k < j ==> gf_mul(a, k, poly) != 1
    &&& j == 0 ==> forall|k: u8| 1 <= k ==> gf_mul(a, k, poly) != 1
}

/// The least inverse of `a`: the value `j` with [`is_least_inverse`]`(a, j, poly)`.
pub open spec fn least_inverse(a: u8, poly: u8) -> u8 {
    choose|j: u8| is_least_inverse(a, j, poly)
}

/// At most one value is the least inverse of `a`.
pub proof fn lemma_least_inverse_unique(a: u8, j1: u8, j2: u8, poly: u8)
    requires
        is_least_inverse(a, j1, poly),
        is_least_inverse(a, j2, poly),
    ensures
        j1 == j2,
{
    if j1 != 0 && j2 != 0 {
        if j1 < j2 {
            assert(gf_mul(a, j1, poly) != 1);
        } else if j2 < j1 {
            assert(gf_mul(a, j2, poly) != 1);
        }
    } else if j1 != 0 {
        assert(gf_mul(a, j1, poly) != 1);
    } else if j2 != 0 {
        assert(gf_mul(a, j2, poly) != 1);
    }
}

/// Zero times anything is zero.
pub proof fn lemma_gf_mul_zero_left(b: u8, poly: u8)
    ensures
        gf_mul(0, b, poly) == 0,
    decreases b,
{
    if b != 0 {
        lemma_u8_facts(b, 0, 0, 0, poly);
        lemma_u8_facts(0, 0, 0, 0, poly);
        lemma_gf_mul_zero_left(b >> 1u8, poly);
    }
}

/// One is a right identity.
pub proof fn lemma_gf_mul_one_right(a: u8, poly: u8)
    ensures
        gf_mul(a, 1, poly) == a,
{
    lemma_u8_facts(a, 0, 0, 0, poly);
    assert(gf_mul(xtime(a, poly), 0, poly) == 0);
}

/// Multiplying a power of `x` that does not wrap is a left shift.
proof fn lemma_gf_mul_power_of_x(k: u8, b: u8, poly: u8)
    requires
        k < 8,
        (b as u16) < (1u16 << (8u8 - k) as u16),
    ensures
        gf_mul(1u8 << k, b, poly) == b << k,
    decreases b,
{
    let a = 1u8 << k;
    lemma_shift_facts(k, b, a, 0, poly);
    if b != 0 {
        lemma_u8_facts(b, 0, 0, 0, poly);
        if k < 7 {
            lemma_gf_mul_power_of_x((k + 1) as u8, b >> 1u8, poly);
            let rest = gf_mul(xtime(a, poly), b >> 1u8, poly);
            lemma_shift_facts(k, b, a, rest, poly);
        } else {
            lemma_u8_facts(1, 0, 0, 0, poly);
            let rest = gf_mul(xtime(a, poly), b >> 1u8, poly);
            lemma_shift_facts(k, b, a, rest, poly);
        }
    }
}

/// One is a left identity.
pub proof fn lemma_gf_mul_one_left(b: u8, poly: u8)
    ensures
        gf_mul(1, b, poly) == b,
{
    lemma_shift_facts(0, b, 1, 0, poly);
    lemma_gf_mul_power_of_x(0, b, poly);
}

/// Multiplying by the primitive element `0x02` is one reduction step.
pub proof fn lemma_gf_mul_by_alpha(a: u8, poly: u8)
    ensures
        gf_mul(a, 2, poly) == xtime(a, poly),
{
    lemma_u8_facts(a, 0, 0, 0, poly);
    lemma_gf_mul_one_right(xtime(a, poly), poly);
}

/// Multiplication distributes over addition from the left: `(a + c) * b == a * b + c * b`.
pub proof fn lemma_gf_mul_distributes_left(a: u8, c: u8, b: u8, poly: u8)
    ensures
        gf_mul(a ^ c, b, poly) == gf_mul(a, b, poly) ^ gf_mul(c, b, poly),
    decreases b,
{
    lemma_u8_facts(0, 0, 0, 0, poly);
    if b != 0 {
        lemma_u8_facts(b, 0, 0, 0, poly);
        lemma_u8_facts(a, c, 0, 0, poly);
        lemma_gf_mul_distributes_left(xtime(a, poly), xtime(c, poly), b >> 1u8, poly);
        let ra = gf_mul(xtime(a, poly), b >> 1u8, poly);
        let rc = gf_mul(xtime(c, poly), b >> 1u8, poly);
        lemma_u8_facts(a, c, ra, rc, poly);
    }
}

/// A byte is its low bit plus twice its upper seven bits.
proof fn lemma_u8_split(b: u8, p: u8)
    by (bit_vector)
    ensures
        b >> 1u8 < 128u8,
        (b & 1u8) ^ xtime(b >> 1u8, p) == b,
        b & 1u8 != 0u8 ==> b & 1u8 == 1u8,
{
}

/// Multiplying the left factor by `x` multiplies the product by `x`.
pub proof fn lemma_gf_mul_xtime_left(a: u8, b: u8, poly: u8)
    ensures
        gf_mul(xtime(a, poly), b, poly) == xtime(gf_mul(a, b, poly), poly),
    decreases b,
{
    lemma_u8_facts(0, 0, 0, 0, poly);
    if b != 0 {
        lemma_u8_facts(b, 0, 0, 0, poly);
        lemma_gf_mul_xtime_left(xtime(a, poly), b >> 1u8, poly);
        let r = gf_mul(xtime(a, poly), b >> 1u8, poly);
        lemma_u8_facts(a, r, 0, 0, poly);
    }
}

/// Multiplication is commutative: `a * b == b * a`.
pub proof fn lemma_gf_mul_commutative(a: u8, b: u8, poly: u8)
    ensures
        gf_mul(a, b, poly) == gf_mul(b, a, poly),
    decreases b,
{
    if b == 0 {
        lemma_gf_mul_zero_left(a, poly);
    } else {
        lemma_u8_facts(b, 0, 0, 0, poly);
        lemma_u8_split(b, poly);
        let h = b >> 1u8;
        lemma_gf_mul_xtime_left(a, h, poly);
        lemma_gf_mul_commutative(a, h, poly);
        lemma_gf_mul_xtime_left(h, a, poly);
        lemma_gf_mul_distributes_left(b & 1u8, xtime(h, poly), a, poly);
        lemma_gf_mul_zero_left(a, poly);
        lemma_gf_mul_one_left(a, poly);
        let rest = gf_mul(xtime(a, poly), h, poly);
        lemma_u8_facts(rest, a, 0, 0, poly);
    }
}

/// Multiplication distributes over addition from the right: `a * (b + c) == a * b + a * c`.
pub proof fn lemma_gf_mul_distributes_right(a: u8, b: u8, c: u8, poly: u8)
    ensures
        gf_mul(a, b ^ c, poly) == gf_mul(a, b, poly) ^ gf_mul(a, c, poly),
{
    lemma_gf_mul_commutative(a, b ^ c, poly);
    lemma_gf_mul_distributes_left(b, c, a, poly);
    lemma_gf_mul_commutative(a, b, poly);
    lemma_gf_mul_commutative(a, c, poly);
}

/// Multiplication is associative: `(a * b) * c == a * (b * c)`.
pub proof fn lemma_gf_mul_associative(a: u8, b: u8, c: u8, poly: u8)
    ensures
        gf_mul(gf_mul(a, b, poly), c, poly) == gf_mul(a, gf_mul(b, c, poly), poly),
    decreases c,
{
    lemma_u8_facts(0, 0, 0, 0, poly);
    if c != 0 {
        lemma_u8_facts(c, 0, 0, 0, poly);
        let ab = gf_mul(a, b, poly);
        let h = c >> 1u8;
        let z = gf_mul(b, h, poly);
        lemma_gf_mul_xtime_left(a, b, poly);
        lemma_gf_mul_associative(xtime(a, poly), b, h, poly);
        lemma_gf_mul_xtime_left(b, h, poly);
        let sel = if c & 1u8 != 0u8 {
            b
        } else {
            0u8
        };
        assert(gf_mul(b, c, poly) == sel ^ xtime(z, poly)) by {
            lemma_u8_facts(xtime(z, poly), 0, 0, 0, poly);
        }
        lemma_gf_mul_distributes_right(a, sel, xtime(z, poly), poly);
        lemma_gf_mul_commutative(a, xtime(z, poly), poly);
        lemma_gf_mul_xtime_left(z, a, poly);
        lemma_gf_mul_commutative(z, a, poly);
        lemma_gf_mul_xtime_left(a, z, poly);
        lemma_u8_facts(ab, 0, 0, 0, poly);
        let rest = gf_mul(xtime(ab, poly), h, poly);
        lemma_u8_facts(rest, 0, 0, 0, poly);
    }
}

/// `v` when the low bit of `b` is set, zero otherwise.
pub open spec fn low_bit_select(b: u8, v: u8) -> u8 {
    if b & 1u8 != 0u8 {
        v
    } else {
        0u8
    }
}

/// [`gf_mul`] with its eight shift-and-add steps written out.
pub open spec fn gf_mul_unrolled(a: u8, b: u8, p: u8) -> u8 {
    let a1 = xtime(a, p);
    let a2 = xtime(a1, p);
    let a3 = xtime(a2, p);
    let a4 = xtime(a3, p);
    let a5 = xtime(a4, p);
    let a6 = xtime(a5, p);
    let a7 = xtime(a6, p);
    let b1 = b >> 1u8;
    let b2 = b1 >> 1u8;
    let b3 = b2 >> 1u8;
    let b4 = b3 >> 1u8;
    let b5 = b4 >> 1u8;
    let b6 = b5 >> 1u8;
    let b7 = b6 >> 1u8;
    low_bit_select(b, a) ^ (low_bit_select(b1, a1) ^ (low_bit_select(b2, a2) ^ (low_bit_select(b3, a3)
        ^ (low_bit_select(b4, a4) ^ (low_bit_select(b5, a5) ^ (low_bit_select(b6, a6)
        ^ low_bit_select(b7, a7)))))))
}

/// The reduction bytes of the polynomials in [`PRIMITIVE_POLYNOMIALS`].
pub open spec fn is_reduction_byte(p: u8) -> bool {
    ||| p == 0x1Du8
    ||| p == 0x2Bu8
    ||| p == 0x2Du8
    ||| p == 0x4Du8
    ||| p == 0x5Fu8
    ||| p == 0x63u8
    ||| p == 0x65u8
    ||| p == 0x69u8
    ||| p == 0x71u8
    ||| p == 0x87u8
    ||| p == 0x8Du8
    ||| p == 0xA9u8
    ||| p == 0xC3u8
    ||| p == 0xCFu8
    ||| p == 0xE7u8
    ||| p == 0xF5u8
}

/// The steps of `y == a * a^254` by repeated squaring, each value named.
pub open spec fn inverse_chain(p: u8, a: u8, x2: u8, x4: u8, x8: u8, x16: u8, x32: u8, x64: u8, x128: u8, w1: u8, w2: u8, w3: u8, w4: u8, w5: u8, w6: u8, y: u8) -> bool {
    &&& x2 == gf_mul_unrolled(a, a, p)
    &&& x4 == gf_mul_unrolled(x2, x2, p)
    &&& x8 == gf_mul_unrolled(x4, x4, p)
    &&& x16 == gf_mul_unrolled(x8, x8, p)
    &&& x32 == gf_mul_unrolled(x16, x16, p)
    &&& x64 == gf_mul_unrolled(x32, x32, p)
    &&& x128 == gf_mul_unrolled(x64, x64, p)
    &&& w1 == gf_mul_unrolled(x64, x128, p)
    &&& w2 == gf_mul_unrolled(x32, w1, p)
    &&& w3 == gf_mul_unrolled(x16, w2, p)
    &&& w4 == gf_mul_unrolled(x8, w3, p)
    &&& w5 == gf_mul_unrolled(x4, w4, p)
    &&& w6 == gf_mul_unrolled(x2, w5, p)
    &&& y == gf_mul_unrolled(a, w6, p)
}

/// `a * a^254 == 1` modulo `x^8 + 0x1D` for non-zero `a`.
proof fn lemma_inverse_chain_1d(a: u8, x2: u8, x4: u8, x8: u8, x16: u8, x32: u8, x64: u8, x128: u8, w1: u8, w2: u8, w3: u8, w4: u8, w5: u8, w6: u8, y: u8)
    by (bit_vector)
    requires
        a != 0u8,
        inverse_chain(0x1Du8, a, x2, x4, x8, x16, x32, x64, x128, w1, w2, w3, w4, w5, w6, y),
    ensures
        y == 1u8,
{
}

/// `a * a^254 == 1` modulo `x^8 + 0x2B` for non-zero `a`.
proof fn lemma_inverse_chain_2b(a: u8, x2: u8, x4: u8, x8: u8, x16: u8, x32: u8, x64: u8, x128: u8, w1: u8, w2: u8, w3: u8, w4: u8, w5: u8, w6: u8, y: u8)
    by (bit_vector)
    requires
        a != 0u8,
        inverse_chain(0x2Bu8, a, x2, x4, x8, x16, x32, x64, x128, w1, w2, w3, w4, w5, w6, y),
    ensures
        y == 1u8,
{
}

/// `a * a^254 == 1` modulo `x^8 + 0x2D` for non-zero `a`.
proof fn lemma_inverse_chain_2d(a: u8, x2: u8, x4: u8, x8: u8, x16: u8, x32: u8, x64: u8, x128: u8, w1: u8, w2: u8, w3: u8, w4: u8, w5: u8, w6: u8, y: u8)
    by (bit_vector)
    requires
        a != 0u8,
        inverse_chain(0x2Du8, a, x2, x4, x8, x16, x32, x64, x128, w1, w2, w3, w4, w5, w6, y),
    ensures
        y == 1u8,
{
}

/// `a * a^254 == 1` modulo `x^8 + 0x4D` for non-zero `a`.
proof fn lemma_inverse_chain_4d(a: u8, x2: u8, x4: u8, x8: u8, x16: u8, x32: u8, x64: u8, x128: u8, w1: u8, w2: u8, w3: u8, w4: u8, w5: u8, w6: u8, y: u8)
    by (bit_vector)
    requires
        a != 0u8,
        inverse_chain(0x4Du8, a, x2, x4, x8, x16, x32, x64, x128, w1, w2, w3, w4, w5, w6, y),
    ensures
        y == 1u8,
{
}

/// `a * a^254 == 1` modulo `x^8 + 0x5F` for non-zero `a`.
proof fn lemma_inverse_chain_5f(a: u8, x2: u8, x4: u8, x8: u8, x16: u8, x32: u8, x64: u8, x128: u8, w1: u8, w2: u8, w3: u8, w4: u8, w5: u8, w6: u8, y: u8)
    by (bit_vector)
    requires
        a != 0u8,
        inverse_chain(0x5Fu8, a, x2, x4, x8, x16, x32, x64, x128, w1, w2, w3, w4, w5, w6, y),
    ensures
        y == 1u8,
{
}

/// `a * a^254 == 1` modulo `x^8 + 0x63` for non-zero `a`.
proof fn lemma_inverse_chain_63(a: u8, x2: u8, x4: u8, x8: u8, x16: u8, x32: u8, x64: u8, x128: u8, w1: u8, w2: u8, w3: u8, w4: u8, w5: u8, w6: u8, y: u8)
    by (bit_vector)
    requires
        a != 0u8,
        inverse_chain(0x63u8, a, x2, x4, x8, x16, x32, x64, x128, w1, w2, w3, w4, w5, w6, y),
    ensures
        y == 1u8,
{
}

/// `a * a^254 == 1` modulo `x^8 + 0x65` for non-zero `a`.
proof fn lemma_inverse_chain_65(a: u8, x2: u8, x4: u8, x8: u8, x16: u8, x32: u8, x64: u8, x128: u8, w1: u8, w2: u8, w3: u8, w4: u8, w5: u8, w6: u8, y: u8)
    by (bit_vector)
    requires
        a != 0u8,
        inverse_chain(0x65u8, a, x2, x4, x8, x16, x32, x64, x128, w1, w2, w3, w4, w5, w6, y),
    ensures
        y == 1u8,
{
}

/// `a * a^254 == 1` modulo `x^8 + 0x69` for non-zero `a`.
proof fn lemma_inverse_chain_69(a: u8, x2: u8, x4: u8, x8: u8, x16: u8, x32: u8, x64: u8, x128: u8, w1: u8, w2: u8, w3: u8, w4: u8, w5: u8, w6: u8, y: u8)
    by (bit_vector)
    requires
        a != 0u8,
        inverse_chain(0x69u8, a, x2, x4, x8, x16, x32, x64, x128, w1, w2, w3, w4, w5, w6, y),
    ensures
        y == 1u8,
{
}

/// `a * a^254 == 1` modulo `x^8 + 0x71` for non-zero `a`.
proof fn lemma_inverse_chain_71(a: u8, x2: u8, x4: u8, x8: u8, x16: u8, x32: u8, x64: u8, x128: u8, w1: u8, w2: u8, w3: u8, w4: u8, w5: u8, w6: u8, y: u8)
    by (bit_vector)
    requires
        a != 0u8,
        inverse_chain(0x71u8, a, x2, x4, x8, x16, x32, x64, x128, w1, w2, w3, w4, w5, w6, y),
    ensures
        y == 1u8,
{
}

/// `a * a^254 == 1` modulo `x^8 + 0x87` for non-zero `a`.
proof fn lemma_inverse_chain_87(a: u8, x2: u8, x4: u8, x8: u8, x16: u8, x32: u8, x64: u8, x128: u8, w1: u8, w2: u8, w3: u8, w4: u8, w5: u8, w6: u8, y: u8)
    by (bit_vector)
    requires
        a != 0u8,
        inverse_chain(0x87u8, a, x2, x4, x8, x16, x32, x64, x128, w1, w2, w3, w4, w5, w6, y),
    ensures
        y == 1u8,
{
}

/// `a * a^254 == 1` modulo `x^8 + 0x8D` for non-zero `a`.
proof fn lemma_inverse_chain_8d(a: u8, x2: u8, x4: u8, x8: u8, x16: u8, x32: u8, x64: u8, x128: u8, w1: u8, w2: u8, w3: u8, w4: u8, w5: u8, w6: u8, y: u8)
    by (bit_vector)
    requires
        a != 0u8,
        inverse_chain(0x8Du8, a, x2, x4, x8, x16, x32, x64, x128, w1, w2, w3, w4, w5, w6, y),
    ensures
        y == 1u8,
{
}

/// `a * a^254 == 1` modulo `x^8 + 0xA9` for non-zero `a`.
proof fn lemma_inverse_chain_a9(a: u8, x2: u8, x4: u8, x8: u8, x16: u8, x32: u8, x64: u8, x128: u8, w1: u8, w2: u8, w3: u8, w4: u8, w5: u8, w6: u8, y: u8)
    by (bit_vector)
    requires
        a != 0u8,
        inverse_chain(0xA9u8, a, x2, x4, x8, x16, x32, x64, x128, w1, w2, w3, w4, w5, w6, y),
    ensures
        y == 1u8,
{
}

/// `a * a^254 == 1` modulo `x^8 + 0xC3` for non-zero `a`.
proof fn lemma_inverse_chain_c3(a: u8, x2: u8, x4: u8, x8: u8, x16: u8, x32: u8, x64: u8, x128: u8, w1: u8, w2: u8, w3: u8, w4: u8, w5: u8, w6: u8, y: u8)
    by (bit_vector)
    requires
        a != 0u8,
        inverse_chain(0xC3u8, a, x2, x4, x8, x16, x32, x64, x128, w1, w2, w3, w4, w5, w6, y),
    ensures
        y == 1u8,
{
}

/// `a * a^254 == 1` modulo `x^8 + 0xCF` for non-zero `a`.
proof fn lemma_inverse_chain_cf(a: u8, x2: u8, x4: u8, x8: u8, x16: u8, x32: u8, x64: u8, x128: u8, w1: u8, w2: u8, w3: u8, w4: u8, w5: u8, w6: u8, y: u8)
    by (bit_vector)
    requires
        a != 0u8,
        inverse_chain(0xCFu8, a, x2, x4, x8, x16, x32, x64, x128, w1, w2, w3, w4, w5, w6, y),
    ensures
        y == 1u8,
{
}

/// `a * a^254 == 1` modulo `x^8 + 0xE7` for non-zero `a`.
proof fn lemma_inverse_chain_e7(a: u8, x2: u8, x4: u8, x8: u8, x16: u8, x32: u8, x64: u8, x128: u8, w1: u8, w2: u8, w3: u8, w4: u8, w5: u8, w6: u8, y: u8)
    by (bit_vector)
    requires
        a != 0u8,
        inverse_chain(0xE7u8, a, x2, x4, x8, x16, x32, x64, x128, w1, w2, w3, w4, w5, w6, y),
    ensures
        y == 1u8,
{
}

/// `a * a^254 == 1` modulo `x^8 + 0xF5` for non-zero `a`.
proof fn lemma_inverse_chain_f5(a: u8, x2: u8, x4: u8, x8: u8, x16: u8, x32: u8, x64: u8, x128: u8, w1: u8, w2: u8, w3: u8, w4: u8, w5: u8, w6: u8, y: u8)
    by (bit_vector)
    requires
        a != 0u8,
        inverse_chain(0xF5u8, a, x2, x4, x8, x16, x32, x64, x128, w1, w2, w3, w4, w5, w6, y),
    ensures
        y == 1u8,
{
}

/// For every whitelisted polynomial, `a * a^254 == 1` for non-zero `a`:
/// the multiplicative group has order 255.
proof fn lemma_inverse_chain_is_one(p: u8, a: u8, x2: u8, x4: u8, x8: u8, x16: u8, x32: u8, x64: u8, x128: u8, w1: u8, w2: u8, w3: u8, w4: u8, w5: u8, w6: u8, y: u8)
    requires
        a != 0u8,
        is_reduction_byte(p),
        inverse_chain(p, a, x2, x4, x8, x16, x32, x64, x128, w1, w2, w3, w4, w5, w6, y),
    ensures
        y == 1u8,
{
    if p == 0x1Du8 {
        lemma_inverse_chain_1d(a, x2, x4, x8, x16, x32, x64, x128, w1, w2, w3, w4, w5, w6, y);
    } else if p == 0x2Bu8 {
        lemma_inverse_chain_2b(a, x2, x4, x8, x16, x32, x64, x128, w1, w2, w3, w4, w5, w6, y);
    } else if p == 0x2Du8 {
        lemma_inverse_chain_2d(a, x2, x4, x8, x16, x32, x64, x128, w1, w2, w3, w4, w5, w6, y);
    } else if p == 0x4Du8 {
        lemma_inverse_chain_4d(a, x2, x4, x8, x16, x32, x64, x128, w1, w2, w3, w4, w5, w6, y);
    } else if p == 0x5Fu8 {
        lemma_inverse_chain_5f(a, x2, x4, x8, x16, x32, x64, x128, w1, w2, w3, w4, w5, w6, y);
    } else if p == 0x63u8 {
        lemma_inverse_chain_63(a, x2, x4, x8, x16, x32, x64, x128, w1, w2, w3, w4, w5, w6, y);
    } else if p == 0x65u8 {
        lemma_inverse_chain_65(a, x2, x4, x8, x16, x32, x64, x128, w1, w2, w3, w4, w5, w6, y);
    } else if p == 0x69u8 {
        lemma_inverse_chain_69(a, x2, x4, x8, x16, x32, x64, x128, w1, w2, w3, w4, w5, w6, y);
    } else if p == 0x71u8 {
        lemma_inverse_chain_71(a, x2, x4, x8, x16, x32, x64, x128, w1, w2, w3, w4, w5, w6, y);
    } else if p == 0x87u8 {
        lemma_inverse_chain_87(a, x2, x4, x8, x16, x32, x64, x128, w1, w2, w3, w4, w5, w6, y);
    } else if p == 0x8Du8 {
        lemma_inverse_chain_8d(a, x2, x4, x8, x16, x32, x64, x128, w1, w2, w3, w4, w5, w6, y);
    } else if p == 0xA9u8 {
        lemma_inverse_chain_a9(a, x2, x4, x8, x16, x32, x64, x128, w1, w2, w3, w4, w5, w6, y);
    } else if p == 0xC3u8 {
        lemma_inverse_chain_c3(a, x2, x4, x8, x16, x32, x64, x128, w1, w2, w3, w4, w5, w6, y);
    } else if p == 0xCFu8 {
        lemma_inverse_chain_cf(a, x2, x4, x8, x16, x32, x64, x128, w1, w2, w3, w4, w5, w6, y);
    } else if p == 0xE7u8 {
        lemma_inverse_chain_e7(a, x2, x4, x8, x16, x32, x64, x128, w1, w2, w3, w4, w5, w6, y);
    } else if p == 0xF5u8 {
        lemma_inverse_chain_f5(a, x2, x4, x8, x16, x32, x64, x128, w1, w2, w3, w4, w5, w6, y);
    }
}

/// Shift identities for unrolling the eight multiplication steps.
proof fn lemma_shift_out(b: u8)
    by (bit_vector)
    ensures
        0u8 & 1u8 == 0u8,
        0u8 >> 1u8 == 0u8,
        ((((((((b >> 1u8) >> 1u8) >> 1u8) >> 1u8) >> 1u8) >> 1u8) >> 1u8) >> 1u8) == 0u8,
{
}

/// One shift-and-add step of [`gf_mul`], also for `b == 0`.
proof fn lemma_gf_mul_step(a: u8, b: u8, p: u8)
    ensures
        gf_mul(a, b, p) == low_bit_select(b, a) ^ gf_mul(xtime(a, p), b >> 1u8, p),
{
    lemma_shift_out(b);
    lemma_u8_facts(0, 0, 0, 0, p);
    if b != 0 {
        lemma_u8_facts(b, 0, 0, 0, p);
        lemma_u8_facts(gf_mul(xtime(a, p), b >> 1u8, p), 0, 0, 0, p);
    }
}

/// [`gf_mul`] agrees with its unrolled form.
pub proof fn lemma_gf_mul_unrolled(a: u8, b: u8, p: u8)
    ensures
        gf_mul(a, b, p) == gf_mul_unrolled(a, b, p),
{
    let a1 = xtime(a, p);
    let a2 = xtime(a1, p);
    let a3 = xtime(a2, p);
    let a4 = xtime(a3, p);
    let a5 = xtime(a4, p);
    let a6 = xtime(a5, p);
    let a7 = xtime(a6, p);
    let b1 = b >> 1u8;
    let b2 = b1 >> 1u8;
    let b3 = b2 >> 1u8;
    let b4 = b3 >> 1u8;
    let b5 = b4 >> 1u8;
    let b6 = b5 >> 1u8;
    let b7 = b6 >> 1u8;
    lemma_gf_mul_step(a, b, p);
    lemma_gf_mul_step(a1, b1, p);
    lemma_gf_mul_step(a2, b2, p);
    lemma_gf_mul_step(a3, b3, p);
    lemma_gf_mul_step(a4, b4, p);
    lemma_gf_mul_step(a5, b5, p);
    lemma_gf_mul_step(a6, b6, p);
    lemma_gf_mul_step(a7, b7, p);
    lemma_shift_out(b);
    assert(gf_mul(xtime(a7, p), b7 >> 1u8, p) == 0u8);
    lemma_u8_facts(low_bit_select(b7, a7), 0, 0, 0, p);
}

/// Every non-zero element has a non-zero inverse modulo a whitelisted
/// polynomial, namely `a^254`.
proof fn lemma_gf_inverse_witness(a: u8, p: u8) -> (w: u8)
    requires
        a != 0,
        is_reduction_byte(p),
    ensures
        w != 0,
        gf_mul(a, w, p) == 1,
{
    let x2 = gf_mul(a, a, p);
    lemma_gf_mul_unrolled(a, a, p);
    let x4 = gf_mul(x2, x2, p);
    lemma_gf_mul_unrolled(x2, x2, p);
    let x8 = gf_mul(x4, x4, p);
    lemma_gf_mul_unrolled(x4, x4, p);
    let x16 = gf_mul(x8, x8, p);
    lemma_gf_mul_unrolled(x8, x8, p);
    let x32 = gf_mul(x16, x16, p);
    lemma_gf_mul_unrolled(x16, x16, p);
    let x64 = gf_mul(x32, x32, p);
    lemma_gf_mul_unrolled(x32, x32, p);
    let x128 = gf_mul(x64, x64, p);
    lemma_gf_mul_unrolled(x64, x64, p);
    let w1 = gf_mul(x64, x128, p);
    lemma_gf_mul_unrolled(x64, x128, p);
    let w2 = gf_mul(x32, w1, p);
    lemma_gf_mul_unrolled(x32, w1, p);
    let w3 = gf_mul(x16, w2, p);
    lemma_gf_mul_unrolled(x16, w2, p);
    let w4 = gf_mul(x8, w3, p);
    lemma_gf_mul_unrolled(x8, w3, p);
    let w5 = gf_mul(x4, w4, p);
    lemma_gf_mul_unrolled(x4, w4, p);
    let w6 = gf_mul(x2, w5, p);
    lemma_gf_mul_unrolled(x2, w5, p);
    let y = gf_mul(a, w6, p);
    lemma_gf_mul_unrolled(a, w6, p);
    lemma_inverse_chain_is_one(p, a, x2, x4, x8, x16, x32, x64, x128, w1, w2, w3, w4, w5, w6, y);
    assert(gf_mul(a, 0, p) == 0);
    w6
}

/// If some `k >= 1` is an inverse of `a`, a least inverse exists.
proof fn lemma_least_inverse_exists(a: u8, k: u8, p: u8)
    requires
        k >= 1,
        gf_mul(a, k, p) == 1,
    ensures
        exists|j: u8| is_least_inverse(a, j, p),
    decreases k,
{
    if forall|m: u8| 1 <= m < k ==> gf_mul(a, m, p) != 1 {
        assert(is_least_inverse(a, k, p));
    } else {
        let m = choose|m: u8| 1 <= m < k && gf_mul(a, m, p) == 1;
        lemma_least_inverse_exists(a, m, p);
    }
}

/// The least inverse of a non-zero element, modulo a whitelisted polynomial,
/// is non-zero and multiplies the element to one.
pub proof fn lemma_least_inverse_is_inverse(a: u8, p: u8)
    requires
        a != 0,
        is_reduction_byte(p),
    ensures
        is_least_inverse(a, least_inverse(a, p), p),
        least_inverse(a, p) != 0,
        gf_mul(a, least_inverse(a, p), p) == 1,
{
    let w = lemma_gf_inverse_witness(a, p);
    lemma_least_inverse_exists(a, w, p);
    let j = least_inverse(a, p);
    if j == 0 {
        assert(gf_mul(a, w, p) != 1);
    }
}

/// The reduction byte of a whitelisted polynomial.
proof fn lemma_reduction_byte_of(pp: u16)
    by (bit_vector)
    requires
        pp == 0x11Du16 ||
        pp == 0x12Bu16 ||
        pp == 0x12Du16 ||
        pp == 0x14Du16 ||
        pp == 0x15Fu16 ||
        pp == 0x163u16 ||
        pp == 0x165u16 ||
        pp == 0x169u16 ||
        pp == 0x171u16 ||
        pp == 0x187u16 ||
        pp == 0x18Du16 ||
        pp == 0x1A9u16 ||
        pp == 0x1C3u16 ||
        pp == 0x1CFu16 ||
        pp == 0x1E7u16 ||
        pp == 0x1F5u16,
    ensures
        is_reduction_byte((pp & 0xFFu16) as u8),
        (0x100u16 + ((pp & 0xFFu16) as u8) as u16) as u16 == pp,
{
}

/// A whitelisted polynomial is `x^8` plus one of the reduction bytes.
pub proof fn lemma_whitelisted_reduction_byte(pp: u16)
    requires
        is_primitive_polynomial_spec(pp),
    ensures
        is_reduction_byte((pp & 0xFFu16) as u8),
        (0x100u16 + ((pp & 0xFFu16) as u8) as u16) as u16 == pp,
{
    let i = choose|i: int| 0 <= i < primitive_polynomials().len() && primitive_polynomials()[i] == pp;
    assert(pp == 0x11Du16 || pp == 0x12Bu16 || pp == 0x12Du16 || pp == 0x14Du16 || pp == 0x15Fu16 || pp == 0x163u16 || pp == 0x165u16 || pp == 0x169u16 || pp == 0x171u16 || pp == 0x187u16 || pp == 0x18Du16 || pp == 0x1A9u16 || pp == 0x1C3u16 || pp == 0x1CFu16 || pp == 0x1E7u16 || pp == 0x1F5u16);
    lemma_reduction_byte_of(pp);
}

/// `x^8` plus a reduction byte is a whitelisted polynomial.
proof fn lemma_whitelisted_of_reduction_byte(q: u8)
    requires
        is_reduction_byte(q),
    ensures
        is_primitive_polynomial_spec((0x100u16 + q as u16) as u16),
{
    let pp = (0x100u16 + q as u16) as u16;
    lemma_reduction_byte_value(q);
    let s = primitive_polynomials();
    if q == 0x1Du8 {
        assert(s[0] == pp);
    } else if q == 0x2Bu8 {
        assert(s[1] == pp);
    } else if q == 0x2Du8 {
        assert(s[2] == pp);
    } else if q == 0x4Du8 {
        assert(s[3] == pp);
    } else if q == 0x5Fu8 {
        assert(s[4] == pp);
    } else if q == 0x63u8 {
        assert(s[5] == pp);
    } else if q == 0x65u8 {
        assert(s[6] == pp);
    } else if q == 0x69u8 {
        assert(s[7] == pp);
    } else if q == 0x71u8 {
        assert(s[8] == pp);
    } else if q == 0x87u8 {
        assert(s[9] == pp);
    } else if q == 0x8Du8 {
        assert(s[10] == pp);
    } else if q == 0xA9u8 {
        assert(s[11] == pp);
    } else if q == 0xC3u8 {
        assert(s[12] == pp);
    } else if q == 0xCFu8 {
        assert(s[13] == pp);
    } else if q == 0xE7u8 {
        assert(s[14] == pp);
    } else {
        assert(s[15] == pp);
    }
}

/// `x^8` plus a reduction byte, as a number.
proof fn lemma_reduction_byte_value(q: u8)
    requires
        is_reduction_byte(q),
    ensures
        (0x100u16 + q as u16) as u16 == 0x100 + q,
{
}

/// The low byte of `0x100 + q` is `q`.
proof fn lemma_u16_low_byte(q: u8)
    by (bit_vector)
    ensures
        (((0x100u16 + q as u16) as u16) & 0xFFu16) as u8 == q,
{
}

/// GF(256) using lookup tables for multiplication and inversion.
pub struct GF256 {
    /// Multiplication table.
    mul_table: [[u8; 256]; 256],
    /// Inverse table (least inverse, zero when none exists).
    inv_table: [u8; 256],
    /// Primitive polynomial without its leading `x^8` bit.
    primitive_polynomial: u8,
}

impl GF256 {
    /// Tables agree with [`gf_mul`] and [`is_least_inverse`] for the stored polynomial.
    #[verifier::type_invariant]
    spec fn tables_agree(self) -> bool {
        &&& forall|i: int, j: int|
            0 <= i < 256 && 0 <= j < 256 ==> #[trigger] self.mul_table[i][j] == gf_mul(
                i as u8,
                j as u8,
                self.primitive_polynomial,
            )
        &&& self.inv_table[0] == 0
        &&& is_reduction_byte(self.primitive_polynomial)
        &&& forall|i: int|
            1 <= i < 256 ==> is_least_inverse(
                i as u8,
                #[trigger] self.inv_table[i],
                self.primitive_polynomial,
            )
    }

    /// The primitive polynomial without its leading bit (the reduction constant).
    pub closed spec fn poly(&self) -> u8 {
        self.primitive_polynomial
    }

    /// Full primitive polynomial, including the `x^8` bit.
    pub open spec fn spec_primitive_polynomial(&self) -> u16 {
        (0x100u16 + self.poly() as u16) as u16
    }

    /// Helper function to multiply two field elements.
    fn gf_multiply(a: u8, b: u8, primitive_polynomial: u8) -> (r: u8)
        ensures
            r == gf_mul(a, b, primitive_polynomial),
    {
        let ghost a0 = a;
        let ghost b0 = b;
        let mut result = 0u8;
        let mut a = a;
        let mut b = b;
        proof {
            lemma_u8_facts(gf_mul(a, b, primitive_polynomial), 0, 0, 0, primitive_polynomial);
        }
        while b != 0
            invariant
                result ^ gf_mul(a, b, primitive_polynomial) == gf_mul(a0, b0, primitive_polynomial),
            decreases b,
        {
            let ghost old_a = a;
            let ghost old_b = b;
            let ghost old_result = result;
            if b & 1 != 0 {
                result ^= a;
            }
            let carry = a & 0x80;
            a <<= 1;
            if carry != 0 {
                a ^= primitive_polynomial;
            }
            b >>= 1;
            proof {
                lemma_u8_facts(old_b, 0, 0, 0, primitive_polynomial);
                assert(a == xtime(old_a, primitive_polynomial));
                let rest = gf_mul(a, b, primitive_polynomial);
                assert(gf_mul(old_a, old_b, primitive_polynomial) == (if old_b & 1u8 != 0u8 {
                    old_a ^ rest
                } else {
                    rest
                }));
                if old_b & 1u8 != 0u8 {
                    lemma_u8_facts(old_result, old_a, rest, 0, primitive_polynomial);
                }
            }
        }
        proof {
            lemma_u8_facts(result, 0, 0, 0, primitive_polynomial);
        }
        result
    }

    /// Builds GF(256) for a primitive polynomial in [`PRIMITIVE_POLYNOMIALS`].
    ///
    /// Returns [`InvalidPrimitivePolynomial`] if `pp` is not whitelisted (e.g. AES `0x11B`).
    pub fn try_new_with_primitive_polynomial(pp: u16) -> (r: Result<Self, InvalidPrimitivePolynomial>)
        ensures
            is_primitive_polynomial_spec(pp) <==> r is Ok,
            r matches Ok(g) ==> g.spec_primitive_polynomial() == pp,
            r matches Err(e) ==> e == InvalidPrimitivePolynomial(pp),
    {
        if !is_primitive_polynomial(pp) {
            return Err(InvalidPrimitivePolynomial(pp));
        }
        Ok(Self::from_primitive_polynomial_unchecked(pp))
    }

    /// Like [`Self::try_new_with_primitive_polynomial`], for a whitelisted `pp`.
    pub fn new_with_primitive_polynomial(pp: u16) -> (r: Self)
        requires
            is_primitive_polynomial_spec(pp),
        ensures
            r.spec_primitive_polynomial() == pp,
    {
        Self::from_primitive_polynomial_unchecked(pp)
    }

    fn from_primitive_polynomial_unchecked(pp: u16) -> (r: Self)
        requires
            is_primitive_polynomial_spec(pp),
        ensures
            r.spec_primitive_polynomial() == pp,
    {
        let poly_byte = (pp & 0xFF) as u8;
        let mut mul_table = [[0u8; 256]; 256];
        let mut inv_table = [0u8; 256];
        let mut i: usize = 0;
        while i < 256
            invariant
                i <= 256,
                forall|x: int, y: int|
                    0 <= x < i && 0 <= y < 256 ==> #[trigger] mul_table[x][y] == gf_mul(
                        x as u8,
                        y as u8,
                        poly_byte,
                    ),
            decreases 256 - i,
        {
            let mut row = [0u8; 256];
            let mut j: usize = 0;
            while j < 256
                invariant
                    i < 256,
                    j <= 256,
                    forall|y: int| 0 <= y < j ==> #[trigger] row[y] == gf_mul(i as u8, y as u8, poly_byte),
                decreases 256 - j,
            {
                row[j] = Self::gf_multiply(i as u8, j as u8, poly_byte);
                j += 1;
            }
            mul_table[i] = row;
            i += 1;
        }
        let mut i: usize = 1;
        while i < 256
            invariant
                1 <= i <= 256,
                inv_table[0] == 0,
                forall|x: int, y: int|
                    0 <= x < 256 && 0 <= y < 256 ==> #[trigger] mul_table[x][y] == gf_mul(
                        x as u8,
                        y as u8,
                        poly_byte,
                    ),
                forall|x: int| 1 <= x < i ==> is_least_inverse(x as u8, #[trigger] inv_table[x], poly_byte),
                forall|x: int| i <= x < 256 ==> #[trigger] inv_table[x] == 0,
            decreases 256 - i,
        {
            let mut j: usize = 1;
            let mut found = false;
            while j < 256 && !found
                invariant
                    1 <= i < 256,
                    1 <= j <= 256,
                    forall|x: int, y: int|
                        0 <= x < 256 && 0 <= y < 256 ==> #[trigger] mul_table[x][y] == gf_mul(
                            x as u8,
                            y as u8,
                            poly_byte,
                        ),
                    !found ==> forall|y: u8| 1 <= y < j ==> #[trigger] gf_mul(i as u8, y, poly_byte) != 1,
                    found ==> is_least_inverse(i as u8, inv_table[i as int], poly_byte),
                    !found ==> inv_table[i as int] == 0,
                    inv_table[0] == 0,
                    forall|x: int| 1 <= x < i ==> is_least_inverse(x as u8, #[trigger] inv_table[x], poly_byte),
                    forall|x: int| i < x < 256 ==> #[trigger] inv_table[x] == 0,
                decreases 256 - j + (if found { 0int } else { 1int }),
            {
                if mul_table[i][j] == 1 {
                    assert(mul_table[i as int][j as int] == gf_mul(i as u8, j as u8, poly_byte));
                    inv_table[i] = j as u8;
                    found = true;
                } else {
                    proof {
                        assert(mul_table[i as int][j as int] == gf_mul(i as u8, j as u8, poly_byte));
                        assert forall|y: u8| 1 <= y < j + 1 implies #[trigger] gf_mul(i as u8, y, poly_byte) != 1 by {
                            if y as int == j as int {
                                assert(mul_table[i as int][y as int] == gf_mul(i as u8, y, poly_byte));
                            }
                        }
                    }
                    j += 1;
                }
            }
            proof {
                if !found {
                    assert forall|y: u8| 1 <= y implies #[trigger] gf_mul(i as u8, y, poly_byte) != 1 by {
                        assert(y < 256);
                    }
                }
            }
            i += 1;
        }
        proof {
            lemma_whitelisted_reduction_byte(pp);
        }
        GF256 { mul_table, inv_table, primitive_polynomial: poly_byte }
    }

    /// The primitive element alpha (`0x02`).
    pub fn primitive_element(&self) -> (r: u8)
        ensures
            r == 2,
    {
        0x02u8
    }

    /// Full primitive polynomial of this field, including the `x^8` bit.
    pub fn primitive_polynomial(&self) -> (r: u16)
        ensures
            r == self.spec_primitive_polynomial(),
            is_primitive_polynomial_spec(r),
    {
        proof {
            use_type_invariant(self);
            lemma_whitelisted_of_reduction_byte(self.primitive_polynomial);
        }
        0x100u16 + self.primitive_polynomial as u16
    }

    /// Multiply two field elements using the lookup table.
    pub fn mul_lookup(&self, a: u8, b: u8) -> (r: u8)
        ensures
            r == gf_mul(a, b, self.poly()),
    {
        proof {
            use_type_invariant(self);
        }
        let row = self.mul_table[a as usize];
        assert(row[b as int] == self.mul_table[a as int][b as int]);
        row[b as usize]
    }

    /// Multiplies a field element by the primitive element alpha, using a bit shift.
    pub fn mul_alpha(&self, a: u8) -> (r: u8)
        ensures
            r == xtime(a, self.poly()),
            r == gf_mul(a, 2, self.poly()),
    {
        proof {
            lemma_gf_mul_by_alpha(a, self.poly());
        }
        let p = self.primitive_polynomial;
        proof {
            lemma_u8_facts(a, 0, 0, 0, p);
        }
        if a == 0 {
            return 0;
        }
        if a == 1 {
            return self.primitive_element();
        }
        if a < 128 {
            return a << 1;
        }
        self.add(a << 1, p)
    }
}

impl GF256 {
    /// GF(256) multiplication is commutative and associative, distributes
    /// over addition (XOR), has one as identity and zero as absorbing element.
    pub proof fn lemma_mul_laws(&self, a: u8, b: u8, c: u8)
        ensures
            self.spec_mul(a, b) == self.spec_mul(b, a),
            self.spec_mul(self.spec_mul(a, b), c) == self.spec_mul(a, self.spec_mul(b, c)),
            self.spec_mul(a, b ^ c) == self.spec_mul(a, b) ^ self.spec_mul(a, c),
            self.spec_mul(1, a) == a,
            self.spec_mul(0, a) == 0,
    {
        lemma_gf_mul_commutative(a, b, self.poly());
        lemma_gf_mul_associative(a, b, c, self.poly());
        lemma_gf_mul_distributes_right(a, b, c, self.poly());
        lemma_gf_mul_one_left(a, self.poly());
        lemma_gf_mul_zero_left(a, self.poly());
    }

    /// Every non-zero element has a non-zero inverse, `a * a^-1 == 1`, and
    /// division undoes multiplication: `(a / b) * b == a` for `b != 0`.
    pub proof fn lemma_inverse_laws(&self, a: u8, b: u8)
        requires
            is_primitive_polynomial_spec(self.spec_primitive_polynomial()),
        ensures
            a != 0 ==> self.spec_inverse(a) != 0 && self.spec_mul(a, self.spec_inverse(a)) == 1,
            b != 0 ==> self.spec_mul(self.spec_divide(a, b), b) == a,
    {
        let p = self.poly();
        let pp = self.spec_primitive_polynomial();
        lemma_whitelisted_reduction_byte(pp);
        lemma_u16_low_byte(p);
        if a != 0 {
            lemma_least_inverse_is_inverse(a, p);
        }
        if b != 0 {
            lemma_least_inverse_is_inverse(b, p);
            let ib = least_inverse(b, p);
            lemma_gf_mul_associative(a, ib, b, p);
            lemma_gf_mul_commutative(ib, b, p);
            lemma_gf_mul_one_right(a, p);
        }
    }
}

impl Field for GF256 {
    open spec fn spec_mul(&self, a: u8, b: u8) -> u8 {
        gf_mul(a, b, self.poly())
    }

    open spec fn spec_inverse(&self, a: u8) -> u8 {
        least_inverse(a, self.poly())
    }

    open spec fn spec_divide(&self, a: u8, b: u8) -> u8 {
        gf_mul(a, least_inverse(b, self.poly()), self.poly())
    }

    fn mul(&self, a: u8, b: u8) -> (r: u8) {
        proof {
            lemma_gf_mul_zero_left(b, self.poly());
            lemma_gf_mul_one_left(b, self.poly());
        }
        match a {
            0 => 0,
            1 => b,
            _ => self.mul_lookup(a, b),
        }
    }

    fn inverse(&self, a: u8) -> (r: u8) {
        self.inv_lookup(a)
    }

    fn divide(&self, a: u8, b: u8) -> (r: u8) {
        let inv = self.inverse(b);
        self.mul(a, inv)
    }
}

impl GF256 {
    /// Stored inverse of a non-zero `a`: the least non-zero element whose
    /// product with `a` is one, or zero when there is none.
    pub fn inv_lookup(&self, a: u8) -> (r: u8)
        requires
            a != 0,
        ensures
            r == least_inverse(a, self.poly()),
            is_least_inverse(a, r, self.poly()),
            r != 0,
            gf_mul(a, r, self.poly()) == 1,
    {
        proof {
            use_type_invariant(self);
            assert(is_least_inverse(a, self.inv_table[a as int], self.poly()));
            lemma_least_inverse_is_inverse(a, self.poly());
            lemma_least_inverse_unique(a, self.inv_table[a as int], least_inverse(a, self.poly()), self.poly());
        }
        self.inv_table[a as usize]
    }
}

impl Clone for GF256 {
    fn clone(&self) -> (r: Self)
        ensures
            r.poly() == self.poly(),
    {
        proof {
            use_type_invariant(self);
        }
        GF256 {
            mul_table: self.mul_table,
            inv_table: self.inv_table,
            primitive_polynomial: self.primitive_polynomial,
        }
    }
}

impl Default for GF256 {
    fn default() -> (r: Self)
        ensures
            r.spec_primitive_polynomial() == 0x11D,
            r.poly() == 0x1D,
    {
        assert(primitive_polynomials()[0] == 0x11Du16);
        let g = Self::new_with_primitive_polynomial(0x11D);
        assert(g.poly() == 0x1D) by {
            lemma_u16_facts(0x11D, g.poly());
        }
        g
    }
}

} // verus!
