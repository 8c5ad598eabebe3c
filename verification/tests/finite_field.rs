use fountain_engine::algebra::finite_field::{
    Field, GF256, InvalidPrimitivePolynomial, PRIMITIVE_POLYNOMIALS, is_primitive_polynomial,
};

#[test]
fn primitive_polynomial_whitelist() {
    assert_eq!(PRIMITIVE_POLYNOMIALS.len(), 16);
    assert!(is_primitive_polynomial(0x11D));
    assert!(!is_primitive_polynomial(0x11B));
}

#[test]
fn try_new_rejects_aes_irreducible() {
    assert!(matches!(
        GF256::try_new_with_primitive_polynomial(0x11B),
        Err(InvalidPrimitivePolynomial(0x11B))
    ));
}

#[test]
fn test_gf256_basic_operations() {
    let field = GF256::default();

    assert_eq!(field.add(5, 3), 6);
    assert_eq!(field.add(0, 7), 7);
    assert_eq!(field.add(7, 7), 0);

    assert_eq!(field.mul(0, 5), 0);
    assert_eq!(field.mul(5, 0), 0);
    assert_eq!(field.mul(1, 5), 5);
    assert_eq!(field.mul(5, 1), 5);

    assert_eq!(field.mul(5, field.inverse(5)), 1);
    assert_eq!(field.mul(7, field.inverse(7)), 1);
}

#[test]
fn test_gf256_multiplication_table() {
    let field = GF256::default();

    assert_eq!(field.mul(2, 0), 0);
    assert_eq!(field.mul(2, 3), 6);
    assert_eq!(field.mul(7, 11), 49);
    assert_eq!(field.mul(255, 1), 255);
    assert_eq!(field.mul(255, 255), 226);
}

#[test]
fn test_gf256_inverse_table() {
    let field = GF256::default();

    for i in 1u8..=255u8 {
        let inv = field.inverse(i);
        assert_eq!(field.mul(i, inv), 1);
    }
}

#[test]
fn test_gf256_distributive_law() {
    let field = GF256::default();

    let a = 5;
    let b = 3;
    let c = 7;

    let left = field.mul(a, field.add(b, c));
    let right = field.add(field.mul(a, b), field.mul(a, c));

    assert_eq!(left, right);
}

#[test]
fn test_gf256_associative_law() {
    let field = GF256::default();

    let a = 5;
    let b = 3;
    let c = 7;

    let left = field.mul(field.mul(a, b), c);
    let right = field.mul(a, field.mul(b, c));

    assert_eq!(left, right);
}

#[test]
fn test_gf256_commutative_law() {
    let field = GF256::default();

    let a = 5;
    let b = 3;

    assert_eq!(field.mul(a, b), field.mul(b, a));
}

#[test]
fn test_gf256_zero_and_identity() {
    let field = GF256::default();

    for i in 0u8..=255u8 {
        assert_eq!(field.add(0, i), i);
        assert_eq!(field.add(i, 0), i);
        assert_eq!(field.mul(0, i), 0);
        assert_eq!(field.mul(i, 0), 0);
    }

    for i in 0u8..=255u8 {
        assert_eq!(field.mul(1, i), i);
        assert_eq!(field.mul(i, 1), i);
    }
}

#[test]
fn test_gf256_division_consistency() {
    let field = GF256::default();

    for i in 1u8..=255u8 {
        for j in 1u8..=255u8 {
            let product = field.mul(i, j);
            let quotient = field.mul(product, field.inverse(i));
            assert_eq!(quotient, j);
        }
    }
}

#[test]
fn test_mul_alpha_consistency() {
    let field = GF256::default();

    for x in 0u8..=255u8 {
        let result_mul_alpha = field.mul_alpha(x);
        let result_multiply = field.mul(x, field.primitive_element());
        assert_eq!(
            result_mul_alpha, result_multiply,
            "mul_alpha({}) = {} but multiply({}, alpha) = {}",
            x, result_mul_alpha, x, result_multiply
        );
    }
}
