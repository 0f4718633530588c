use ecc::{FieldElement, FieldError};

const BIG_PRIME: u64 = 18446744073709551557;

#[test]
fn test_div() {
    let a = FieldElement::new(5, 31);
    let b = FieldElement::new(18, 31);

    // 18 * 19 = 342 = 11 * 31 + 1, so 5 / 18 = 5 * 19 = 95 = 2 (mod 31);
    // 16 * 18 = 288 = 9 (mod 31) is no quotient of 5 by 18.
    assert_eq!(a.div(b), Ok(FieldElement::new(2, 31)));
    assert_ne!(a.div(b), Ok(FieldElement::new(16, 31)));
}

#[test]
fn add_reduces_modulo_prime() {
    let a = FieldElement::new(5, 7);
    let b = FieldElement::new(4, 7);
    assert_eq!(a.add(b), Ok(FieldElement::new(2, 7)));
}

#[test]
fn sub_wraps_to_positive_residue() {
    let a = FieldElement::new(3, 7);
    let b = FieldElement::new(5, 7);
    assert_eq!(a.sub(b), Ok(FieldElement::new(5, 7)));
}

#[test]
fn mul_reduces_modulo_prime() {
    let a = FieldElement::new(24, 31);
    let b = FieldElement::new(19, 31);
    assert_eq!(a.mul(b), Ok(FieldElement::new(22, 31)));
}

#[test]
fn pow_fermat_boundary() {
    assert_eq!(FieldElement::new(7, 13).pow(12), FieldElement::new(1, 13));
}

#[test]
fn pow_exact_values() {
    assert_eq!(FieldElement::new(17, 31).pow(3), FieldElement::new(15, 31));
    assert_eq!(FieldElement::new(5, 31).pow(0), FieldElement::new(1, 31));
    assert_eq!(FieldElement::new(2, 1000003).pow(20), FieldElement::new(48573, 1000003));
}

#[test]
fn pow_modulus_one_is_zero() {
    assert_eq!(FieldElement::new(0, 1).pow(0), FieldElement::new(0, 1));
    assert_eq!(FieldElement::new(0, 1).pow(5), FieldElement::new(0, 1));
}

#[test]
fn pow_large_exponent() {
    let a = FieldElement::new(3, BIG_PRIME);
    assert_eq!(a.pow(BIG_PRIME - 1), FieldElement::new(1, BIG_PRIME));
    assert_eq!(FieldElement::new(2, 31).pow(u64::MAX), FieldElement::new(1, 31));
    assert_eq!(FieldElement::new(2, 31).pow(u64::MAX - 1), FieldElement::new(16, 31));
}

#[test]
fn mismatched_fields_are_refused() {
    let a = FieldElement::new(3, 7);
    let b = FieldElement::new(3, 11);
    assert_eq!(a.add(b), Err(FieldError::FieldMismatch));
    assert_eq!(a.sub(b), Err(FieldError::FieldMismatch));
    assert_eq!(a.mul(b), Err(FieldError::FieldMismatch));
    assert_eq!(a.div(b), Err(FieldError::FieldMismatch));
    assert_eq!(a.div(FieldElement::new(0, 11)), Err(FieldError::FieldMismatch));
}

#[test]
fn division_by_zero_is_refused() {
    let a = FieldElement::new(3, 7);
    assert_eq!(a.div(FieldElement::new(0, 7)), Err(FieldError::DivisionByZero));
}

#[test]
fn sub_self_is_zero() {
    let a = FieldElement::new(6, 13);
    assert_eq!(a.sub(a), Ok(FieldElement::new(0, 13)));
}

#[test]
fn div_self_is_one() {
    for v in 1..31u64 {
        let a = FieldElement::new(v, 31);
        assert_eq!(a.div(a), Ok(FieldElement::new(1, 31)));
    }
}

#[test]
fn div_then_mul_round_trip() {
    let a = FieldElement::new(11, 31);
    for v in 1..31u64 {
        let b = FieldElement::new(v, 31);
        let q = a.div(b).unwrap();
        assert_eq!(q.mul(b), Ok(a));
    }
}

#[test]
fn fermat_holds_for_every_nonzero_element() {
    for v in 1..13u64 {
        assert_eq!(FieldElement::new(v, 13).pow(12), FieldElement::new(1, 13));
    }
}

#[test]
fn results_stay_in_range() {
    for x in 0..7u64 {
        for y in 0..7u64 {
            let a = FieldElement::new(x, 7);
            let b = FieldElement::new(y, 7);
            assert!(a.add(b).unwrap().num < 7);
            assert!(a.sub(b).unwrap().num < 7);
            assert!(a.mul(b).unwrap().num < 7);
            if y != 0 {
                assert!(a.div(b).unwrap().num < 7);
            }
        }
    }
}

#[test]
fn near_maximum_residues_do_not_overflow() {
    let a = FieldElement::new(BIG_PRIME - 1, BIG_PRIME);
    let b = FieldElement::new(BIG_PRIME - 2, BIG_PRIME);
    assert_eq!(a.add(b), Ok(FieldElement::new(BIG_PRIME - 3, BIG_PRIME)));
    assert_eq!(a.mul(b), Ok(FieldElement::new(2, BIG_PRIME)));
    assert_eq!(b.sub(a), Ok(FieldElement::new(BIG_PRIME - 1, BIG_PRIME)));
    assert_eq!(a.div(a), Ok(FieldElement::new(1, BIG_PRIME)));
    assert_eq!(a.div(b).unwrap().mul(b), Ok(a));
}

#[test]
fn equality_is_structural() {
    assert_eq!(FieldElement::new(3, 7), FieldElement::new(3, 7));
    assert_ne!(FieldElement::new(3, 7), FieldElement::new(3, 11));
    assert_ne!(FieldElement::new(3, 7), FieldElement::new(4, 7));
}

#[test]
fn to_string_shows_modulus_and_value() {
    assert_eq!(FieldElement::new(16, 31).to_string(), "FieldElement_31(16)");
    assert_eq!(FieldElement::new(0, 7).to_string(), "FieldElement_7(0)");
    assert_eq!(
        FieldElement::new(BIG_PRIME - 1, BIG_PRIME).to_string(),
        "FieldElement_18446744073709551557(18446744073709551556)"
    );
}
