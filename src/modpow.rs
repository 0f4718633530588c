//! Modular exponentiation by repeated squaring.
use vstd::arithmetic::div_mod::*;
use vstd::arithmetic::mul::*;
use vstd::arithmetic::power::*;
use vstd::prelude::*;

verus! {

/// One step of square-and-multiply: splitting off the low bit of the exponent
/// keeps `acc * base^exp` unchanged modulo `m`.
proof fn lemma_square_step(acc: int, base: int, exp: nat, m: int)
    requires
        m > 0,
    ensures
        ({
            let acc2 = if exp % 2 == 1 { (acc * base) % m } else { acc };
            let base2 = (base * base) % m;
            (acc2 * pow(base2, exp / 2)) % m == (acc * pow(base, exp)) % m
        }),
{
    let q = exp / 2;
    let r: nat = exp % 2;
    assert(exp == 2 * q + r);
    lemma_pow_adds(base, 2 * q, r);
    lemma_pow_multiplies(base, 2, q);
    assert(pow(base, 2) == base * base) by {
        lemma_square_is_pow2(base);
    }
    // base^exp == base^r * (base*base)^q
    let bq = pow(base * base, q);
    assert(pow(base, exp) == pow(base, r) * bq);
    lemma_pow_mod_noop(base * base, q, m);
    let base2 = (base * base) % m;
    assert(pow(base2, q) % m == bq % m);
    if r == 1 {
        lemma_pow1(base);
        lemma_mul_mod_noop_left(acc * base, pow(base2, q), m);
        lemma_mul_mod_noop_right(acc * base, pow(base2, q), m);
        lemma_mul_mod_noop_right(acc * base, bq, m);
        assert((acc * base) * bq == acc * (base * bq)) by (nonlinear_arith);
    } else {
        lemma_pow0(base);
        lemma_mul_mod_noop_right(acc, pow(base2, q), m);
        lemma_mul_mod_noop_right(acc, bq, m);
    }
}

/// The product of two residues below a 64-bit modulus fits in 128 bits.
pub(crate) proof fn lemma_products_fit(x: u128, y: u128, m: u128)
    requires
        x < m,
        y < m,
        m <= u64::MAX,
    ensures
        x * y <= u128::MAX,
{
    assert(x * y <= (u64::MAX as int) * (u64::MAX as int)) by (nonlinear_arith)
        requires
            x < m,
            y < m,
            m <= u64::MAX,
    ;
}

/// `base` raised to `exp`, reduced modulo `modulus`, computed with
/// O(log exp) multiplications on reduced operands.
pub fn mod_pow(base: u64, exp: u64, modulus: u64) -> (r: u64)
    requires
        modulus > 0,
    ensures
        r as int == pow(base as int, exp as nat) % (modulus as int),
        r < modulus,
{
    if modulus == 1 {
        return 0;
    }
    let m = modulus as u128;
    let mut result: u128 = 1;
    let mut b: u128 = (base as u128) % m;
    let mut e: u64 = exp;
    proof {
        lemma_pow_mod_noop(base as int, exp as nat, m as int);
        lemma_small_mod(1, m as nat);
        lemma_mul_basics(pow(b as int, exp as nat));
    }
    while e > 0
        invariant
            m == modulus as u128,
            1 < m <= u64::MAX,
            result < m,
            b < m,
            (result * pow(b as int, e as nat)) % (m as int) == pow(base as int, exp as nat) % (m as int),
        decreases e,
    {
        proof {
            lemma_square_step(result as int, b as int, e as nat, m as int);
            lemma_products_fit(result, b, m);
            lemma_products_fit(b, b, m);
            lemma_mod_bound((result * b) as int, m as int);
            lemma_mod_bound((b * b) as int, m as int);
        }
        let ghost e0 = e;
        if e % 2 == 1 {
            result = result * b % m;
        }
        e = e >> 1;
        b = b * b % m;
        assert(e0 >> 1u64 == e0 / 2) by (bit_vector);
    }
    proof {
        lemma_pow0(b as int);
        lemma_small_mod(result as nat, m as nat);
    }
    result as u64
}

} // verus!
