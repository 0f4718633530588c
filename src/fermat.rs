//! Fermat's little theorem, proved from the binomial theorem.
use vstd::arithmetic::div_mod::*;
use vstd::arithmetic::mul::*;
use vstd::arithmetic::power::*;
use vstd::prelude::*;

verus! {

/// `p` has no divisor strictly between 1 and itself.
pub open spec fn is_prime(p: nat) -> bool {
    p > 1 && forall|d: nat| 1 < d < p ==> #[trigger] (p % d) != 0
}

/// If `p` divides `u` and `v`, it divides `u - k * v`.
proof fn lemma_divides_combination(u: int, v: int, k: int, p: int)
    requires
        p > 0,
        u % p == 0,
        v % p == 0,
    ensures
        (u - k * v) % p == 0,
{
    lemma_fundamental_div_mod(u, p);
    lemma_fundamental_div_mod(v, p);
    let s = u / p;
    let t = v / p;
    assert(u - k * v == p * (s - k * t)) by (nonlinear_arith)
        requires
            u == p * s,
            v == p * t,
    ;
    lemma_mod_multiples_basic(s - k * t, p);
    lemma_mul_is_commutative(p, s - k * t);
}

/// A common divisor `g` of `x` and `y` with `p | g * b`, found by Euclid's
/// algorithm from `p | x * b` and `p | y * b`.
proof fn common_divisor_witness(x: nat, y: nat, b: int, p: int) -> (g: nat)
    requires
        p > 0,
        x > 0,
        (x * b) % p == 0,
        (y * b) % p == 0,
    ensures
        g > 0,
        x % g == 0,
        y % g == 0,
        (g * b) % p == 0,
    decreases y,
{
    if y == 0 {
        lemma_mod_self_0(x as int);
        lemma_small_mod(0, x);
        x
    } else {
        let q = x / y;
        let r = x % y;
        lemma_fundamental_div_mod(x as int, y as int);
        assert(r * b == x * b - q * (y * b)) by (nonlinear_arith)
            requires
                x == y * q + r,
        ;
        lemma_divides_combination(x * b, y * b, q as int, p);
        lemma_mod_decreases(x, y);
        let g = common_divisor_witness(y, r, b, p);
        lemma_fundamental_div_mod(y as int, g as int);
        lemma_fundamental_div_mod(r as int, g as int);
        let c1 = y / g;
        let c2 = r / g;
        assert(x == g * (q * c1 + c2)) by (nonlinear_arith)
            requires
                x == y * q + r,
                y == g * c1,
                r == g * c2,
        ;
        lemma_mod_multiples_basic((q * c1 + c2) as int, g as int);
        lemma_mul_is_commutative(g as int, (q * c1 + c2) as int);
        g
    }
}

/// Euclid's lemma: a prime dividing `a * b` and not `a` divides `b`.
pub proof fn lemma_euclid(a: int, b: int, p: nat)
    requires
        is_prime(p),
        a % (p as int) != 0,
        (a * b) % (p as int) == 0,
    ensures
        b % (p as int) == 0,
{
    let pi = p as int;
    let a1 = a % pi;
    lemma_mod_bound(a, pi);
    lemma_mul_mod_noop_left(a, b, pi);
    lemma_mod_self_0(pi);
    lemma_mul_mod_noop_left(pi, b, pi);
    lemma_mul_basics(b);
    let g = common_divisor_witness(p, a1 as nat, b, pi);
    // g divides a1, which is positive, so g <= a1 < p
    lemma_fundamental_div_mod(a1, g as int);
    assert(g <= a1) by (nonlinear_arith)
        requires
            a1 == g * (a1 / (g as int)),
            a1 > 0,
            g > 0,
    ;
    if g > 1 {
        assert(p % g != 0);
    }
    assert(g == 1);
    lemma_mul_basics(b);
}

/// Binomial coefficients, by Pascal's rule.
pub open spec fn binom(n: nat, k: nat) -> nat
    decreases n,
{
    if k == 0 {
        1
    } else if n == 0 {
        0
    } else {
        binom((n - 1) as nat, (k - 1) as nat) + binom((n - 1) as nat, k)
    }
}

/// `sum_{k < m} binom(n, k) * x^k`.
pub open spec fn binom_sum(n: nat, x: int, m: nat) -> int
    decreases m,
{
    if m == 0 {
        0
    } else {
        binom_sum(n, x, (m - 1) as nat) + binom(n, (m - 1) as nat) * pow(x, (m - 1) as nat)
    }
}

proof fn lemma_binom_above(n: nat, k: nat)
    requires
        k > n,
    ensures
        binom(n, k) == 0,
    decreases n,
{
    if n > 0 {
        lemma_binom_above((n - 1) as nat, (k - 1) as nat);
        lemma_binom_above((n - 1) as nat, k);
    }
}

proof fn lemma_binom_diagonal(n: nat)
    ensures
        binom(n, n) == 1,
    decreases n,
{
    if n > 0 {
        lemma_binom_diagonal((n - 1) as nat);
        lemma_binom_above((n - 1) as nat, n);
    }
}

/// Pascal's rule on partial sums: `S(n+1, m) == S(n, m) + x * S(n, m-1)`.
proof fn lemma_binom_sum_step(n: nat, x: int, m: nat)
    requires
        m >= 1,
    ensures
        binom_sum(n + 1, x, m) == binom_sum(n, x, m) + x * binom_sum(n, x, (m - 1) as nat),
    decreases m,
{
    if m == 1 {
        assert(binom_sum(n + 1, x, 0) == 0);
        assert(binom_sum(n, x, 0) == 0);
        lemma_mul_basics(x);
    } else {
        let k = (m - 1) as nat;
        lemma_binom_sum_step(n, x, k);
        let c0 = binom(n, (k - 1) as nat);
        let c1 = binom(n, k);
        assert(binom(n + 1, k) == c0 + c1);
        lemma_pow_adds(x, 1, (k - 1) as nat);
        lemma_pow1(x);
        assert(pow(x, k) == x * pow(x, (k - 1) as nat));
        let s = binom_sum(n, x, (k - 1) as nat);
        let xk = pow(x, (k - 1) as nat);
        assert((c0 + c1) * (x * xk) == c1 * (x * xk) + x * (c0 * xk)) by (nonlinear_arith);
        assert(x * s + x * (c0 * xk) == x * (s + c0 * xk)) by (nonlinear_arith);
    }
}

/// The binomial theorem at `y = 1`: `(x + 1)^n == sum_{k <= n} binom(n, k) * x^k`.
pub proof fn lemma_binomial(n: nat, x: int)
    ensures
        pow(x + 1, n) == binom_sum(n, x, n + 1),
    decreases n,
{
    if n == 0 {
        lemma_pow0(x + 1);
        lemma_pow0(x);
        assert(binom_sum(0, x, 1) == binom_sum(0, x, 0) + binom(0, 0) * pow(x, 0));
    } else {
        let k = (n - 1) as nat;
        lemma_binomial(k, x);
        lemma_binom_sum_step(k, x, n + 1);
        lemma_binom_above(k, n);
        assert(binom_sum(k, x, n + 1) == binom_sum(k, x, n) + binom(k, n) * pow(x, n));
        assert(binom_sum(k, x, n + 1) == binom_sum(k, x, n));
        lemma_pow_adds(x + 1, 1, k);
        lemma_pow1(x + 1);
        assert(pow(x + 1, n) == (x + 1) * pow(x + 1, k));
        let t = binom_sum(k, x, n);
        assert(t + x * t == (x + 1) * t) by (nonlinear_arith);
        assert(binom_sum(n, x, n + 1) == t + x * t);
    }
}

/// `k * binom(n, k) == n * binom(n - 1, k - 1)`.
proof fn lemma_binom_absorb(n: nat, k: nat)
    requires
        n >= 1,
        k >= 1,
    ensures
        k * binom(n, k) == n * binom((n - 1) as nat, (k - 1) as nat),
    decreases n,
{
    let n1 = (n - 1) as nat;
    let k1 = (k - 1) as nat;
    if n == 1 {
        if k == 1 {
            assert(binom(0, 1) == 0);
            assert(binom(1, 1) == binom(0, 0) + binom(0, 1));
            assert(binom(n, k) == 1 && binom(n1, k1) == 1);
            assert(k * binom(n, k) == n * binom(n1, k1));
        } else {
            lemma_binom_above(1, k);
            lemma_binom_above(0, k1);
            assert(binom(n, k) == 0 && binom(n1, k1) == 0);
            assert(k * 0 == 0 && n * 0 == 0) by (nonlinear_arith);
            assert(k * binom(n, k) == n * binom(n1, k1));
        }
    } else if k == 1 {
        // binom(n, 1) == n
        lemma_binom_absorb_one(n);
        assert(binom(n1, k1) == 1);
        assert(binom(n, k) == n);
        let c = binom(n, k);
        assert(k * c == n * 1) by (nonlinear_arith)
            requires
                k == 1,
                c == n,
        ;
    } else {
        let k2 = (k - 2) as nat;
        let n2 = (n - 2) as nat;
        // k C(n,k) = k C(n-1,k-1) + k C(n-1,k)
        //          = (k-1) C(n-1,k-1) + C(n-1,k-1) + k C(n-1,k)
        lemma_binom_absorb(n1, k1);
        lemma_binom_absorb(n1, k);
        let a = binom(n2, k2);
        let b = binom(n2, k1);
        assert(binom(n1, k1) == a + b);
        assert(binom(n, k) == binom(n1, k1) + binom(n1, k));
        assert(binom(n1, k) == binom(n2, k1) + binom(n2, k));
        assert(k * (binom(n1, k1) + binom(n1, k)) == k1 * binom(n1, k1) + binom(n1, k1)
            + k * binom(n1, k)) by (nonlinear_arith)
            requires
                k1 + 1 == k,
        ;
        assert(n1 * a + (a + b) + n1 * b == n * (a + b)) by (nonlinear_arith)
            requires
                n1 + 1 == n,
        ;
        assert(k1 * binom(n1, k1) == n1 * a);
        assert(k * binom(n1, k) == n1 * b);
        assert(k * binom(n, k) == n * binom(n1, k1));
    }
}

proof fn lemma_binom_absorb_one(n: nat)
    ensures
        binom(n, 1) == n,
    decreases n,
{
    if n > 0 {
        lemma_binom_absorb_one((n - 1) as nat);
        assert(binom((n - 1) as nat, 0) == 1);
        assert(binom(n, 1) == binom((n - 1) as nat, 0) + binom((n - 1) as nat, 1));
    }
}

/// A prime divides every inner binomial coefficient of its own row.
proof fn lemma_prime_divides_binom(p: nat, k: nat)
    requires
        is_prime(p),
        0 < k < p,
    ensures
        (binom(p, k) as int) % (p as int) == 0,
{
    lemma_binom_absorb(p, k);
    let c = binom((p - 1) as nat, (k - 1) as nat);
    lemma_mod_multiples_basic(c as int, p as int);
    lemma_mul_is_commutative(p as int, c as int);
    lemma_small_mod(k, p);
    lemma_euclid(k as int, binom(p, k) as int, p);
}

/// The partial sums of row `p` are 1 modulo `p` until the last term.
proof fn lemma_row_sum_mod(p: nat, x: int, m: nat)
    requires
        is_prime(p),
        1 <= m <= p,
    ensures
        binom_sum(p, x, m) % (p as int) == 1,
    decreases m,
{
    let pi = p as int;
    if m == 1 {
        lemma_pow0(x);
        lemma_small_mod(1, p);
        assert(binom_sum(p, x, 1) == binom_sum(p, x, 0) + binom(p, 0) * pow(x, 0));
    } else {
        let k = (m - 1) as nat;
        lemma_row_sum_mod(p, x, k);
        lemma_prime_divides_binom(p, k);
        let c = binom(p, k) as int;
        lemma_mul_mod_noop_left(c, pow(x, k), pi);
        lemma_mul_basics(pow(x, k));
        assert(binom_sum(p, x, m) == binom_sum(p, x, k) + c * pow(x, k));
        assert((c % pi) * pow(x, k) == 0);
        lemma_small_mod(0, p);
        assert((c * pow(x, k)) % pi == 0);
        lemma_add_mod_noop(binom_sum(p, x, k), c * pow(x, k), pi);
        lemma_small_mod(1, p);
    }
}

/// The freshman's dream: `(x + 1)^p == x^p + 1` modulo a prime `p`.
proof fn lemma_freshman(p: nat, x: int)
    requires
        is_prime(p),
    ensures
        pow(x + 1, p) % (p as int) == (pow(x, p) + 1) % (p as int),
{
    let pi = p as int;
    lemma_binomial(p, x);
    lemma_row_sum_mod(p, x, p);
    lemma_binom_diagonal(p);
    assert(binom_sum(p, x, p + 1) == binom_sum(p, x, p) + binom(p, p) * pow(x, p));
    assert(binom_sum(p, x, p + 1) == binom_sum(p, x, p) + pow(x, p));
    lemma_small_mod(1, p);
    lemma_add_mod_noop(binom_sum(p, x, p), pow(x, p), pi);
    lemma_add_mod_noop(1, pow(x, p), pi);
}

/// `a^p == a` modulo a prime `p`, for every `a >= 0`.
pub proof fn lemma_pow_prime_self(p: nat, a: nat)
    requires
        is_prime(p),
    ensures
        pow(a as int, p) % (p as int) == (a as int) % (p as int),
    decreases a,
{
    let pi = p as int;
    if a == 0 {
        lemma0_pow(p);
    } else {
        let a1 = (a - 1) as nat;
        lemma_pow_prime_self(p, a1);
        lemma_freshman(p, a1 as int);
        lemma_add_mod_noop(pow(a1 as int, p), 1, pi);
        lemma_add_mod_noop(a1 as int, 1, pi);
    }
}

/// Fermat's little theorem: `a^(p-1) == 1` modulo a prime `p` not dividing `a`.
pub proof fn lemma_fermat(p: nat, a: nat)
    requires
        is_prime(p),
        (a as int) % (p as int) != 0,
    ensures
        pow(a as int, (p - 1) as nat) % (p as int) == 1,
{
    let pi = p as int;
    let e = (p - 1) as nat;
    let t = pow(a as int, e);
    lemma_pow_prime_self(p, a);
    lemma_pow_adds(a as int, 1, e);
    lemma_pow1(a as int);
    assert(pow(a as int, p) == a * t);
    // p | a * t - a == a * (t - 1)
    lemma_sub_mod_noop(a * t, a as int, pi);
    lemma_mod_self_0(pi);
    assert((a * t - a) % pi == 0) by {
        lemma_mod_bound(a * t, pi);
        lemma_mod_bound(a as int, pi);
        lemma_small_mod(0, p);
    }
    assert(a * (t - 1) == a * t - a) by (nonlinear_arith);
    lemma_euclid(a as int, t - 1, p);
    lemma_add_mod_noop(t - 1, 1, pi);
    lemma_small_mod(1, p);
}

} // verus!
