//! Elements of the field of integers modulo a prime, and their operations.
use crate::fermat::{is_prime, lemma_fermat};
use crate::modpow::{lemma_products_fit, mod_pow};
use vstd::arithmetic::mul::*;
use vstd::arithmetic::div_mod::*;
use vstd::arithmetic::power::*;
use vstd::prelude::*;

verus! {

/// Why a field operation refused its operands.
#[derive(Debug, Clone, Copy, PartialEq, Eq, Structural)]
pub enum FieldError {
    /// The two operands belong to fields of different moduli.
    FieldMismatch,
    /// The divisor is the additive identity, which has no inverse.
    DivisionByZero,
}

/// A residue `num` in the field of integers modulo `prime`.
///
/// Construction does not check the pair: operations ask in their contracts for
/// well-formed operands (`num < prime`), and division and the inverse laws
/// further rely on `prime` being prime: only then is `other^(prime - 2)` the
/// inverse of a non-zero `other`.
#[derive(Debug, Clone, Copy, PartialEq, Eq, Structural)]
pub struct FieldElement {
    pub num: u64,
    pub prime: u64,
}

/// The canonical residue of `x` modulo `p`.
pub open spec fn residue(x: int, p: int) -> u64 {
    (x % p) as u64
}

impl FieldElement {
    /// The value lies in `[0, prime)`.
    pub open spec fn wf(self) -> bool {
        self.num < self.prime
    }

    /// `self + other` in the field of `self`.
    pub open spec fn sum(self, other: FieldElement) -> FieldElement {
        FieldElement { num: residue(self.num + other.num, self.prime as int), prime: self.prime }
    }

    /// `self - other` in the field of `self`: the true difference, never a wrapped one.
    pub open spec fn difference(self, other: FieldElement) -> FieldElement {
        FieldElement { num: residue(self.num - other.num, self.prime as int), prime: self.prime }
    }

    /// `self * other` in the field of `self`.
    pub open spec fn product(self, other: FieldElement) -> FieldElement {
        FieldElement { num: residue(self.num * other.num, self.prime as int), prime: self.prime }
    }

    /// `self / other`: `self` times `other` raised to `prime - 2`, which is the
    /// inverse of `other` when `prime` is prime.
    pub open spec fn quotient(self, other: FieldElement) -> FieldElement {
        FieldElement {
            num: residue(self.num * pow(other.num as int, (self.prime - 2) as nat), self.prime as int),
            prime: self.prime,
        }
    }

    /// `self` raised to `exp`.
    pub open spec fn power(self, exp: nat) -> FieldElement {
        FieldElement { num: residue(pow(self.num as int, exp), self.prime as int), prime: self.prime }
    }

    /// The pair `(num, prime)`, stored as given.
    pub fn new(num: u64, prime: u64) -> (r: FieldElement)
        ensures
            r.num == num,
            r.prime == prime,
    {
        FieldElement { num, prime }
    }

    /// Field addition; fails exactly when the moduli differ.
    pub fn add(self, other: FieldElement) -> (r: Result<FieldElement, FieldError>)
        requires
            self.wf(),
            other.wf(),
        ensures
            r == (if self.prime == other.prime {
                Ok::<FieldElement, FieldError>(self.sum(other))
            } else {
                Err(FieldError::FieldMismatch)
            }),
            r is Ok ==> r->Ok_0.wf(),
    {
        if self.prime != other.prime {
            return Err(FieldError::FieldMismatch);
        }
        let p = self.prime as u128;
        let num = ((self.num as u128 + other.num as u128) % p) as u64;
        Ok(FieldElement { num, prime: self.prime })
    }

    /// Field subtraction; fails exactly when the moduli differ.
    pub fn sub(self, other: FieldElement) -> (r: Result<FieldElement, FieldError>)
        requires
            self.wf(),
            other.wf(),
        ensures
            r == (if self.prime == other.prime {
                Ok::<FieldElement, FieldError>(self.difference(other))
            } else {
                Err(FieldError::FieldMismatch)
            }),
            r is Ok ==> r->Ok_0.wf(),
    {
        if self.prime != other.prime {
            return Err(FieldError::FieldMismatch);
        }
        let p = self.prime as u128;
        let num = ((self.num as u128 + p - other.num as u128) % p) as u64;
        proof {
            lemma_mod_add_multiples_vanish(self.num - other.num, p as int);
        }
        Ok(FieldElement { num, prime: self.prime })
    }

    /// Field multiplication; fails exactly when the moduli differ.
    pub fn mul(self, other: FieldElement) -> (r: Result<FieldElement, FieldError>)
        requires
            self.wf(),
            other.wf(),
        ensures
            r == (if self.prime == other.prime {
                Ok::<FieldElement, FieldError>(self.product(other))
            } else {
                Err(FieldError::FieldMismatch)
            }),
            r is Ok ==> r->Ok_0.wf(),
    {
        if self.prime != other.prime {
            return Err(FieldError::FieldMismatch);
        }
        let p = self.prime as u128;
        proof {
            lemma_products_fit(self.num as u128, other.num as u128, p);
        }
        let num = ((self.num as u128 * other.num as u128) % p) as u64;
        Ok(FieldElement { num, prime: self.prime })
    }

    /// Field division through the inverse `other^(prime - 2)`; fails with
    /// `FieldMismatch` when the moduli differ, else with `DivisionByZero` when
    /// `other` is zero.
    pub fn div(self, other: FieldElement) -> (r: Result<FieldElement, FieldError>)
        requires
            self.wf(),
            other.wf(),
        ensures
            r == (if self.prime != other.prime {
                Err(FieldError::FieldMismatch)
            } else if other.num == 0 {
                Err(FieldError::DivisionByZero)
            } else {
                Ok::<FieldElement, FieldError>(self.quotient(other))
            }),
            r is Ok ==> r->Ok_0.wf(),
    {
        if self.prime != other.prime {
            return Err(FieldError::FieldMismatch);
        }
        if other.num == 0 {
            return Err(FieldError::DivisionByZero);
        }
        let inv = mod_pow(other.num, self.prime - 2, self.prime);
        let p = self.prime as u128;
        proof {
            lemma_products_fit(self.num as u128, inv as u128, p);
            lemma_mul_mod_noop_right(
                self.num as int,
                pow(other.num as int, (self.prime - 2) as nat),
                p as int,
            );
        }
        let num = ((self.num as u128 * inv as u128) % p) as u64;
        Ok(FieldElement { num, prime: self.prime })
    }

    /// `self` raised to `exp` by repeated squaring.
    pub fn pow(self, exp: u64) -> (r: FieldElement)
        requires
            self.prime > 0,
        ensures
            r == self.power(exp as nat),
            r.wf(),
    {
        let num = mod_pow(self.num, exp, self.prime);
        FieldElement { num, prime: self.prime }
    }
}

/// The decimal digit `d` as a character.
pub open spec fn digit_char(d: nat) -> char {
    seq!['0', '1', '2', '3', '4', '5', '6', '7', '8', '9'][d as int]
}

/// The decimal notation of `n`, without leading zeros.
pub open spec fn decimal(n: nat) -> Seq<char>
    decreases n,
{
    if n < 10 {
        seq![digit_char(n)]
    } else {
        decimal(n / 10).push(digit_char(n % 10))
    }
}

/// The text `FieldElement_<prime>(<num>)`.
pub open spec fn rendering(num: nat, prime: nat) -> Seq<char> {
    seq!['F', 'i', 'e', 'l', 'd', 'E', 'l', 'e', 'm', 'e', 'n', 't', '_'] + decimal(prime) + seq!['(']
        + decimal(num) + seq![')']
}

fn digit_str(d: u64) -> (r: &'static str)
    requires
        d < 10,
    ensures
        r@ == seq![digit_char(d as nat)],
{
    proof {
        reveal_strlit("0");
        reveal_strlit("1");
        reveal_strlit("2");
        reveal_strlit("3");
        reveal_strlit("4");
        reveal_strlit("5");
        reveal_strlit("6");
        reveal_strlit("7");
        reveal_strlit("8");
        reveal_strlit("9");
    }
    let r = if d == 0 {
        "0"
    } else if d == 1 {
        "1"
    } else if d == 2 {
        "2"
    } else if d == 3 {
        "3"
    } else if d == 4 {
        "4"
    } else if d == 5 {
        "5"
    } else if d == 6 {
        "6"
    } else if d == 7 {
        "7"
    } else if d == 8 {
        "8"
    } else {
        "9"
    };
    assert(r@ =~= seq![digit_char(d as nat)]);
    r
}

fn push_decimal(s: &mut String, n: u64)
    ensures
        final(s)@ == old(s)@ + decimal(n as nat),
    decreases n,
{
    if n >= 10 {
        push_decimal(s, n / 10);
    }
    s.append(digit_str(n % 10));
    proof {
        if n >= 10 {
            assert(old(s)@ + decimal(n as nat) =~= old(s)@ + decimal((n / 10) as nat) + seq![
                digit_char((n % 10) as nat),
            ]);
        } else {
            assert(old(s)@ + decimal(n as nat) =~= old(s)@ + seq![digit_char((n % 10) as nat)]);
        }
    }
}

impl FieldElement {
    /// A human-readable tag for diagnostics: `FieldElement_<prime>(<num>)`.
    pub fn to_string(&self) -> (r: String)
        ensures
            r@ == rendering(self.num as nat, self.prime as nat),
    {
        let mut s = String::from_str("FieldElement_");
        push_decimal(&mut s, self.prime);
        s.append("(");
        push_decimal(&mut s, self.num);
        s.append(")");
        proof {
            reveal_strlit("FieldElement_");
            reveal_strlit("(");
            reveal_strlit(")");
            assert(s@ =~= rendering(self.num as nat, self.prime as nat));
        }
        s
    }
}

/// Subtracting an element from itself gives the additive identity.
pub proof fn lemma_sub_self(a: FieldElement)
    requires
        a.wf(),
    ensures
        a.difference(a) == (FieldElement { num: 0, prime: a.prime }),
{
    lemma_small_mod(0, a.prime as nat);
}

/// `a^(p-1) == 1` for every non-zero element of a field of prime order `p`.
pub proof fn lemma_pow_order_is_one(a: FieldElement)
    requires
        a.wf(),
        is_prime(a.prime as nat),
        a.num != 0,
    ensures
        a.power((a.prime - 1) as nat) == (FieldElement { num: 1, prime: a.prime }),
{
    lemma_small_mod(a.num as nat, a.prime as nat);
    lemma_fermat(a.prime as nat, a.num as nat);
}

/// `b * b^(p-2) == b^(p-1)`.
proof fn lemma_times_inverse_power(b: int, p: nat)
    requires
        p >= 2,
    ensures
        b * pow(b, (p - 2) as nat) == pow(b, (p - 1) as nat),
{
    lemma_pow_adds(b, 1, (p - 2) as nat);
    lemma_pow1(b);
}

/// Dividing a non-zero element by itself gives the multiplicative identity.
pub proof fn lemma_div_self(a: FieldElement)
    requires
        a.wf(),
        is_prime(a.prime as nat),
        a.num != 0,
    ensures
        a.quotient(a) == (FieldElement { num: 1, prime: a.prime }),
{
    lemma_times_inverse_power(a.num as int, a.prime as nat);
    lemma_pow_order_is_one(a);
}

/// Dividing by a non-zero `b` and then multiplying by `b` gives back the dividend.
pub proof fn lemma_div_then_mul(a: FieldElement, b: FieldElement)
    requires
        a.wf(),
        b.wf(),
        a.prime == b.prime,
        is_prime(a.prime as nat),
        b.num != 0,
    ensures
        a.quotient(b).product(b) == a,
{
    let p = a.prime as int;
    let x = a.num as int;
    let y = b.num as int;
    let inv = pow(y, (a.prime - 2) as nat);
    let full = pow(y, (a.prime - 1) as nat);
    lemma_times_inverse_power(y, a.prime as nat);
    lemma_pow_order_is_one(b);
    lemma_mul_mod_noop_left(x * inv, y, p);
    lemma_mul_is_associative(x, inv, y);
    lemma_mul_is_commutative(inv, y);
    assert((x * inv) * y == x * full);
    lemma_mul_mod_noop_right(x, full, p);
    lemma_small_mod(a.num as nat, a.prime as nat);
}


} // verus!
