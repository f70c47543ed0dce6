//! Exact non-negative quantities: a rational number or "no upper bound".
//!
//! A finite `Amount` holds numerator and denominator as base 2^32 digits,
//! least significant first. The arithmetic itself is done by the `fraction`
//! crate on `BigFraction`, a fraction of two `BigUint`. The five functions
//! here that call it (`finite_add`, `finite_sub`, `finite_mul`, `finite_div`
//! and `finite_lt`) are trusted: Verus takes their contracts as given. Each
//! rebuilds its operands with `BigUint::new`, which reads base 2^32 digits
//! least significant first, and `GenericFraction::new`, which makes the
//! fraction of a numerator and a nonzero denominator; and each reads the
//! result back with `numer`, `denom` and `BigUint::to_u32_digits`, which
//! writes digits in the same order. Everything else in this file is verified.

use fraction::BigFraction;
use fraction::BigUint;
use vstd::prelude::*;

verus! {

/// The natural number written by `d` in base 2^32, least significant digit first.
pub open spec fn digits_value(d: Seq<u32>) -> nat
    decreases d.len(),
{
    if d.len() == 0 {
        0
    } else {
        d[0] as nat + 4294967296 * digits_value(d.drop_first())
    }
}

/// What an `Amount` stands for: a rational number or the unbounded quantity.
pub enum Qty {
    Fin(real),
    Inf,
}

impl Qty {
    /// `self < other`, with `Inf` above every finite quantity.
    pub open spec fn lt(self, other: Qty) -> bool {
        match (self, other) {
            (Qty::Fin(a), Qty::Fin(b)) => a < b,
            (Qty::Fin(_), Qty::Inf) => true,
            (Qty::Inf, _) => false,
        }
    }

    /// `self <= other`, with `Inf` above every finite quantity.
    pub open spec fn le(self, other: Qty) -> bool {
        !other.lt(self)
    }

    /// The finite value; zero for `Inf`.
    pub open spec fn val(self) -> real {
        match self {
            Qty::Fin(a) => a,
            Qty::Inf => 0real,
        }
    }
}

/// A non-negative exact quantity, possibly unbounded.
#[derive(Clone, Debug)]
pub struct Amount {
    infinite: bool,
    num: Vec<u32>,
    den: Vec<u32>,
}

impl View for Amount {
    type V = Qty;

    closed spec fn view(&self) -> Qty {
        if self.infinite {
            Qty::Inf
        } else {
            Qty::Fin(digits_value(self.num@) as real / digits_value(self.den@) as real)
        }
    }
}

impl Amount {
    /// A finite amount has a nonzero denominator.
    pub closed spec fn wf(&self) -> bool {
        self.infinite || digits_value(self.den@) > 0
    }

    /// No amount is negative.
    pub proof fn lemma_nonneg(&self)
        requires
            self.wf(),
        ensures
            self@.val() >= 0real,
    {
        if !self.infinite {
            let n = digits_value(self.num@) as real;
            let d = digits_value(self.den@) as real;
            assert(n / d >= 0real) by (nonlinear_arith)
                requires
                    n >= 0real,
                    d > 0real,
            ;
        }
    }

    /// Calls `fraction::GenericFraction::add` on the two finite amounts, each
    /// rebuilt as a `BigFraction` from its digits. Trusted: the result is
    /// finite and is the exact sum.
    #[verifier::external_body]
    fn finite_add(&self, other: &Amount) -> (r: Amount)
        requires
            self.wf(),
            other.wf(),
            self@ is Fin,
            other@ is Fin,
        ensures
            r.wf(),
            r@ == Qty::Fin(self@.val() + other@.val()),
    {
        let x = BigFraction::new(BigUint::new(self.num.clone()), BigUint::new(self.den.clone()));
        let y = BigFraction::new(BigUint::new(other.num.clone()), BigUint::new(other.den.clone()));
        let z = x + y;
        Amount {
            infinite: false,
            num: z.numer().unwrap().to_u32_digits(),
            den: z.denom().unwrap().to_u32_digits(),
        }
    }

    /// Calls `fraction::GenericFraction::sub` on two finite amounts of which the
    /// second is not the larger. Trusted: the result is the exact difference,
    /// which is then not negative.
    #[verifier::external_body]
    fn finite_sub(&self, other: &Amount) -> (r: Amount)
        requires
            self.wf(),
            other.wf(),
            self@ is Fin,
            other@ is Fin,
            other@.val() <= self@.val(),
        ensures
            r.wf(),
            r@ == Qty::Fin(self@.val() - other@.val()),
    {
        let x = BigFraction::new(BigUint::new(self.num.clone()), BigUint::new(self.den.clone()));
        let y = BigFraction::new(BigUint::new(other.num.clone()), BigUint::new(other.den.clone()));
        let z = x - y;
        Amount {
            infinite: false,
            num: z.numer().unwrap().to_u32_digits(),
            den: z.denom().unwrap().to_u32_digits(),
        }
    }

    /// Calls `fraction::GenericFraction::mul` on two finite amounts. Trusted:
    /// the result is finite and is the exact product.
    #[verifier::external_body]
    fn finite_mul(&self, other: &Amount) -> (r: Amount)
        requires
            self.wf(),
            other.wf(),
            self@ is Fin,
            other@ is Fin,
        ensures
            r.wf(),
            r@ == Qty::Fin(self@.val() * other@.val()),
    {
        let x = BigFraction::new(BigUint::new(self.num.clone()), BigUint::new(self.den.clone()));
        let y = BigFraction::new(BigUint::new(other.num.clone()), BigUint::new(other.den.clone()));
        let z = x * y;
        Amount {
            infinite: false,
            num: z.numer().unwrap().to_u32_digits(),
            den: z.denom().unwrap().to_u32_digits(),
        }
    }

    /// Calls `fraction::GenericFraction::div` on two finite amounts of which the
    /// second is not zero. Trusted: the result is finite and is the exact
    /// quotient.
    #[verifier::external_body]
    fn finite_div(&self, other: &Amount) -> (r: Amount)
        requires
            self.wf(),
            other.wf(),
            self@ is Fin,
            other@ is Fin,
            other@.val() != 0real,
        ensures
            r.wf(),
            r@ == Qty::Fin(self@.val() / other@.val()),
    {
        let x = BigFraction::new(BigUint::new(self.num.clone()), BigUint::new(self.den.clone()));
        let y = BigFraction::new(BigUint::new(other.num.clone()), BigUint::new(other.den.clone()));
        let z = x / y;
        Amount {
            infinite: false,
            num: z.numer().unwrap().to_u32_digits(),
            den: z.denom().unwrap().to_u32_digits(),
        }
    }

    /// Calls the `<` that `fraction::GenericFraction` has from its `Ord` on two
    /// finite amounts. Trusted: it orders them as the rational numbers they
    /// stand for.
    #[verifier::external_body]
    fn finite_lt(&self, other: &Amount) -> (r: bool)
        requires
            self.wf(),
            other.wf(),
            self@ is Fin,
            other@ is Fin,
        ensures
            r == (self@.val() < other@.val()),
    {
        let x = BigFraction::new(BigUint::new(self.num.clone()), BigUint::new(self.den.clone()));
        let y = BigFraction::new(BigUint::new(other.num.clone()), BigUint::new(other.den.clone()));
        x < y
    }

    /// The unbounded amount.
    pub fn infinity() -> (r: Amount)
        ensures
            r.wf(),
            r@ == Qty::Inf,
    {
        Amount { infinite: true, num: Vec::new(), den: Vec::new() }
    }

    /// The whole number `n`.
    pub fn from_u64(n: u64) -> (r: Amount)
        ensures
            r.wf(),
            r@ == Qty::Fin(n as real),
    {
        assert((n & 0xffff_ffff) <= 0xffff_ffff) by (bit_vector);
        assert((n >> 32) <= 0xffff_ffff) by (bit_vector);
        assert(n == (n & 0xffff_ffff) + 4294967296 * (n >> 32)) by (bit_vector);
        let lo: u32 = (n & 0xffff_ffff) as u32;
        let hi: u32 = (n >> 32) as u32;
        let mut num: Vec<u32> = Vec::new();
        num.push(lo);
        num.push(hi);
        let mut den: Vec<u32> = Vec::new();
        den.push(1u32);
        proof {
            lemma_two_digits(lo, hi);
            lemma_one_digit(1u32);
            assert(num@ =~= seq![lo, hi]);
            assert(den@ =~= seq![1u32]);
            assert(digits_value(num@) == n as nat);
            assert(digits_value(den@) == 1);
            assert((n as nat) as real / 1real == n as real);
        }
        Amount { infinite: false, num, den }
    }

    /// The finite amount with this numerator and denominator, each in base
    /// 2^32 digits, least significant first. `None` where the denominator is zero.
    pub fn from_digits(num: Vec<u32>, den: Vec<u32>) -> (r: Option<Amount>)
        ensures
            r is Some <==> digits_value(den@) > 0,
            r is Some ==> r->0.wf() && r->0@ == Qty::Fin(
                digits_value(num@) as real / digits_value(den@) as real,
            ),
    {
        let mut i: usize = 0;
        while i < den.len()
            invariant
                i <= den@.len(),
                forall|t: int| 0 <= t < i ==> den@[t] == 0,
            decreases den@.len() - i,
        {
            if den[i] != 0 {
                proof {
                    lemma_digit_counts(den@, i as int);
                }
                return Some(Amount { infinite: false, num, den });
            }
            i += 1;
        }
        proof {
            lemma_no_digit(den@);
        }
        None
    }

    /// The digits of the numerator, least significant first; none for the
    /// unbounded amount.
    pub fn numer_digits(&self) -> (r: Vec<u32>)
        ensures
            self@ is Fin ==> self@ == Qty::Fin(
                digits_value(r@) as real / digits_value(self.denom_digits_spec()) as real,
            ),
    {
        let r = self.num.clone();
        assert(r@ =~= self.num@);
        r
    }

    /// The digits of the denominator, least significant first; none for the
    /// unbounded amount.
    pub fn denom_digits(&self) -> (r: Vec<u32>)
        ensures
            r@ == self.denom_digits_spec(),
    {
        let r = self.den.clone();
        assert(r@ =~= self.den@);
        r
    }

    /// The digits of the denominator.
    pub closed spec fn denom_digits_spec(&self) -> Seq<u32> {
        self.den@
    }

    /// The whole number `n`.
    pub fn from_usize(n: usize) -> (r: Amount)
        ensures
            r.wf(),
            r@ == Qty::Fin(n as real),
    {
        Amount::from_u64(n as u64)
    }

    /// Zero.
    pub fn zero() -> (r: Amount)
        ensures
            r.wf(),
            r@ == Qty::Fin(0real),
    {
        Amount::from_u64(0)
    }

    /// A copy that stands for the same quantity.
    pub fn dup(&self) -> (r: Amount)
        ensures
            r@ == self@,
            self.wf() ==> r.wf(),
    {
        let num = self.num.clone();
        let den = self.den.clone();
        proof {
            assert(num@ =~= self.num@);
            assert(den@ =~= self.den@);
        }
        Amount { infinite: self.infinite, num, den }
    }

    /// Whether this is the unbounded amount.
    pub fn is_infinite(&self) -> (r: bool)
        ensures
            r == (self@ is Inf),
    {
        self.infinite
    }

    /// `self < other`; the unbounded amount is above every finite one.
    pub fn lt(&self, other: &Amount) -> (r: bool)
        requires
            self.wf(),
            other.wf(),
        ensures
            r == self@.lt(other@),
    {
        if self.infinite {
            false
        } else if other.infinite {
            true
        } else {
            self.finite_lt(other)
        }
    }

    /// `self <= other`.
    pub fn le(&self, other: &Amount) -> (r: bool)
        requires
            self.wf(),
            other.wf(),
        ensures
            r == self@.le(other@),
    {
        !other.lt(self)
    }

    /// Whether the two stand for the same quantity.
    pub fn same(&self, other: &Amount) -> (r: bool)
        requires
            self.wf(),
            other.wf(),
        ensures
            r == (self@ == other@),
    {
        !self.lt(other) && !other.lt(self)
    }

    /// Whether this is the finite amount zero.
    pub fn is_zero(&self) -> (r: bool)
        requires
            self.wf(),
        ensures
            r == (self@ == Qty::Fin(0real)),
    {
        let z = Amount::zero();
        self.same(&z)
    }

    /// The sum; unbounded as soon as one of the two is.
    pub fn add(&self, other: &Amount) -> (r: Amount)
        requires
            self.wf(),
            other.wf(),
        ensures
            r.wf(),
            r@ == (if self@ is Inf || other@ is Inf {
                Qty::Inf
            } else {
                Qty::Fin(self@.val() + other@.val())
            }),
    {
        if self.infinite || other.infinite {
            Amount::infinity()
        } else {
            self.finite_add(other)
        }
    }

    /// The difference of two finite amounts, where it is not negative.
    /// `None` for every other pair.
    pub fn checked_sub(&self, other: &Amount) -> (r: Option<Amount>)
        requires
            self.wf(),
            other.wf(),
        ensures
            r is Some <==> self@ is Fin && other@ is Fin && other@.val() <= self@.val(),
            r is Some ==> r->0.wf() && r->0@ == Qty::Fin(self@.val() - other@.val()),
    {
        if self.infinite || other.infinite {
            None
        } else if self.finite_lt(other) {
            None
        } else {
            Some(self.finite_sub(other))
        }
    }

    /// The product of two finite amounts. `None` when one is unbounded.
    pub fn checked_mul(&self, other: &Amount) -> (r: Option<Amount>)
        requires
            self.wf(),
            other.wf(),
        ensures
            r is Some <==> self@ is Fin && other@ is Fin,
            r is Some ==> r->0.wf() && r->0@ == Qty::Fin(self@.val() * other@.val()),
    {
        if self.infinite || other.infinite {
            None
        } else {
            Some(self.finite_mul(other))
        }
    }

    /// The quotient of two finite amounts, the second not zero. `None` for
    /// every other pair.
    pub fn checked_div(&self, other: &Amount) -> (r: Option<Amount>)
        requires
            self.wf(),
            other.wf(),
        ensures
            r is Some <==> self@ is Fin && other@ is Fin && other@.val() != 0real,
            r is Some ==> r->0.wf() && r->0@ == Qty::Fin(self@.val() / other@.val()),
    {
        if self.infinite || other.infinite {
            None
        } else if other.is_zero() {
            None
        } else {
            Some(self.finite_div(other))
        }
    }
}

/// Digits that are all zero write zero.
pub proof fn lemma_no_digit(d: Seq<u32>)
    requires
        forall|t: int| 0 <= t < d.len() ==> d[t] == 0,
    ensures
        digits_value(d) == 0,
    decreases d.len(),
{
    if d.len() > 0 {
        assert forall|t: int| 0 <= t < d.drop_first().len() implies d.drop_first()[t] == 0 by {
            assert(d.drop_first()[t] == d[t + 1]);
        }
        lemma_no_digit(d.drop_first());
    }
}

/// Digits of which one is not zero write a number that is not zero.
pub proof fn lemma_digit_counts(d: Seq<u32>, i: int)
    requires
        0 <= i < d.len(),
        d[i] != 0,
    ensures
        digits_value(d) > 0,
    decreases d.len(),
{
    if i > 0 {
        assert(d.drop_first()[i - 1] == d[i]);
        lemma_digit_counts(d.drop_first(), i - 1);
    }
}

/// A single digit stands for itself.
pub proof fn lemma_one_digit(a: u32)
    ensures
        digits_value(seq![a]) == a as nat,
{
    assert(seq![a].drop_first() =~= Seq::<u32>::empty());
    reveal_with_fuel(digits_value, 2);
}

/// Two digits `a`, `b` stand for `a + 2^32 * b`.
pub proof fn lemma_two_digits(a: u32, b: u32)
    ensures
        digits_value(seq![a, b]) == a as nat + 4294967296 * (b as nat),
{
    assert(seq![a, b].drop_first() =~= seq![b]);
    lemma_one_digit(b);
}

/// Dividing by a nonzero number and multiplying by it again changes nothing.
pub proof fn lemma_div_mul(a: real, n: real)
    requires
        n != 0real,
    ensures
        (a / n) * n == a,
{
    assert((a / n) * n == a) by (nonlinear_arith)
        requires
            n != 0real,
    ;
}

} // verus!
