//! Exact rational constants, computed by `num_rational`.
use num_rational::Ratio;
use num_traits::identities::{One, Zero};
use num_traits::{CheckedAdd, CheckedDiv, CheckedMul, CheckedSub};
use vstd::prelude::*;

verus! {

/// Whether `numer / denom` is a fraction in lowest terms with a positive
/// denominator.
pub open spec fn lowest_terms(numer: int, denom: int) -> bool {
    &&& denom > 0
    &&& forall|k: int| k > 1 ==> !(#[trigger] (numer % k) == 0 && denom % k == 0)
}

/// An exact ratio of two 64-bit integers, always in lowest terms and with a
/// positive denominator, so that two constants are equal as numbers exactly
/// when they are equal field by field.
#[derive(Debug, Clone, Copy, PartialEq, Eq, Structural, Hash)]
pub struct Rational {
    numer: i64,
    denom: i64,
}

impl View for Rational {
    type V = (int, int);

    closed spec fn view(&self) -> (int, int) {
        (self.numer as int, self.denom as int)
    }
}

impl Rational {
    /// Whether the constant is in lowest terms with a positive denominator,
    /// as every constant that a program holds is.
    #[verifier::type_invariant]
    pub closed spec fn well_formed(self) -> bool {
        lowest_terms(self.numer as int, self.denom as int)
    }

    /// A well-formed constant is in lowest terms.
    pub proof fn lemma_well_formed(a: Rational)
        ensures
            a.well_formed() == lowest_terms(a@.0, a@.1),
    {
    }

    /// The constant `n / 1`.
    pub closed spec fn integer(n: i64) -> Rational {
        Rational { numer: n, denom: 1 }
    }

    /// Two constants with the same numerator and denominator are the same
    /// constant.
    pub proof fn lemma_view_injective(a: Rational, b: Rational)
        requires
            a@ == b@,
        ensures
            a == b,
    {
    }

    /// The constant `n / 1` has numerator `n` and denominator one.
    pub proof fn lemma_integer_view(n: i64)
        ensures
            Rational::integer(n)@ == (n as int, 1int),
    {
    }

    /// A constant with equal numerator and denominator is one, and one with
    /// opposite numerator and denominator is minus one.
    pub proof fn lemma_unit(n: int, d: int)
        requires
            lowest_terms(n, d),
            n == d || n == -d,
        ensures
            d == 1,
    {
        if d > 1 {
            assert(n % d == 0 && d % d == 0) by (nonlinear_arith)
                requires
                    d > 1,
                    n == d || n == -d,
            ;
        }
    }

    /// The constant with the given numerator and denominator.
    pub closed spec fn from_view(v: (int, int)) -> Rational {
        Rational { numer: v.0 as i64, denom: v.1 as i64 }
    }

    /// The numerator and the denominator of a constant fit `i64`, and a
    /// fraction within that range is the view of the constant made from it.
    pub proof fn lemma_view_range(a: Rational, v: (int, int))
        ensures
            i64::MIN <= a@.0 <= i64::MAX,
            i64::MIN <= a@.1 <= i64::MAX,
            i64::MIN <= v.0 <= i64::MAX && i64::MIN <= v.1 <= i64::MAX ==> Rational::from_view(v)@
                == v,
    {
    }

    /// Every constant is the one made from its own view.
    pub proof fn lemma_from_view(a: Rational)
        ensures
            Rational::from_view(a@) == a,
    {
    }

    /// Whether the constant is zero.
    pub fn is_zero(&self) -> (b: bool)
        ensures
            b == (self@.0 == 0),
    {
        ratio_is_zero(*self)
    }

    /// Whether the constant is one.
    pub fn is_one(&self) -> (b: bool)
        ensures
            b == (self@ == (1int, 1int)),
    {
        let one = ratio_one();
        proof {
            use_type_invariant(self);
            if self@.0 == self@.1 {
                Self::lemma_unit(self@.0, self@.1);
            }
            assert(self@.0 * one@.1 == self@.0 && one@.0 * self@.1 == self@.1) by (nonlinear_arith)
                requires
                    one@.0 == 1,
                    one@.1 == 1,
            ;
        }
        ratio_eq(*self, one)
    }

    /// Whether the constant is minus one.
    pub fn is_minus_one(&self) -> (b: bool)
        ensures
            b == (self@ == (-1int, 1int)),
    {
        let minus_one = ratio_neg(ratio_one());
        proof {
            use_type_invariant(self);
            if self@.0 == -self@.1 {
                Self::lemma_unit(self@.0, self@.1);
            }
            assert(self@.0 * minus_one@.1 == self@.0 && minus_one@.0 * self@.1 == -self@.1)
                by (nonlinear_arith)
                requires
                    minus_one@.0 == -1,
                    minus_one@.1 == 1,
            ;
        }
        ratio_eq(*self, minus_one)
    }

    /// The negated constant, or `None` where the numerator is the least
    /// `i64`, which has no negation.
    pub fn checked_neg(&self) -> (r: Option<Rational>)
        ensures
            r == if self@.0 == i64::MIN {
                None
            } else {
                Some(Rational::from_view((-self@.0, self@.1)))
            },
    {
        if self.numer == i64::MIN {
            None
        } else {
            let r = ratio_neg(*self);
            Some(r)
        }
    }

    pub fn numer(&self) -> (n: i64)
        ensures
            n == self@.0,
    {
        self.numer
    }

    pub fn denom(&self) -> (d: i64)
        ensures
            d == self@.1,
            d > 0,
    {
        proof {
            use_type_invariant(self);
        }
        self.denom
    }
}

/// What `Ratio::<i64>::checked_add` returns for the fractions `an / ad` and
/// `bn / bd`: the numerator and denominator of the sum, or `None` where an
/// intermediate product or the sum itself leaves the range of `i64`.
pub uninterp spec fn checked_add_result(an: int, ad: int, bn: int, bd: int) -> Option<(int, int)>;

/// What `Ratio::<i64>::checked_sub` returns for `an / ad` and `bn / bd`.
pub uninterp spec fn checked_sub_result(an: int, ad: int, bn: int, bd: int) -> Option<(int, int)>;

/// What `Ratio::<i64>::checked_mul` returns for `an / ad` and `bn / bd`.
pub uninterp spec fn checked_mul_result(an: int, ad: int, bn: int, bd: int) -> Option<(int, int)>;

/// What `Ratio::<i64>::checked_div` returns for `an / ad` and `bn / bd`,
/// where `an` is not zero.
pub uninterp spec fn checked_div_result(an: int, ad: int, bn: int, bd: int) -> Option<(int, int)>;

/// The decimal text that `Display` gives `Ratio::<i64>`: the numerator alone
/// where the denominator is one, else numerator, a slash and denominator.
pub uninterp spec fn ratio_text(numer: int, denom: int) -> Seq<char>;

/// `c` is the fraction `a + b`.
pub open spec fn is_sum(a: (int, int), b: (int, int), c: (int, int)) -> bool {
    c.0 * (a.1 * b.1) == (a.0 * b.1 + b.0 * a.1) * c.1
}

/// `c` is the fraction `a - b`.
pub open spec fn is_difference(a: (int, int), b: (int, int), c: (int, int)) -> bool {
    c.0 * (a.1 * b.1) == (a.0 * b.1 - b.0 * a.1) * c.1
}

/// `c` is the fraction `a * b`.
pub open spec fn is_product(a: (int, int), b: (int, int), c: (int, int)) -> bool {
    c.0 * (a.1 * b.1) == (a.0 * b.0) * c.1
}

/// `c` is the fraction `a / b`, for a nonzero `b`.
pub open spec fn is_quotient(a: (int, int), b: (int, int), c: (int, int)) -> bool {
    c.0 * (a.1 * b.0) == (a.0 * b.1) * c.1
}

/// The view of an optional constant.
pub open spec fn option_view(r: Option<Rational>) -> Option<(int, int)> {
    match r {
        Some(c) => Some(c@),
        None => None,
    }
}

/// Calls `Ratio::new(n, 1)`. Reducing `n / 1` leaves it unchanged, so the
/// result has numerator `n` and denominator one.
#[verifier::external_body]
pub(crate) fn ratio_from_integer(n: i64) -> (r: Rational)
    ensures
        r@ == (n as int, 1int),
{
    let q = Ratio::new(n, 1);
    Rational { numer: *q.numer(), denom: *q.denom() }
}

/// Calls `CheckedAdd::checked_add` of `Ratio<i64>`. Where it returns a
/// value, that value is the exact sum, reduced to lowest terms.
#[verifier::external_body]
pub(crate) fn ratio_checked_add(a: Rational, b: Rational) -> (r: Option<Rational>)
    ensures
        option_view(r) == checked_add_result(a@.0, a@.1, b@.0, b@.1),
        r matches Some(c) ==> lowest_terms(c@.0, c@.1) && is_sum(a@, b@, c@),
{
    let q = Ratio::new_raw(a.numer, a.denom).checked_add(&Ratio::new_raw(b.numer, b.denom));
    q.map(|q| Rational { numer: *q.numer(), denom: *q.denom() })
}

/// Calls `CheckedSub::checked_sub` of `Ratio<i64>`. Where it returns a
/// value, that value is the exact difference, reduced to lowest terms.
#[verifier::external_body]
pub(crate) fn ratio_checked_sub(a: Rational, b: Rational) -> (r: Option<Rational>)
    ensures
        option_view(r) == checked_sub_result(a@.0, a@.1, b@.0, b@.1),
        r matches Some(c) ==> lowest_terms(c@.0, c@.1) && is_difference(a@, b@, c@),
{
    let q = Ratio::new_raw(a.numer, a.denom).checked_sub(&Ratio::new_raw(b.numer, b.denom));
    q.map(|q| Rational { numer: *q.numer(), denom: *q.denom() })
}

/// Calls `CheckedMul::checked_mul` of `Ratio<i64>`. Where it returns a
/// value, that value is the exact product, reduced to lowest terms.
#[verifier::external_body]
pub(crate) fn ratio_checked_mul(a: Rational, b: Rational) -> (r: Option<Rational>)
    ensures
        option_view(r) == checked_mul_result(a@.0, a@.1, b@.0, b@.1),
        r matches Some(c) ==> lowest_terms(c@.0, c@.1) && is_product(a@, b@, c@),
{
    let q = Ratio::new_raw(a.numer, a.denom).checked_mul(&Ratio::new_raw(b.numer, b.denom));
    q.map(|q| Rational { numer: *q.numer(), denom: *q.denom() })
}

/// Calls `CheckedDiv::checked_div` of `Ratio<i64>`. Where it returns a
/// value, the divisor is not zero and the value is the exact quotient,
/// reduced to lowest terms. A dividend of zero is left out: the call then
/// takes the greatest common divisor of zero and the divisor's numerator,
/// which has no value where that numerator is the least `i64`.
#[verifier::external_body]
pub(crate) fn ratio_checked_div(a: Rational, b: Rational) -> (r: Option<Rational>)
    requires
        a@.0 != 0,
    ensures
        option_view(r) == checked_div_result(a@.0, a@.1, b@.0, b@.1),
        r matches Some(c) ==> b@.0 != 0 && lowest_terms(c@.0, c@.1) && is_quotient(a@, b@, c@),
{
    let q = Ratio::new_raw(a.numer, a.denom).checked_div(&Ratio::new_raw(b.numer, b.denom));
    q.map(|q| Rational { numer: *q.numer(), denom: *q.denom() })
}

/// Calls `Neg::neg` of `Ratio<i64>`, which negates the numerator and keeps
/// the denominator. The least `i64` has no negation and is left out.
#[verifier::external_body]
pub(crate) fn ratio_neg(a: Rational) -> (r: Rational)
    requires
        a@.0 > i64::MIN,
    ensures
        r@ == (-a@.0, a@.1),
{
    let q = -Ratio::new_raw(a.numer, a.denom);
    Rational { numer: *q.numer(), denom: *q.denom() }
}

/// Calls `Zero::is_zero` of `Ratio<i64>`, which tests the numerator.
#[verifier::external_body]
pub(crate) fn ratio_is_zero(a: Rational) -> (b: bool)
    ensures
        b == (a@.0 == 0),
{
    Ratio::new_raw(a.numer, a.denom).is_zero()
}

/// Calls `One::one` of `Ratio<i64>`, which is the fraction `1 / 1`.
#[verifier::external_body]
pub(crate) fn ratio_one() -> (r: Rational)
    ensures
        r@ == (1int, 1int),
{
    let q: Ratio<i64> = One::one();
    Rational { numer: *q.numer(), denom: *q.denom() }
}

/// Compares by the `==` of `Ratio<i64>`, which holds exactly when the two
/// fractions are the same number.
#[verifier::external_body]
pub(crate) fn ratio_eq(a: Rational, b: Rational) -> (r: bool)
    ensures
        r == (a@.0 * b@.1 == b@.0 * a@.1),
{
    Ratio::new_raw(a.numer, a.denom) == Ratio::new_raw(b.numer, b.denom)
}

/// Formats with the `Display` of `Ratio<i64>`.
#[verifier::external_body]
pub(crate) fn ratio_to_string(a: Rational) -> (s: String)
    ensures
        s@ == ratio_text(a@.0, a@.1),
{
    format!("{}", Ratio::new_raw(a.numer, a.denom))
}

} // verus!
