//! Polynomials with integer coefficients, the highest power first, so that
//! the last coefficient is the constant term.

use crate::field::Field;
use vstd::arithmetic::div_mod::*;
use vstd::arithmetic::power::*;
use vstd::prelude::*;

verus! {

/// The same numbers as mathematical integers.
pub open spec fn as_ints(s: Seq<i64>) -> Seq<int> {
    Seq::new(s.len(), |i: int| s[i] as int)
}

/// The value at `x` of the polynomial with the given coefficients: the sum of
/// `coeffs[i] * x^(n - 1 - i)` over the `n` coefficients.
pub open spec fn poly_value(coeffs: Seq<int>, x: int) -> int
    decreases coeffs.len(),
{
    if coeffs.len() == 0 {
        0
    } else {
        coeffs[0] * pow(x, (coeffs.len() - 1) as nat) + poly_value(coeffs.drop_first(), x)
    }
}

/// The same value by Horner's rule.
pub open spec fn horner(coeffs: Seq<int>, x: int) -> int
    decreases coeffs.len(),
{
    if coeffs.len() == 0 {
        0
    } else {
        horner(coeffs.drop_last(), x) * x + coeffs.last()
    }
}

/// The quotient of the polynomial by `X - a`: its coefficients are the
/// intermediate values of Horner's rule at `a`.
pub open spec fn quotient(coeffs: Seq<int>, a: int) -> Seq<int> {
    Seq::new((coeffs.len() - 1) as nat, |i: int| horner(coeffs.take(i + 1), a))
}

/// Shifting every term up by one power and adding a constant term.
proof fn lemma_poly_value_push(coeffs: Seq<int>, c: int, x: int)
    ensures
        poly_value(coeffs.push(c), x) == poly_value(coeffs, x) * x + c,
    decreases coeffs.len(),
{
    let longer = coeffs.push(c);
    if coeffs.len() == 0 {
        assert(longer.drop_first() =~= Seq::<int>::empty());
        assert(poly_value(longer.drop_first(), x) == 0);
        lemma_pow0(x);
        assert(longer[0] * pow(x, 0) == c) by (nonlinear_arith)
            requires
                longer[0] == c,
                pow(x, 0) == 1,
        ;
    } else {
        let n = coeffs.len();
        assert(longer.drop_first() =~= coeffs.drop_first().push(c));
        lemma_poly_value_push(coeffs.drop_first(), c, x);
        assert(pow(x, n as nat) == pow(x, (n - 1) as nat) * x) by {
            reveal(pow);
            assert(pow(x, n as nat) == x * pow(x, (n - 1) as nat));
            assert(x * pow(x, (n - 1) as nat) == pow(x, (n - 1) as nat) * x) by (nonlinear_arith);
        }
        let lead = coeffs[0];
        let hi = pow(x, (n - 1) as nat);
        let rest = poly_value(coeffs.drop_first(), x);
        assert(lead * (hi * x) + (rest * x + c) == (lead * hi + rest) * x + c) by (nonlinear_arith);
    }
}

/// Horner's rule computes the value of the polynomial.
pub proof fn lemma_horner_is_poly_value(coeffs: Seq<int>, x: int)
    ensures
        horner(coeffs, x) == poly_value(coeffs, x),
    decreases coeffs.len(),
{
    if coeffs.len() > 0 {
        lemma_horner_is_poly_value(coeffs.drop_last(), x);
        lemma_poly_value_push(coeffs.drop_last(), coeffs.last(), x);
        assert(coeffs.drop_last().push(coeffs.last()) =~= coeffs);
    }
}

/// At zero a polynomial takes the value of its constant term.
pub proof fn lemma_value_at_zero(coeffs: Seq<int>)
    requires
        coeffs.len() > 0,
    ensures
        poly_value(coeffs, 0) == coeffs.last(),
{
    lemma_horner_is_poly_value(coeffs, 0);
    assert(horner(coeffs.drop_last(), 0) * 0 == 0);
}

/// Division with remainder by `X - a`: the remainder is the value at `a`.
pub proof fn lemma_quotient(coeffs: Seq<int>, a: int, x: int)
    requires
        coeffs.len() > 0,
    ensures
        horner(coeffs, x) == horner(coeffs, a) + (x - a) * horner(quotient(coeffs, a), x),
    decreases coeffs.len(),
{
    let q = quotient(coeffs, a);
    let shorter = coeffs.drop_last();
    if coeffs.len() == 1 {
        assert(horner(shorter, x) == 0);
        assert(horner(shorter, a) == 0);
        assert(horner(q, x) == 0);
        assert((x - a) * 0 == 0);
        assert(0 * x == 0);
        assert(0 * a == 0);
    } else {
        lemma_quotient(shorter, a, x);
        let qs = quotient(shorter, a);
        assert(q.drop_last() =~= qs) by {
            assert forall|i: int| 0 <= i < qs.len() implies q.drop_last()[i] == qs[i] by {
                assert(coeffs.take(i + 1) =~= shorter.take(i + 1));
            }
        }
        assert(q.last() == horner(shorter, a)) by {
            assert(coeffs.take(coeffs.len() - 1) =~= shorter);
        }
        let hq = horner(qs, x);
        let hs = horner(shorter, a);
        let last = coeffs.last();
        assert(horner(q, x) == hq * x + hs);
        assert(horner(coeffs, x) == (hs + (x - a) * hq) * x + last);
        assert((hs + (x - a) * hq) * x + last == (hs * a + last) + (x - a) * (hq * x + hs))
            by (nonlinear_arith);
    }
}

/// The quotient by `X - a` keeps the leading coefficient.
pub proof fn lemma_quotient_leading(coeffs: Seq<int>, a: int)
    requires
        coeffs.len() >= 2,
    ensures
        quotient(coeffs, a).len() == coeffs.len() - 1,
        quotient(coeffs, a)[0] == coeffs[0],
{
    let first = coeffs.take(1);
    assert(first.drop_last() =~= Seq::<int>::empty());
    assert(horner(first.drop_last(), a) == 0);
    assert(0 * a == 0);
    assert(first.last() == coeffs[0]);
}

/// Leading zero coefficients do not change the value.
pub proof fn lemma_leading_zeros(zeros: Seq<int>, coeffs: Seq<int>, x: int)
    requires
        forall|i: int| 0 <= i < zeros.len() ==> zeros[i] == 0,
    ensures
        horner(zeros + coeffs, x) == horner(coeffs, x),
    decreases coeffs.len(),
{
    if coeffs.len() == 0 {
        assert(zeros + coeffs =~= zeros);
        lemma_zero_polynomial(zeros, x);
    } else {
        assert((zeros + coeffs).drop_last() =~= zeros + coeffs.drop_last());
        lemma_leading_zeros(zeros, coeffs.drop_last(), x);
    }
}

/// The polynomial whose coefficients are all zero is zero everywhere.
proof fn lemma_zero_polynomial(zeros: Seq<int>, x: int)
    requires
        forall|i: int| 0 <= i < zeros.len() ==> zeros[i] == 0,
    ensures
        horner(zeros, x) == 0,
    decreases zeros.len(),
{
    if zeros.len() > 0 {
        lemma_zero_polynomial(zeros.drop_last(), x);
        assert(0 * x == 0);
    }
}

/// Coefficient by coefficient, `c` plus `scale` times `d`, for two sequences
/// of one length.
pub open spec fn combination(c: Seq<int>, d: Seq<int>, scale: int) -> Seq<int> {
    Seq::new(c.len(), |i: int| c[i] + scale * d[i])
}

/// The value of a polynomial is linear in its coefficients.
pub proof fn lemma_combination(c: Seq<int>, d: Seq<int>, scale: int, x: int)
    requires
        c.len() == d.len(),
    ensures
        horner(combination(c, d, scale), x) == horner(c, x) + scale * horner(d, x),
    decreases c.len(),
{
    let both = combination(c, d, scale);
    if c.len() == 0 {
        assert(scale * 0 == 0);
    } else {
        lemma_combination(c.drop_last(), d.drop_last(), scale, x);
        assert(both.drop_last() =~= combination(c.drop_last(), d.drop_last(), scale));
        let hc = horner(c.drop_last(), x);
        let hd = horner(d.drop_last(), x);
        let cl = c.last();
        let dl = d.last();
        assert(both.last() == cl + scale * dl);
        assert((hc + scale * hd) * x + (cl + scale * dl) == (hc * x + cl) + scale * (hd * x + dl))
            by (nonlinear_arith);
    }
}

/// Evaluates at `x`, in the field, the polynomial whose coefficients are
/// `coeffs`, the highest power first.
pub fn get_polynomial_value(field: &Field, x: i64, coeffs: &[i64]) -> (y: i64)
    ensures
        y == poly_value(as_ints(coeffs@), x as int) % field@,
        0 <= y < field@,
{
    let ghost c = as_ints(coeffs@);
    let p = field.modulus();
    let mut acc: i64 = 0;
    let mut i: usize = 0;
    proof {
        lemma_small_mod(0, p as nat);
        assert(c.take(0) =~= Seq::<int>::empty());
    }
    while i < coeffs.len()
        invariant
            0 <= i <= coeffs.len(),
            c == as_ints(coeffs@),
            p == field@,
            p >= 2,
            acc == horner(c.take(i as int), x as int) % (p as int),
        decreases coeffs.len() - i,
    {
        let shifted = field.times(acc, x);
        let next = field.plus(shifted, coeffs[i]);
        proof {
            let before = horner(c.take(i as int), x as int);
            assert(c.take(i + 1).drop_last() =~= c.take(i as int));
            assert(c.take(i + 1).last() == coeffs[i as int]);
            assert(horner(c.take(i + 1), x as int) == before * x + coeffs[i as int]);
            lemma_mul_mod_noop_left(before, x as int, p as int);
            lemma_add_mod_noop(before * x, coeffs[i as int] as int, p as int);
            lemma_add_mod_noop(shifted as int, coeffs[i as int] as int, p as int);
            lemma_small_mod(shifted as nat, p as nat);
        }
        acc = next;
        i = i + 1;
    }
    proof {
        assert(c.take(coeffs.len() as int) =~= c);
        lemma_horner_is_poly_value(c, x as int);
        lemma_mod_bound(horner(c, x as int), p as int);
    }
    acc
}

} // verus!
