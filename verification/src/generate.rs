//! Generation of shares: a random polynomial whose constant term is the
//! secret, evaluated at distinct random points other than zero.

use crate::error::Error;
use crate::field::Field;
use crate::polynomial::{as_ints, get_polynomial_value, poly_value};
use crate::share::{abscissae, distinct_abscissae, is_sharing, lies_on, Share};
use rand::rngs::StdRng;
use vstd::arithmetic::div_mod::*;
use vstd::prelude::*;

verus! {

/// `rand::rngs::StdRng`, the generator that the caller hands in. The library
/// only passes it on; nothing is known of its state.
#[verifier::external_type_specification]
#[verifier::external_body]
pub struct ExStdRng(rand::rngs::StdRng);

/// Calls `rand::Rng::gen_range` on the half-open range from `low` to `high`.
/// The range must not be empty, or the call panics. What comes back lies in
/// the range; nothing else is claimed of it.
#[verifier::external_body]
fn draw_in_range(rng: &mut StdRng, low: i64, high: i64) -> (r: i64)
    requires
        low < high,
    ensures
        low <= r < high,
{
    rand::Rng::gen_range(rng, low..high)
}

/// Whether `value` is among `values`.
pub fn contains_value(values: &[i64], value: i64) -> (b: bool)
    ensures
        b == values@.contains(value),
{
    let mut i: usize = 0;
    while i < values.len()
        invariant
            0 <= i <= values.len(),
            forall|k: int| 0 <= k < i ==> values[k] != value,
        decreases values.len() - i,
    {
        if values[i] == value {
            return true;
        }
        i = i + 1;
    }
    false
}

/// The next point of a sample without repetition: the candidate, unless it
/// was taken before, and then the fallback.
pub fn pick_unused(taken: &[i64], candidate: i64, fallback: i64) -> (x: i64)
    ensures
        x == if taken@.contains(candidate) {
            fallback
        } else {
            candidate
        },
{
    if contains_value(taken, candidate) {
        fallback
    } else {
        candidate
    }
}

/// The numbers are field elements other than zero, no two of them equal.
pub open spec fn distinct_points_of(xs: Seq<i64>, p: int) -> bool {
    &&& forall|i: int| 0 <= i < xs.len() ==> 1 <= #[trigger] xs[i] < p
    &&& forall|i: int, j: int| 0 <= i < j < xs.len() ==> #[trigger] xs[i] != #[trigger] xs[j]
}

/// Draws `n` distinct field elements other than zero. There are that many
/// only where `n` is below the modulus.
pub fn distinct_points(field: &Field, rng: &mut StdRng, n: i64) -> (r: Result<Vec<i64>, Error>)
    ensures
        match r {
            Ok(xs) => 0 <= n < field@ && xs@.len() == n && distinct_points_of(xs@, field@),
            Err(e) => !(0 <= n < field@) && e == Error::InvalidParameters,
        },
{
    let p = field.modulus();
    if n < 0 || n >= p {
        return Err(Error::InvalidParameters);
    }
    // Each round widens the range by one number, which no earlier round can
    // have drawn: it stands in for a candidate that was taken before.
    let mut xs: Vec<i64> = Vec::new();
    let mut m: i64 = 0;
    while m < n
        invariant
            0 <= m <= n < p,
            p == field@,
            xs@.len() == m,
            forall|i: int| 0 <= i < xs@.len() ==> 1 <= #[trigger] xs@[i] <= p - n + i,
            forall|i: int, j: int|
                0 <= i < j < xs@.len() ==> #[trigger] xs@[i] != #[trigger] xs@[j],
        decreases n - m,
    {
        let top = p - n + m;
        let candidate = draw_in_range(rng, 1, top + 1);
        let x = pick_unused(xs.as_slice(), candidate, top);
        proof {
            assert(forall|i: int| 0 <= i < xs@.len() ==> xs@[i] != x) by {
                if xs@.contains(candidate) {
                    assert(forall|i: int| 0 <= i < xs@.len() ==> xs@[i] < top);
                }
            }
        }
        xs.push(x);
        m = m + 1;
    }
    Ok(xs)
}

/// Draws the coefficients of a polynomial that hides `secret` under the
/// threshold `t`: the `t - 1` higher ones at random from the whole field,
/// and the secret as the constant term.
pub fn get_coefficients(field: &Field, rng: &mut StdRng, t: i64, secret: i64) -> (r: Result<
    Vec<i64>,
    Error,
>)
    ensures
        match r {
            Ok(coeffs) => {
                &&& 1 <= t
                &&& 0 <= secret < field@
                &&& coeffs@.len() == t
                &&& coeffs@.last() == secret
                &&& forall|i: int| 0 <= i < coeffs@.len() ==> 0 <= #[trigger] coeffs@[i] < field@
            },
            Err(e) => !(1 <= t && 0 <= secret < field@) && e == Error::InvalidParameters,
        },
{
    let p = field.modulus();
    if t < 1 || secret < 0 || secret >= p {
        return Err(Error::InvalidParameters);
    }
    let mut coeffs: Vec<i64> = Vec::new();
    let mut m: i64 = 1;
    while m < t
        invariant
            1 <= m <= t,
            p == field@,
            p >= 2,
            coeffs@.len() == m - 1,
            forall|i: int| 0 <= i < coeffs@.len() ==> 0 <= #[trigger] coeffs@[i] < p,
        decreases t - m,
    {
        let c = draw_in_range(rng, 0, p);
        coeffs.push(c);
        m = m + 1;
    }
    coeffs.push(secret);
    Ok(coeffs)
}

/// The shares of the polynomial with the given coefficients at the given
/// points.
pub fn shares_at(field: &Field, coeffs: &[i64], xs: &[i64]) -> (shares: Vec<Share>)
    ensures
        shares@.len() == xs@.len(),
        forall|i: int|
            0 <= i < xs@.len() ==> (#[trigger] shares@[i]).x == xs@[i] && shares@[i].y
                == poly_value(as_ints(coeffs@), xs@[i] as int) % field@,
{
    let mut shares: Vec<Share> = Vec::new();
    let mut i: usize = 0;
    while i < xs.len()
        invariant
            0 <= i <= xs.len(),
            shares@.len() == i,
            forall|k: int|
                0 <= k < i ==> (#[trigger] shares@[k]).x == xs@[k] && shares@[k].y == poly_value(
                    as_ints(coeffs@),
                    xs@[k] as int,
                ) % field@,
        decreases xs.len() - i,
    {
        let x = xs[i];
        let y = get_polynomial_value(field, x, coeffs);
        shares.push(Share { x, y });
        i = i + 1;
    }
    shares
}

/// Field elements that differ are not congruent.
proof fn lemma_points_not_congruent(a: int, b: int, p: int)
    requires
        0 <= a < p,
        0 <= b < p,
        a != b,
    ensures
        (a - b) % p != 0,
{
    lemma_mod_equivalence(a, b, p);
    lemma_small_mod(a as nat, p as nat);
    lemma_small_mod(b as nat, p as nat);
}

/// Splits `secret` into `n` shares of which any `t` recover it. The threshold
/// is at least one and at most `n`; the field has room for `n` points other
/// than zero; the secret is a field element.
pub fn get_shares(field: &Field, rng: &mut StdRng, n: i64, t: i64, secret: i64) -> (r: Result<
    Vec<Share>,
    Error,
>)
    ensures
        match r {
            Ok(shares) => {
                &&& 1 <= t <= n < field@
                &&& 0 <= secret < field@
                &&& shares@.len() == n
                &&& is_sharing(shares@, secret as int, t as int, field@)
                &&& distinct_abscissae(shares@, field@)
                &&& forall|i: int, j: int|
                    0 <= i < j < shares@.len() ==> (#[trigger] shares@[i]).x != (
                    #[trigger] shares@[j]).x
                &&& forall|i: int|
                    0 <= i < shares@.len() ==> 1 <= (#[trigger] shares@[i]).x < field@ && 0
                        <= shares@[i].y < field@
            },
            Err(e) => !(1 <= t <= n < field@ && 0 <= secret < field@) && e
                == Error::InvalidParameters,
        },
{
    let p = field.modulus();
    if t < 1 || t > n || n >= p || secret < 0 || secret >= p {
        return Err(Error::InvalidParameters);
    }
    let coeffs = match get_coefficients(field, rng, t, secret) {
        Ok(coeffs) => coeffs,
        Err(e) => {
            return Err(e);
        },
    };
    let xs = match distinct_points(field, rng, n) {
        Ok(xs) => xs,
        Err(e) => {
            return Err(e);
        },
    };
    let shares = shares_at(field, coeffs.as_slice(), xs.as_slice());
    proof {
        let c = as_ints(coeffs@);
        assert(c.len() == t && c.last() == secret);
        assert forall|i: int| 0 <= i < shares@.len() implies lies_on(
            #[trigger] shares@[i],
            c,
            p as int,
        ) by {
            lemma_mod_twice(poly_value(c, xs@[i] as int), p as int);
        }
        assert(is_sharing(shares@, secret as int, t as int, p as int));
        assert forall|i: int| 0 <= i < shares@.len() implies 0 <= (#[trigger] shares@[i]).y
            < p by {
            lemma_mod_bound(poly_value(c, xs@[i] as int), p as int);
        }
        let nodes = abscissae(shares@);
        assert forall|i: int, j: int| 0 <= i < j < nodes.len() implies (#[trigger] nodes[i]
            - #[trigger] nodes[j]) % (p as int) != 0 by {
            assert(nodes[i] == xs@[i] && nodes[j] == xs@[j]);
            lemma_points_not_congruent(nodes[i], nodes[j], p as int);
        }
    }
    Ok(shares)
}

} // verus!
