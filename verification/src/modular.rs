//! Arithmetic modulo a prime: divisibility, primality, and multiplicative
//! inverses, with the facts about them that the rest of the library uses.

use vstd::arithmetic::div_mod::*;
use vstd::prelude::*;

verus! {

/// `d` divides `n`.
pub open spec fn divides(d: int, n: int) -> bool {
    d != 0 && n % d == 0
}

/// `p` is at least two and no number strictly between one and `p` divides it.
pub open spec fn is_prime(p: int) -> bool {
    p >= 2 && forall|d: int| 2 <= d < p ==> !#[trigger] divides(d, p)
}

/// No number above one divides both `a` and `b`.
pub open spec fn coprime(a: int, b: int) -> bool {
    forall|d: int| d >= 2 && #[trigger] divides(d, a) ==> !divides(d, b)
}

/// `b` is the canonical representative of the inverse of `a` modulo `p`.
pub open spec fn is_inverse(a: int, b: int, p: int) -> bool {
    0 <= b < p && (a * b) % p == 1
}

/// The inverse of `a` modulo `p`, where there is one.
pub open spec fn inverse(a: int, p: int) -> int {
    choose|b: int| is_inverse(a, b, p)
}

/// Congruent factors give congruent products.
pub proof fn lemma_congruent_products(a1: int, a2: int, b1: int, b2: int, p: int)
    requires
        p > 0,
        a1 % p == a2 % p,
        b1 % p == b2 % p,
    ensures
        (a1 * b1) % p == (a2 * b2) % p,
{
    lemma_mul_mod_noop(a1, b1, p);
    lemma_mul_mod_noop(a2, b2, p);
}

/// Congruent terms give congruent sums.
pub proof fn lemma_congruent_sums(a1: int, a2: int, b1: int, b2: int, p: int)
    requires
        p > 0,
        a1 % p == a2 % p,
        b1 % p == b2 % p,
    ensures
        (a1 + b1) % p == (a2 + b2) % p,
{
    lemma_add_mod_noop(a1, b1, p);
    lemma_add_mod_noop(a2, b2, p);
}

/// Congruent terms give congruent differences.
pub proof fn lemma_congruent_differences(a1: int, a2: int, b1: int, b2: int, p: int)
    requires
        p > 0,
        a1 % p == a2 % p,
        b1 % p == b2 % p,
    ensures
        (a1 - b1) % p == (a2 - b2) % p,
{
    lemma_sub_mod_noop(a1, b1, p);
    lemma_sub_mod_noop(a2, b2, p);
}

/// A common divisor of `b` and of the remainder of `a` by `b` divides `a`.
pub proof fn lemma_divides_dividend(d: int, a: int, b: int)
    requires
        d >= 2,
        b > 0,
        divides(d, b),
        divides(d, a % b),
    ensures
        divides(d, a),
{
    let q = a / b;
    let m = a % b;
    lemma_fundamental_div_mod(a, b);
    assert(a == b * q + m);
    assert((b * q) % d == 0) by {
        lemma_mul_mod_noop_left(b, q, d);
        assert((b % d) * q == 0) by (nonlinear_arith)
            requires
                b % d == 0,
        ;
        lemma_small_mod(0, d as nat);
    }
    lemma_add_mod_noop(b * q, m, d);
    lemma_small_mod(0, d as nat);
}

/// Bezout's identity for coprime numbers: some integer combination of `a`
/// and `b` is one.
pub proof fn lemma_bezout(a: int, b: int) -> (st: (int, int))
    requires
        a >= 0,
        b >= 0,
        a + b > 0,
        coprime(a, b),
    ensures
        a * st.0 + b * st.1 == 1,
    decreases b,
{
    if b == 0 {
        if a >= 2 {
            assert(divides(a, a)) by {
                lemma_mod_self_0(a);
            }
            assert(divides(a, 0));
            assert(false);
        }
        (1, 0)
    } else {
        let q = a / b;
        let m = a % b;
        lemma_fundamental_div_mod(a, b);
        lemma_mod_bound(a, b);
        assert(coprime(b, m)) by {
            assert forall|d: int| d >= 2 && #[trigger] divides(d, b) implies !divides(d, m) by {
                if divides(d, m) {
                    lemma_divides_dividend(d, a, b);
                    assert(divides(d, a));
                }
            }
        }
        let (s, t) = lemma_bezout(b, m);
        assert(a * t + b * (s - q * t) == 1) by (nonlinear_arith)
            requires
                b * s + m * t == 1,
                a == b * q + m,
        ;
        (t, s - q * t)
    }
}

/// A prime is coprime to every number that it does not divide.
pub proof fn lemma_prime_coprime(a: int, p: int)
    requires
        is_prime(p),
        0 < a < p,
    ensures
        coprime(a, p),
{
    assert forall|d: int| d >= 2 && #[trigger] divides(d, a) implies !divides(d, p) by {
        if divides(d, p) {
            if d > a {
                lemma_small_mod(a as nat, d as nat);
            }
            assert(d <= a);
            assert(d < p);
        }
    }
}

/// Modulo a prime, every number that the prime does not divide has an
/// inverse, and `inverse` names it.
pub proof fn lemma_inverse_exists(a: int, p: int)
    requires
        is_prime(p),
        a % p != 0,
    ensures
        is_inverse(a, inverse(a, p), p),
{
    let r = a % p;
    lemma_mod_bound(a, p);
    lemma_prime_coprime(r, p);
    let (s, t) = lemma_bezout(r, p);
    let b = s % p;
    lemma_mod_bound(s, p);
    assert((a * b) % p == 1) by {
        lemma_mul_mod_noop_right(a, s, p);
        lemma_mul_mod_noop_left(a, s, p);
        assert((a * b) % p == (r * s) % p);
        assert(r * s == p * (-t) + 1) by (nonlinear_arith)
            requires
                r * s + p * t == 1,
        ;
        lemma_mod_multiples_vanish(-t, 1, p);
        lemma_small_mod(1, p as nat);
    }
    assert(is_inverse(a, b, p));
}

/// Modulo `p`, a number has at most one inverse among the canonical
/// representatives.
pub proof fn lemma_inverse_unique(a: int, b: int, p: int)
    requires
        p > 1,
        is_inverse(a, b, p),
    ensures
        inverse(a, p) == b,
{
    let c = inverse(a, p);
    assert(is_inverse(a, c, p));
    // b == b * (a * c) == (b * a) * c == c, modulo p
    assert((b * (a * c)) % p == b % p) by {
        lemma_mul_mod_noop_right(b, a * c, p);
    }
    assert(((a * b) * c) % p == c % p) by {
        lemma_mul_mod_noop_left(a * b, c, p);
    }
    assert(b * (a * c) == (a * b) * c) by (nonlinear_arith);
    lemma_small_mod(b as nat, p as nat);
    lemma_small_mod(c as nat, p as nat);
}

/// Modulo a prime, a product is zero only if one of its factors is.
pub proof fn lemma_zero_product(a: int, b: int, p: int)
    requires
        is_prime(p),
        (a * b) % p == 0,
    ensures
        a % p == 0 || b % p == 0,
{
    if a % p != 0 {
        lemma_inverse_exists(a, p);
        let c = inverse(a, p);
        // b == (c * a) * b == c * (a * b) == 0, modulo p
        assert(((a * c) * b) % p == b % p) by {
            lemma_mul_mod_noop_left(a * c, b, p);
        }
        assert((c * (a * b)) % p == 0) by {
            lemma_mul_mod_noop_right(c, a * b, p);
        }
        assert((a * c) * b == c * (a * b)) by (nonlinear_arith);
    }
}

} // verus!
