//! The field of integers modulo a prime, and its arithmetic on machine
//! integers.

use crate::error::Error;
use crate::modular::{
    coprime, divides, inverse, is_inverse, is_prime, lemma_congruent_differences,
    lemma_congruent_products, lemma_divides_dividend, lemma_inverse_unique, lemma_prime_coprime,
};
use vstd::arithmetic::div_mod::*;
use vstd::prelude::*;

verus! {

/// A prime field. Its elements are the integers from zero up to, and not
/// including, the modulus; every `i64` stands for its residue.
#[derive(Clone, Copy, Debug)]
pub struct Field {
    modulus: u64,
}

impl View for Field {
    type V = int;

    /// The modulus.
    closed spec fn view(&self) -> int {
        self.modulus as int
    }
}

/// Trial division: whether `p` is prime.
fn trial_division(p: u64) -> (b: bool)
    requires
        p >= 2,
    ensures
        b == is_prime(p as int),
{
    let mut d: u64 = 2;
    while d <= p / d
        invariant
            2 <= d <= p,
            forall|e: int| 2 <= e < d ==> !#[trigger] divides(e, p as int),
        decreases p - d,
    {
        assert(d < p) by {
            lemma_div_is_strictly_smaller(p as int, d as int);
        }
        if p % d == 0 {
            assert(divides(d as int, p as int));
            return false;
        }
        d = d + 1;
    }
    proof {
        assert forall|e: int| 2 <= e < p implies !#[trigger] divides(e, p as int) by {
            if e >= d && divides(e, p as int) {
                let k = p as int / e;
                lemma_fundamental_div_mod(p as int, e);
                assert(p as int == e * k);
                assert(k >= 2) by (nonlinear_arith)
                    requires
                        p as int == e * k,
                        2 <= e < p,
                ;
                lemma_div_is_ordered_by_denominator(p as int, d as int, e);
                assert(k < d);
                assert(divides(k, p as int)) by {
                    lemma_mod_multiples_basic(e, k);
                }
            }
        }
    }
    true
}

impl Field {
    #[verifier::type_invariant]
    spec fn well_formed(self) -> bool {
        is_prime(self.modulus as int) && self.modulus <= i64::MAX
    }

    /// The field of integers modulo `modulus`, which has to be prime.
    pub fn new(modulus: i64) -> (r: Result<Field, Error>)
        ensures
            match r {
                Ok(field) => is_prime(modulus as int) && field@ == modulus,
                Err(e) => !is_prime(modulus as int) && e == Error::InvalidParameters,
            },
    {
        if modulus < 2 {
            return Err(Error::InvalidParameters);
        }
        if trial_division(modulus as u64) {
            Ok(Field { modulus: modulus as u64 })
        } else {
            Err(Error::InvalidParameters)
        }
    }

    /// The modulus, which is prime.
    pub fn modulus(&self) -> (m: i64)
        ensures
            m == self@,
            is_prime(self@),
    {
        proof {
            use_type_invariant(self);
        }
        self.modulus as i64
    }

    /// The residue of `v`.
    pub fn reduce(&self, v: i64) -> (r: i64)
        ensures
            r == (v as int) % self@,
            0 <= r < self@,
    {
        proof {
            use_type_invariant(self);
        }
        let p = self.modulus;
        if v >= 0 {
            proof {
                lemma_mod_bound(v as int, p as int);
            }
            ((v as u64) % p) as i64
        } else {
            let k: u64 = (-(v + 1)) as u64;
            let m: u64 = k % p;
            proof {
                // v == -(k + 1) and k == p * (k / p) + m
                lemma_fundamental_div_mod(k as int, p as int);
                lemma_mod_bound(k as int, p as int);
                let q = -(k as int / p as int) - 1;
                assert(v as int == q * p + (p - 1 - m)) by (nonlinear_arith)
                    requires
                        k as int == p as int * (k as int / p as int) + m,
                        v as int == -(k as int + 1),
                        q == -(k as int / p as int) - 1,
                ;
                lemma_fundamental_div_mod_converse(v as int, p as int, q, p - 1 - m);
            }
            (p - 1 - m) as i64
        }
    }

    /// The sum of two residues.
    pub fn plus(&self, a: i64, b: i64) -> (r: i64)
        ensures
            r == (a + b) % self@,
            0 <= r < self@,
    {
        proof {
            use_type_invariant(self);
        }
        let p = self.modulus;
        let x = self.reduce(a) as u64;
        let y = self.reduce(b) as u64;
        proof {
            lemma_add_mod_noop(a as int, b as int, p as int);
            lemma_mod_bound(x + y, p as int);
        }
        ((x + y) % p) as i64
    }

    /// The difference of two residues.
    pub fn minus(&self, a: i64, b: i64) -> (r: i64)
        ensures
            r == (a - b) % self@,
            0 <= r < self@,
    {
        proof {
            use_type_invariant(self);
        }
        let p = self.modulus;
        let x = self.reduce(a) as u64;
        let y = self.reduce(b) as u64;
        proof {
            lemma_sub_mod_noop(a as int, b as int, p as int);
            lemma_mod_multiples_vanish(1, x - y, p as int);
            lemma_mod_bound(x + p - y, p as int);
        }
        ((x + p - y) % p) as i64
    }

    /// The product of two residues.
    pub fn times(&self, a: i64, b: i64) -> (r: i64)
        ensures
            r == (a * b) % self@,
            0 <= r < self@,
    {
        proof {
            use_type_invariant(self);
        }
        let p = self.modulus;
        let x = self.reduce(a) as u128;
        let y = self.reduce(b) as u128;
        proof {
            lemma_mul_mod_noop(a as int, b as int, p as int);
            assert(0 <= x * y < 0x4000_0000_0000_0000_0000_0000_0000_0000) by (nonlinear_arith)
                requires
                    0 <= x < 0x8000_0000_0000_0000,
                    0 <= y < 0x8000_0000_0000_0000,
            ;
            lemma_mod_bound(x * y, p as int);
        }
        ((x * y) % (p as u128)) as i64
    }

    /// The multiplicative inverse of a residue: none for zero, and otherwise
    /// the one residue whose product with `a` is one.
    pub fn inverse(&self, a: i64) -> (r: Option<i64>)
        ensures
            match r {
                Some(b) => (a as int) % self@ != 0 && b == inverse(a as int, self@) && is_inverse(
                    a as int,
                    b as int,
                    self@,
                ),
                None => (a as int) % self@ == 0,
            },
    {
        proof {
            use_type_invariant(self);
        }
        let p = self.modulus;
        let start = self.reduce(a);
        if start == 0 {
            return None;
        }
        // Euclid's algorithm on the modulus and the residue. Each remainder is
        // congruent to `a` times the coefficient that goes with it.
        let mut r0: u64 = p;
        let mut r1: u64 = start as u64;
        let mut t0: i64 = 0;
        let mut t1: i64 = 1;
        proof {
            lemma_prime_coprime(start as int, p as int);
            lemma_mod_self_0(p as int);
            lemma_small_mod(start as nat, p as nat);
            assert(a * 0 == 0);
            assert(a * 1 == a);
            lemma_small_mod(0, p as nat);
        }
        while r1 != 0
            invariant
                p == self@,
                is_prime(p as int),
                p <= i64::MAX,
                0 <= r1 < r0 <= p,
                coprime(r0 as int, r1 as int),
                0 <= t0 < p,
                0 <= t1 < p,
                (a * t0) % (p as int) == r0 % p,
                (a * t1) % (p as int) == r1 % p,
            decreases r1,
        {
            let q: u64 = r0 / r1;
            let r2: u64 = r0 % r1;
            let qt = self.times((q % p) as i64, t1);
            let t2 = self.minus(t0, qt);
            proof {
                let pi = p as int;
                lemma_fundamental_div_mod(r0 as int, r1 as int);
                assert(r2 == r0 - r1 * q);
                assert(coprime(r1 as int, r2 as int)) by {
                    assert forall|d: int| d >= 2 && #[trigger] divides(d, r1 as int) implies !divides(
                        d,
                        r2 as int,
                    ) by {
                        if divides(d, r2 as int) {
                            lemma_divides_dividend(d, r0 as int, r1 as int);
                        }
                    }
                }
                // a * t2 == a * t0 - q * (a * t1) == r0 - q * r1, modulo p
                assert((a * t2) % pi == r2 % p) by {
                    lemma_mul_mod_noop_left(q as int, t1 as int, pi);
                    assert(qt as int % pi == (q * t1) % pi) by {
                        lemma_small_mod(qt as nat, p as nat);
                    }
                    lemma_sub_mod_noop_right(t0 as int, q * t1, pi);
                    lemma_sub_mod_noop_right(t0 as int, qt as int, pi);
                    assert(t2 as int % pi == (t0 - q * t1) % pi) by {
                        lemma_small_mod(t2 as nat, p as nat);
                    }
                    lemma_mul_mod_noop_right(a as int, t2 as int, pi);
                    lemma_mul_mod_noop_right(a as int, t0 - q * t1, pi);
                    assert((a * t2) % pi == (a * (t0 - q * t1)) % pi);
                    assert(a * (t0 - q * t1) == a * t0 - q * (a * t1)) by (nonlinear_arith);
                    lemma_congruent_products(q as int, q as int, a * t1, r1 as int, pi);
                    lemma_congruent_differences(a * t0, r0 as int, q * (a * t1), q * r1, pi);
                    assert(q * r1 == r1 * q) by (nonlinear_arith);
                }
            }
            r0 = r1;
            r1 = r2;
            t0 = t1;
            t1 = t2;
        }
        proof {
            if r0 >= 2 {
                lemma_mod_self_0(r0 as int);
                assert(divides(r0 as int, r0 as int));
                assert(divides(r0 as int, 0));
            }
            assert(r0 == 1);
            lemma_small_mod(1, p as nat);
            lemma_inverse_unique(a as int, t0 as int, p as int);
        }
        Some(t0)
    }
}

} // verus!
