//! Fewer shares than the threshold say nothing of the secret: they are, just
//! as well, shares of any other secret.

use crate::interpolation::negated_product;
use crate::laws::lemma_negated_product_not_zero;
use crate::modular::{inverse, is_inverse, is_prime, lemma_inverse_exists};
use crate::polynomial::{
    combination, horner, lemma_combination, lemma_horner_is_poly_value, lemma_leading_zeros,
};
use crate::share::{abscissae, is_sharing, lies_on, Share};
use vstd::arithmetic::div_mod::*;
use vstd::prelude::*;

verus! {

/// The coefficients of the polynomial with coefficients `c` times `X - u`.
pub open spec fn times_linear(c: Seq<int>, u: int) -> Seq<int> {
    combination(c.push(0), seq![0int] + c, -u)
}

/// The coefficients of the product of `X - u` over the nodes `u`.
pub open spec fn vanishing(nodes: Seq<int>) -> Seq<int>
    decreases nodes.len(),
{
    if nodes.len() == 0 {
        seq![1int]
    } else {
        times_linear(vanishing(nodes.drop_last()), nodes.last())
    }
}

/// The product of `x - u` over the nodes `u`.
pub open spec fn vanishing_value(nodes: Seq<int>, x: int) -> int
    decreases nodes.len(),
{
    if nodes.len() == 0 {
        1
    } else {
        vanishing_value(nodes.drop_last(), x) * (x - nodes.last())
    }
}

/// Multiplying a polynomial by `X - u` multiplies its values by `x - u`.
pub proof fn lemma_times_linear(c: Seq<int>, u: int, x: int)
    ensures
        times_linear(c, u).len() == c.len() + 1,
        horner(times_linear(c, u), x) == horner(c, x) * (x - u),
{
    let up = c.push(0);
    let same = seq![0int] + c;
    assert(up.drop_last() =~= c);
    assert(horner(up, x) == horner(c, x) * x);
    lemma_leading_zeros(seq![0int], c, x);
    lemma_combination(up, same, -u, x);
    let h = horner(c, x);
    assert(h * x + (-u) * h == h * (x - u)) by (nonlinear_arith);
}

/// The polynomial of the nodes takes the value that its name promises.
pub proof fn lemma_vanishing(nodes: Seq<int>, x: int)
    ensures
        vanishing(nodes).len() == nodes.len() + 1,
        horner(vanishing(nodes), x) == vanishing_value(nodes, x),
    decreases nodes.len(),
{
    if nodes.len() == 0 {
        let one = seq![1int];
        assert(one.drop_last() =~= Seq::<int>::empty());
        assert(horner(one.drop_last(), x) == 0);
        assert(0 * x == 0);
    } else {
        lemma_vanishing(nodes.drop_last(), x);
        lemma_times_linear(vanishing(nodes.drop_last()), nodes.last(), x);
    }
}

/// The polynomial of the nodes is zero at each of them.
pub proof fn lemma_vanishing_at_node(nodes: Seq<int>, j: int)
    requires
        0 <= j < nodes.len(),
    ensures
        vanishing_value(nodes, nodes[j]) == 0,
    decreases nodes.len(),
{
    let x = nodes[j];
    let front = vanishing_value(nodes.drop_last(), x);
    if j == nodes.len() - 1 {
        assert(front * 0 == 0);
    } else {
        lemma_vanishing_at_node(nodes.drop_last(), j);
        assert(0 * (x - nodes.last()) == 0);
    }
}

/// At zero the polynomial of the nodes is the product of the negated nodes.
pub proof fn lemma_vanishing_at_zero(nodes: Seq<int>)
    ensures
        vanishing_value(nodes, 0) == negated_product(nodes),
    decreases nodes.len(),
{
    if nodes.len() > 0 {
        lemma_vanishing_at_zero(nodes.drop_last());
    }
}

/// Secrecy below the threshold. Fewer than `t` shares of `secret`, none of
/// them at zero, are shares of every `candidate` as well: some polynomial
/// with `t` coefficients passes through all of them and has the candidate as
/// its constant term. So the shares alone cannot tell one secret from
/// another.
pub proof fn lemma_too_few_shares_fit_every_secret(
    shares: Seq<Share>,
    secret: int,
    candidate: int,
    t: int,
    p: int,
)
    requires
        is_prime(p),
        is_sharing(shares, secret, t, p),
        shares.len() < t,
        forall|i: int| 0 <= i < shares.len() ==> (#[trigger] shares[i]).x as int % p != 0,
    ensures
        is_sharing(shares, candidate, t, p),
{
    let coeffs = choose|coeffs: Seq<int>|
        #![trigger coeffs.len()]
        coeffs.len() == t && t >= 1 && coeffs.last() == secret && forall|i: int|
            0 <= i < shares.len() ==> lies_on(#[trigger] shares[i], coeffs, p);
    let nodes = abscissae(shares);
    let np = negated_product(nodes);
    // a polynomial with t coefficients that is zero at every node, and np at zero
    let w = vanishing(nodes);
    lemma_vanishing(nodes, 0);
    lemma_vanishing_at_zero(nodes);
    let zeros = Seq::new((t - nodes.len() - 1) as nat, |i: int| 0int);
    let wide = zeros + w;
    assert(wide.len() == t);
    assert(wide.last() == w.last());
    assert(w.last() == np) by {
        assert(horner(w.drop_last(), 0) * 0 == 0);
    }
    // the multiple of it that moves the constant term from the secret to the candidate
    assert forall|i: int| 0 <= i < nodes.len() implies #[trigger] nodes[i] % p != 0 by {
        assert(nodes[i] == shares[i].x);
    }
    lemma_negated_product_not_zero(nodes, p);
    lemma_inverse_exists(np, p);
    let inv = inverse(np, p);
    assert(is_inverse(np, inv, p));
    let scale = (candidate - secret) * inv;
    let moved = combination(coeffs, wide, scale);
    let other = moved.drop_last().push(candidate);
    let gap = candidate - moved.last();
    assert(gap % p == 0) by {
        assert(moved.last() == secret + scale * np);
        assert(gap == (candidate - secret) * (1 - np * inv)) by (nonlinear_arith)
            requires
                gap == candidate - (secret + scale * np),
                scale == (candidate - secret) * inv,
        ;
        lemma_mod_equivalence(1, np * inv, p);
        lemma_small_mod(1, p as nat);
        lemma_mul_mod_noop_right(candidate - secret, 1 - np * inv, p);
        assert((candidate - secret) * 0 == 0);
        lemma_small_mod(0, p as nat);
    }
    assert forall|i: int| 0 <= i < shares.len() implies lies_on(
        #[trigger] shares[i],
        other,
        p,
    ) by {
        let x = shares[i].x as int;
        assert(lies_on(shares[i], coeffs, p));
        assert(x == nodes[i]);
        lemma_combination(coeffs, wide, scale, x);
        lemma_leading_zeros(zeros, w, x);
        lemma_vanishing(nodes, x);
        lemma_vanishing_at_node(nodes, i);
        assert(scale * 0 == 0);
        assert(horner(moved, x) == horner(coeffs, x));
        assert(other.drop_last() =~= moved.drop_last());
        assert(horner(other, x) == horner(moved, x) + gap);
        lemma_add_mod_noop(horner(moved, x), gap, p);
        lemma_add_mod_noop(horner(moved, x), 0, p);
        lemma_small_mod(0, p as nat);
        lemma_horner_is_poly_value(coeffs, x);
        lemma_horner_is_poly_value(other, x);
    }
    assert(other.len() == t && other.last() == candidate);
}

} // verus!
