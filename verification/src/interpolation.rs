//! Lagrange interpolation at zero over a prime field, as mathematics: the
//! basis values, sums weighted by them, and the theorem that such a sum
//! recovers the constant term of a polynomial.
//!
//! Products and sums are taken over the integers and compared modulo the
//! prime; only the inverses are residues.

use crate::modular::{
    inverse, is_inverse, is_prime, lemma_congruent_products, lemma_congruent_sums,
    lemma_inverse_exists, lemma_zero_product,
};
use crate::polynomial::{horner, lemma_quotient, lemma_quotient_leading, quotient};
use vstd::arithmetic::div_mod::*;
use vstd::arithmetic::mul::*;
use vstd::prelude::*;

verus! {

/// What the node `u` contributes to the basis value of the node `x`: the
/// quotient `u / (u - x)` in the field, and one where `u` is `x` itself.
pub open spec fn factor(u: int, x: int, p: int) -> int {
    if (u - x) % p == 0 {
        1
    } else {
        u * inverse(u - x, p)
    }
}

/// The value at zero of the Lagrange basis polynomial of the node `x` among
/// `nodes`: the product of `u / (u - x)` over the other nodes `u`.
pub open spec fn basis_at(nodes: Seq<int>, x: int, p: int) -> int
    decreases nodes.len(),
{
    if nodes.len() == 0 {
        1
    } else {
        basis_at(nodes.drop_last(), x, p) * factor(nodes.last(), x, p)
    }
}

/// The sum over the nodes `x` in `part` of `g(x)` times the basis value of
/// `x` among `all`.
pub open spec fn basis_sum(part: Seq<int>, all: Seq<int>, g: spec_fn(int) -> int, p: int) -> int
    decreases part.len(),
{
    if part.len() == 0 {
        0
    } else {
        basis_sum(part.drop_last(), all, g, p) + g(part.last()) * basis_at(all, part.last(), p)
    }
}

/// No two nodes are congruent modulo `p`.
pub open spec fn distinct_nodes(nodes: Seq<int>, p: int) -> bool {
    forall|i: int, j: int|
        0 <= i < j < nodes.len() ==> (#[trigger] nodes[i] - #[trigger] nodes[j]) % p != 0
}

/// The product of the negated nodes.
pub open spec fn negated_product(nodes: Seq<int>) -> int
    decreases nodes.len(),
{
    if nodes.len() == 0 {
        1
    } else {
        negated_product(nodes.drop_last()) * (-nodes.last())
    }
}

/// Two numbers differ by a multiple of `p` whichever is taken from the other.
pub proof fn lemma_difference_symmetric(a: int, b: int, p: int)
    requires
        p > 0,
    ensures
        (a - b) % p == 0 <==> (b - a) % p == 0,
{
    lemma_mod_equivalence(a, b, p);
    lemma_mod_equivalence(b, a, p);
}

/// Multiplying the contribution of another node `u` by `x - u` leaves `-u`.
pub proof fn lemma_factor_cancels(u: int, x: int, p: int)
    requires
        is_prime(p),
        (u - x) % p != 0,
    ensures
        ((x - u) * factor(u, x, p)) % p == (-u) % p,
{
    lemma_inverse_exists(u - x, p);
    let w = inverse(u - x, p);
    assert(is_inverse(u - x, w, p));
    assert((x - u) * (u * w) == (-u) * ((u - x) * w)) by (nonlinear_arith);
    lemma_mul_mod_noop_right(-u, (u - x) * w, p);
    assert((-u) * 1 == -u);
}

/// The basis value with the first node split off.
pub proof fn lemma_basis_first(nodes: Seq<int>, x: int, p: int)
    requires
        nodes.len() > 0,
    ensures
        basis_at(nodes, x, p) == factor(nodes[0], x, p) * basis_at(nodes.drop_first(), x, p),
    decreases nodes.len(),
{
    if nodes.len() == 1 {
        assert(nodes.drop_last() =~= Seq::<int>::empty());
        assert(nodes.drop_first() =~= Seq::<int>::empty());
        assert(basis_at(nodes.drop_last(), x, p) == 1);
        assert(basis_at(nodes.drop_first(), x, p) == 1);
        let f = factor(nodes[0], x, p);
        assert(1 * f == f * 1);
    } else {
        let front = nodes.drop_last();
        lemma_basis_first(front, x, p);
        assert(front.drop_first() =~= nodes.drop_first().drop_last());
        assert(nodes.drop_first().last() == nodes.last());
        let f0 = factor(nodes[0], x, p);
        let fl = factor(nodes.last(), x, p);
        let mid = basis_at(front.drop_first(), x, p);
        assert((f0 * mid) * fl == f0 * (mid * fl)) by (nonlinear_arith);
    }
}

/// The weighted sum with the first node split off.
pub proof fn lemma_sum_first(part: Seq<int>, all: Seq<int>, g: spec_fn(int) -> int, p: int)
    requires
        part.len() > 0,
    ensures
        basis_sum(part, all, g, p) == g(part[0]) * basis_at(all, part[0], p) + basis_sum(
            part.drop_first(),
            all,
            g,
            p,
        ),
    decreases part.len(),
{
    if part.len() == 1 {
        assert(part.drop_last() =~= Seq::<int>::empty());
        assert(part.drop_first() =~= Seq::<int>::empty());
        assert(basis_sum(part.drop_last(), all, g, p) == 0);
        assert(basis_sum(part.drop_first(), all, g, p) == 0);
    } else {
        let front = part.drop_last();
        lemma_sum_first(front, all, g, p);
        assert(front.drop_first() =~= part.drop_first().drop_last());
        assert(part.drop_first().last() == part.last());
    }
}

/// The weighted sum is linear in the weights.
pub proof fn lemma_sum_linear(
    part: Seq<int>,
    all: Seq<int>,
    g: spec_fn(int) -> int,
    g1: spec_fn(int) -> int,
    g2: spec_fn(int) -> int,
    c1: int,
    c2: int,
    p: int,
)
    requires
        forall|i: int| 0 <= i < part.len() ==> g(#[trigger] part[i]) == c1 * g1(part[i]) + c2 * g2(part[i]),
    ensures
        basis_sum(part, all, g, p) == c1 * basis_sum(part, all, g1, p) + c2 * basis_sum(
            part,
            all,
            g2,
            p,
        ),
    decreases part.len(),
{
    if part.len() == 0 {
        assert(c1 * 0 + c2 * 0 == 0);
    } else {
        let front = part.drop_last();
        let x = part.last();
        assert forall|i: int| 0 <= i < front.len() implies g(#[trigger] front[i]) == c1 * g1(
            front[i],
        ) + c2 * g2(front[i]) by {
            assert(front[i] == part[i]);
        }
        lemma_sum_linear(front, all, g, g1, g2, c1, c2, p);
        assert(x == part[part.len() - 1]);
        let b = basis_at(all, x, p);
        let s1 = basis_sum(front, all, g1, p);
        let s2 = basis_sum(front, all, g2, p);
        let v1 = g1(x);
        let v2 = g2(x);
        lemma_mul_is_distributive_add_other_way(b, c1 * v1, c2 * v2);
        lemma_mul_is_associative(c1, v1, b);
        lemma_mul_is_associative(c2, v2, b);
        lemma_mul_is_distributive_add(c1, s1, v1 * b);
        lemma_mul_is_distributive_add(c2, s2, v2 * b);
    }
}

/// Taking the node `u` out of the nodes: where every basis value among `all`
/// is the one among `rest` times the contribution of `u`, the sum over nodes
/// other than `u` of `(x - u) * g(x)` among `all` is `-u` times the sum of
/// `g(x)` among `rest`.
pub proof fn lemma_sum_without_node(
    part: Seq<int>,
    all: Seq<int>,
    rest: Seq<int>,
    u: int,
    g: spec_fn(int) -> int,
    h: spec_fn(int) -> int,
    p: int,
)
    requires
        is_prime(p),
        forall|i: int| 0 <= i < part.len() ==> (u - #[trigger] part[i]) % p != 0,
        forall|i: int| 0 <= i < part.len() ==> h(#[trigger] part[i]) == (part[i] - u) * g(part[i]),
        forall|i: int|
            0 <= i < part.len() ==> basis_at(all, #[trigger] part[i], p) == basis_at(
                rest,
                part[i],
                p,
            ) * factor(u, part[i], p),
    ensures
        basis_sum(part, all, h, p) % p == ((-u) * basis_sum(part, rest, g, p)) % p,
    decreases part.len(),
{
    if part.len() == 0 {
        assert((-u) * 0 == 0);
    } else {
        let front = part.drop_last();
        let x = part.last();
        assert forall|i: int| 0 <= i < front.len() implies (u - #[trigger] front[i]) % p != 0 by {
            assert(front[i] == part[i]);
        }
        assert forall|i: int| 0 <= i < front.len() implies h(#[trigger] front[i]) == (front[i]
            - u) * g(front[i]) by {
            assert(front[i] == part[i]);
        }
        assert forall|i: int| 0 <= i < front.len() implies basis_at(all, #[trigger] front[i], p)
            == basis_at(rest, front[i], p) * factor(u, front[i], p) by {
            assert(front[i] == part[i]);
        }
        lemma_sum_without_node(front, all, rest, u, g, h, p);
        assert(x == part[part.len() - 1]);
        let br = basis_at(rest, x, p);
        let f = factor(u, x, p);
        let gx = g(x);
        // the last term: h(x) * (br * f) == (gx * br) * ((x - u) * f), and (x - u) * f == -u
        lemma_factor_cancels(u, x, p);
        assert(((x - u) * gx) * (br * f) == (gx * br) * ((x - u) * f)) by (nonlinear_arith);
        lemma_congruent_products(gx * br, gx * br, (x - u) * f, -u, p);
        assert((gx * br) * (-u) == (-u) * (gx * br)) by (nonlinear_arith);
        let sf = basis_sum(front, rest, g, p);
        lemma_congruent_sums(
            basis_sum(front, all, h, p),
            (-u) * sf,
            h(x) * basis_at(all, x, p),
            (-u) * (gx * br),
            p,
        );
        assert((-u) * sf + (-u) * (gx * br) == (-u) * (sf + gx * br)) by (nonlinear_arith);
    }
}

/// Modulo a prime, a factor that is not zero can be cancelled.
pub proof fn lemma_cancel(c: int, a: int, b: int, p: int)
    requires
        is_prime(p),
        c % p != 0,
        (c * a) % p == (c * b) % p,
    ensures
        a % p == b % p,
{
    lemma_mod_equivalence(c * a, c * b, p);
    assert(c * a - c * b == c * (a - b)) by (nonlinear_arith);
    lemma_zero_product(c, a - b, p);
    lemma_mod_equivalence(a, b, p);
}

/// The weight that is `c` at every node.
pub open spec fn constant(c: int) -> spec_fn(int) -> int {
    |x: int| c
}

/// The weight that is, at every node, the value there of the polynomial with
/// the given coefficients.
pub open spec fn polynomial(coeffs: Seq<int>) -> spec_fn(int) -> int {
    |x: int| horner(coeffs, x)
}

/// The weight `x - u`.
pub open spec fn offset(u: int) -> spec_fn(int) -> int {
    |x: int| x - u
}

/// The weight `(x - u) * g(x)`.
pub open spec fn shifted(u: int, g: spec_fn(int) -> int) -> spec_fn(int) -> int {
    |x: int| (x - u) * g(x)
}

/// The basis values at zero of one or more distinct nodes add up to one.
pub proof fn lemma_partition_of_unity(nodes: Seq<int>, p: int)
    requires
        is_prime(p),
        nodes.len() > 0,
        distinct_nodes(nodes, p),
    ensures
        basis_sum(nodes, nodes, constant(1), p) % p == 1,
    decreases nodes.len(),
{
    let one = constant(1);
    let total = basis_sum(nodes, nodes, one, p);
    let a = nodes[0];
    let b = nodes.last();
    let front = nodes.drop_last();
    let back = nodes.drop_first();
    lemma_small_mod(1, p as nat);
    lemma_small_mod(0, p as nat);
    if nodes.len() == 1 {
        assert(front =~= Seq::<int>::empty());
        assert(basis_sum(front, nodes, one, p) == 0);
        assert(basis_at(front, a, p) == 1);
        assert(factor(a, a, p) == 1);
        assert(basis_at(nodes, a, p) == 1 * 1);
        assert(one(a) == 1);
        assert(total == 0 + 1 * 1);
    } else {
        assert(distinct_nodes(front, p));
        assert(distinct_nodes(back, p)) by {
            assert forall|i: int, j: int| 0 <= i < j < back.len() implies (#[trigger] back[i]
                - #[trigger] back[j]) % p != 0 by {
                assert(back[i] == nodes[i + 1] && back[j] == nodes[j + 1]);
            }
        }
        lemma_partition_of_unity(front, p);
        lemma_partition_of_unity(back, p);
        let from_a = offset(a);
        let from_b = offset(b);
        let gap = constant(b - a);
        // (b - a) * total, in two ways
        lemma_sum_linear(nodes, nodes, gap, one, one, b - a, 0, p);
        assert(basis_sum(nodes, nodes, gap, p) == (b - a) * total) by {
            assert(0 * total == 0);
        }
        lemma_sum_linear(nodes, nodes, gap, from_a, from_b, 1, -1, p);
        let sum_a = basis_sum(nodes, nodes, from_a, p);
        let sum_b = basis_sum(nodes, nodes, from_b, p);
        assert((b - a) * total == sum_a - sum_b) by {
            assert(1 * sum_a == sum_a);
            assert((-1) * sum_b == -sum_b);
        }
        // the sum weighted by x - b: its last term is zero, and b leaves the nodes
        assert(sum_b % p == (-b) % p) by {
            assert(from_b(b) == 0);
            assert(0 * basis_at(nodes, b, p) == 0);
            assert(sum_b == basis_sum(front, nodes, from_b, p));
            assert forall|i: int| 0 <= i < front.len() implies (b - #[trigger] front[i]) % p
                != 0 by {
                assert(front[i] == nodes[i]);
                assert(b == nodes[nodes.len() - 1]);
                lemma_difference_symmetric(nodes[i], b, p);
            }
            assert forall|i: int| 0 <= i < front.len() implies from_b(#[trigger] front[i]) == (
            front[i] - b) * one(front[i]) by {
                assert((front[i] - b) * 1 == front[i] - b);
            }
            lemma_sum_without_node(front, nodes, front, b, one, from_b, p);
            lemma_mul_mod_noop_right(-b, basis_sum(front, front, one, p), p);
            assert((-b) * 1 == -b);
        }
        // the sum weighted by x - a: its first term is zero, and a leaves the nodes
        assert(sum_a % p == (-a) % p) by {
            lemma_sum_first(nodes, nodes, from_a, p);
            assert(from_a(a) == 0);
            assert(0 * basis_at(nodes, a, p) == 0);
            assert(sum_a == basis_sum(back, nodes, from_a, p));
            assert forall|i: int| 0 <= i < back.len() implies (a - #[trigger] back[i]) % p
                != 0 by {
                assert(back[i] == nodes[i + 1]);
            }
            assert forall|i: int| 0 <= i < back.len() implies from_a(#[trigger] back[i]) == (
            back[i] - a) * one(back[i]) by {
                assert((back[i] - a) * 1 == back[i] - a);
            }
            assert forall|i: int| 0 <= i < back.len() implies basis_at(
                nodes,
                #[trigger] back[i],
                p,
            ) == basis_at(back, back[i], p) * factor(a, back[i], p) by {
                lemma_basis_first(nodes, back[i], p);
                let f = factor(a, back[i], p);
                let r = basis_at(back, back[i], p);
                assert(f * r == r * f) by (nonlinear_arith);
            }
            lemma_sum_without_node(back, nodes, back, a, one, from_a, p);
            lemma_mul_mod_noop_right(-a, basis_sum(back, back, one, p), p);
            assert((-a) * 1 == -a);
        }
        lemma_sub_mod_noop(sum_a, sum_b, p);
        lemma_sub_mod_noop(-a, -b, p);
        assert(((b - a) * total) % p == (b - a) % p);
        assert((b - a) * 1 == b - a);
        assert((b - a) % p != 0) by {
            assert(a == nodes[0] && b == nodes[nodes.len() - 1]);
            lemma_difference_symmetric(a, b, p);
        }
        lemma_cancel(b - a, total, 1, p);
    }
}

/// Lagrange interpolation at zero. For `k` distinct nodes and a polynomial
/// with `k + 1` coefficients, the sum of its values weighted by the basis
/// values is its constant term less its leading coefficient times the product
/// of the negated nodes. Where the leading coefficient is zero, that is, where
/// the degree is below `k`, the sum is the constant term.
pub proof fn lemma_interpolation(nodes: Seq<int>, coeffs: Seq<int>, p: int)
    requires
        is_prime(p),
        distinct_nodes(nodes, p),
        coeffs.len() == nodes.len() + 1,
    ensures
        basis_sum(nodes, nodes, polynomial(coeffs), p) % p == (coeffs.last() - coeffs[0]
            * negated_product(nodes)) % p,
    decreases nodes.len(),
{
    let g = polynomial(coeffs);
    if nodes.len() == 0 {
        assert(coeffs.last() == coeffs[0]);
        assert(coeffs[0] * 1 == coeffs[0]);
    } else {
        let u = nodes.last();
        let rest = nodes.drop_last();
        let q = quotient(coeffs, u);
        let at_u = horner(coeffs, u);
        let one = constant(1);
        let gq = polynomial(q);
        let h = shifted(u, gq);
        assert(distinct_nodes(rest, p));
        lemma_quotient_leading(coeffs, u);
        // the polynomial is its value at u plus (x - u) times the quotient
        assert forall|i: int| 0 <= i < nodes.len() implies g(#[trigger] nodes[i]) == at_u * one(
            nodes[i],
        ) + 1 * h(nodes[i]) by {
            lemma_quotient(coeffs, u, nodes[i]);
            assert(at_u * 1 == at_u);
            assert(1 * h(nodes[i]) == h(nodes[i]));
        }
        lemma_sum_linear(nodes, nodes, g, one, h, at_u, 1, p);
        let total = basis_sum(nodes, nodes, one, p);
        let sum_h = basis_sum(nodes, nodes, h, p);
        assert(1 * sum_h == sum_h);
        assert(basis_sum(nodes, nodes, g, p) == at_u * total + sum_h);
        lemma_partition_of_unity(nodes, p);
        lemma_small_mod(1, p as nat);
        // the second sum: its last term is zero, and u leaves the nodes
        let sum_q = basis_sum(rest, rest, gq, p);
        assert(sum_h % p == ((-u) * sum_q) % p) by {
            assert(h(u) == 0) by {
                assert((u - u) * gq(u) == 0);
            }
            assert(0 * basis_at(nodes, u, p) == 0);
            assert(sum_h == basis_sum(rest, nodes, h, p));
            assert forall|i: int| 0 <= i < rest.len() implies (u - #[trigger] rest[i]) % p
                != 0 by {
                assert(rest[i] == nodes[i]);
                assert(u == nodes[nodes.len() - 1]);
                lemma_difference_symmetric(nodes[i], u, p);
            }
            lemma_sum_without_node(rest, nodes, rest, u, gq, h, p);
        }
        lemma_interpolation(rest, q, p);
        let inner = q.last() - q[0] * negated_product(rest);
        assert(sum_q % p == inner % p);
        lemma_congruent_products(-u, -u, sum_q, inner, p);
        lemma_congruent_products(at_u, at_u, total, 1, p);
        assert(at_u * 1 == at_u);
        lemma_congruent_sums(at_u * total, at_u, sum_h, (-u) * inner, p);
        // the value at zero, by the same division
        lemma_quotient(coeffs, u, 0);
        assert(horner(coeffs, 0) == coeffs.last()) by {
            assert(horner(coeffs.drop_last(), 0) * 0 == 0);
        }
        assert(horner(q, 0) == q.last()) by {
            assert(horner(q.drop_last(), 0) * 0 == 0);
        }
        let np = negated_product(rest);
        assert(at_u + (-u) * (q.last() - q[0] * np) == coeffs.last() - coeffs[0] * (np * (-u)))
            by (nonlinear_arith)
            requires
                coeffs.last() == at_u + (0 - u) * q.last(),
                q[0] == coeffs[0],
        ;
    }
}

} // verus!
