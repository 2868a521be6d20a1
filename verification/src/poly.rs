//! Polynomials over GF(2^8): coefficient sequences, their product, their
//! evaluation, and the table of powers of the generator alpha.

use crate::gf::{
    alpha_pow, gf_mul, gf_mul_spec, gf_pow, lemma_mul_associative, lemma_mul_by_alpha,
    lemma_mul_commutative, lemma_mul_distributive, lemma_mul_zero_one, lemma_xor_facts,
    xtime_exec,
};
use vstd::prelude::*;

verus! {

/// Entry `i` of the 512-entry exponential table: `alpha^(i mod 255)` for
/// `i < 510`, and zero in the two unused trailing slots.
pub open spec fn exp_table_entry(i: int) -> u8 {
    if 0 <= i < 510 {
        alpha_pow((i % 255) as nat)
    } else {
        0
    }
}

/// Builds the exponential table of alpha, doubled to 510 entries so that
/// sums of two logarithms can index it without reduction.
pub fn exp_table() -> (t: Vec<u8>)
    ensures
        t.len() == 512,
        forall|i: int| 0 <= i < 512 ==> t[i] == exp_table_entry(i),
{
    let mut t: Vec<u8> = vec![0u8; 512];
    let mut x: u8 = 1;
    let mut i: usize = 0;
    while i < 255
        invariant
            0 <= i <= 255,
            t.len() == 512,
            x == alpha_pow(i as nat),
            forall|j: int| 0 <= j < i ==> #[trigger] t[j] == alpha_pow(j as nat),
            forall|j: int| 0 <= j < i ==> #[trigger] t[j + 255] == alpha_pow(j as nat),
            forall|j: int| (i <= j < 255 || 255 + i <= j < 512) ==> t[j] == 0u8,
        decreases 255 - i,
    {
        t.set(i, x);
        t.set(i + 255, x);
        proof {
            lemma_mul_by_alpha(x);
        }
        x = xtime_exec(x);
        i = i + 1;
    }
    assert forall|i: int| 0 <= i < 512 implies t[i] == exp_table_entry(i) by {
        if i < 255 {
            assert(i % 255 == i);
        } else if i < 510 {
            assert(i % 255 == i - 255);
            assert(t[(i - 255) + 255] == alpha_pow((i - 255) as nat));
        }
    }
    t
}

/// Coefficient `k` of the product of `p` and `q`, summing the contributions
/// of the first `rows` coefficients of `p`.
pub open spec fn poly_mul_coef(p: Seq<u8>, q: Seq<u8>, k: int, rows: int) -> u8
    decreases rows,
{
    if rows <= 0 {
        0
    } else {
        poly_mul_coef(p, q, k, rows - 1) ^ (if 0 <= k - (rows - 1) < q.len() {
            gf_mul_spec(p[rows - 1], q[k - (rows - 1)])
        } else {
            0u8
        })
    }
}

/// The product of two coefficient sequences (a convolution over GF(2^8));
/// it has `p.len() + q.len() - 1` coefficients.
pub open spec fn poly_mul_spec(p: Seq<u8>, q: Seq<u8>) -> Seq<u8> {
    Seq::new((p.len() + q.len() - 1) as nat, |k: int| poly_mul_coef(p, q, k, p.len() as int))
}

/// Multiply two polynomials in GF(2^8).
pub fn poly_mul(p: &[u8], q: &[u8]) -> (r: Vec<u8>)
    requires
        p@.len() + q@.len() >= 1,
        p@.len() + q@.len() <= usize::MAX,
    ensures
        r@ == poly_mul_spec(p@, q@),
{
    let rlen = p.len() + q.len() - 1;
    let mut r: Vec<u8> = vec![0u8; rlen];
    let mut i: usize = 0;
    while i < p.len()
        invariant
            0 <= i <= p.len(),
            rlen == p@.len() + q@.len() - 1,
            r.len() == rlen,
            forall|k: int| 0 <= k < rlen ==> r[k] == poly_mul_coef(p@, q@, k, i as int),
        decreases p.len() - i,
    {
        let a = p[i];
        if a != 0 {
            assert forall|k: int| 0 <= k < rlen implies r[k] == poly_mul_coef(p@, q@, k, i as int)
                ^ 0u8 by {
                lemma_xor_facts(r[k], 0u8, 0u8);
            }
            let mut j: usize = 0;
            while j < q.len()
                invariant
                    0 <= i < p.len(),
                    0 <= j <= q.len(),
                    a == p@[i as int],
                    rlen == p@.len() + q@.len() - 1,
                    r.len() == rlen,
                    forall|k: int|
                        0 <= k < rlen ==> r[k] == poly_mul_coef(p@, q@, k, i as int) ^ (if i <= k
                            < i + j {
                            gf_mul_spec(a, q@[k - i])
                        } else {
                            0u8
                        }),
                decreases q.len() - j,
            {
                let v = r[i + j] ^ gf_mul(a, q[j]);
                r.set(i + j, v);
                proof {
                    assert forall|k: int|
                        0 <= k < rlen implies r[k] == poly_mul_coef(p@, q@, k, i as int) ^ (if i
                            <= k < i + j + 1 {
                            gf_mul_spec(a, q@[k - i])
                        } else {
                            0u8
                        }) by {
                        let c = poly_mul_coef(p@, q@, k, i as int);
                        lemma_xor_facts(c, 0u8, 0u8);
                        if k == i + j {
                            lemma_xor_facts(c, 0u8, gf_mul_spec(a, q@[j as int]));
                        }
                    }
                }
                j = j + 1;
            }
            assert forall|k: int| 0 <= k < rlen implies r[k] == poly_mul_coef(
                p@,
                q@,
                k,
                i as int + 1,
            ) by {
                let c = poly_mul_coef(p@, q@, k, i as int);
                lemma_xor_facts(c, 0u8, 0u8);
            }
        } else {
            assert forall|k: int| 0 <= k < rlen implies r[k] == poly_mul_coef(
                p@,
                q@,
                k,
                i as int + 1,
            ) by {
                let c = poly_mul_coef(p@, q@, k, i as int);
                lemma_xor_facts(c, 0u8, 0u8);
                if 0 <= k - i < q@.len() {
                    lemma_mul_zero_one(q@[k - i]);
                }
            }
        }
        i = i + 1;
    }
    assert(r@ =~= poly_mul_spec(p@, q@));
    r
}

/// Evaluation at `y` of a highest-degree-first coefficient sequence, by
/// Horner's rule.
pub open spec fn poly_eval(p: Seq<u8>, y: u8) -> u8
    decreases p.len(),
{
    if p.len() == 0 {
        0
    } else {
        gf_mul_spec(poly_eval(p.drop_last(), y), y) ^ p.last()
    }
}

/// Coefficient-wise sum of two equally long sequences.
pub open spec fn seq_xor(a: Seq<u8>, b: Seq<u8>) -> Seq<u8> {
    Seq::new(a.len(), |k: int| a[k] ^ b[k])
}

/// Every coefficient multiplied by `f`.
pub open spec fn seq_scale(a: Seq<u8>, f: u8) -> Seq<u8> {
    Seq::new(a.len(), |k: int| gf_mul_spec(a[k], f))
}

/// Appending a coefficient is one Horner step.
pub proof fn lemma_eval_push(a: Seq<u8>, c: u8, y: u8)
    ensures
        poly_eval(a.push(c), y) == gf_mul_spec(poly_eval(a, y), y) ^ c,
{
    assert(a.push(c).drop_last() =~= a);
}

/// Evaluation of a concatenation: `(a ++ b)(y) = a(y) * y^|b| + b(y)`.
pub proof fn lemma_eval_concat(a: Seq<u8>, b: Seq<u8>, y: u8)
    ensures
        poly_eval(a + b, y) == gf_mul_spec(poly_eval(a, y), gf_pow(y, b.len())) ^ poly_eval(b, y),
    decreases b.len(),
{
    let ea = poly_eval(a, y);
    if b.len() == 0 {
        assert(a + b =~= a);
        lemma_mul_zero_one(ea);
        lemma_xor_facts(ea, 0u8, 0u8);
    } else {
        let b1 = b.drop_last();
        let c = b.last();
        assert(a + b =~= (a + b1).push(c));
        assert(b =~= b1.push(c));
        lemma_eval_concat(a, b1, y);
        lemma_eval_push(a + b1, c, y);
        lemma_eval_push(b1, c, y);
        let p = gf_pow(y, b1.len());
        let x = gf_mul_spec(ea, p);
        let eb1 = poly_eval(b1, y);
        // ((ea * p) + eb1) * y + c == ea * (p * y) + (eb1 * y + c)
        lemma_mul_commutative(x ^ eb1, y);
        lemma_mul_distributive(y, x, eb1);
        lemma_mul_commutative(y, x);
        lemma_mul_commutative(y, eb1);
        lemma_mul_associative(ea, p, y);
        assert(gf_pow(y, b.len()) == gf_mul_spec(p, y));
        lemma_xor_facts(gf_mul_spec(x, y), gf_mul_spec(eb1, y), c);
    }
}

/// Evaluation is additive.
pub proof fn lemma_eval_xor(a: Seq<u8>, b: Seq<u8>, y: u8)
    requires
        a.len() == b.len(),
    ensures
        poly_eval(seq_xor(a, b), y) == poly_eval(a, y) ^ poly_eval(b, y),
    decreases a.len(),
{
    if a.len() == 0 {
        lemma_xor_facts(0u8, 0u8, 0u8);
    } else {
        let a1 = a.drop_last();
        let b1 = b.drop_last();
        lemma_eval_xor(a1, b1, y);
        assert(seq_xor(a, b).drop_last() =~= seq_xor(a1, b1));
        let ea = poly_eval(a1, y);
        let eb = poly_eval(b1, y);
        lemma_mul_commutative(ea ^ eb, y);
        lemma_mul_distributive(y, ea, eb);
        lemma_mul_commutative(y, ea);
        lemma_mul_commutative(y, eb);
        let x = gf_mul_spec(ea, y);
        let z = gf_mul_spec(eb, y);
        // (x + z) + (a' + b') == (x + a') + (z + b')
        lemma_xor_facts(x, z, a.last() ^ b.last());
        lemma_xor_facts(z, a.last(), b.last());
        lemma_xor_facts(a.last(), z, b.last());
        lemma_xor_facts(x, a.last(), z ^ b.last());
    }
}

/// Evaluation commutes with scaling by a constant.
pub proof fn lemma_eval_scale(a: Seq<u8>, f: u8, y: u8)
    ensures
        poly_eval(seq_scale(a, f), y) == gf_mul_spec(poly_eval(a, y), f),
    decreases a.len(),
{
    if a.len() == 0 {
        lemma_mul_zero_one(f);
    } else {
        let a1 = a.drop_last();
        lemma_eval_scale(a1, f, y);
        assert(seq_scale(a, f).drop_last() =~= seq_scale(a1, f));
        let ea = poly_eval(a1, y);
        // (ea * f) * y + a_last * f == (ea * y + a_last) * f
        lemma_mul_associative(ea, f, y);
        lemma_mul_commutative(f, y);
        lemma_mul_associative(ea, y, f);
        lemma_mul_commutative(gf_mul_spec(ea, y) ^ a.last(), f);
        lemma_mul_distributive(f, gf_mul_spec(ea, y), a.last());
        lemma_mul_commutative(f, gf_mul_spec(ea, y));
        lemma_mul_commutative(f, a.last());
    }
}

/// The zero polynomial evaluates to zero.
pub proof fn lemma_eval_zeros(len: nat, y: u8)
    ensures
        poly_eval(Seq::new(len, |j: int| 0u8), y) == 0,
    decreases len,
{
    if len > 0 {
        lemma_eval_zeros((len - 1) as nat, y);
        assert(Seq::new(len, |j: int| 0u8).drop_last() =~= Seq::new((len - 1) as nat, |j: int| 0u8));
        lemma_mul_zero_one(y);
        lemma_xor_facts(0u8, 0u8, 0u8);
    }
}

/// A leading coefficient contributes `c * y^(len - 1)`.
pub proof fn lemma_eval_first(a: Seq<u8>, y: u8)
    requires
        a.len() >= 1,
    ensures
        poly_eval(a, y) == gf_mul_spec(a[0], gf_pow(y, (a.len() - 1) as nat)) ^ poly_eval(a.drop_first(), y),
{
    let head = seq![a[0]];
    assert(a =~= head + a.drop_first());
    lemma_eval_concat(head, a.drop_first(), y);
    lemma_eval_push(Seq::<u8>::empty(), a[0], y);
    assert(Seq::<u8>::empty().push(a[0]) =~= head);
    lemma_mul_zero_one(y);
    lemma_xor_facts(a[0], 0u8, 0u8);
}

/// The product with a linear factor `x + a`, coefficient by coefficient.
proof fn lemma_poly_mul_linear_coef(p: Seq<u8>, a: u8, k: int, rows: int)
    requires
        0 <= rows <= p.len(),
    ensures
        poly_mul_coef(p, seq![1u8, a], k, rows) == (if 0 <= k < rows {
            p[k]
        } else {
            0u8
        }) ^ (if 1 <= k <= rows {
            gf_mul_spec(p[k - 1], a)
        } else {
            0u8
        }),
    decreases rows,
{
    let q = seq![1u8, a];
    assert(q[0] == 1u8 && q[1] == a && q.len() == 2);
    if rows > 0 {
        lemma_poly_mul_linear_coef(p, a, k, rows - 1);
        let r = rows - 1;
        let prev = poly_mul_coef(p, q, k, r);
        let term = if 0 <= k - r < q.len() {
            gf_mul_spec(p[r], q[k - r])
        } else {
            0u8
        };
        assert(poly_mul_coef(p, q, k, rows) == prev ^ term);
        lemma_mul_zero_one(p[r]);
        if k == r {
            assert(term == p[r]);
            let t2 = if 1 <= k <= r {
                gf_mul_spec(p[k - 1], a)
            } else {
                0u8
            };
            assert(prev == 0u8 ^ t2);
            lemma_xor_facts(0u8, t2, p[r]);
            lemma_xor_facts(t2, p[r], 0u8);
            lemma_xor_facts(p[r], t2, 0u8);
        } else if k == r + 1 {
            assert(term == gf_mul_spec(p[r], a));
            assert(prev == 0u8 ^ 0u8);
            lemma_xor_facts(0u8, 0u8, term);
        } else {
            assert(term == 0u8);
            lemma_xor_facts(prev, 0u8, 0u8);
        }
    } else {
        lemma_xor_facts(0u8, 0u8, 0u8);
    }
}

/// The product with the linear factor `[1, a]` is the sum of a copy shifted
/// by one place and a scaled copy.
pub proof fn lemma_poly_mul_linear_split(p: Seq<u8>, a: u8)
    ensures
        poly_mul_spec(p, seq![1u8, a]) =~= seq_xor(p.push(0u8), seq_scale(seq![0u8] + p, a)),
{
    let prod = poly_mul_spec(p, seq![1u8, a]);
    let shifted = p.push(0u8);
    let low = seq![0u8] + p;
    let lowered = seq_scale(low, a);
    assert(prod.len() == shifted.len());
    assert forall|k: int| 0 <= k < prod.len() implies #[trigger] prod[k] == seq_xor(
        shifted,
        lowered,
    )[k] by {
        lemma_poly_mul_linear_coef(p, a, k, p.len() as int);
        lemma_mul_zero_one(a);
        if k == 0 {
            assert(low[0] == 0u8);
            assert(lowered[0] == gf_mul_spec(0u8, a));
        } else {
            assert(low[k] == p[k - 1]);
        }
    }
}

/// `(p * (x + a))(y) = p(y) * (y + a)`.
pub proof fn lemma_eval_mul_linear(p: Seq<u8>, a: u8, y: u8)
    ensures
        poly_eval(poly_mul_spec(p, seq![1u8, a]), y) == gf_mul_spec(poly_eval(p, y), y ^ a),
{
    let shifted = p.push(0u8);
    let low = seq![0u8] + p;
    let lowered = seq_scale(low, a);
    lemma_poly_mul_linear_split(p, a);
    lemma_eval_xor(shifted, lowered, y);
    let e = poly_eval(p, y);
    lemma_eval_push(p, 0u8, y);
    lemma_xor_facts(gf_mul_spec(e, y), 0u8, 0u8);
    assert(poly_eval(shifted, y) == gf_mul_spec(e, y));
    lemma_eval_scale(low, a, y);
    lemma_eval_concat(seq![0u8], p, y);
    lemma_eval_push(Seq::<u8>::empty(), 0u8, y);
    assert(Seq::<u8>::empty().push(0u8) =~= seq![0u8]);
    lemma_mul_zero_one(y);
    lemma_xor_facts(0u8, 0u8, 0u8);
    assert(poly_eval(seq![0u8], y) == 0u8);
    lemma_mul_zero_one(gf_pow(y, p.len()));
    lemma_xor_facts(e, 0u8, 0u8);
    assert(poly_eval(low, y) == e);
    lemma_mul_distributive(e, y, a);
}

} // verus!
