//! The minimum distance of the Reed-Solomon code: two different codewords
//! of at most 255 symbols whose first `e` syndromes vanish differ in more
//! than `e` positions, so at most one codeword lies within `e / 2` symbols
//! of any received word.

use crate::ecc::{differ_count, hamming_distance, is_rs_codeword, lemma_syndrome_is_eval, syndromes_spec};
use crate::gf::{
    alpha_pow, gf_mul_spec, gf_pow, lemma_alpha_pow_distinct, lemma_mul_associative,
    lemma_mul_commutative, lemma_mul_distributive, lemma_mul_nonzero, lemma_mul_zero_one,
    lemma_pow_mul, lemma_xor_facts,
};
use crate::poly::{lemma_eval_first, lemma_eval_mul_linear, lemma_eval_push, lemma_eval_xor, poly_eval, poly_mul_spec, seq_xor};
use vstd::prelude::*;

verus! {

/// The point `alpha^(n - 1 - j)` of position `j` in an `n`-symbol word:
/// syndrome `i` of a word `w` is the sum of `w[j] * point_j^i`.
pub open spec fn position_point(n: int, j: int) -> u8 {
    alpha_pow((n - 1 - j) as nat)
}

/// The syndromes of `w` weighted by the coefficients of `q` (highest degree
/// first): `sum_k q[k] * w(alpha^(|q| - 1 - k))`.
pub open spec fn syndrome_combination(q: Seq<u8>, w: Seq<u8>) -> u8
    decreases q.len(),
{
    if q.len() == 0 {
        0
    } else {
        gf_mul_spec(q[0], poly_eval(w, alpha_pow((q.len() - 1) as nat))) ^ syndrome_combination(
            q.drop_first(),
            w,
        )
    }
}

/// The symbols of `w` weighted by `q` at their points: `sum_j w[j] * q(point_j)`.
pub open spec fn weighted_evaluation(q: Seq<u8>, w: Seq<u8>) -> u8
    decreases w.len(),
{
    if w.len() == 0 {
        0
    } else {
        gf_mul_spec(w[0], poly_eval(q, alpha_pow((w.len() - 1) as nat))) ^ weighted_evaluation(
            q,
            w.drop_first(),
        )
    }
}

/// The product of the linear factors `x + point_j` over the positions
/// `j < m` other than `p` at which `a` and `b` differ.
pub open spec fn difference_locator(a: Seq<u8>, b: Seq<u8>, p: int, m: int) -> Seq<u8>
    decreases m,
{
    if m <= 0 {
        seq![1u8]
    } else {
        let prev = difference_locator(a, b, p, m - 1);
        if a[m - 1] != b[m - 1] && m - 1 != p {
            poly_mul_spec(prev, seq![1u8, position_point(a.len() as int, m - 1)])
        } else {
            prev
        }
    }
}

pub(crate) proof fn lemma_xor_swap(a: u8, b: u8, c: u8, d: u8)
    ensures
        (a ^ b) ^ (c ^ d) == (a ^ c) ^ (b ^ d),
{
    assert((a ^ b) ^ (c ^ d) == (a ^ c) ^ (b ^ d)) by (bit_vector);
}

pub(crate) proof fn lemma_xor_distinct(a: u8, b: u8)
    requires
        a != b,
    ensures
        a ^ b != 0u8,
{
    assert(a != b ==> a ^ b != 0u8) by (bit_vector);
}

/// Distinct positions of a word of at most 255 symbols have distinct points.
proof fn lemma_points_distinct(n: int, j: int, k: int)
    requires
        n <= 255,
        0 <= j < n,
        0 <= k < n,
        j != k,
    ensures
        position_point(n, j) != position_point(n, k),
{
    if j < k {
        lemma_alpha_pow_distinct((n - 1 - k) as nat, (n - 1 - j) as nat);
    } else {
        lemma_alpha_pow_distinct((n - 1 - j) as nat, (n - 1 - k) as nat);
    }
}

proof fn lemma_combination_empty(q: Seq<u8>)
    ensures
        syndrome_combination(q, Seq::<u8>::empty()) == 0,
    decreases q.len(),
{
    if q.len() > 0 {
        lemma_combination_empty(q.drop_first());
        lemma_mul_zero_one(q[0]);
        lemma_xor_facts(0u8, 0u8, 0u8);
    }
}

/// The first symbol of `w` splits off the syndrome combination.
proof fn lemma_combination_split(q: Seq<u8>, w: Seq<u8>)
    requires
        w.len() >= 1,
    ensures
        syndrome_combination(q, w) == gf_mul_spec(
            w[0],
            poly_eval(q, alpha_pow((w.len() - 1) as nat)),
        ) ^ syndrome_combination(q, w.drop_first()),
    decreases q.len(),
{
    let n = w.len() as int;
    let x = alpha_pow((n - 1) as nat);
    if q.len() == 0 {
        lemma_mul_zero_one(w[0]);
        lemma_xor_facts(0u8, 0u8, 0u8);
    } else {
        let l = q.len() as int;
        let y = alpha_pow((l - 1) as nat);
        let q1 = q.drop_first();
        let w1 = w.drop_first();
        lemma_combination_split(q1, w);
        lemma_eval_first(w, y);
        lemma_eval_first(q, x);
        let pw = gf_pow(y, (n - 1) as nat);
        let pq = gf_pow(x, (l - 1) as nat);
        lemma_pow_mul(2, (l - 1) as nat, (n - 1) as nat);
        lemma_pow_mul(2, (n - 1) as nat, (l - 1) as nat);
        assert((l - 1) as nat * (n - 1) as nat == (n - 1) as nat * (l - 1) as nat) by (nonlinear_arith);
        assert(pw == pq);
        let a = gf_mul_spec(q[0], gf_mul_spec(w[0], pw));
        let bb = gf_mul_spec(q[0], poly_eval(w1, y));
        let c = gf_mul_spec(w[0], poly_eval(q1, x));
        let d = syndrome_combination(q1, w1);
        lemma_mul_distributive(q[0], gf_mul_spec(w[0], pw), poly_eval(w1, y));
        lemma_mul_distributive(w[0], gf_mul_spec(q[0], pq), poly_eval(q1, x));
        lemma_mul_associative(q[0], w[0], pw);
        lemma_mul_associative(w[0], q[0], pq);
        lemma_mul_commutative(q[0], w[0]);
        assert(gf_mul_spec(w[0], gf_mul_spec(q[0], pq)) == a);
        lemma_xor_swap(a, bb, c, d);
    }
}

/// The syndrome combination equals the weighted evaluation.
proof fn lemma_combination_is_weighted(q: Seq<u8>, w: Seq<u8>)
    ensures
        syndrome_combination(q, w) == weighted_evaluation(q, w),
    decreases w.len(),
{
    if w.len() == 0 {
        assert(w =~= Seq::<u8>::empty());
        lemma_combination_empty(q);
    } else {
        lemma_combination_split(q, w);
        lemma_combination_is_weighted(q, w.drop_first());
    }
}

/// On a codeword, every combination of its first `e` syndromes vanishes.
proof fn lemma_combination_of_codeword(q: Seq<u8>, w: Seq<u8>, e: nat)
    requires
        is_rs_codeword(w, e),
        q.len() <= e,
    ensures
        syndrome_combination(q, w) == 0,
    decreases q.len(),
{
    if q.len() > 0 {
        let i = q.len() - 1;
        lemma_combination_of_codeword(q.drop_first(), w, e);
        assert(syndromes_spec(w, e)[i] == 0u8);
        lemma_syndrome_is_eval(w, i);
        lemma_mul_zero_one(q[0]);
        lemma_xor_facts(0u8, 0u8, 0u8);
    }
}

/// When every symbol but the one at `p` is zero or sits at a root of `q`,
/// the weighted evaluation is that symbol's term alone (zero when `p` lies
/// outside the word).
proof fn lemma_weighted_single(q: Seq<u8>, w: Seq<u8>, p: int)
    requires
        forall|j: int|
            0 <= j < w.len() && j != p ==> w[j] == 0u8 || #[trigger] poly_eval(
                q,
                position_point(w.len() as int, j),
            ) == 0u8,
    ensures
        weighted_evaluation(q, w) == (if 0 <= p < w.len() {
            gf_mul_spec(w[p], poly_eval(q, position_point(w.len() as int, p)))
        } else {
            0u8
        }),
    decreases w.len(),
{
    let n = w.len() as int;
    if n > 0 {
        let w1 = w.drop_first();
        assert forall|j: int|
            0 <= j < w1.len() && j != p - 1 implies w1[j] == 0u8 || #[trigger] poly_eval(
                q,
                position_point(w1.len() as int, j),
            ) == 0u8 by {
            assert(position_point(w1.len() as int, j) == position_point(n, j + 1));
            assert(w1[j] == w[j + 1]);
        }
        lemma_weighted_single(q, w1, p - 1);
        let head = gf_mul_spec(w[0], poly_eval(q, alpha_pow((n - 1) as nat)));
        assert(position_point(n, 0) == alpha_pow((n - 1) as nat));
        lemma_mul_zero_one(w[0]);
        lemma_mul_zero_one(poly_eval(q, alpha_pow((n - 1) as nat)));
        if p == 0 {
            lemma_xor_facts(head, 0u8, 0u8);
        } else {
            assert(w[0] == 0u8 || poly_eval(q, position_point(n, 0)) == 0u8);
            assert(head == 0u8);
            lemma_xor_facts(weighted_evaluation(q, w1), 0u8, 0u8);
            if 0 <= p < n {
                assert(w1[p - 1] == w[p]);
                assert(position_point(w1.len() as int, p - 1) == position_point(n, p));
            }
        }
    }
}

/// The locator of the differences other than `p` has one coefficient more
/// than it has roots, vanishes at the points of those differences, and not
/// at the point of `p`.
proof fn lemma_difference_locator(a: Seq<u8>, b: Seq<u8>, p: int, m: int)
    requires
        a.len() == b.len() <= 255,
        0 <= m <= a.len(),
        0 <= p < a.len(),
    ensures
        difference_locator(a, b, p, m).len() + (if p < m && a[p] != b[p] {
            1int
        } else {
            0int
        }) == differ_count(a, b, m) + 1,
        forall|j: int|
            0 <= j < m && a[j] != b[j] && j != p ==> #[trigger] poly_eval(
                difference_locator(a, b, p, m),
                position_point(a.len() as int, j),
            ) == 0u8,
        poly_eval(difference_locator(a, b, p, m), position_point(a.len() as int, p)) != 0u8,
    decreases m,
{
    let n = a.len() as int;
    let loc = difference_locator(a, b, p, m);
    if m == 0 {
        assert(loc == seq![1u8]);
        assert(Seq::<u8>::empty().push(1u8) =~= seq![1u8]);
        lemma_eval_push(Seq::<u8>::empty(), 1u8, position_point(n, p));
        lemma_mul_zero_one(position_point(n, p));
        lemma_xor_facts(1u8, 0u8, 0u8);
        assert(poly_eval(loc, position_point(n, p)) == 1u8);
    } else {
        lemma_difference_locator(a, b, p, m - 1);
        let prev = difference_locator(a, b, p, m - 1);
        let xm = position_point(n, m - 1);
        if a[m - 1] != b[m - 1] && m - 1 != p {
            assert forall|j: int|
                0 <= j < m && a[j] != b[j] && j != p implies #[trigger] poly_eval(
                loc,
                position_point(n, j),
            ) == 0u8 by {
                let y = position_point(n, j);
                lemma_eval_mul_linear(prev, xm, y);
                if j == m - 1 {
                    lemma_xor_facts(y, y, 0u8);
                    lemma_mul_zero_one(poly_eval(prev, y));
                } else {
                    lemma_mul_zero_one(y ^ xm);
                }
            }
            let yp = position_point(n, p);
            lemma_eval_mul_linear(prev, xm, yp);
            lemma_points_distinct(n, p, m - 1);
            lemma_xor_distinct(yp, xm);
            lemma_mul_nonzero(poly_eval(prev, yp), yp ^ xm);
        }
    }
}

/// Reed-Solomon codewords of equal length with `e` vanishing syndromes are
/// closed under symbol-wise addition.
proof fn lemma_codeword_xor(a: Seq<u8>, b: Seq<u8>, e: nat)
    requires
        a.len() == b.len(),
        is_rs_codeword(a, e),
        is_rs_codeword(b, e),
    ensures
        is_rs_codeword(seq_xor(a, b), e),
{
    let x = seq_xor(a, b);
    assert forall|i: int| 0 <= i < e implies #[trigger] syndromes_spec(x, e)[i] == 0u8 by {
        assert(syndromes_spec(a, e)[i] == 0u8);
        assert(syndromes_spec(b, e)[i] == 0u8);
        lemma_syndrome_is_eval(a, i);
        lemma_syndrome_is_eval(b, i);
        lemma_syndrome_is_eval(x, i);
        lemma_eval_xor(a, b, alpha_pow(i as nat));
        lemma_xor_facts(0u8, 0u8, 0u8);
    }
}

/// Minimum distance: two different Reed-Solomon codewords of the same
/// length, at most 255 symbols, whose first `e` syndromes vanish differ in
/// more than `e` positions.
pub proof fn lemma_rs_min_distance(a: Seq<u8>, b: Seq<u8>, e: nat)
    requires
        a.len() == b.len(),
        a.len() <= 255,
        is_rs_codeword(a, e),
        is_rs_codeword(b, e),
        a != b,
    ensures
        hamming_distance(a, b) > e,
{
    let n = a.len() as int;
    if hamming_distance(a, b) <= e {
        assert(exists|j: int| 0 <= j < n && a[j] != b[j]) by {
            if forall|j: int| 0 <= j < n ==> a[j] == b[j] {
                assert(a =~= b);
            }
        }
        let p = choose|j: int| 0 <= j < n && a[j] != b[j];
        let x = seq_xor(a, b);
        lemma_codeword_xor(a, b, e);
        let q = difference_locator(a, b, p, n);
        lemma_difference_locator(a, b, p, n);
        lemma_combination_of_codeword(q, x, e);
        lemma_combination_is_weighted(q, x);
        assert forall|j: int|
            0 <= j < x.len() && j != p implies x[j] == 0u8 || #[trigger] poly_eval(
            q,
            position_point(x.len() as int, j),
        ) == 0u8 by {
            if a[j] == b[j] {
                lemma_xor_facts(a[j], a[j], 0u8);
            }
        }
        lemma_weighted_single(q, x, p);
        lemma_xor_distinct(a[p], b[p]);
        lemma_mul_nonzero(x[p], poly_eval(q, position_point(n, p)));
    }
}

proof fn lemma_differ_triangle(a: Seq<u8>, b: Seq<u8>, c: Seq<u8>, m: int)
    ensures
        differ_count(a, c, m) <= differ_count(a, b, m) + differ_count(b, c, m),
        differ_count(a, b, m) == differ_count(b, a, m),
    decreases m,
{
    if m > 0 {
        lemma_differ_triangle(a, b, c, m - 1);
    }
}

/// Unique decoding: two Reed-Solomon codewords of at most 255 symbols that
/// both lie within `e / 2` symbols of one received word are the same
/// codeword.
pub proof fn lemma_rs_unique_decoding(c: Seq<u8>, a: Seq<u8>, b: Seq<u8>, e: nat)
    requires
        a.len() == c.len(),
        b.len() == c.len(),
        c.len() <= 255,
        is_rs_codeword(a, e),
        is_rs_codeword(b, e),
        hamming_distance(c, a) <= e / 2,
        hamming_distance(c, b) <= e / 2,
    ensures
        a == b,
{
    let n = c.len() as int;
    lemma_differ_triangle(a, c, b, n);
    lemma_differ_triangle(c, a, b, n);
    if a != b {
        lemma_rs_min_distance(a, b, e);
    }
}

} // verus!
