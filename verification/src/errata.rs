//! The locator of a list of distinct positions and Forney's formula on it:
//! the locator vanishes exactly at the Chien points of the listed positions,
//! and Forney's formula recovers the difference between the received word
//! and a codeword at each of them when they differ nowhere else. With every
//! parity symbol spent on erasures, the decoder uses this locator directly,
//! so a block that differs from a codeword only at its `e` erased positions
//! is decoded to that codeword.

use crate::distance::{lemma_xor_distinct, lemma_xor_swap};
use crate::ecc::{
    all_zero, apply_corrections, chien_point, chien_roots, erasure_locator, errata_locator,
    eval_asc, formal_derivative, forney_list, forney_omega, forney_x, is_chien_root, is_rs_codeword,
    last_nonzero_index, lemma_syndrome_is_eval, rs_decode_block_erasures_spec, syndromes_spec,
};
use crate::error::RrcError;
use crate::gf::{
    alpha_pow, gf_div_spec, gf_inv_spec, gf_mul_spec, gf_pow, lemma_alpha_pow_is_one,
    lemma_inverse, lemma_mul_associative, lemma_mul_commutative, lemma_mul_distributive,
    lemma_mul_nonzero, lemma_mul_zero_one, lemma_pow_add, lemma_pow_mul, lemma_xor_facts,
};
use crate::poly::{
    lemma_eval_concat, lemma_eval_push, lemma_eval_xor, lemma_eval_zeros,
    lemma_poly_mul_linear_split, poly_eval, poly_mul_coef, poly_mul_spec, seq_scale, seq_xor,
};
use vstd::prelude::*;

verus! {

// ---------------------------------------------------------------------------
// Evaluation of constant-term-first polynomials
// ---------------------------------------------------------------------------

/// The value at `z` of a whole constant-term-first coefficient sequence.
pub open spec fn eval_all(p: Seq<u8>, z: u8) -> u8 {
    eval_asc(p, z, p.len() as int)
}

/// Sequences that agree below `m` agree in their first `m` terms.
pub(crate) proof fn lemma_eval_asc_agree(a: Seq<u8>, b: Seq<u8>, z: u8, m: int)
    requires
        0 <= m,
        forall|k: int| 0 <= k < m ==> #[trigger] a[k] == b[k],
    ensures
        eval_asc(a, z, m) == eval_asc(b, z, m),
    decreases m,
{
    if m > 0 {
        lemma_eval_asc_agree(a, b, z, m - 1);
    }
}

/// Terms with zero coefficients add nothing.
pub(crate) proof fn lemma_eval_asc_zero_tail(a: Seq<u8>, z: u8, t: int, m: int)
    requires
        0 <= t <= m,
        forall|k: int| t <= k < m ==> #[trigger] a[k] == 0u8,
    ensures
        eval_asc(a, z, m) == eval_asc(a, z, t),
    decreases m,
{
    if m > t {
        lemma_eval_asc_zero_tail(a, z, t, m - 1);
        lemma_mul_zero_one(gf_pow(z, (m - 1) as nat));
        lemma_xor_facts(eval_asc(a, z, m - 1), 0u8, 0u8);
    }
}

/// Evaluation is additive.
pub(crate) proof fn lemma_eval_asc_xor(a: Seq<u8>, b: Seq<u8>, z: u8, m: int)
    requires
        0 <= m <= a.len(),
        a.len() == b.len(),
    ensures
        eval_asc(seq_xor(a, b), z, m) == eval_asc(a, z, m) ^ eval_asc(b, z, m),
    decreases m,
{
    if m == 0 {
        lemma_xor_facts(0u8, 0u8, 0u8);
    } else {
        lemma_eval_asc_xor(a, b, z, m - 1);
        let p = gf_pow(z, (m - 1) as nat);
        lemma_mul_commutative(a[m - 1] ^ b[m - 1], p);
        lemma_mul_distributive(p, a[m - 1], b[m - 1]);
        lemma_mul_commutative(p, a[m - 1]);
        lemma_mul_commutative(p, b[m - 1]);
        lemma_xor_swap(
            eval_asc(a, z, m - 1),
            eval_asc(b, z, m - 1),
            gf_mul_spec(a[m - 1], p),
            gf_mul_spec(b[m - 1], p),
        );
    }
}

/// Evaluation commutes with scaling by a constant.
pub(crate) proof fn lemma_eval_asc_scale(a: Seq<u8>, f: u8, z: u8, m: int)
    requires
        0 <= m <= a.len(),
    ensures
        eval_asc(seq_scale(a, f), z, m) == gf_mul_spec(eval_asc(a, z, m), f),
    decreases m,
{
    if m == 0 {
        lemma_mul_zero_one(f);
    } else {
        lemma_eval_asc_scale(a, f, z, m - 1);
        let p = gf_pow(z, (m - 1) as nat);
        let e = eval_asc(a, z, m - 1);
        // (a f) p == (a p) f
        lemma_mul_associative(a[m - 1], f, p);
        lemma_mul_commutative(f, p);
        lemma_mul_associative(a[m - 1], p, f);
        // e f + (a p) f == (e + a p) f
        lemma_mul_commutative(e ^ gf_mul_spec(a[m - 1], p), f);
        lemma_mul_distributive(f, e, gf_mul_spec(a[m - 1], p));
        lemma_mul_commutative(f, e);
        lemma_mul_commutative(f, gf_mul_spec(a[m - 1], p));
    }
}

/// Prepending a zero coefficient multiplies the value by `z`.
pub(crate) proof fn lemma_eval_asc_shift(a: Seq<u8>, z: u8, m: int)
    requires
        0 <= m <= a.len(),
    ensures
        eval_asc(seq![0u8] + a, z, m + 1) == gf_mul_spec(eval_asc(a, z, m), z),
    decreases m,
{
    let s = seq![0u8] + a;
    if m == 0 {
        reveal_with_fuel(eval_asc, 2);
        lemma_mul_zero_one(gf_pow(z, 0));
        lemma_mul_zero_one(z);
        lemma_xor_facts(0u8, 0u8, 0u8);
    } else {
        lemma_eval_asc_shift(a, z, m - 1);
        assert(s[m] == a[m - 1]);
        let p = gf_pow(z, (m - 1) as nat);
        let e = eval_asc(a, z, m - 1);
        assert(gf_pow(z, m as nat) == gf_mul_spec(p, z));
        lemma_mul_associative(a[m - 1], p, z);
        lemma_mul_commutative(e ^ gf_mul_spec(a[m - 1], p), z);
        lemma_mul_distributive(z, e, gf_mul_spec(a[m - 1], p));
        lemma_mul_commutative(z, e);
        lemma_mul_commutative(z, gf_mul_spec(a[m - 1], p));
    }
}

/// Coefficient `k` of `p * q` splits into `p[k] q[0]` and coefficient
/// `k - 1` of `p` times the rest of `q`.
proof fn lemma_mul_coef_first(p: Seq<u8>, q: Seq<u8>, k: int, rows: int)
    requires
        q.len() >= 1,
        0 <= rows <= p.len(),
    ensures
        poly_mul_coef(p, q, k, rows) == (if 0 <= k < rows {
            gf_mul_spec(p[k], q[0])
        } else {
            0u8
        }) ^ poly_mul_coef(p, q.drop_first(), k - 1, rows),
    decreases rows,
{
    let q1 = q.drop_first();
    if rows == 0 {
        lemma_xor_facts(0u8, 0u8, 0u8);
    } else {
        let r = rows - 1;
        lemma_mul_coef_first(p, q, k, r);
        let a = poly_mul_coef(p, q1, k - 1, r);
        let t = if 0 <= k - r < q.len() {
            gf_mul_spec(p[r], q[k - r])
        } else {
            0u8
        };
        let t1 = if 0 <= k - 1 - r < q1.len() {
            gf_mul_spec(p[r], q1[k - 1 - r])
        } else {
            0u8
        };
        assert(poly_mul_coef(p, q, k, rows) == poly_mul_coef(p, q, k, r) ^ t);
        assert(poly_mul_coef(p, q1, k - 1, rows) == a ^ t1);
        if k == r {
            assert(t1 == 0u8);
            lemma_xor_facts(0u8, a, t);
            lemma_xor_facts(a, t, 0u8);
            lemma_xor_facts(t, a, 0u8);
        } else {
            let h = if 0 <= k < r {
                gf_mul_spec(p[k], q[0])
            } else {
                0u8
            };
            assert(t == t1);
            lemma_xor_facts(h, a, t);
        }
    }
}

/// Coefficients of a product with no coefficients in `q`, or at a negative
/// index, vanish.
proof fn lemma_mul_coef_empty(p: Seq<u8>, q: Seq<u8>, k: int, rows: int)
    requires
        0 <= rows,
        q.len() == 0 || k < 0,
    ensures
        poly_mul_coef(p, q, k, rows) == 0u8,
    decreases rows,
{
    if rows > 0 {
        lemma_mul_coef_empty(p, q, k, rows - 1);
        lemma_xor_facts(0u8, 0u8, 0u8);
    }
}

/// The value of a polynomial is its constant term plus `z` times the value
/// of the rest.
proof fn lemma_eval_first(q: Seq<u8>, z: u8)
    requires
        q.len() >= 1,
    ensures
        eval_all(q, z) == q[0] ^ gf_mul_spec(eval_all(q.drop_first(), z), z),
{
    let q1 = q.drop_first();
    let m = q.len() as int;
    let head = Seq::new(m as nat, |k: int| if k == 0 { q[0] } else { 0u8 });
    let tail = seq![0u8] + q1;
    assert(q =~= seq_xor(head, tail)) by {
        assert forall|k: int| 0 <= k < m implies #[trigger] q[k] == head[k] ^ tail[k] by {
            lemma_xor_facts(q[k], 0u8, 0u8);
        }
    }
    lemma_eval_asc_xor(head, tail, z, m);
    lemma_eval_asc_zero_tail(head, z, 1, m);
    reveal_with_fuel(eval_asc, 2);
    lemma_mul_zero_one(q[0]);
    lemma_xor_facts(0u8, q[0], 0u8);
    assert(gf_pow(z, 0) == 1u8);
    lemma_eval_asc_shift(q1, z, m - 1);
}

/// Evaluation is multiplicative: the value of `p * q` at `z` is the product
/// of the values of `p` and `q`.
pub(crate) proof fn lemma_eval_mul(p: Seq<u8>, q: Seq<u8>, z: u8)
    requires
        p.len() >= 1,
        q.len() >= 1,
    ensures
        eval_all(poly_mul_spec(p, q), z) == gf_mul_spec(eval_all(p, z), eval_all(q, z)),
    decreases q.len(),
{
    let q1 = q.drop_first();
    let pq = poly_mul_spec(p, q);
    let np = p.len() as int;
    let len = pq.len() as int;
    let head = Seq::new(len as nat, |k: int| if k < np { gf_mul_spec(p[k], q[0]) } else { 0u8 });
    let ep = eval_all(p, z);
    // the terms with q[0]
    lemma_eval_asc_zero_tail(head, z, np, len);
    lemma_eval_asc_agree(head, seq_scale(p, q[0]), z, np);
    lemma_eval_asc_scale(p, q[0], z, np);
    if q.len() == 1 {
        assert(pq =~= head) by {
            assert forall|k: int| 0 <= k < len implies #[trigger] pq[k] == head[k] by {
                lemma_mul_coef_first(p, q, k, np);
                lemma_mul_coef_empty(p, q1, k - 1, np);
                lemma_xor_facts(head[k], 0u8, 0u8);
            }
        }
        lemma_eval_first(q, z);
        reveal_with_fuel(eval_asc, 1);
        lemma_mul_zero_one(z);
        lemma_xor_facts(q[0], 0u8, 0u8);
        lemma_mul_commutative(ep, q[0]);
    } else {
        lemma_eval_mul(p, q1, z);
        let pq1 = poly_mul_spec(p, q1);
        let tail = seq![0u8] + pq1;
        assert(pq =~= seq_xor(head, tail)) by {
            assert forall|k: int| 0 <= k < len implies #[trigger] pq[k] == head[k] ^ tail[k] by {
                lemma_mul_coef_first(p, q, k, np);
                if k == 0 {
                    lemma_mul_coef_empty(p, q1, -1, np);
                }
            }
        }
        lemma_eval_asc_xor(head, tail, z, len);
        lemma_eval_asc_shift(pq1, z, pq1.len() as int);
        lemma_eval_first(q, z);
        let e1 = eval_all(q1, z);
        // ep q0 + (ep e1) z == ep (q0 + e1 z)
        lemma_mul_associative(ep, e1, z);
        lemma_mul_distributive(ep, q[0], gf_mul_spec(e1, z));
        lemma_mul_commutative(ep, q[0]);
    }
}

/// `(p * (1 + a x))(z) = p(z) * (1 + a z)`.
pub proof fn lemma_eval_mul_linear_asc(p: Seq<u8>, a: u8, z: u8)
    ensures
        poly_mul_spec(p, seq![1u8, a]).len() == p.len() + 1,
        eval_all(poly_mul_spec(p, seq![1u8, a]), z) == gf_mul_spec(eval_all(p, z), 1u8 ^ gf_mul_spec(a, z)),
{
    let l = p.len() as int;
    let shifted = p.push(0u8);
    let low = seq![0u8] + p;
    lemma_poly_mul_linear_split(p, a);
    lemma_eval_asc_xor(shifted, seq_scale(low, a), z, l + 1);
    lemma_eval_asc_agree(shifted, p, z, l);
    lemma_mul_zero_one(gf_pow(z, l as nat));
    lemma_xor_facts(eval_asc(p, z, l), 0u8, 0u8);
    lemma_eval_asc_scale(low, a, z, l + 1);
    lemma_eval_asc_shift(p, z, l);
    let e = eval_asc(p, z, l);
    // e + (e z) a == e (1 + a z)
    lemma_mul_associative(e, z, a);
    lemma_mul_commutative(z, a);
    lemma_mul_distributive(e, 1u8, gf_mul_spec(a, z));
    lemma_mul_zero_one(e);
}

/// The product rule for a linear factor: `(p (1 + a x))' = p' (1 + a x) + a p`.
proof fn lemma_derivative_mul_linear(p: Seq<u8>, a: u8)
    ensures
        formal_derivative(poly_mul_spec(p, seq![1u8, a])) =~= seq_xor(
            poly_mul_spec(formal_derivative(p), seq![1u8, a]),
            seq_scale(p.push(0u8), a),
        ),
{
    let l = p.len() as int;
    let d = formal_derivative(p);
    let prod = poly_mul_spec(p, seq![1u8, a]);
    let dprod = poly_mul_spec(d, seq![1u8, a]);
    lemma_poly_mul_linear_split(p, a);
    lemma_poly_mul_linear_split(d, a);
    let lhs = formal_derivative(prod);
    let rhs = seq_xor(dprod, seq_scale(p.push(0u8), a));
    lemma_mul_zero_one(a);
    assert forall|k: int| 0 <= k < l + 1 implies #[trigger] lhs[k] == rhs[k] by {
        let sk = if k < l { p[k] } else { 0u8 };
        let sk1 = if k + 1 < l { p[k + 1] } else { 0u8 };
        assert(p.push(0u8)[k] == sk);
        if k < l {
            assert((seq![0u8] + p)[k + 1] == sk);
            assert(p.push(0u8)[k + 1] == sk1);
        }
        if k % 2 == 0 {
            assert(d.push(0u8)[k] == sk1);
            if k >= 1 {
                assert((seq![0u8] + d)[k] == d[k - 1]);
                assert(d[k - 1] == 0u8);
            } else {
                assert((seq![0u8] + d)[k] == 0u8);
            }
            lemma_xor_facts(sk1, 0u8, 0u8);
            lemma_xor_facts(sk1, gf_mul_spec(sk, a), 0u8);
            if k == l {
                assert(sk1 == 0u8 && sk == 0u8);
                lemma_xor_facts(0u8, 0u8, 0u8);
            }
        } else {
            assert(d.push(0u8)[k] == 0u8);
            assert((seq![0u8] + d)[k] == d[k - 1]);
            assert(d[k - 1] == sk);
            lemma_xor_facts(0u8, gf_mul_spec(sk, a), gf_mul_spec(sk, a));
            lemma_xor_facts(gf_mul_spec(sk, a), 0u8, 0u8);
        }
    }
}

/// The derivative's value after multiplying by a linear factor:
/// `(p (1 + a x))'(z) = p'(z) (1 + a z) + a p(z)`.
proof fn lemma_eval_derivative_mul_linear(p: Seq<u8>, a: u8, z: u8)
    ensures
        eval_all(formal_derivative(poly_mul_spec(p, seq![1u8, a])), z) == gf_mul_spec(
            eval_all(formal_derivative(p), z),
            1u8 ^ gf_mul_spec(a, z),
        ) ^ gf_mul_spec(eval_all(p, z), a),
{
    let l = p.len() as int;
    let d = formal_derivative(p);
    lemma_derivative_mul_linear(p, a);
    lemma_eval_mul_linear_asc(d, a, z);
    lemma_poly_mul_linear_split(p, a);
    lemma_eval_asc_xor(poly_mul_spec(d, seq![1u8, a]), seq_scale(p.push(0u8), a), z, l + 1);
    lemma_eval_asc_scale(p.push(0u8), a, z, l + 1);
    lemma_eval_asc_agree(p.push(0u8), p, z, l);
    lemma_mul_zero_one(gf_pow(z, l as nat));
    lemma_xor_facts(eval_asc(p, z, l), 0u8, 0u8);
}

// ---------------------------------------------------------------------------
// Points of positions
// ---------------------------------------------------------------------------

/// The word that is zero but for the value `y` at position `p`.
pub open spec fn single_error(n: nat, p: int, y: u8) -> Seq<u8> {
    Seq::new(n, |j: int| if j == p { y } else { 0u8 })
}

/// Syndrome `i` of a single error `y` at position `p` of an `n`-symbol word
/// is `y * X^i`, where `X = alpha^(n - 1 - p)`.
pub(crate) proof fn lemma_single_error_syndrome(n: nat, p: int, y: u8, i: nat)
    requires
        0 <= p < n,
    ensures
        poly_eval(single_error(n, p, y), alpha_pow(i)) == gf_mul_spec(
            y,
            gf_pow(alpha_pow((n - 1 - p) as nat), i),
        ),
{
    let z = alpha_pow(i);
    let k = (n - 1 - p) as nat;
    let head = Seq::new(p as nat, |j: int| 0u8);
    let tail = Seq::new(k, |j: int| 0u8);
    assert(single_error(n, p, y) =~= head.push(y) + tail);
    lemma_eval_concat(head.push(y), tail, z);
    lemma_eval_push(head, y, z);
    lemma_eval_zeros(p as nat, z);
    lemma_eval_zeros(k, z);
    lemma_mul_zero_one(z);
    lemma_xor_facts(y, 0u8, 0u8);
    lemma_xor_facts(gf_mul_spec(y, gf_pow(z, k)), 0u8, 0u8);
    lemma_pow_mul(2, i, k);
    lemma_pow_mul(2, k, i);
    assert(i * k == k * i) by (nonlinear_arith);
}

/// The point of position `p` times the Chien point of position `j` is one
/// exactly when `j == p`.
pub(crate) proof fn lemma_chien_point_inverse(n: int, p: int, j: int)
    requires
        0 <= p < n <= 255,
        0 <= j < n,
    ensures
        gf_mul_spec(alpha_pow((n - 1 - p) as nat), chien_point(n, j)) == 1 <==> j == p,
{
    let a = (n - 1 - p) as nat;
    let b = n - 1 - j;
    let c = ((255 - (b % 255)) % 255) as nat;
    assert(b % 255 == b);
    assert(0 <= c < 255);
    assert(c % 255 == c);
    assert(chien_point(n, j) == alpha_pow(c));
    lemma_pow_add(2, a, c);
    lemma_alpha_pow_is_one(a + c);
    if b == 0 {
        assert(c == 0);
        assert((a + c) % 255 == 0 <==> a == 0);
    } else {
        assert(c == 255 - b);
        assert((a + c) % 255 == 0 <==> a == b);
    }
}

// ---------------------------------------------------------------------------
// The erasure locator
// ---------------------------------------------------------------------------

/// Whether position `j` is among the first `m` erasures.
pub open spec fn erased_before(erasures: Seq<usize>, m: int, j: int) -> bool {
    exists|l: int| 0 <= l < m && erasures[l] as int == j
}

/// Erasure positions that are distinct and inside an `n`-symbol word of at
/// most 255 symbols.
pub open spec fn erasures_valid(erasures: Seq<usize>, n: int) -> bool {
    &&& 0 <= n <= 255
    &&& erasures.no_duplicates()
    &&& forall|k: int| 0 <= k < erasures.len() ==> #[trigger] erasures[k] < n
}

pub(crate) proof fn lemma_one_plus(t: u8)
    ensures
        (1u8 ^ t == 0u8) <==> t == 1u8,
{
    assert((1u8 ^ t == 0u8) <==> t == 1u8) by (bit_vector);
}

/// The point of position `p` is `alpha^(n - 1 - p)`, the inverse of the
/// Chien point of `p`, and not zero.
pub(crate) proof fn lemma_forney_x(n: int, p: int)
    requires
        0 <= p < n <= 255,
    ensures
        forney_x(n, p) == alpha_pow((n - 1 - p) as nat),
        forney_x(n, p) != 0u8,
{
    assert((n - 1 - p) % 255 == n - 1 - p);
    lemma_chien_point_inverse(n, p, p);
    lemma_mul_zero_one(chien_point(n, p));
}

/// The first `m` factors of the erasure locator: it has `m + 1`
/// coefficients, the last one nonzero; it vanishes at the Chien point of a
/// position exactly when that position is among the first `m` erasures; and
/// its derivative does not vanish at those points.
pub(crate) proof fn lemma_erasure_locator(erasures: Seq<usize>, n: int, m: int)
    requires
        erasures_valid(erasures, n),
        0 <= m <= erasures.len(),
    ensures
        erasure_locator(erasures, n, m).len() == m + 1,
        erasure_locator(erasures, n, m)[m] != 0u8,
        erasure_locator(erasures, n, m)[0] == 1u8,
        forall|j: int|
            0 <= j < n ==> (eval_all(erasure_locator(erasures, n, m), #[trigger] chien_point(n, j))
                == 0u8 <==> erased_before(erasures, m, j)),
        forall|l: int|
            0 <= l < m ==> eval_all(
                formal_derivative(erasure_locator(erasures, n, m)),
                chien_point(n, #[trigger] erasures[l] as int),
            ) != 0u8,
    decreases m,
{
    let loc = erasure_locator(erasures, n, m);
    if m == 0 {
        assert(loc == seq![1u8]);
        assert forall|j: int| 0 <= j < n implies (eval_all(loc, #[trigger] chien_point(n, j))
            == 0u8 <==> erased_before(erasures, m, j)) by {
            reveal_with_fuel(eval_asc, 2);
            lemma_mul_zero_one(gf_pow(chien_point(n, j), 0));
            lemma_xor_facts(1u8, 0u8, 0u8);
        }
    } else {
        lemma_erasure_locator(erasures, n, m - 1);
        let prev = erasure_locator(erasures, n, m - 1);
        let q = erasures[m - 1] as int;
        let x = forney_x(n, q);
        lemma_forney_x(n, q);
        lemma_poly_mul_linear_split(prev, x);
        lemma_eval_mul_linear_asc(prev, x, 0u8);
        // the constant term stays one
        assert(loc[0] == prev.push(0u8)[0] ^ gf_mul_spec((seq![0u8] + prev)[0], x));
        lemma_mul_zero_one(x);
        lemma_xor_facts(1u8, 0u8, 0u8);
        // the leading coefficient is prev's times x
        assert(loc[m] == prev.push(0u8)[m] ^ gf_mul_spec((seq![0u8] + prev)[m], x));
        lemma_xor_facts(gf_mul_spec(prev[m - 1], x), 0u8, 0u8);
        lemma_mul_nonzero(prev[m - 1], x);
        // roots
        assert forall|j: int| 0 <= j < n implies (eval_all(loc, #[trigger] chien_point(n, j))
            == 0u8 <==> erased_before(erasures, m, j)) by {
            let z = chien_point(n, j);
            lemma_eval_mul_linear_asc(prev, x, z);
            lemma_chien_point_inverse(n, q, j);
            lemma_one_plus(gf_mul_spec(x, z));
            let ep = eval_all(prev, z);
            let f = 1u8 ^ gf_mul_spec(x, z);
            lemma_mul_zero_one(ep);
            lemma_mul_zero_one(f);
            if ep != 0u8 && f != 0u8 {
                lemma_mul_nonzero(ep, f);
            }
            if erased_before(erasures, m, j) {
                let l = choose|l: int| 0 <= l < m && erasures[l] as int == j;
                if l < m - 1 {
                    assert(erased_before(erasures, m - 1, j));
                }
            }
            if erased_before(erasures, m - 1, j) {
                let l = choose|l: int| 0 <= l < m - 1 && erasures[l] as int == j;
                assert(erased_before(erasures, m, j));
            }
            if j == q {
                assert(erased_before(erasures, m, j));
            }
        }
        // derivatives at the roots
        assert forall|l: int| 0 <= l < m implies eval_all(
            formal_derivative(loc),
            chien_point(n, #[trigger] erasures[l] as int),
        ) != 0u8 by {
            let pl = erasures[l] as int;
            let z = chien_point(n, pl);
            lemma_eval_derivative_mul_linear(prev, x, z);
            lemma_chien_point_inverse(n, q, pl);
            lemma_one_plus(gf_mul_spec(x, z));
            let dp = eval_all(formal_derivative(prev), z);
            let ep = eval_all(prev, z);
            let f = 1u8 ^ gf_mul_spec(x, z);
            if l < m - 1 {
                assert(erased_before(erasures, m - 1, pl));
                assert(erasures[l] != erasures[m - 1]);
                lemma_mul_zero_one(x);
                lemma_mul_nonzero(dp, f);
                lemma_xor_facts(gf_mul_spec(dp, f), 0u8, 0u8);
            } else {
                assert(!erased_before(erasures, m - 1, pl)) by {
                    if erased_before(erasures, m - 1, pl) {
                        let k = choose|k: int| 0 <= k < m - 1 && erasures[k] as int == pl;
                        assert(erasures[k] == erasures[m - 1]);
                    }
                }
                lemma_mul_zero_one(dp);
                lemma_mul_nonzero(ep, x);
                lemma_xor_facts(gf_mul_spec(ep, x), 0u8, 0u8);
            }
        }
    }
}

/// The Chien search on the full erasure locator finds, in increasing
/// order and without repetition, exactly the erased positions below `m`.
pub(crate) proof fn lemma_chien_roots_erasures(erasures: Seq<usize>, n: int, m: int)
    requires
        erasures_valid(erasures, n),
        0 <= m <= n,
    ensures
        chien_roots(erasure_locator(erasures, n, erasures.len() as int), n, m).no_duplicates(),
        forall|k: int|
            0 <= k < chien_roots(erasure_locator(erasures, n, erasures.len() as int), n, m).len()
                ==> #[trigger] chien_roots(erasure_locator(erasures, n, erasures.len() as int), n, m)[k]
                < m && erased_before(
                erasures,
                erasures.len() as int,
                chien_roots(erasure_locator(erasures, n, erasures.len() as int), n, m)[k] as int,
            ),
        forall|j: int|
            0 <= j < m && erased_before(erasures, erasures.len() as int, j) ==> chien_roots(
                erasure_locator(erasures, n, erasures.len() as int),
                n,
                m,
            ).contains(j as usize),
    decreases m,
{
    if m > 0 {
        let t = erasures.len() as int;
        let loc = erasure_locator(erasures, n, t);
        lemma_chien_roots_erasures(erasures, n, m - 1);
        lemma_erasure_locator(erasures, n, t);
        let prev = chien_roots(loc, n, m - 1);
        let cur = chien_roots(loc, n, m);
        assert(is_chien_root(loc, n, m - 1) <==> erased_before(erasures, t, m - 1)) by {
            assert(eval_all(loc, chien_point(n, m - 1)) == eval_asc(loc, chien_point(n, m - 1), loc.len() as int));
        }
        if is_chien_root(loc, n, m - 1) {
            assert(cur == prev + seq![(m - 1) as usize]);
            assert forall|a: int, b: int| 0 <= a < b < cur.len() implies cur[a] != cur[b] by {
                if b == cur.len() - 1 {
                    assert(cur[a] == prev[a]);
                }
            }
            assert forall|j: int| 0 <= j < m && erased_before(erasures, t, j) implies cur.contains(
                j as usize,
            ) by {
                if j < m - 1 {
                    let k = choose|k: int| 0 <= k < prev.len() && prev[k] == j as usize;
                    assert(cur[k] == prev[k]);
                } else {
                    assert(cur[cur.len() - 1] == (m - 1) as usize);
                }
            }
        } else {
            assert(cur =~= prev);
        }
    }
}

/// The Chien search on the full erasure locator finds as many roots as there
/// are erasures.
pub(crate) proof fn lemma_chien_roots_erasures_count(erasures: Seq<usize>, n: int)
    requires
        erasures_valid(erasures, n),
    ensures
        chien_roots(erasure_locator(erasures, n, erasures.len() as int), n, n).len()
            == erasures.len(),
{
    let t = erasures.len() as int;
    let roots = chien_roots(erasure_locator(erasures, n, t), n, n);
    lemma_chien_roots_erasures(erasures, n, n);
    assert forall|x: usize| roots.to_set().contains(x) <==> erasures.to_set().contains(x) by {
        if roots.contains(x) {
            let k = choose|k: int| 0 <= k < roots.len() && roots[k] == x;
            let l = choose|l: int| 0 <= l < t && erasures[l] as int == roots[k] as int;
            assert(erasures[l] == x);
        }
        if erasures.contains(x) {
            let l = choose|l: int| 0 <= l < t && erasures[l] == x;
            assert(erased_before(erasures, t, x as int));
        }
    }
    assert(roots.to_set() =~= erasures.to_set());
    roots.unique_seq_to_set();
    erasures.unique_seq_to_set();
}

// ---------------------------------------------------------------------------
// Syndromes of errors confined to erased positions
// ---------------------------------------------------------------------------

/// The value `c - w` at erasure `l`.
pub open spec fn erasure_value(c: Seq<u8>, w: Seq<u8>, erasures: Seq<usize>, l: int) -> u8 {
    c[erasures[l] as int] ^ w[erasures[l] as int]
}

/// The sum over the first `m` erasures of their values times the `i`-th
/// power of their points.
pub open spec fn erasure_syndrome(
    c: Seq<u8>,
    w: Seq<u8>,
    erasures: Seq<usize>,
    n: int,
    i: nat,
    m: int,
) -> u8
    decreases m,
{
    if m <= 0 {
        0
    } else {
        erasure_syndrome(c, w, erasures, n, i, m - 1) ^ gf_mul_spec(
            erasure_value(c, w, erasures, m - 1),
            gf_pow(forney_x(n, erasures[m - 1] as int), i),
        )
    }
}

/// The word holding `c - w` at the first `m` erasures and zero elsewhere.
pub open spec fn erasure_error(c: Seq<u8>, w: Seq<u8>, erasures: Seq<usize>, n: int, m: int) -> Seq<
    u8,
> {
    Seq::new(
        n as nat,
        |j: int|
            if erased_before(erasures, m, j) {
                c[j] ^ w[j]
            } else {
                0u8
            },
    )
}

pub(crate) proof fn lemma_erasure_error_syndrome(
    c: Seq<u8>,
    w: Seq<u8>,
    erasures: Seq<usize>,
    n: int,
    i: nat,
    m: int,
)
    requires
        erasures_valid(erasures, n),
        c.len() == n,
        w.len() == n,
        0 <= m <= erasures.len(),
    ensures
        poly_eval(erasure_error(c, w, erasures, n, m), alpha_pow(i)) == erasure_syndrome(
            c,
            w,
            erasures,
            n,
            i,
            m,
        ),
    decreases m,
{
    let cur = erasure_error(c, w, erasures, n, m);
    if m == 0 {
        assert(cur =~= Seq::new(n as nat, |j: int| 0u8));
        lemma_eval_zeros(n as nat, alpha_pow(i));
    } else {
        lemma_erasure_error_syndrome(c, w, erasures, n, i, m - 1);
        let prev = erasure_error(c, w, erasures, n, m - 1);
        let q = erasures[m - 1] as int;
        let y = erasure_value(c, w, erasures, m - 1);
        let single = single_error(n as nat, q, y);
        assert forall|j: int| 0 <= j < n implies #[trigger] cur[j] == seq_xor(prev, single)[j] by {
            if j == q {
                assert(!erased_before(erasures, m - 1, j)) by {
                    if erased_before(erasures, m - 1, j) {
                        let k = choose|k: int| 0 <= k < m - 1 && erasures[k] as int == j;
                        assert(erasures[k] == erasures[m - 1]);
                    }
                }
                assert(erased_before(erasures, m, j));
                lemma_xor_facts(y, 0u8, 0u8);
            } else {
                if erased_before(erasures, m, j) {
                    let k = choose|k: int| 0 <= k < m && erasures[k] as int == j;
                    assert(erased_before(erasures, m - 1, j));
                }
                if erased_before(erasures, m - 1, j) {
                    let k = choose|k: int| 0 <= k < m - 1 && erasures[k] as int == j;
                    assert(erased_before(erasures, m, j));
                }
                lemma_xor_facts(prev[j], 0u8, 0u8);
            }
        }
        assert(cur =~= seq_xor(prev, single));
        lemma_eval_xor(prev, single, alpha_pow(i));
        lemma_single_error_syndrome(n as nat, q, y, i);
        lemma_forney_x(n, q);
    }
}

/// When `c` differs from the codeword `w` only at erased positions, its
/// syndromes are the sums over the erasures of their values times the
/// powers of their points.
pub(crate) proof fn lemma_erasure_syndromes(c: Seq<u8>, w: Seq<u8>, erasures: Seq<usize>, e: nat)
    requires
        erasures_valid(erasures, c.len() as int),
        w.len() == c.len(),
        is_rs_codeword(w, e),
        forall|j: int|
            0 <= j < c.len() && c[j] != w[j] ==> erased_before(erasures, erasures.len() as int, j),
    ensures
        forall|i: int|
            0 <= i < e ==> #[trigger] syndromes_spec(c, e)[i] == erasure_syndrome(
                c,
                w,
                erasures,
                c.len() as int,
                i as nat,
                erasures.len() as int,
            ),
{
    let n = c.len() as int;
    let t = erasures.len() as int;
    let err = erasure_error(c, w, erasures, n, t);
    assert forall|j: int| 0 <= j < n implies #[trigger] c[j] == seq_xor(w, err)[j] by {
        let cj = c[j];
        let wj = w[j];
        lemma_xor_facts(cj, wj, 0u8);
        lemma_xor_facts(wj, wj, cj);
        lemma_xor_facts(cj, 0u8, 0u8);
        lemma_xor_facts(wj, 0u8, 0u8);
    }
    assert(c =~= seq_xor(w, err));
    assert forall|i: int| 0 <= i < e implies #[trigger] syndromes_spec(c, e)[i] == erasure_syndrome(
        c,
        w,
        erasures,
        n,
        i as nat,
        t,
    ) by {
        lemma_syndrome_is_eval(c, i);
        lemma_syndrome_is_eval(w, i);
        assert(syndromes_spec(w, e)[i] == 0u8);
        lemma_eval_xor(w, err, alpha_pow(i as nat));
        lemma_erasure_error_syndrome(c, w, erasures, n, i as nat, t);
        lemma_xor_facts(erasure_syndrome(c, w, erasures, n, i as nat, t), 0u8, 0u8);
    }
}

// ---------------------------------------------------------------------------
// Products with syndrome sequences
// ---------------------------------------------------------------------------

/// The product coefficient is additive in the first factor.
pub(crate) proof fn lemma_mul_coef_xor(a: Seq<u8>, b: Seq<u8>, q: Seq<u8>, k: int, rows: int)
    requires
        a.len() == b.len(),
        0 <= rows <= a.len(),
    ensures
        poly_mul_coef(seq_xor(a, b), q, k, rows) == poly_mul_coef(a, q, k, rows) ^ poly_mul_coef(
            b,
            q,
            k,
            rows,
        ),
    decreases rows,
{
    if rows == 0 {
        lemma_xor_facts(0u8, 0u8, 0u8);
    } else {
        lemma_mul_coef_xor(a, b, q, k, rows - 1);
        let r = rows - 1;
        if 0 <= k - r < q.len() {
            let qq = q[k - r];
            lemma_mul_commutative(a[r] ^ b[r], qq);
            lemma_mul_distributive(qq, a[r], b[r]);
            lemma_mul_commutative(qq, a[r]);
            lemma_mul_commutative(qq, b[r]);
            lemma_xor_swap(
                poly_mul_coef(a, q, k, r),
                poly_mul_coef(b, q, k, r),
                gf_mul_spec(a[r], qq),
                gf_mul_spec(b[r], qq),
            );
        } else {
            lemma_xor_facts(poly_mul_coef(a, q, k, r) ^ poly_mul_coef(b, q, k, r), 0u8, 0u8);
            lemma_xor_facts(poly_mul_coef(a, q, k, r), 0u8, 0u8);
            lemma_xor_facts(poly_mul_coef(b, q, k, r), 0u8, 0u8);
        }
    }
}

/// The product coefficient commutes with scaling the first factor.
pub(crate) proof fn lemma_mul_coef_scale(a: Seq<u8>, f: u8, q: Seq<u8>, k: int, rows: int)
    requires
        0 <= rows <= a.len(),
    ensures
        poly_mul_coef(seq_scale(a, f), q, k, rows) == gf_mul_spec(poly_mul_coef(a, q, k, rows), f),
    decreases rows,
{
    if rows == 0 {
        lemma_mul_zero_one(f);
    } else {
        lemma_mul_coef_scale(a, f, q, k, rows - 1);
        let r = rows - 1;
        let pc = poly_mul_coef(a, q, k, r);
        if 0 <= k - r < q.len() {
            let qq = q[k - r];
            lemma_mul_associative(a[r], f, qq);
            lemma_mul_commutative(f, qq);
            lemma_mul_associative(a[r], qq, f);
            lemma_mul_commutative(pc ^ gf_mul_spec(a[r], qq), f);
            lemma_mul_distributive(f, pc, gf_mul_spec(a[r], qq));
            lemma_mul_commutative(f, pc);
            lemma_mul_commutative(f, gf_mul_spec(a[r], qq));
        } else {
            lemma_xor_facts(gf_mul_spec(pc, f), 0u8, 0u8);
            lemma_xor_facts(pc, 0u8, 0u8);
        }
    }
}

/// Rows past the coefficient's index contribute nothing.
pub(crate) proof fn lemma_mul_coef_beyond(p: Seq<u8>, q: Seq<u8>, k: int, rows: int)
    requires
        0 <= rows,
    ensures
        poly_mul_coef(p, q, k, rows) == (if k < 0 {
            0u8
        } else if rows <= k + 1 {
            poly_mul_coef(p, q, k, rows)
        } else {
            poly_mul_coef(p, q, k, k + 1)
        }),
    decreases rows,
{
    if rows > 0 {
        lemma_mul_coef_beyond(p, q, k, rows - 1);
        let base = poly_mul_coef(p, q, k, rows - 1);
        lemma_xor_facts(base, 0u8, 0u8);
    }
}

/// The powers `1, x, x^2, ...` of `x`, `len` of them.
pub open spec fn geometric(x: u8, len: nat) -> Seq<u8> {
    Seq::new(len, |i: int| gf_pow(x, i as nat))
}

/// Dividing by `1 + x X`: `quot(k) = lam[k] + x quot(k - 1)`.
pub open spec fn quotient_coef(lam: Seq<u8>, x: u8, k: int) -> u8
    decreases k + 1,
{
    if k < 0 {
        0u8
    } else {
        (if k < lam.len() {
            lam[k]
        } else {
            0u8
        }) ^ gf_mul_spec(x, quotient_coef(lam, x, k - 1))
    }
}

/// Peeling the first row of the product with the powers of `x`.
proof fn lemma_geometric_peel(x: u8, len: nat, lam: Seq<u8>, k: int, rows: int)
    requires
        1 <= rows <= len,
    ensures
        poly_mul_coef(geometric(x, len), lam, k, rows) == (if 0 <= k < lam.len() {
            lam[k]
        } else {
            0u8
        }) ^ gf_mul_spec(x, poly_mul_coef(geometric(x, len), lam, k - 1, rows - 1)),
    decreases rows,
{
    let g = geometric(x, len);
    let head = if 0 <= k < lam.len() {
        lam[k]
    } else {
        0u8
    };
    lemma_mul_zero_one(x);
    if rows == 1 {
        assert(g[0] == 1u8);
        if 0 <= k < lam.len() {
            lemma_mul_zero_one(lam[k]);
        }
        lemma_xor_facts(head, 0u8, 0u8);
        lemma_xor_facts(0u8, 0u8, 0u8);
        assert(poly_mul_coef(g, lam, k, 0) == 0u8);
        assert(poly_mul_coef(g, lam, k - 1, 0) == 0u8);
    } else {
        let r = rows - 1;
        lemma_geometric_peel(x, len, lam, k, r);
        let prev = poly_mul_coef(g, lam, k - 1, r - 1);
        let t = if 0 <= k - r < lam.len() {
            gf_mul_spec(g[r], lam[k - r])
        } else {
            0u8
        };
        let t1 = if 0 <= k - 1 - (r - 1) < lam.len() {
            gf_mul_spec(g[r - 1], lam[k - 1 - (r - 1)])
        } else {
            0u8
        };
        // x * t1 == t
        if 0 <= k - r < lam.len() {
            assert(g[r] == gf_mul_spec(g[r - 1], x));
            lemma_mul_commutative(g[r - 1], x);
            lemma_mul_associative(x, g[r - 1], lam[k - r]);
        }
        lemma_mul_distributive(x, prev, t1);
        lemma_xor_facts(head, gf_mul_spec(x, prev), t);
        assert(poly_mul_coef(g, lam, k, rows) == poly_mul_coef(g, lam, k, r) ^ t);
        assert(poly_mul_coef(g, lam, k - 1, r) == prev ^ t1);
        assert(gf_mul_spec(x, t1) == t);
    }
}

/// The product of the powers of `x` with `lam`, below `len`, is the
/// quotient recurrence.
pub(crate) proof fn lemma_geometric_quotient(x: u8, len: nat, lam: Seq<u8>, k: int)
    requires
        0 <= k < len,
    ensures
        poly_mul_coef(geometric(x, len), lam, k, len as int) == quotient_coef(lam, x, k),
    decreases k,
{
    let g = geometric(x, len);
    lemma_mul_coef_beyond(g, lam, k, len as int);
    lemma_geometric_peel(x, len, lam, k, k + 1);
    if k == 0 {
        assert(poly_mul_coef(g, lam, -1, 0) == 0u8);
        assert(quotient_coef(lam, x, -1) == 0u8);
    } else {
        lemma_geometric_quotient(x, len, lam, k - 1);
        lemma_mul_coef_beyond(g, lam, k - 1, len as int);
    }
}

/// A power of a nonzero element is nonzero.
pub(crate) proof fn lemma_pow_nonzero(z: u8, k: nat)
    requires
        z != 0,
    ensures
        gf_pow(z, k) != 0u8,
    decreases k,
{
    if k == 0 {
    } else {
        lemma_pow_nonzero(z, (k - 1) as nat);
        lemma_mul_nonzero(gf_pow(z, (k - 1) as nat), z);
    }
}

/// Division by `1 + x X` where `lam` vanishes at `z = 1 / x`: the quotient
/// has `lam.len() - 1` coefficients, after which the recurrence is zero,
/// and it times `1 + x X` is `lam`.
pub(crate) proof fn lemma_quotient_divides(lam: Seq<u8>, x: u8, z: u8)
    requires
        lam.len() >= 1,
        eval_all(lam, z) == 0u8,
        gf_mul_spec(x, z) == 1u8,
    ensures
        forall|k: int| lam.len() - 1 <= k ==> #[trigger] quotient_coef(lam, x, k) == 0u8,
        poly_mul_spec(Seq::new((lam.len() - 1) as nat, |k: int| quotient_coef(lam, x, k)), seq![1u8, x])
            == lam,
{
    let t = lam.len() - 1;
    let c = Seq::new(t as nat, |k: int| quotient_coef(lam, x, k));
    let d = poly_mul_spec(c, seq![1u8, x]);
    lemma_poly_mul_linear_split(c, x);
    lemma_eval_mul_linear_asc(c, x, z);
    lemma_mul_zero_one(x);
    assert forall|k: int| 0 <= k <= t implies #[trigger] d[k] == (if k < t {
        lam[k]
    } else {
        lam[k] ^ quotient_coef(lam, x, t)
    }) by {
        let qk = quotient_coef(lam, x, k);
        let qk1 = quotient_coef(lam, x, k - 1);
        lemma_mul_commutative(qk1, x);
        assert(d[k] == c.push(0u8)[k] ^ gf_mul_spec((seq![0u8] + c)[k], x));
        assert(qk == lam[k] ^ gf_mul_spec(x, qk1));
        let xq = gf_mul_spec(x, qk1);
        if k == 0 {
            assert(quotient_coef(lam, x, -1) == 0u8);
            assert(qk1 == 0u8);
            assert(xq == 0u8);
            assert((seq![0u8] + c)[0] == 0u8);
            lemma_xor_facts(lam[0], 0u8, 0u8);
            assert(qk == lam[0]);
            if t == 0 {
                assert(c.push(0u8)[0] == 0u8);
                lemma_xor_facts(lam[0], lam[0], 0u8);
                lemma_xor_facts(0u8, 0u8, 0u8);
            } else {
                assert(c.push(0u8)[0] == qk);
            }
        } else {
            assert((seq![0u8] + c)[k] == qk1);
            let l = lam[k];
            if k < t {
                assert(c.push(0u8)[k] == qk);
                lemma_xor_facts(l, xq, xq);
                lemma_xor_facts(xq, 0u8, 0u8);
                lemma_xor_facts(l, 0u8, 0u8);
            } else {
                assert(c.push(0u8)[k] == 0u8);
                lemma_xor_facts(l, l, xq);
                lemma_xor_facts(xq, 0u8, 0u8);
            }
        }
    }
    // both d and lam vanish at z, and they differ only at t
    lemma_xor_facts(1u8, 1u8, 0u8);
    lemma_mul_zero_one(eval_all(c, z));
    lemma_eval_asc_agree(d, lam, z, t);
    let pt = gf_pow(z, t as nat);
    let qt = quotient_coef(lam, x, t);
    lemma_mul_commutative(lam[t] ^ qt, pt);
    lemma_mul_distributive(pt, lam[t], qt);
    lemma_mul_commutative(pt, lam[t]);
    lemma_mul_commutative(pt, qt);
    let a = eval_asc(lam, z, t);
    let b = gf_mul_spec(lam[t], pt);
    let q = gf_mul_spec(qt, pt);
    assert(a ^ b == 0u8);
    assert(a ^ (b ^ q) == 0u8);
    assert(q == 0u8) by (bit_vector)
        requires
            a ^ b == 0u8,
            a ^ (b ^ q) == 0u8,
    ;
    assert(z != 0u8) by {
        if z == 0 {
            lemma_mul_zero_one(x);
        }
    }
    lemma_pow_nonzero(z, t as nat);
    lemma_mul_zero_one(pt);
    if qt != 0 {
        lemma_mul_nonzero(qt, pt);
    }
    assert forall|k: int| t <= k implies #[trigger] quotient_coef(lam, x, k) == 0u8 by {
        lemma_quotient_tail(lam, x, k);
    }
    assert forall|k: int| 0 <= k <= t implies #[trigger] d[k] == lam[k] by {
        lemma_xor_facts(lam[k], 0u8, 0u8);
    }
    assert(d =~= lam);
}

/// Once the quotient recurrence reaches zero at `lam.len() - 1`, it stays zero.
proof fn lemma_quotient_tail(lam: Seq<u8>, x: u8, k: int)
    requires
        lam.len() >= 1,
        quotient_coef(lam, x, lam.len() - 1) == 0u8,
        lam.len() - 1 <= k,
    ensures
        quotient_coef(lam, x, k) == 0u8,
    decreases k,
{
    if k > lam.len() - 1 {
        lemma_quotient_tail(lam, x, k - 1);
        lemma_mul_zero_one(x);
        lemma_xor_facts(0u8, 0u8, 0u8);
    }
}

// ---------------------------------------------------------------------------
// Forney's formula on the full erasure locator
// ---------------------------------------------------------------------------

pub(crate) proof fn lemma_mul_coef_zero(a: Seq<u8>, q: Seq<u8>, k: int, rows: int)
    requires
        0 <= rows <= a.len(),
        forall|i: int| 0 <= i < a.len() ==> #[trigger] a[i] == 0u8,
    ensures
        poly_mul_coef(a, q, k, rows) == 0u8,
    decreases rows,
{
    if rows > 0 {
        lemma_mul_coef_zero(a, q, k, rows - 1);
        if 0 <= k - (rows - 1) < q.len() {
            lemma_mul_zero_one(q[k - (rows - 1)]);
        }
        lemma_xor_facts(0u8, 0u8, 0u8);
    }
}

/// The point of erasure `l`.
pub open spec fn erasure_point(erasures: Seq<usize>, n: int, l: int) -> u8 {
    forney_x(n, erasures[l] as int)
}

/// The quotient of the full erasure locator by the factor of erasure `l`.
pub open spec fn erasure_quotient(erasures: Seq<usize>, n: int, l: int) -> Seq<u8> {
    Seq::new(
        erasures.len(),
        |k: int|
            quotient_coef(
                erasure_locator(erasures, n, erasures.len() as int),
                erasure_point(erasures, n, l),
                k,
            ),
    )
}

/// The partial sums over the first `m` erasures of the syndrome sequences.
pub open spec fn syndrome_prefix(
    c: Seq<u8>,
    w: Seq<u8>,
    erasures: Seq<usize>,
    n: int,
    e: nat,
    m: int,
) -> Seq<u8> {
    Seq::new(e, |i: int| erasure_syndrome(c, w, erasures, n, i as nat, m))
}

/// The sum over the first `m` erasures of their values times the `k`-th
/// quotient coefficient.
pub open spec fn evaluator_coef(
    c: Seq<u8>,
    w: Seq<u8>,
    erasures: Seq<usize>,
    n: int,
    k: int,
    m: int,
) -> u8
    decreases m,
{
    if m <= 0 {
        0u8
    } else {
        evaluator_coef(c, w, erasures, n, k, m - 1) ^ gf_mul_spec(
            quotient_coef(
                erasure_locator(erasures, n, erasures.len() as int),
                erasure_point(erasures, n, m - 1),
                k,
            ),
            erasure_value(c, w, erasures, m - 1),
        )
    }
}

/// The sum over the first `m` erasures of their values times their
/// quotient's value at `z`.
pub open spec fn evaluator_value(
    c: Seq<u8>,
    w: Seq<u8>,
    erasures: Seq<usize>,
    n: int,
    z: u8,
    m: int,
) -> u8
    decreases m,
{
    if m <= 0 {
        0u8
    } else {
        evaluator_value(c, w, erasures, n, z, m - 1) ^ gf_mul_spec(
            eval_all(erasure_quotient(erasures, n, m - 1), z),
            erasure_value(c, w, erasures, m - 1),
        )
    }
}

/// Each quotient times its factor is the full locator.
proof fn lemma_erasure_quotient(erasures: Seq<usize>, n: int, l: int)
    requires
        erasures_valid(erasures, n),
        0 <= l < erasures.len(),
    ensures
        poly_mul_spec(erasure_quotient(erasures, n, l), seq![1u8, erasure_point(erasures, n, l)])
            == erasure_locator(erasures, n, erasures.len() as int),
        forall|k: int|
            erasures.len() <= k ==> #[trigger] quotient_coef(
                erasure_locator(erasures, n, erasures.len() as int),
                erasure_point(erasures, n, l),
                k,
            ) == 0u8,
{
    let t = erasures.len() as int;
    let loc = erasure_locator(erasures, n, t);
    let q = erasures[l] as int;
    lemma_erasure_locator(erasures, n, t);
    assert(erased_before(erasures, t, q));
    lemma_chien_point_inverse(n, q, q);
    lemma_quotient_divides(loc, erasure_point(erasures, n, l), chien_point(n, q));
    assert(erasure_quotient(erasures, n, l) =~= Seq::new(
        (loc.len() - 1) as nat,
        |k: int| quotient_coef(loc, erasure_point(erasures, n, l), k),
    ));
}

/// The coefficients of syndromes times the locator, below `e`.
proof fn lemma_evaluator_coef(
    c: Seq<u8>,
    w: Seq<u8>,
    erasures: Seq<usize>,
    n: int,
    e: nat,
    k: int,
    m: int,
)
    requires
        erasures_valid(erasures, n),
        c.len() == n,
        w.len() == n,
        0 <= m <= erasures.len(),
        0 <= k < e,
    ensures
        poly_mul_coef(
            syndrome_prefix(c, w, erasures, n, e, m),
            erasure_locator(erasures, n, erasures.len() as int),
            k,
            e as int,
        ) == evaluator_coef(c, w, erasures, n, k, m),
    decreases m,
{
    let loc = erasure_locator(erasures, n, erasures.len() as int);
    let cur = syndrome_prefix(c, w, erasures, n, e, m);
    if m == 0 {
        lemma_mul_coef_zero(cur, loc, k, e as int);
    } else {
        lemma_evaluator_coef(c, w, erasures, n, e, k, m - 1);
        let prev = syndrome_prefix(c, w, erasures, n, e, m - 1);
        let x = erasure_point(erasures, n, m - 1);
        let y = erasure_value(c, w, erasures, m - 1);
        let g = geometric(x, e);
        assert forall|i: int| 0 <= i < e implies #[trigger] cur[i] == seq_xor(prev, seq_scale(g, y))[i] by {
            lemma_mul_commutative(y, gf_pow(x, i as nat));
        }
        assert(cur =~= seq_xor(prev, seq_scale(g, y)));
        lemma_mul_coef_xor(prev, seq_scale(g, y), loc, k, e as int);
        lemma_mul_coef_scale(g, y, loc, k, e as int);
        lemma_geometric_quotient(x, e, loc, k);
        lemma_erasure_quotient(erasures, n, m - 1);
    }
}

/// The value at `z` of the first `e` evaluator coefficients is the sum of
/// the values times the quotients' values.
proof fn lemma_evaluator_value(
    c: Seq<u8>,
    w: Seq<u8>,
    erasures: Seq<usize>,
    n: int,
    e: nat,
    z: u8,
    m: int,
)
    requires
        erasures_valid(erasures, n),
        erasures.len() <= e,
        0 <= m <= erasures.len(),
    ensures
        eval_asc(Seq::new(e, |k: int| evaluator_coef(c, w, erasures, n, k, m)), z, e as int)
            == evaluator_value(c, w, erasures, n, z, m),
    decreases m,
{
    let t = erasures.len() as int;
    let cur = Seq::new(e, |k: int| evaluator_coef(c, w, erasures, n, k, m));
    if m == 0 {
        assert forall|k: int| 0 <= k < e implies #[trigger] cur[k] == 0u8 by {}
        lemma_eval_asc_zero_tail(cur, z, 0, e as int);
    } else {
        lemma_evaluator_value(c, w, erasures, n, e, z, m - 1);
        let loc = erasure_locator(erasures, n, t);
        let x = erasure_point(erasures, n, m - 1);
        let prev = Seq::new(e, |k: int| evaluator_coef(c, w, erasures, n, k, m - 1));
        let qfull = Seq::new(e, |k: int| quotient_coef(loc, x, k));
        let q = erasure_quotient(erasures, n, m - 1);
        let y = erasure_value(c, w, erasures, m - 1);
        assert(cur =~= seq_xor(prev, seq_scale(qfull, y)));
        lemma_eval_asc_xor(prev, seq_scale(qfull, y), z, e as int);
        lemma_eval_asc_scale(qfull, y, z, e as int);
        lemma_erasure_quotient(erasures, n, m - 1);
        assert forall|k: int| t <= k < e implies #[trigger] qfull[k] == 0u8 by {}
        lemma_eval_asc_zero_tail(qfull, z, t, e as int);
        lemma_eval_asc_agree(qfull, q, z, t);
    }
}

/// At the Chien point of erasure `j`, the quotients of the other erasures
/// vanish, so only erasure `j`'s term remains.
proof fn lemma_evaluator_at_erasure(
    c: Seq<u8>,
    w: Seq<u8>,
    erasures: Seq<usize>,
    n: int,
    j: int,
    m: int,
)
    requires
        erasures_valid(erasures, n),
        0 <= j < erasures.len(),
        0 <= m <= erasures.len(),
    ensures
        evaluator_value(c, w, erasures, n, chien_point(n, erasures[j] as int), m) == (if j < m {
            gf_mul_spec(
                eval_all(erasure_quotient(erasures, n, j), chien_point(n, erasures[j] as int)),
                erasure_value(c, w, erasures, j),
            )
        } else {
            0u8
        }),
    decreases m,
{
    if m > 0 {
        lemma_evaluator_at_erasure(c, w, erasures, n, j, m - 1);
        let t = erasures.len() as int;
        let l = m - 1;
        let z = chien_point(n, erasures[j] as int);
        let ql = erasure_quotient(erasures, n, l);
        let xl = erasure_point(erasures, n, l);
        let y = erasure_value(c, w, erasures, l);
        if l != j {
            lemma_erasure_quotient(erasures, n, l);
            lemma_eval_mul_linear_asc(ql, xl, z);
            lemma_erasure_locator(erasures, n, t);
            assert(erased_before(erasures, t, erasures[j] as int));
            lemma_forney_x(n, erasures[l] as int);
            lemma_chien_point_inverse(n, erasures[l] as int, erasures[j] as int);
            assert(erasures[l] != erasures[j]);
            lemma_one_plus(gf_mul_spec(xl, z));
            if eval_all(ql, z) != 0u8 {
                lemma_mul_nonzero(eval_all(ql, z), 1u8 ^ gf_mul_spec(xl, z));
            }
            lemma_mul_zero_one(y);
            lemma_xor_facts(evaluator_value(c, w, erasures, n, z, l), 0u8, 0u8);
        } else {
            lemma_xor_facts(gf_mul_spec(eval_all(ql, z), y), 0u8, 0u8);
        }
    }
}

/// At the Chien point of erasure `j`, the locator's derivative is the
/// quotient's value times the erasure's point, and the quotient's value is
/// not zero.
proof fn lemma_derivative_at_erasure(erasures: Seq<usize>, n: int, j: int)
    requires
        erasures_valid(erasures, n),
        0 <= j < erasures.len(),
    ensures
        eval_all(
            formal_derivative(erasure_locator(erasures, n, erasures.len() as int)),
            chien_point(n, erasures[j] as int),
        ) == gf_mul_spec(
            eval_all(erasure_quotient(erasures, n, j), chien_point(n, erasures[j] as int)),
            erasure_point(erasures, n, j),
        ),
        eval_all(erasure_quotient(erasures, n, j), chien_point(n, erasures[j] as int)) != 0u8,
{
    let t = erasures.len() as int;
    let q = erasures[j] as int;
    let z = chien_point(n, q);
    let qj = erasure_quotient(erasures, n, j);
    let x = erasure_point(erasures, n, j);
    lemma_erasure_quotient(erasures, n, j);
    lemma_eval_derivative_mul_linear(qj, x, z);
    lemma_forney_x(n, q);
    lemma_chien_point_inverse(n, q, q);
    lemma_one_plus(gf_mul_spec(x, z));
    lemma_mul_zero_one(eval_all(formal_derivative(qj), z));
    lemma_xor_facts(gf_mul_spec(eval_all(qj, z), x), 0u8, 0u8);
    lemma_erasure_locator(erasures, n, t);
    lemma_mul_zero_one(x);
}

/// `x * ((q y) / (q x)) == y` for nonzero `q` and `x`.
proof fn lemma_forney_ratio(q: u8, x: u8, y: u8)
    requires
        q != 0,
        x != 0,
    ensures
        gf_mul_spec(x, gf_div_spec(gf_mul_spec(q, y), gf_mul_spec(q, x))) == y,
{
    let d = gf_mul_spec(q, x);
    lemma_mul_nonzero(q, x);
    lemma_inverse(d);
    let i = gf_inv_spec(d);
    let a = gf_mul_spec(q, y);
    // x * (a * i) == (x * a) * i
    lemma_mul_associative(x, a, i);
    // x * (q * y) == (x * q) * y == d * y
    lemma_mul_associative(x, q, y);
    lemma_mul_commutative(x, q);
    lemma_mul_commutative(d, y);
    // (y * d) * i == y * (d * i) == y
    lemma_mul_associative(y, d, i);
    lemma_mul_zero_one(y);
}

/// Errors confined to a list of distinct positions, no longer than the
/// parity: `c` and the codeword `w` differ only at listed positions.
pub open spec fn errors_at(c: Seq<u8>, w: Seq<u8>, e: nat, positions: Seq<usize>) -> bool {
    &&& erasures_valid(positions, c.len() as int)
    &&& w.len() == c.len()
    &&& positions.len() <= e
    &&& is_rs_codeword(w, e)
    &&& forall|j: int|
        0 <= j < c.len() && c[j] != w[j] ==> erased_before(positions, positions.len() as int, j)
}

/// Errors confined to the erasures of a full erasure list: `c` and the
/// codeword `w` differ only at erased positions, and there are as many
/// erasures as parity symbols.
pub open spec fn errors_at_erasures(c: Seq<u8>, w: Seq<u8>, e: nat, erasures: Seq<usize>) -> bool {
    &&& errors_at(c, w, e, erasures)
    &&& erasures.len() == e
}

/// Forney's formula at an erased position gives the difference between the
/// received symbol and the codeword's.
pub(crate) proof fn lemma_forney_value(c: Seq<u8>, w: Seq<u8>, e: nat, erasures: Seq<usize>, p: int)
    requires
        errors_at(c, w, e, erasures),
        erasures.len() >= 1,
        erased_before(erasures, erasures.len() as int, p),
    ensures
        eval_asc(
            formal_derivative(erasure_locator(erasures, c.len() as int, erasures.len() as int)),
            chien_point(c.len() as int, p),
            formal_derivative(erasure_locator(erasures, c.len() as int, erasures.len() as int)).len() as int,
        ) != 0u8,
        gf_mul_spec(
            forney_x(c.len() as int, p),
            gf_div_spec(
                eval_asc(
                    forney_omega(
                        syndromes_spec(c, e),
                        erasure_locator(erasures, c.len() as int, erasures.len() as int),
                    ),
                    chien_point(c.len() as int, p),
                    forney_omega(
                        syndromes_spec(c, e),
                        erasure_locator(erasures, c.len() as int, erasures.len() as int),
                    ).len() as int,
                ),
                eval_asc(
                    formal_derivative(erasure_locator(erasures, c.len() as int, erasures.len() as int)),
                    chien_point(c.len() as int, p),
                    formal_derivative(erasure_locator(erasures, c.len() as int, erasures.len() as int)).len() as int,
                ),
            ),
        ) == c[p] ^ w[p],
        all_zero(syndromes_spec(c, e)) ==> c[p] == w[p],
{
    let n = c.len() as int;
    let t = erasures.len() as int;
    let loc = erasure_locator(erasures, n, t);
    let syn = syndromes_spec(c, e);
    let l = choose|l: int| 0 <= l < t && erasures[l] as int == p;
    let z = chien_point(n, p);
    lemma_erasure_locator(erasures, n, t);
    // the evaluator is the sum of the values times the quotients
    lemma_erasure_syndromes(c, w, erasures, e);
    assert(syn =~= syndrome_prefix(c, w, erasures, n, e, t));
    let omega = forney_omega(syn, loc);
    assert(poly_mul_spec(syn, loc).len() == e + t);
    assert(omega =~= Seq::new(e, |k: int| evaluator_coef(c, w, erasures, n, k, t))) by {
        assert forall|k: int| 0 <= k < e implies #[trigger] omega[k] == evaluator_coef(
            c,
            w,
            erasures,
            n,
            k,
            t,
        ) by {
            lemma_evaluator_coef(c, w, erasures, n, e, k, t);
        }
    }
    lemma_evaluator_value(c, w, erasures, n, e, z, t);
    lemma_evaluator_at_erasure(c, w, erasures, n, l, t);
    lemma_derivative_at_erasure(erasures, n, l);
    lemma_forney_x(n, p);
    let qz = eval_all(erasure_quotient(erasures, n, l), z);
    lemma_mul_nonzero(qz, erasure_point(erasures, n, l));
    lemma_forney_ratio(qz, erasure_point(erasures, n, l), erasure_value(c, w, erasures, l));
    if all_zero(syn) {
        // a zero evaluator forces a zero difference
        assert forall|k: int| 0 <= k < e implies #[trigger] omega[k] == 0u8 by {
            lemma_mul_coef_zero(syn, loc, k, e as int);
        }
        lemma_eval_asc_zero_tail(omega, z, 0, e as int);
        let y = erasure_value(c, w, erasures, l);
        if y != 0u8 {
            lemma_mul_nonzero(qz, y);
        }
        if c[p] != w[p] {
            lemma_xor_distinct(c[p], w[p]);
        }
    }
}

/// Whether one of the corrections is at position `j`.
pub open spec fn corrected_at(corr: Seq<(usize, u8)>, j: int) -> bool {
    exists|k: int| 0 <= k < corr.len() && corr[k].0 as int == j
}

/// Corrections at distinct positions, each adding the difference between
/// `c` and `w`, turn `c` into `w` at those positions and leave the rest.
pub(crate) proof fn lemma_apply_differences(c: Seq<u8>, w: Seq<u8>, corr: Seq<(usize, u8)>)
    requires
        c.len() == w.len(),
        forall|k: int|
            0 <= k < corr.len() ==> (#[trigger] corr[k]).0 < c.len() && corr[k].1 == c[corr[k].0 as int]
                ^ w[corr[k].0 as int],
        forall|a: int, b: int| 0 <= a < b < corr.len() ==> #[trigger] corr[a].0 != #[trigger] corr[b].0,
    ensures
        apply_corrections(c, corr).len() == c.len(),
        forall|j: int|
            0 <= j < c.len() ==> #[trigger] apply_corrections(c, corr)[j] == (if corrected_at(corr, j) {
                w[j]
            } else {
                c[j]
            }),
    decreases corr.len(),
{
    if corr.len() > 0 {
        let rest = corr.drop_last();
        assert forall|k: int| 0 <= k < rest.len() implies (#[trigger] rest[k]).0 < c.len() && rest[k].1
            == c[rest[k].0 as int] ^ w[rest[k].0 as int] by {
            assert(rest[k] == corr[k]);
        }
        assert forall|a: int, b: int| 0 <= a < b < rest.len() implies #[trigger] rest[a].0
            != #[trigger] rest[b].0 by {
            assert(rest[a] == corr[a] && rest[b] == corr[b]);
        }
        lemma_apply_differences(c, w, rest);
        let prev = apply_corrections(c, rest);
        let last = corr[corr.len() - 1];
        assert(corr.last() == last);
        let p = last.0 as int;
        assert(!corrected_at(rest, p)) by {
            if corrected_at(rest, p) {
                let k = choose|k: int| 0 <= k < rest.len() && rest[k].0 as int == p;
                assert(rest[k] == corr[k]);
            }
        }
        let cp = c[p];
        let wp = w[p];
        assert(cp ^ (cp ^ wp) == wp) by (bit_vector);
        assert forall|j: int| 0 <= j < c.len() implies #[trigger] apply_corrections(c, corr)[j] == (if corrected_at(
            corr,
            j,
        ) {
            w[j]
        } else {
            c[j]
        }) by {
            if j == p {
                assert(corrected_at(corr, j));
            } else {
                if corrected_at(corr, j) {
                    let k = choose|k: int| 0 <= k < corr.len() && corr[k].0 as int == j;
                    assert(k < rest.len());
                    assert(rest[k] == corr[k]);
                    assert(corrected_at(rest, j));
                }
                if corrected_at(rest, j) {
                    let k = choose|k: int| 0 <= k < rest.len() && rest[k].0 as int == j;
                    assert(rest[k] == corr[k]);
                    assert(corrected_at(corr, j));
                }
            }
        }
    }
}

/// Forney's formula over the roots of the full erasure locator yields, in
/// order, each root with the difference between `c` and `w` there.
pub(crate) proof fn lemma_forney_list_erasures(c: Seq<u8>, w: Seq<u8>, e: nat, erasures: Seq<usize>, m: int)
    requires
        errors_at(c, w, e, erasures),
        erasures.len() >= 1,
        0 <= m <= chien_roots(erasure_locator(erasures, c.len() as int, erasures.len() as int), c.len() as int, c.len() as int).len(),
    ensures
        forney_list(
            syndromes_spec(c, e),
            erasure_locator(erasures, c.len() as int, erasures.len() as int),
            chien_roots(erasure_locator(erasures, c.len() as int, erasures.len() as int), c.len() as int, c.len() as int),
            c.len() as int,
            m,
        ).len() == m,
        forall|k: int|
            0 <= k < m ==> #[trigger] forney_list(
                syndromes_spec(c, e),
                erasure_locator(erasures, c.len() as int, erasures.len() as int),
                chien_roots(erasure_locator(erasures, c.len() as int, erasures.len() as int), c.len() as int, c.len() as int),
                c.len() as int,
                m,
            )[k] == (
                chien_roots(erasure_locator(erasures, c.len() as int, erasures.len() as int), c.len() as int, c.len() as int)[k],
                c[chien_roots(erasure_locator(erasures, c.len() as int, erasures.len() as int), c.len() as int, c.len() as int)[k] as int]
                    ^ w[chien_roots(erasure_locator(erasures, c.len() as int, erasures.len() as int), c.len() as int, c.len() as int)[k] as int],
            ),
    decreases m,
{
    if m > 0 {
        let n = c.len() as int;
        let loc = erasure_locator(erasures, n, erasures.len() as int);
        let roots = chien_roots(loc, n, n);
        let syn = syndromes_spec(c, e);
        lemma_forney_list_erasures(c, w, e, erasures, m - 1);
        lemma_chien_roots_erasures(erasures, n, n);
        let p = roots[m - 1] as int;
        assert(erased_before(erasures, erasures.len() as int, p));
        lemma_forney_value(c, w, e, erasures, p);
        let prev = forney_list(syn, loc, roots, n, m - 1);
        let cur = forney_list(syn, loc, roots, n, m);
        assert forall|k: int| 0 <= k < m implies #[trigger] cur[k] == (roots[k], c[roots[k] as int] ^ w[roots[k] as int]) by {
            if k < m - 1 {
                assert(cur[k] == prev[k]);
            }
        }
    }
}

/// Decoding with every parity symbol spent on erasures: when the erasure
/// list names `e` distinct positions of a block of at most 255 symbols and
/// the block differs from a codeword `w` only at erased positions, the
/// decoder returns the data of `w`.
pub proof fn lemma_rs_corrects_full_erasures(c: Seq<u8>, w: Seq<u8>, e: nat, erasures: Seq<usize>)
    requires
        errors_at_erasures(c, w, e, erasures),
        e <= c.len(),
    ensures
        rs_decode_block_erasures_spec(c, e, erasures) == Ok::<Seq<u8>, RrcError>(
            w.take(c.len() - e),
        ),
{
    let n = c.len() as int;
    let t = e as int;
    let syn = syndromes_spec(c, e);
    if e == 0 {
        assert(c =~= w);
    } else if all_zero(syn) {
        assert forall|j: int| 0 <= j < n implies c[j] == w[j] by {
            if c[j] != w[j] {
                lemma_forney_value(c, w, e, erasures, j);
            }
        }
        assert(c =~= w);
    } else {
        let loc = erasure_locator(erasures, n, t);
        lemma_erasure_locator(erasures, n, t);
        assert(errata_locator(syn, erasures, n, e) == loc);
        lemma_chien_roots_erasures_count(erasures, n);
        lemma_chien_roots_erasures(erasures, n, n);
        let roots = chien_roots(loc, n, n);
        assert(last_nonzero_index(loc, loc.len() as int) == t);
        lemma_forney_list_erasures(c, w, e, erasures, t);
        let corr = forney_list(syn, loc, roots, n, t);
        assert forall|a: int, b: int| 0 <= a < b < corr.len() implies #[trigger] corr[a].0
            != #[trigger] corr[b].0 by {
            assert(roots[a] != roots[b]);
        }
        lemma_apply_differences(c, w, corr);
        let fixed = apply_corrections(c, corr);
        assert forall|j: int| 0 <= j < n implies fixed[j] == w[j] by {
            if c[j] != w[j] {
                assert(roots.contains(j as usize));
                let k = choose|k: int| 0 <= k < roots.len() && roots[k] == j as usize;
                assert(corr[k].0 == roots[k]);
                assert(corrected_at(corr, j));
            }
        }
        assert(fixed =~= w);
    }
}

} // verus!
