//! Errors-only decoding: on the syndromes of at most `e / 2` symbol errors,
//! Berlekamp-Massey ends with the locator of exactly those errors, so the
//! block decoder corrects them. With `v` known erasures, the syndromes past
//! the erasure locator's reach are those of a word in error only outside the
//! erasures, so `t` further errors with `2 t + v <= e` are corrected too.

use crate::berlekamp::{
    conn_sum, generates, lemma_bm_invariant, lemma_bm_length_bound, monic_degree_at_most,
};
use crate::distance::lemma_xor_swap;
use crate::ecc::{
    all_zero, apply_corrections, bm_locator, bm_state, chien_point, chien_roots, differ_count,
    erasure_locator, eval_asc, formal_derivative, forney_list, forney_omega, forney_x,
    hamming_distance, is_rs_codeword, last_nonzero_index, lemma_syndrome_is_eval,
    rs_decode_block_erasures_spec, rs_decode_block_spec, syndromes_spec, errata_locator,
    forney_syndromes,
};
use crate::error::RrcError;
use crate::distance::lemma_rs_min_distance;
use crate::errata::{
    erasure_error, erasure_syndrome, erasure_value, erased_before, erasures_valid, errors_at,
    eval_all, geometric, syndrome_prefix, lemma_erasure_error_syndrome, lemma_erasure_locator,
    lemma_erasure_syndromes, lemma_eval_asc_agree, lemma_eval_asc_shift, lemma_eval_asc_zero_tail,
    lemma_eval_mul_linear_asc, lemma_forney_x, lemma_one_plus, lemma_pow_nonzero,
    lemma_quotient_divides, quotient_coef, corrected_at, lemma_apply_differences,
    lemma_chien_roots_erasures, lemma_chien_roots_erasures_count, lemma_forney_list_erasures,
    lemma_forney_value, lemma_chien_point_inverse, lemma_eval_mul, lemma_mul_coef_xor,
    lemma_mul_coef_scale, lemma_mul_coef_zero, lemma_mul_coef_beyond, lemma_geometric_quotient,
    lemma_rs_corrects_full_erasures, errors_at_erasures,
};

use crate::gf::{
    alpha_pow, gf_mul_spec, gf_pow, lemma_mul_associative, lemma_mul_nonzero, lemma_mul_commutative, lemma_mul_distributive,
    lemma_mul_zero_one, lemma_xor_facts,
};
use crate::poly::{
    lemma_eval_zeros, lemma_poly_mul_linear_split, poly_mul_coef, poly_mul_spec, seq_scale, seq_xor,
};
use vstd::prelude::*;

verus! {

/// Coefficient `j` of `q`, zero past its end.
pub open spec fn coef(q: Seq<u8>, j: int) -> u8 {
    if 0 <= j < q.len() {
        q[j]
    } else {
        0u8
    }
}

/// `sum_{j < m} coef(q, j) z^j`.
pub open spec fn peval(q: Seq<u8>, z: u8, m: int) -> u8
    decreases m,
{
    if m <= 0 {
        0u8
    } else {
        peval(q, z, m - 1) ^ gf_mul_spec(coef(q, m - 1), gf_pow(z, (m - 1) as nat))
    }
}

/// Within the coefficients, the padded evaluation is the ordinary one; past
/// them it adds nothing.
proof fn lemma_peval_eval(q: Seq<u8>, z: u8, m: int)
    requires
        0 <= m,
    ensures
        m <= q.len() ==> peval(q, z, m) == eval_asc(q, z, m),
        m >= q.len() ==> peval(q, z, m) == eval_all(q, z),
    decreases m,
{
    if m > 0 {
        lemma_peval_eval(q, z, m - 1);
        if m > q.len() {
            lemma_mul_zero_one(gf_pow(z, (m - 1) as nat));
            lemma_xor_facts(peval(q, z, m - 1), 0u8, 0u8);
        }
    }
}

/// `x^(i - u) == x^i z^u` when `x z == 1`.
proof fn lemma_pow_shift(x: u8, z: u8, i: nat, u: nat)
    requires
        gf_mul_spec(x, z) == 1u8,
        u <= i,
    ensures
        gf_pow(x, (i - u) as nat) == gf_mul_spec(gf_pow(x, i), gf_pow(z, u)),
    decreases u,
{
    if u == 0 {
        lemma_mul_zero_one(gf_pow(x, i));
    } else {
        lemma_pow_shift(x, z, i, (u - 1) as nat);
        let a = gf_pow(x, (i - u) as nat);
        // x^(i - u + 1) == x^(i - u) x, so x^(i - u) == x^(i - u + 1) z
        assert(gf_pow(x, (i - (u - 1)) as nat) == gf_mul_spec(a, x));
        lemma_mul_associative(a, x, z);
        lemma_mul_zero_one(a);
        lemma_mul_associative(gf_pow(x, i), gf_pow(z, (u - 1) as nat), z);
    }
}

/// The connection sum over the powers of `x` is `x^i` times the padded
/// value of `q` at `z = 1 / x`.
proof fn lemma_conn_sum_geometric(q: Seq<u8>, x: u8, z: u8, len: nat, i: int, u: int)
    requires
        gf_mul_spec(x, z) == 1u8,
        0 <= u <= i < len,
    ensures
        conn_sum(q, geometric(x, len), i, u) == gf_mul_spec(gf_pow(x, i as nat), peval(q, z, u + 1)),
    decreases u,
{
    let g = geometric(x, len);
    let xi = gf_pow(x, i as nat);
    lemma_pow_shift(x, z, i as nat, u as nat);
    let zu = gf_pow(z, u as nat);
    let cu = coef(q, u);
    // the new term c_u x^(i - u) == x^i (c_u z^u)
    lemma_mul_associative(xi, zu, cu);
    lemma_mul_commutative(zu, cu);
    lemma_mul_commutative(cu, gf_mul_spec(xi, zu));
    lemma_mul_zero_one(gf_mul_spec(xi, zu));
    lemma_mul_zero_one(xi);
    lemma_mul_zero_one(g[i - u]);
    let t = if u < q.len() {
        gf_mul_spec(q[u], g[i - u])
    } else {
        0u8
    };
    assert(t == gf_mul_spec(xi, gf_mul_spec(cu, zu)));
    if u == 0 {
        reveal_with_fuel(conn_sum, 2);
        reveal_with_fuel(peval, 2);
        lemma_xor_facts(t, 0u8, 0u8);
        lemma_xor_facts(gf_mul_spec(cu, zu), 0u8, 0u8);
    } else {
        lemma_conn_sum_geometric(q, x, z, len, i, u - 1);
        lemma_mul_distributive(xi, peval(q, z, u), gf_mul_spec(cu, zu));
    }
}

/// The connection sum is additive in the sequence.
proof fn lemma_conn_sum_xor(q: Seq<u8>, a: Seq<u8>, b: Seq<u8>, i: int, u: int)
    requires
        a.len() == b.len(),
        u <= i < a.len(),
    ensures
        conn_sum(q, seq_xor(a, b), i, u) == conn_sum(q, a, i, u) ^ conn_sum(q, b, i, u),
    decreases u + 1,
{
    if u < 0 {
        lemma_xor_facts(0u8, 0u8, 0u8);
    } else {
        lemma_conn_sum_xor(q, a, b, i, u - 1);
        if u < q.len() {
            lemma_mul_distributive(q[u], a[i - u], b[i - u]);
            lemma_xor_swap(
                conn_sum(q, a, i, u - 1),
                conn_sum(q, b, i, u - 1),
                gf_mul_spec(q[u], a[i - u]),
                gf_mul_spec(q[u], b[i - u]),
            );
        } else {
            lemma_xor_facts(conn_sum(q, a, i, u - 1) ^ conn_sum(q, b, i, u - 1), 0u8, 0u8);
            lemma_xor_facts(conn_sum(q, a, i, u - 1), 0u8, 0u8);
            lemma_xor_facts(conn_sum(q, b, i, u - 1), 0u8, 0u8);
        }
    }
}

/// The connection sum commutes with scaling the sequence.
proof fn lemma_conn_sum_scale(q: Seq<u8>, a: Seq<u8>, y: u8, i: int, u: int)
    requires
        u <= i < a.len(),
    ensures
        conn_sum(q, seq_scale(a, y), i, u) == gf_mul_spec(conn_sum(q, a, i, u), y),
    decreases u + 1,
{
    if u < 0 {
        lemma_mul_zero_one(y);
    } else {
        lemma_conn_sum_scale(q, a, y, i, u - 1);
        let p = conn_sum(q, a, i, u - 1);
        if u < q.len() {
            lemma_mul_associative(q[u], a[i - u], y);
            lemma_mul_commutative(p ^ gf_mul_spec(q[u], a[i - u]), y);
            lemma_mul_distributive(y, p, gf_mul_spec(q[u], a[i - u]));
            lemma_mul_commutative(y, p);
            lemma_mul_commutative(y, gf_mul_spec(q[u], a[i - u]));
        } else {
            lemma_xor_facts(gf_mul_spec(p, y), 0u8, 0u8);
            lemma_xor_facts(p, 0u8, 0u8);
        }
    }
}

/// The sum over the first `m` listed errors of their values times `x^i`
/// times the padded value of `q` at their Chien points.
pub open spec fn error_sum(
    c: Seq<u8>,
    w: Seq<u8>,
    positions: Seq<usize>,
    n: int,
    q: Seq<u8>,
    i: int,
    u: int,
    m: int,
) -> u8
    decreases m,
{
    if m <= 0 {
        0u8
    } else {
        error_sum(c, w, positions, n, q, i, u, m - 1) ^ gf_mul_spec(
            gf_mul_spec(
                gf_pow(forney_x(n, positions[m - 1] as int), i as nat),
                peval(q, chien_point(n, positions[m - 1] as int), u + 1),
            ),
            erasure_value(c, w, positions, m - 1),
        )
    }
}

/// The connection sum of `q` over the partial syndrome sums is the error sum.
proof fn lemma_conn_sum_errors(
    c: Seq<u8>,
    w: Seq<u8>,
    positions: Seq<usize>,
    n: int,
    e: nat,
    q: Seq<u8>,
    i: int,
    u: int,
    m: int,
)
    requires
        erasures_valid(positions, n),
        c.len() == n,
        w.len() == n,
        0 <= u <= i < e,
        0 <= m <= positions.len(),
    ensures
        conn_sum(q, syndrome_prefix(c, w, positions, n, e, m), i, u) == error_sum(
            c,
            w,
            positions,
            n,
            q,
            i,
            u,
            m,
        ),
    decreases m,
{
    let cur = syndrome_prefix(c, w, positions, n, e, m);
    if m == 0 {
        let zeros = Seq::new(e, |k: int| 0u8);
        assert(cur =~= seq_scale(zeros, 0u8)) by {
            lemma_mul_zero_one(0u8);
        }
        lemma_conn_sum_scale(q, zeros, 0u8, i, u);
        lemma_mul_zero_one(conn_sum(q, zeros, i, u));
    } else {
        lemma_conn_sum_errors(c, w, positions, n, e, q, i, u, m - 1);
        let prev = syndrome_prefix(c, w, positions, n, e, m - 1);
        let p = positions[m - 1] as int;
        let x = forney_x(n, p);
        let z = chien_point(n, p);
        let y = erasure_value(c, w, positions, m - 1);
        let g = geometric(x, e);
        assert forall|k: int| 0 <= k < e implies #[trigger] cur[k] == seq_xor(prev, seq_scale(g, y))[k] by {
            lemma_mul_commutative(y, gf_pow(x, k as nat));
        }
        assert(cur =~= seq_xor(prev, seq_scale(g, y)));
        lemma_conn_sum_xor(q, prev, seq_scale(g, y), i, u);
        lemma_conn_sum_scale(q, g, y, i, u);
        lemma_forney_x(n, p);
        lemma_chien_point_inverse(n, p, p);
        lemma_conn_sum_geometric(q, x, z, e, i, u);
    }
}

// ---------------------------------------------------------------------------
// Counting differing positions
// ---------------------------------------------------------------------------

/// The positions below `m` at which `a` and `b` differ, in increasing order.
pub open spec fn diff_positions(a: Seq<u8>, b: Seq<u8>, m: int) -> Seq<usize>
    decreases m,
{
    if m <= 0 {
        Seq::empty()
    } else {
        diff_positions(a, b, m - 1) + (if a[m - 1] != b[m - 1] {
            seq![(m - 1) as usize]
        } else {
            Seq::empty()
        })
    }
}

/// The differing positions are as many as the Hamming distance counts,
/// distinct, and exactly the positions where the words differ.
pub(crate) proof fn lemma_diff_positions(a: Seq<u8>, b: Seq<u8>, m: int)
    requires
        a.len() == b.len(),
        a.len() <= 255,
        0 <= m <= a.len(),
    ensures
        diff_positions(a, b, m).len() == differ_count(a, b, m),
        diff_positions(a, b, m).no_duplicates(),
        forall|k: int|
            0 <= k < diff_positions(a, b, m).len() ==> (#[trigger] diff_positions(a, b, m)[k]) < m
                && a[diff_positions(a, b, m)[k] as int] != b[diff_positions(a, b, m)[k] as int],
        forall|j: int| 0 <= j < m && a[j] != b[j] ==> #[trigger] diff_positions(a, b, m).contains(j as usize),
    decreases m,
{
    if m > 0 {
        lemma_diff_positions(a, b, m - 1);
        let prev = diff_positions(a, b, m - 1);
        let cur = diff_positions(a, b, m);
        if a[m - 1] != b[m - 1] {
            assert(cur == prev + seq![(m - 1) as usize]);
            assert forall|x: int, y: int| 0 <= x < y < cur.len() implies cur[x] != cur[y] by {
                if y == cur.len() - 1 {
                    assert(cur[x] == prev[x]);
                }
            }
            assert forall|j: int| 0 <= j < m && a[j] != b[j] implies #[trigger] cur.contains(j as usize) by {
                if j < m - 1 {
                    assert(prev.contains(j as usize));
                    let k = choose|k: int| 0 <= k < prev.len() && prev[k] == j as usize;
                    assert(cur[k] == prev[k]);
                } else {
                    assert(cur[cur.len() - 1] == (m - 1) as usize);
                }
            }
        } else {
            assert(cur =~= prev);
        }
    }
}

/// Words that differ only at listed distinct positions are at most as far
/// apart as the list is long.
pub(crate) proof fn lemma_distance_at_most_listed(a: Seq<u8>, b: Seq<u8>, positions: Seq<usize>)
    requires
        a.len() == b.len(),
        a.len() <= 255,
        positions.no_duplicates(),
        forall|j: int| 0 <= j < a.len() && a[j] != b[j] ==> positions.contains(j as usize),
    ensures
        hamming_distance(a, b) <= positions.len(),
{
    let n = a.len() as int;
    let d = diff_positions(a, b, n);
    lemma_diff_positions(a, b, n);
    assert(d.to_set().subset_of(positions.to_set())) by {
        assert forall|x: usize| d.to_set().contains(x) implies positions.to_set().contains(x) by {
            let k = choose|k: int| 0 <= k < d.len() && d[k] == x;
            assert(a[x as int] != b[x as int]);
        }
    }
    vstd::seq_lib::seq_to_set_is_finite(positions);
    vstd::set_lib::lemma_len_subset(d.to_set(), positions.to_set());
    d.unique_seq_to_set();
    positions.unique_seq_to_set();
}

// ---------------------------------------------------------------------------
// The locator of the errors generates their syndromes
// ---------------------------------------------------------------------------

/// An error sum whose padded values all vanish is zero.
proof fn lemma_error_sum_zero(
    c: Seq<u8>,
    w: Seq<u8>,
    positions: Seq<usize>,
    n: int,
    q: Seq<u8>,
    i: int,
    u: int,
    m: int,
)
    requires
        forall|l: int|
            0 <= l < m ==> #[trigger] peval(q, chien_point(n, positions[l] as int), u + 1) == 0u8,
    ensures
        error_sum(c, w, positions, n, q, i, u, m) == 0u8,
    decreases m,
{
    if m > 0 {
        lemma_error_sum_zero(c, w, positions, n, q, i, u, m - 1);
        let p = positions[m - 1] as int;
        lemma_mul_zero_one(gf_pow(forney_x(n, p), i as nat));
        lemma_mul_zero_one(erasure_value(c, w, positions, m - 1));
        lemma_xor_facts(0u8, 0u8, 0u8);
    }
}

/// The locator of the listed errors generates their syndromes from index
/// `t` on, with register length `t`.
pub(crate) proof fn lemma_locator_generates(c: Seq<u8>, w: Seq<u8>, e: nat, positions: Seq<usize>)
    requires
        errors_at(c, w, e, positions),
    ensures
        monic_degree_at_most(
            erasure_locator(positions, c.len() as int, positions.len() as int),
            positions.len() as int,
        ),
        generates(
            erasure_locator(positions, c.len() as int, positions.len() as int),
            syndromes_spec(c, e),
            positions.len() as int,
            e as int,
        ),
{
    let n = c.len() as int;
    let t = positions.len() as int;
    let loc = erasure_locator(positions, n, t);
    let syn = syndromes_spec(c, e);
    lemma_erasure_locator(positions, n, t);
    lemma_erasure_syndromes(c, w, positions, e);
    assert(syn =~= syndrome_prefix(c, w, positions, n, e, t));
    assert forall|l: int| 0 <= l < t implies #[trigger] peval(
        loc,
        chien_point(n, positions[l] as int),
        t + 1,
    ) == 0u8 by {
        let z = chien_point(n, positions[l] as int);
        lemma_peval_eval(loc, z, t + 1);
        assert(erased_before(positions, t, positions[l] as int));
    }
    assert forall|i: int| t <= i < e implies #[trigger] conn_sum(loc, syn, i, t) == 0u8 by {
        lemma_conn_sum_errors(c, w, positions, n, e, loc, i, t, t);
        lemma_error_sum_zero(c, w, positions, n, loc, i, t, t);
    }
}

// ---------------------------------------------------------------------------
// Berlekamp-Massey's locator vanishes at every error
// ---------------------------------------------------------------------------

/// The value that the probe word holds at the position of listed error `l`:
/// `X^u * q(z) * y` at the error's point `X`, Chien point `z` and value `y`.
pub open spec fn probe_value(
    c: Seq<u8>,
    w: Seq<u8>,
    positions: Seq<usize>,
    n: int,
    q: Seq<u8>,
    u: int,
    l: int,
) -> u8 {
    gf_mul_spec(
        gf_mul_spec(
            gf_pow(forney_x(n, positions[l] as int), u as nat),
            peval(q, chien_point(n, positions[l] as int), u + 1),
        ),
        erasure_value(c, w, positions, l),
    )
}

/// The word holding the probe values at the listed positions and zero
/// elsewhere.
pub open spec fn probe_word(
    c: Seq<u8>,
    w: Seq<u8>,
    positions: Seq<usize>,
    n: int,
    q: Seq<u8>,
    u: int,
) -> Seq<u8> {
    Seq::new(
        n as nat,
        |j: int|
            if erased_before(positions, positions.len() as int, j) {
                probe_value(
                    c,
                    w,
                    positions,
                    n,
                    q,
                    u,
                    choose|l: int| 0 <= l < positions.len() && positions[l] as int == j,
                )
            } else {
                0u8
            },
    )
}

/// The probe word at a listed position holds that error's probe value.
proof fn lemma_probe_at(c: Seq<u8>, w: Seq<u8>, positions: Seq<usize>, n: int, q: Seq<u8>, u: int, l: int)
    requires
        erasures_valid(positions, n),
        0 <= l < positions.len(),
    ensures
        probe_word(c, w, positions, n, q, u)[positions[l] as int] == probe_value(c, w, positions, n, q, u, l),
{
    let t = positions.len() as int;
    let p = positions[l] as int;
    assert(erased_before(positions, t, p));
    let k = choose|k: int| 0 <= k < t && positions[k] as int == p;
    assert(positions[k] == positions[l]);
}

/// The syndromes of the probe word are the error sums shifted by `u`.
proof fn lemma_probe_syndrome(
    c: Seq<u8>,
    w: Seq<u8>,
    positions: Seq<usize>,
    n: int,
    q: Seq<u8>,
    u: int,
    i: nat,
    m: int,
)
    requires
        erasures_valid(positions, n),
        0 <= u,
        0 <= m <= positions.len(),
    ensures
        erasure_syndrome(probe_word(c, w, positions, n, q, u), Seq::new(n as nat, |j: int| 0u8), positions, n, i, m)
            == error_sum(c, w, positions, n, q, u + i, u, m),
    decreases m,
{
    if m > 0 {
        let probe = probe_word(c, w, positions, n, q, u);
        let zeros = Seq::new(n as nat, |j: int| 0u8);
        lemma_probe_syndrome(c, w, positions, n, q, u, i, m - 1);
        let l = m - 1;
        let p = positions[l] as int;
        lemma_probe_at(c, w, positions, n, q, u, l);
        let x = forney_x(n, p);
        let pz = peval(q, chien_point(n, p), u + 1);
        let y = erasure_value(c, w, positions, l);
        let xu = gf_pow(x, u as nat);
        let xi = gf_pow(x, i);
        let v = probe_value(c, w, positions, n, q, u, l);
        lemma_xor_facts(v, 0u8, 0u8);
        assert(erasure_value(probe, zeros, positions, l) == v);
        // ((xu pz) y) xi == (x^(u+i) pz) y
        crate::gf::lemma_pow_add(x, u as nat, i);
        assert((u + i) as nat == u as nat + i);
        lemma_mul_associative(gf_mul_spec(xu, pz), y, xi);
        lemma_mul_commutative(y, xi);
        lemma_mul_associative(gf_mul_spec(xu, pz), xi, y);
        lemma_mul_associative(xu, pz, xi);
        lemma_mul_commutative(pz, xi);
        lemma_mul_associative(xu, xi, pz);
    }
}

/// On the syndromes of at most `e / 2` listed errors, Berlekamp-Massey ends
/// with a register length of at most their number and a locator that
/// vanishes at every error's Chien point.
pub(crate) proof fn lemma_bm_vanishes_at_errors(c: Seq<u8>, w: Seq<u8>, e: nat, positions: Seq<usize>)
    requires
        errors_at(c, w, e, positions),
        2 * positions.len() <= e,
        forall|l: int| 0 <= l < positions.len() ==> #[trigger] c[positions[l] as int] != w[positions[l] as int],
    ensures
        bm_state(syndromes_spec(c, e), e).2 <= positions.len(),
        monic_degree_at_most(bm_state(syndromes_spec(c, e), e).0, bm_state(syndromes_spec(c, e), e).2 as int),
        forall|l: int|
            0 <= l < positions.len() ==> eval_all(
                bm_state(syndromes_spec(c, e), e).0,
                #[trigger] chien_point(c.len() as int, positions[l] as int),
            ) == 0u8,
{
    let n = c.len() as int;
    let t = positions.len() as int;
    let syn = syndromes_spec(c, e);
    let loc = erasure_locator(positions, n, t);
    lemma_locator_generates(c, w, e, positions);
    lemma_bm_length_bound(syn, loc, t, e as int);
    lemma_bm_invariant(syn, e as int);
    let st = bm_state(syn, e);
    let cc = st.0;
    let l = st.2 as int;
    lemma_erasure_syndromes(c, w, positions, e);
    assert(syn =~= syndrome_prefix(c, w, positions, n, e, t));
    let probe = probe_word(c, w, positions, n, cc, l);
    let zeros = Seq::new(n as nat, |j: int| 0u8);
    // the probe word's first t syndromes vanish
    assert(erasure_error(probe, zeros, positions, n, t) =~= probe) by {
        assert forall|j: int| 0 <= j < n implies #[trigger] erasure_error(probe, zeros, positions, n, t)[j]
            == probe[j] by {
            lemma_xor_facts(probe[j], 0u8, 0u8);
        }
    }
    assert forall|i: int| 0 <= i < t implies #[trigger] syndromes_spec(probe, t as nat)[i] == 0u8 by {
        lemma_syndrome_is_eval(probe, i);
        lemma_erasure_error_syndrome(probe, zeros, positions, n, i as nat, t);
        lemma_probe_syndrome(c, w, positions, n, cc, l, i as nat, t);
        lemma_conn_sum_errors(c, w, positions, n, e, cc, l + i, l, t);
        assert(conn_sum(cc, syn, l + i, l) == 0u8);
    }
    assert forall|i: int| 0 <= i < t implies #[trigger] syndromes_spec(zeros, t as nat)[i] == 0u8 by {
        lemma_syndrome_is_eval(zeros, i);
        lemma_eval_zeros(n as nat, alpha_pow(i as nat));
    }
    if probe != zeros {
        lemma_rs_min_distance(probe, zeros, t as nat);
        assert forall|j: int| 0 <= j < n && probe[j] != zeros[j] implies positions.contains(j as usize) by {
            let k = choose|k: int| 0 <= k < t && positions[k] as int == j;
            assert(positions[k] == j as usize);
        }
        lemma_distance_at_most_listed(probe, zeros, positions);
    }
    assert(probe =~= zeros);
    assert forall|k: int| 0 <= k < t implies eval_all(cc, #[trigger] chien_point(n, positions[k] as int))
        == 0u8 by {
        let p = positions[k] as int;
        let z = chien_point(n, p);
        let x = forney_x(n, p);
        lemma_probe_at(c, w, positions, n, cc, l, k);
        lemma_forney_x(n, p);
        lemma_pow_nonzero(x, l as nat);
        let xl = gf_pow(x, l as nat);
        let pz = peval(cc, z, l + 1);
        let y = erasure_value(c, w, positions, k);
        let cp = c[p];
        let wp = w[p];
        assert(cp != wp);
        assert(cp ^ wp != 0u8) by (bit_vector)
            requires
                cp != wp,
        ;
        if pz != 0u8 {
            lemma_mul_nonzero(xl, pz);
            lemma_mul_nonzero(gf_mul_spec(xl, pz), y);
        }
        lemma_peval_eval(cc, z, l + 1);
        if cc.len() > l + 1 {
            assert forall|j: int| l + 1 <= j < cc.len() implies #[trigger] cc[j] == 0u8 by {}
            lemma_eval_asc_zero_tail(cc, z, l + 1, cc.len() as int);
        }
    }
}

// ---------------------------------------------------------------------------
// The locator is determined by its roots
// ---------------------------------------------------------------------------

/// A polynomial with `r` coefficients that vanishes at the Chien points of
/// the first `r` of a list of distinct positions is zero.
proof fn lemma_vanishing_zero(p: Seq<u8>, positions: Seq<usize>, n: int, r: int)
    requires
        erasures_valid(positions, n),
        0 <= r <= positions.len(),
        p.len() == r,
        forall|k: int| 0 <= k < r ==> eval_all(p, #[trigger] chien_point(n, positions[k] as int)) == 0u8,
    ensures
        forall|j: int| 0 <= j < r ==> #[trigger] p[j] == 0u8,
    decreases r,
{
    if r > 0 {
        let pr = positions[r - 1] as int;
        let x = forney_x(n, pr);
        let z = chien_point(n, pr);
        lemma_forney_x(n, pr);
        lemma_chien_point_inverse(n, pr, pr);
        lemma_quotient_divides(p, x, z);
        let q = Seq::new((r - 1) as nat, |k: int| quotient_coef(p, x, k));
        assert forall|k: int| 0 <= k < r - 1 implies eval_all(q, #[trigger] chien_point(n, positions[k] as int))
            == 0u8 by {
            let zk = chien_point(n, positions[k] as int);
            lemma_eval_mul_linear_asc(q, x, zk);
            lemma_chien_point_inverse(n, pr, positions[k] as int);
            assert(positions[k] != positions[r - 1]);
            lemma_one_plus(gf_mul_spec(x, zk));
            if eval_all(q, zk) != 0u8 {
                lemma_mul_nonzero(eval_all(q, zk), 1u8 ^ gf_mul_spec(x, zk));
            }
        }
        lemma_vanishing_zero(q, positions, n, r - 1);
        lemma_poly_mul_linear_split(q, x);
        lemma_mul_zero_one(x);
        lemma_xor_facts(0u8, 0u8, 0u8);
        assert forall|j: int| 0 <= j < r implies #[trigger] p[j] == 0u8 by {
            if j < r - 1 {
                assert(q.push(0u8)[j] == 0u8);
            }
            if j >= 1 {
                assert((seq![0u8] + q)[j] == q[j - 1]);
            }
        }
    }
}

/// The padded evaluation is additive.
proof fn lemma_peval_xor(a: Seq<u8>, b: Seq<u8>, z: u8, m: int)
    requires
        0 <= m,
    ensures
        peval(a, z, m) ^ peval(b, z, m) == eval_asc(
            Seq::new(m as nat, |j: int| coef(a, j) ^ coef(b, j)),
            z,
            m,
        ),
    decreases m,
{
    let d = Seq::new(m as nat, |j: int| coef(a, j) ^ coef(b, j));
    if m == 0 {
        lemma_xor_facts(0u8, 0u8, 0u8);
    } else {
        lemma_peval_xor(a, b, z, m - 1);
        let dm = Seq::new((m - 1) as nat, |j: int| coef(a, j) ^ coef(b, j));
        lemma_eval_asc_agree(d, dm, z, m - 1);
        let pw = gf_pow(z, (m - 1) as nat);
        lemma_mul_commutative(coef(a, m - 1) ^ coef(b, m - 1), pw);
        lemma_mul_distributive(pw, coef(a, m - 1), coef(b, m - 1));
        lemma_mul_commutative(pw, coef(a, m - 1));
        lemma_mul_commutative(pw, coef(b, m - 1));
        lemma_xor_swap(
            peval(a, z, m - 1),
            gf_mul_spec(coef(a, m - 1), pw),
            peval(b, z, m - 1),
            gf_mul_spec(coef(b, m - 1), pw),
        );
    }
}

/// A polynomial with constant term one, of degree at most `t`, vanishing at
/// the Chien points of `t` distinct positions agrees, coefficient by
/// coefficient, with the product of their linear factors.
pub(crate) proof fn lemma_locator_unique(q: Seq<u8>, l: int, positions: Seq<usize>, n: int)
    requires
        erasures_valid(positions, n),
        0 <= l <= positions.len(),
        monic_degree_at_most(q, l),
        forall|k: int|
            0 <= k < positions.len() ==> eval_all(q, #[trigger] chien_point(n, positions[k] as int))
                == 0u8,
    ensures
        forall|j: int| #[trigger] coef(q, j) == coef(
            erasure_locator(positions, n, positions.len() as int),
            j,
        ),
        l == positions.len(),
{
    let t = positions.len() as int;
    let lam = erasure_locator(positions, n, t);
    lemma_erasure_locator(positions, n, t);
    let d = Seq::new((t + 1) as nat, |j: int| coef(q, j) ^ coef(lam, j));
    let dd = Seq::new(t as nat, |j: int| coef(q, j + 1) ^ coef(lam, j + 1));
    assert(d =~= seq![0u8] + dd) by {
        lemma_xor_facts(1u8, 1u8, 0u8);
    }
    assert forall|k: int| 0 <= k < t implies eval_all(dd, #[trigger] chien_point(n, positions[k] as int))
        == 0u8 by {
        let z = chien_point(n, positions[k] as int);
        let pk = positions[k] as int;
        lemma_peval_eval(q, z, t + 1);
        lemma_peval_eval(lam, z, t + 1);
        if q.len() > t + 1 {
            assert forall|j: int| t + 1 <= j < q.len() implies #[trigger] q[j] == 0u8 by {}
            lemma_eval_asc_zero_tail(q, z, t + 1, q.len() as int);
        }
        assert(erased_before(positions, t, pk));
        lemma_peval_xor(q, lam, z, t + 1);
        lemma_eval_asc_shift(dd, z, t);
        lemma_xor_facts(0u8, 0u8, 0u8);
        lemma_forney_x(n, pk);
        lemma_chien_point_inverse(n, pk, pk);
        lemma_mul_zero_one(forney_x(n, pk));
        assert(z != 0u8);
        if eval_all(dd, z) != 0u8 {
            lemma_mul_nonzero(eval_all(dd, z), z);
        }
    }
    lemma_vanishing_zero(dd, positions, n, t);
    assert forall|j: int| #[trigger] coef(q, j) == coef(lam, j) by {
        if 1 <= j <= t {
            let a = coef(q, j);
            let b = coef(lam, j);
            assert(dd[j - 1] == 0u8);
            assert(a ^ b == 0u8 ==> a == b) by (bit_vector);
        }
    }
    assert(coef(q, t) == lam[t]);
}

// ---------------------------------------------------------------------------
// The decoder corrects the errors
// ---------------------------------------------------------------------------

/// Polynomials with the same coefficients have the same values.
proof fn lemma_same_coefs_eval(a: Seq<u8>, b: Seq<u8>, z: u8)
    requires
        forall|j: int| #[trigger] coef(a, j) == coef(b, j),
    ensures
        eval_all(a, z) == eval_all(b, z),
{
    let m = if a.len() >= b.len() {
        a.len() as int
    } else {
        b.len() as int
    };
    assert forall|k: int| 0 <= k <= m implies #[trigger] peval(a, z, k) == peval(b, z, k) by {
        lemma_peval_same(a, b, z, k);
    }
    lemma_peval_eval(a, z, m);
    lemma_peval_eval(b, z, m);
}

proof fn lemma_peval_same(a: Seq<u8>, b: Seq<u8>, z: u8, k: int)
    requires
        forall|j: int| #[trigger] coef(a, j) == coef(b, j),
    ensures
        peval(a, z, k) == peval(b, z, k),
    decreases k,
{
    if k > 0 {
        lemma_peval_same(a, b, z, k - 1);
        assert(coef(a, k - 1) == coef(b, k - 1));
    }
}

/// Product coefficients depend on the second factor's coefficients alone.
proof fn lemma_mul_coef_same(p: Seq<u8>, q1: Seq<u8>, q2: Seq<u8>, k: int, rows: int)
    requires
        forall|j: int| #[trigger] coef(q1, j) == coef(q2, j),
        0 <= rows <= p.len(),
    ensures
        poly_mul_coef(p, q1, k, rows) == poly_mul_coef(p, q2, k, rows),
    decreases rows,
{
    if rows > 0 {
        lemma_mul_coef_same(p, q1, q2, k, rows - 1);
        let r = rows - 1;
        assert(coef(q1, k - r) == coef(q2, k - r));
        lemma_mul_zero_one(p[r]);
    }
}

/// Derivatives of polynomials with the same coefficients have the same values.
proof fn lemma_same_coefs_derivative(a: Seq<u8>, b: Seq<u8>, z: u8)
    requires
        forall|j: int| #[trigger] coef(a, j) == coef(b, j),
    ensures
        eval_all(formal_derivative(a), z) == eval_all(formal_derivative(b), z),
{
    assert forall|k: int| #[trigger] coef(formal_derivative(a), k) == coef(formal_derivative(b), k) by {
        assert(coef(a, k + 1) == coef(b, k + 1));
    }
    lemma_same_coefs_eval(formal_derivative(a), formal_derivative(b), z);
}

/// The last nonzero coefficient of a polynomial whose coefficients past `t`
/// vanish and whose coefficient `t` does not.
proof fn lemma_last_nonzero(p: Seq<u8>, t: int, m: int)
    requires
        0 <= t < m <= p.len(),
        p[t] != 0u8,
        forall|j: int| t < j < p.len() ==> #[trigger] p[j] == 0u8,
    ensures
        last_nonzero_index(p, m) == t,
    decreases m,
{
    if m - 1 > t {
        lemma_last_nonzero(p, t, m - 1);
    }
}

/// The Chien search depends on the locator's coefficients alone.
proof fn lemma_chien_roots_same(a: Seq<u8>, b: Seq<u8>, n: int, m: int)
    requires
        forall|j: int| #[trigger] coef(a, j) == coef(b, j),
    ensures
        chien_roots(a, n, m) == chien_roots(b, n, m),
    decreases m,
{
    if m > 0 {
        lemma_chien_roots_same(a, b, n, m - 1);
        lemma_same_coefs_eval(a, b, chien_point(n, m - 1));
    }
}

/// Forney's formula depends on the locator's coefficients alone.
proof fn lemma_forney_list_same(syn: Seq<u8>, a: Seq<u8>, b: Seq<u8>, pos: Seq<usize>, n: int, m: int)
    requires
        forall|j: int| #[trigger] coef(a, j) == coef(b, j),
        a.len() >= 2,
        b.len() >= 2,
    ensures
        forney_list(syn, a, pos, n, m) == forney_list(syn, b, pos, n, m),
    decreases m,
{
    if m > 0 {
        lemma_forney_list_same(syn, a, b, pos, n, m - 1);
        let z = chien_point(n, pos[m - 1] as int);
        let oa = forney_omega(syn, a);
        let ob = forney_omega(syn, b);
        assert(oa =~= ob) by {
            assert forall|k: int| 0 <= k < oa.len() implies oa[k] == ob[k] by {
                lemma_mul_coef_same(syn, a, b, k, syn.len() as int);
            }
        }
        lemma_same_coefs_derivative(a, b, z);
    }
}

/// Errors-only decoding: a block of at most 255 symbols that differs from a
/// codeword `w` exactly at `t` listed positions, with `2 t <= e`, is decoded
/// to the data of `w`.
pub(crate) proof fn lemma_rs_corrects_listed_errors(c: Seq<u8>, w: Seq<u8>, e: nat, positions: Seq<usize>)
    requires
        errors_at(c, w, e, positions),
        2 * positions.len() <= e,
        e <= c.len(),
        forall|l: int| 0 <= l < positions.len() ==> #[trigger] c[positions[l] as int] != w[positions[l] as int],
    ensures
        rs_decode_block_spec(c, e) == Ok::<Seq<u8>, RrcError>(w.take(c.len() - e)),
        rs_decode_block_erasures_spec(c, e, Seq::empty()) == Ok::<Seq<u8>, RrcError>(
            w.take(c.len() - e),
        ),
{
    let n = c.len() as int;
    let t = positions.len() as int;
    let syn = syndromes_spec(c, e);
    if t == 0 {
        assert forall|j: int| 0 <= j < n implies c[j] == w[j] by {
            if c[j] != w[j] {
                assert(erased_before(positions, t, j));
            }
        }
        assert(c =~= w);
        assert(all_zero(syn));
    } else if all_zero(syn) {
        assert forall|j: int| 0 <= j < n implies c[j] == w[j] by {
            if c[j] != w[j] {
                lemma_forney_value(c, w, e, positions, j);
            }
        }
        assert(c =~= w);
    } else {
        let lam = erasure_locator(positions, n, t);
        lemma_erasure_locator(positions, n, t);
        lemma_bm_vanishes_at_errors(c, w, e, positions);
        let st = bm_state(syn, e);
        let loc = st.0;
        assert(bm_locator(syn) == loc);
        lemma_locator_unique(loc, st.2 as int, positions, n);
        assert(loc.len() >= t + 1) by {
            assert(coef(loc, t) == lam[t]);
        }
        assert(loc[t] == lam[t]) by {
            assert(coef(loc, t) == coef(lam, t));
        }
        lemma_last_nonzero(loc, t, loc.len() as int);
        lemma_chien_roots_same(loc, lam, n, n);
        lemma_chien_roots_erasures_count(positions, n);
        lemma_chien_roots_erasures(positions, n, n);
        let roots = chien_roots(lam, n, n);
        lemma_forney_list_same(syn, loc, lam, roots, n, t);
        lemma_forney_list_erasures(c, w, e, positions, t);
        let corr = forney_list(syn, lam, roots, n, t);
        assert forall|a: int, b: int| 0 <= a < b < corr.len() implies #[trigger] corr[a].0
            != #[trigger] corr[b].0 by {
            assert(roots[a] != roots[b]);
        }
        lemma_apply_differences(c, w, corr);
        let fixed = apply_corrections(c, corr);
        assert forall|j: int| 0 <= j < n implies fixed[j] == w[j] by {
            if c[j] != w[j] {
                assert(roots.contains(j as usize));
                let k = choose|k: int| 0 <= k < roots.len() && roots[k] == j as usize;
                assert(corr[k].0 == roots[k]);
                assert(corrected_at(corr, j));
            }
        }
        assert(fixed =~= w);
    }
}

/// Error correction: a block of at most 255 symbols within `e / 2` symbols
/// of a codeword `w` whose first `e` syndromes vanish is decoded to the data
/// of `w`, with or without an (empty) erasure list.
pub proof fn lemma_rs_corrects_half_parity(c: Seq<u8>, w: Seq<u8>, e: nat)
    requires
        w.len() == c.len(),
        c.len() <= 255,
        e <= c.len(),
        is_rs_codeword(w, e),
        hamming_distance(c, w) <= e / 2,
    ensures
        rs_decode_block_spec(c, e) == Ok::<Seq<u8>, RrcError>(w.take(c.len() - e)),
        rs_decode_block_erasures_spec(c, e, Seq::empty()) == Ok::<Seq<u8>, RrcError>(
            w.take(c.len() - e),
        ),
{
    let n = c.len() as int;
    let p = diff_positions(c, w, n);
    lemma_diff_positions(c, w, n);
    assert forall|j: int| 0 <= j < n && c[j] != w[j] implies erased_before(p, p.len() as int, j) by {
        assert(p.contains(j as usize));
        let k = choose|k: int| 0 <= k < p.len() && p[k] == j as usize;
    }
    lemma_rs_corrects_listed_errors(c, w, e, p);
}

// ---------------------------------------------------------------------------
// Errors and erasures together
// ---------------------------------------------------------------------------

/// The division recurrence by `1 + x X` is `x^k` times the padded value of
/// the dividend at `z = 1 / x`.
proof fn lemma_quotient_value(q: Seq<u8>, x: u8, z: u8, k: int)
    requires
        gf_mul_spec(x, z) == 1u8,
        0 <= k,
    ensures
        quotient_coef(q, x, k) == gf_mul_spec(gf_pow(x, k as nat), peval(q, z, k + 1)),
    decreases k,
{
    let ck = coef(q, k);
    let xk = gf_pow(x, k as nat);
    let zk = gf_pow(z, k as nat);
    lemma_pow_shift(x, z, k as nat, k as nat);
    assert(gf_pow(x, 0) == 1u8);
    // x^k z^k == 1, so x^k (c_k z^k) == c_k
    lemma_mul_associative(xk, zk, ck);
    lemma_mul_commutative(zk, ck);
    lemma_mul_zero_one(ck);
    if k == 0 {
        assert(quotient_coef(q, x, -1) == 0u8);
        lemma_mul_zero_one(x);
        lemma_xor_facts(ck, 0u8, 0u8);
        reveal_with_fuel(peval, 2);
        lemma_xor_facts(0u8, gf_mul_spec(ck, zk), 0u8);
        lemma_mul_zero_one(gf_mul_spec(ck, zk));
    } else {
        lemma_quotient_value(q, x, z, k - 1);
        let xp = gf_pow(x, (k - 1) as nat);
        let pv = peval(q, z, k);
        // x (x^(k-1) pv) == x^k pv
        lemma_mul_associative(x, xp, pv);
        lemma_mul_commutative(x, xp);
        lemma_mul_distributive(xk, pv, gf_mul_spec(ck, zk));
        lemma_xor_facts(ck, gf_mul_spec(xk, pv), 0u8);
    }
}

/// Against the powers of `x`, coefficient `k` of the product with `q` is
/// the connection sum of `q` over all of its coefficients.
proof fn lemma_geometric_conn_sum(q: Seq<u8>, x: u8, z: u8, len: nat, k: int)
    requires
        gf_mul_spec(x, z) == 1u8,
        q.len() >= 1,
        q.len() - 1 <= k < len,
    ensures
        poly_mul_coef(geometric(x, len), q, k, len as int) == conn_sum(
            q,
            geometric(x, len),
            k,
            q.len() - 1,
        ),
{
    let u = q.len() - 1;
    lemma_geometric_quotient(x, len, q, k);
    lemma_quotient_value(q, x, z, k);
    lemma_conn_sum_geometric(q, x, z, len, k, u);
    lemma_peval_eval(q, z, k + 1);
    lemma_peval_eval(q, z, u + 1);
}

/// On the syndromes of errors at listed positions, coefficient `k` of the
/// product with `q` is the connection sum of `q` at `k`, once `k` is past the
/// degree of `q`.
proof fn lemma_mul_coef_conn_sum(
    c: Seq<u8>,
    w: Seq<u8>,
    positions: Seq<usize>,
    n: int,
    e: nat,
    q: Seq<u8>,
    k: int,
    m: int,
)
    requires
        erasures_valid(positions, n),
        c.len() == n,
        w.len() == n,
        q.len() >= 1,
        q.len() - 1 <= k < e,
        0 <= m <= positions.len(),
    ensures
        poly_mul_coef(syndrome_prefix(c, w, positions, n, e, m), q, k, e as int) == conn_sum(
            q,
            syndrome_prefix(c, w, positions, n, e, m),
            k,
            q.len() - 1,
        ),
    decreases m,
{
    let u = q.len() - 1;
    let cur = syndrome_prefix(c, w, positions, n, e, m);
    if m == 0 {
        let zeros = Seq::new(e, |i: int| 0u8);
        lemma_mul_coef_zero(cur, q, k, e as int);
        assert(cur =~= seq_scale(zeros, 0u8)) by {
            lemma_mul_zero_one(0u8);
        }
        lemma_conn_sum_scale(q, zeros, 0u8, k, u);
        lemma_mul_zero_one(conn_sum(q, zeros, k, u));
    } else {
        lemma_mul_coef_conn_sum(c, w, positions, n, e, q, k, m - 1);
        let prev = syndrome_prefix(c, w, positions, n, e, m - 1);
        let p = positions[m - 1] as int;
        let x = forney_x(n, p);
        let z = chien_point(n, p);
        let y = erasure_value(c, w, positions, m - 1);
        let g = geometric(x, e);
        assert forall|i: int| 0 <= i < e implies #[trigger] cur[i] == seq_xor(prev, seq_scale(g, y))[i] by {
            lemma_mul_commutative(y, gf_pow(x, i as nat));
        }
        assert(cur =~= seq_xor(prev, seq_scale(g, y)));
        lemma_mul_coef_xor(prev, seq_scale(g, y), q, k, e as int);
        lemma_mul_coef_scale(g, y, q, k, e as int);
        lemma_conn_sum_xor(q, prev, seq_scale(g, y), k, u);
        lemma_conn_sum_scale(q, g, y, k, u);
        lemma_forney_x(n, p);
        lemma_chien_point_inverse(n, p, p);
        lemma_geometric_conn_sum(q, x, z, e, k);
    }
}

/// Coefficient `j` of `a * g` vanishes when every row with a nonzero
/// coefficient of `a` reaches past the end of `g`.
proof fn lemma_mul_coef_high(a: Seq<u8>, la: int, g: Seq<u8>, j: int, rows: int)
    requires
        0 <= rows <= a.len(),
        0 <= la,
        forall|i: int| la < i < a.len() ==> #[trigger] a[i] == 0u8,
        j > la + g.len() - 1,
    ensures
        poly_mul_coef(a, g, j, rows) == 0u8,
    decreases rows,
{
    if rows > 0 {
        lemma_mul_coef_high(a, la, g, j, rows - 1);
        let r = rows - 1;
        if 0 <= j - r < g.len() {
            assert(a[r] == 0u8);
            lemma_mul_zero_one(g[j - r]);
        }
        lemma_xor_facts(0u8, 0u8, 0u8);
    }
}

/// The product of a monic polynomial of degree at most `la` with a
/// polynomial of constant term one is monic of degree at most `la` plus
/// the other's degree.
proof fn lemma_mul_monic(a: Seq<u8>, la: int, g: Seq<u8>)
    requires
        monic_degree_at_most(a, la),
        0 <= la,
        g.len() >= 1,
        g[0] == 1u8,
    ensures
        monic_degree_at_most(poly_mul_spec(a, g), la + g.len() - 1),
{
    let pr = poly_mul_spec(a, g);
    lemma_mul_coef_beyond(a, g, 0, a.len() as int);
    assert(poly_mul_coef(a, g, 0, 0) == 0u8);
    lemma_mul_zero_one(1u8);
    lemma_xor_facts(1u8, 0u8, 0u8);
    assert(gf_mul_spec(a[0], g[0]) == 1u8);
    assert(poly_mul_coef(a, g, 0, 1) == 1u8);
    assert(pr[0] == poly_mul_coef(a, g, 0, a.len() as int));
    assert(pr[0] == 1u8);
    assert forall|j: int| la + g.len() - 1 < j < pr.len() implies #[trigger] pr[j] == 0u8 by {
        lemma_mul_coef_high(a, la, g, j, a.len() as int);
    }
}

/// The positions below `m`, outside the erasures `er`, at which `a` and
/// `b` differ, in increasing order.
pub open spec fn unerased_diff(a: Seq<u8>, b: Seq<u8>, er: Seq<usize>, m: int) -> Seq<usize>
    decreases m,
{
    if m <= 0 {
        Seq::empty()
    } else {
        unerased_diff(a, b, er, m - 1) + (if a[m - 1] != b[m - 1] && !er.contains(
            (m - 1) as usize,
        ) {
            seq![(m - 1) as usize]
        } else {
            Seq::empty()
        })
    }
}

proof fn lemma_unerased_diff(a: Seq<u8>, b: Seq<u8>, er: Seq<usize>, m: int)
    requires
        a.len() == b.len(),
        a.len() <= 255,
        0 <= m <= a.len(),
    ensures
        unerased_diff(a, b, er, m).no_duplicates(),
        forall|k: int|
            0 <= k < unerased_diff(a, b, er, m).len() ==> (#[trigger] unerased_diff(a, b, er, m)[k])
                < m && a[unerased_diff(a, b, er, m)[k] as int] != b[unerased_diff(a, b, er, m)[k] as int]
                && !er.contains(unerased_diff(a, b, er, m)[k]),
        forall|j: int|
            0 <= j < m && a[j] != b[j] && !er.contains(j as usize) ==> #[trigger] unerased_diff(
                a,
                b,
                er,
                m,
            ).contains(j as usize),
    decreases m,
{
    if m > 0 {
        lemma_unerased_diff(a, b, er, m - 1);
        let prev = unerased_diff(a, b, er, m - 1);
        let cur = unerased_diff(a, b, er, m);
        if a[m - 1] != b[m - 1] && !er.contains((m - 1) as usize) {
            assert(cur == prev + seq![(m - 1) as usize]);
            assert forall|x: int, y: int| 0 <= x < y < cur.len() implies cur[x] != cur[y] by {
                if y == cur.len() - 1 {
                    assert(cur[x] == prev[x]);
                }
            }
            assert forall|j: int|
                0 <= j < m && a[j] != b[j] && !er.contains(j as usize) implies #[trigger] cur.contains(
                j as usize,
            ) by {
                if j < m - 1 {
                    assert(prev.contains(j as usize));
                    let k = choose|k: int| 0 <= k < prev.len() && prev[k] == j as usize;
                    assert(cur[k] == prev[k]);
                } else {
                    assert(cur[cur.len() - 1] == (m - 1) as usize);
                }
            }
        } else {
            assert(cur =~= prev);
        }
    }
}

/// Errors and erasures together: a block of at most 255 symbols that
/// differs from a codeword `w` at some of its erasures (at least one,
/// distinct) and at `t` positions outside them, with `2 t + v <= e` for `v`
/// erasures and `e` parity symbols, is decoded to the data of `w`.
#[verifier::spinoff_prover]
#[verifier::rlimit(50)]
pub proof fn lemma_rs_corrects_errors_and_erasures(c: Seq<u8>, w: Seq<u8>, e: nat, er: Seq<usize>)
    requires
        w.len() == c.len(),
        e <= c.len(),
        is_rs_codeword(w, e),
        erasures_valid(er, c.len() as int),
        er.len() >= 1,
        2 * unerased_diff(c, w, er, c.len() as int).len() + er.len() <= e,
    ensures
        rs_decode_block_erasures_spec(c, e, er) == Ok::<Seq<u8>, RrcError>(w.take(c.len() - e)),
{
    let n = c.len() as int;
    let v = er.len() as int;
    let errs = unerased_diff(c, w, er, n);
    let t = errs.len() as int;
    lemma_unerased_diff(c, w, er, n);
    let errata = er + errs;
    let tt = v + t;
    assert(errata.len() == tt);
    assert forall|x: int, y: int| 0 <= x < y < tt implies errata[x] != errata[y] by {
        if x < v && y >= v {
            assert(errata[x] == er[x]);
            assert(er.contains(er[x]));
            assert(errata[y] == errs[y - v]);
        } else if x >= v {
            assert(errata[x] == errs[x - v] && errata[y] == errs[y - v]);
        }
    }
    assert(erasures_valid(errata, n)) by {
        assert forall|k: int| 0 <= k < tt implies #[trigger] errata[k] < n by {
            if k >= v {
                assert(errata[k] == errs[k - v]);
            }
        }
    }
    assert forall|j: int| 0 <= j < n && c[j] != w[j] implies erased_before(errata, tt, j) by {
        if er.contains(j as usize) {
            let k = choose|k: int| 0 <= k < v && er[k] == j as usize;
            assert(errata[k] == er[k]);
        } else {
            assert(errs.contains(j as usize));
            let k = choose|k: int| 0 <= k < t && errs[k] == j as usize;
            assert(errata[v + k] == errs[k]);
        }
    }
    assert(errors_at(c, w, e, errata));
    let syn = syndromes_spec(c, e);
    if v == e {
        assert(errs =~= Seq::<usize>::empty());
        assert(errata =~= er);
        lemma_rs_corrects_full_erasures(c, w, e, er);
    } else if all_zero(syn) {
        assert forall|j: int| 0 <= j < n implies c[j] == w[j] by {
            if c[j] != w[j] {
                lemma_forney_value(c, w, e, errata, j);
            }
        }
        assert(c =~= w);
    } else {
        let gamma = erasure_locator(er, n, v);
        lemma_erasure_locator(er, n, v);
        let pm = poly_mul_spec(syn, gamma);
        let tsyn = forney_syndromes(syn, gamma, v, e as int);
        let ep = (e - v) as nat;
        assert(pm.len() == e + v);
        assert(tsyn =~= pm.subrange(v, e as int));
        let probe = probe_word(c, w, errata, n, gamma, v);
        let zeros = Seq::new(n as nat, |j: int| 0u8);
        lemma_erasure_syndromes(c, w, errata, e);
        assert(syn =~= syndrome_prefix(c, w, errata, n, e, tt));
        assert forall|i: int| 0 <= i < ep implies #[trigger] syndromes_spec(zeros, ep)[i] == 0u8 by {
            lemma_syndrome_is_eval(zeros, i);
            lemma_eval_zeros(n as nat, alpha_pow(i as nat));
        }
        assert(is_rs_codeword(zeros, ep));
        // the probe word vanishes at the erasures and not at the other errors
        assert forall|l: int| 0 <= l < v implies #[trigger] probe[errata[l] as int] == 0u8 by {
            lemma_probe_at(c, w, errata, n, gamma, v, l);
            let p = errata[l] as int;
            let z = chien_point(n, p);
            assert(errata[l] == er[l]);
            lemma_peval_eval(gamma, z, v + 1);
            assert(erased_before(er, v, p));
            assert(eval_all(gamma, z) == 0u8);
            lemma_mul_zero_one(gf_pow(forney_x(n, p), v as nat));
            lemma_mul_zero_one(erasure_value(c, w, errata, l));
        }
        assert forall|l: int| 0 <= l < t implies #[trigger] probe[errs[l] as int] != 0u8 by {
            lemma_probe_at(c, w, errata, n, gamma, v, v + l);
            let p = errs[l] as int;
            assert(errata[v + l] == errs[l]);
            let z = chien_point(n, p);
            let x = forney_x(n, p);
            lemma_peval_eval(gamma, z, v + 1);
            assert(!erased_before(er, v, p)) by {
                if erased_before(er, v, p) {
                    let k = choose|k: int| 0 <= k < v && er[k] as int == p;
                    assert(er.contains(errs[l]));
                }
            }
            let gz = eval_all(gamma, z);
            assert(gz != 0u8);
            lemma_forney_x(n, p);
            lemma_pow_nonzero(x, v as nat);
            let xv = gf_pow(x, v as nat);
            let cp = c[p];
            let wp = w[p];
            assert(cp ^ wp != 0u8) by (bit_vector)
                requires
                    cp != wp,
            ;
            lemma_mul_nonzero(xv, gz);
            lemma_mul_nonzero(gf_mul_spec(xv, gz), cp ^ wp);
        }
        assert forall|j: int| 0 <= j < n && probe[j] != zeros[j] implies erased_before(errs, t, j) by {
            if !erased_before(errata, tt, j) {
                assert(probe[j] == 0u8);
            } else {
                let k = choose|k: int| 0 <= k < tt && errata[k] as int == j;
                if k < v {
                    assert(probe[errata[k] as int] == 0u8);
                } else {
                    assert(errs[k - v] as int == j);
                }
            }
        }
        assert(erasures_valid(errs, n));
        assert(errors_at(probe, zeros, ep, errs));
        // the modified syndromes are the probe word's syndromes
        assert forall|j: int| 0 <= j < n && probe[j] != zeros[j] implies erased_before(errata, tt, j) by {
            let k = choose|k: int| 0 <= k < t && errs[k] as int == j;
            assert(errata[v + k] == errs[k]);
        }
        lemma_erasure_syndromes(probe, zeros, errata, ep);
        assert(tsyn =~= syndromes_spec(probe, ep)) by {
            assert forall|i: int| 0 <= i < ep implies #[trigger] tsyn[i] == syndromes_spec(probe, ep)[i] by {
                lemma_mul_coef_conn_sum(c, w, errata, n, e, gamma, v + i, tt);
                lemma_conn_sum_errors(c, w, errata, n, e, gamma, v + i, v, tt);
                lemma_probe_syndrome(c, w, errata, n, gamma, v, i as nat, tt);
                assert(tsyn[i] == pm[v + i]);
            }
        }
        lemma_bm_vanishes_at_errors(probe, zeros, ep, errs);
        let st = bm_state(tsyn, ep);
        let lam = st.0;
        let l = st.2 as int;
        assert(bm_locator(tsyn) == lam);
        let psi = poly_mul_spec(lam, gamma);
        assert(errata_locator(syn, er, n, e) == psi);
        lemma_mul_monic(lam, l, gamma);
        assert forall|k: int| 0 <= k < tt implies eval_all(psi, #[trigger] chien_point(n, errata[k] as int))
            == 0u8 by {
            let z = chien_point(n, errata[k] as int);
            lemma_eval_mul(lam, gamma, z);
            if k < v {
                assert(errata[k] == er[k]);
                assert(erased_before(er, v, er[k] as int));
                lemma_mul_zero_one(eval_all(lam, z));
            } else {
                assert(errata[k] == errs[k - v]);
                assert(eval_all(lam, chien_point(probe.len() as int, errs[k - v] as int)) == 0u8);
                lemma_mul_zero_one(eval_all(gamma, z));
            }
        }
        lemma_locator_unique(psi, l + v, errata, n);
        let loc = psi;
        let full = erasure_locator(errata, n, tt);
        lemma_erasure_locator(errata, n, tt);
        assert(loc.len() >= tt + 1) by {
            assert(coef(loc, tt) == full[tt]);
        }
        assert(loc[tt] == full[tt]) by {
            assert(coef(loc, tt) == coef(full, tt));
        }
        lemma_last_nonzero(loc, tt, loc.len() as int);
        lemma_chien_roots_same(loc, full, n, n);
        lemma_chien_roots_erasures_count(errata, n);
        lemma_chien_roots_erasures(errata, n, n);
        let roots = chien_roots(full, n, n);
        lemma_forney_list_same(syn, loc, full, roots, n, tt);
        lemma_forney_list_erasures(c, w, e, errata, tt);
        let corr = forney_list(syn, full, roots, n, tt);
        assert forall|a: int, b: int| 0 <= a < b < corr.len() implies #[trigger] corr[a].0
            != #[trigger] corr[b].0 by {
            assert(roots[a] != roots[b]);
        }
        lemma_apply_differences(c, w, corr);
        let fixed = apply_corrections(c, corr);
        assert forall|j: int| 0 <= j < n implies fixed[j] == w[j] by {
            if c[j] != w[j] {
                assert(roots.contains(j as usize));
                let k = choose|k: int| 0 <= k < roots.len() && roots[k] == j as usize;
                assert(corr[k].0 == roots[k]);
                assert(corrected_at(corr, j));
            }
        }
        assert(fixed =~= w);
    }
}

/// Without erasures, the positions outside them where two words differ are
/// as many as the Hamming distance counts.
pub(crate) proof fn lemma_unerased_diff_empty(a: Seq<u8>, b: Seq<u8>, m: int)
    requires
        a.len() == b.len(),
        a.len() <= 255,
        0 <= m <= a.len(),
    ensures
        unerased_diff(a, b, Seq::empty(), m) == diff_positions(a, b, m),
    decreases m,
{
    if m > 0 {
        lemma_unerased_diff_empty(a, b, m - 1);
        assert(!Seq::<usize>::empty().contains((m - 1) as usize));
    }
}

} // verus!
