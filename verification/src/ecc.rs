//! Reed-Solomon error correction over GF(2^8).

use crate::errata::{errors_at_erasures, lemma_rs_corrects_full_erasures};
use crate::errors::{
    lemma_diff_positions, lemma_rs_corrects_errors_and_erasures, lemma_rs_corrects_half_parity,
    lemma_unerased_diff_empty, unerased_diff,
};
use crate::error::RrcError;
use crate::interleave::{
    deinterleave, deinterleave_block, interleave_block, interleave_col, interleave_into,
    interleave_pos, interleave_source, interleave_spec, lemma_interleave_pos_src,
    lemma_split_basics, lemma_split_offset_step, split_len, split_offset,
};
use crate::gf::{
    alpha_pow, gf_add, gf_div, gf_div_spec, gf_mul, gf_mul_spec, gf_pow, lemma_alpha_pow_mod,
    lemma_mul_associative, lemma_mul_commutative, lemma_mul_distributive, lemma_mul_zero_one,
    lemma_pow_mul, lemma_xor_facts,
};
use crate::poly::{
    exp_table, exp_table_entry, lemma_eval_concat, lemma_eval_first, lemma_eval_mul_linear,
    lemma_eval_push, lemma_eval_scale, lemma_eval_xor, lemma_poly_mul_linear_split, poly_eval,
    poly_mul, poly_mul_spec, seq_scale, seq_xor,
};
use vstd::prelude::*;

verus! {

/// The Reed-Solomon generator polynomial `(x - a^0)(x - a^1)...(x - a^(n-1))`,
/// highest-degree coefficient first, with the roots taken from the
/// exponential table.
pub open spec fn gen_poly_spec(n: nat) -> Seq<u8>
    decreases n,
{
    if n == 0 {
        seq![1u8]
    } else {
        poly_mul_spec(gen_poly_spec((n - 1) as nat), seq![1u8, exp_table_entry(n - 1)])
    }
}

/// The generator polynomial for `n` symbols has `n + 1` coefficients.
pub proof fn lemma_gen_poly_len(n: nat)
    ensures
        gen_poly_spec(n).len() == n + 1,
    decreases n,
{
    if n > 0 {
        lemma_gen_poly_len((n - 1) as nat);
    }
}

/// Compute Reed-Solomon generator polynomial for `n_sym` ECC symbols:
/// g(x) = (x - a^0)(x - a^1)...(x - a^(n_sym-1))
pub fn rs_generator_poly(n_sym: usize) -> (g: Vec<u8>)
    requires
        n_sym <= 512,
    ensures
        g@ == gen_poly_spec(n_sym as nat),
{
    let t = exp_table();
    let mut g: Vec<u8> = Vec::new();
    g.push(1u8);
    assert(g@ =~= gen_poly_spec(0));
    let mut i: usize = 0;
    while i < n_sym
        invariant
            0 <= i <= n_sym,
            n_sym <= 512,
            t.len() == 512,
            forall|k: int| 0 <= k < 512 ==> t[k] == exp_table_entry(k),
            g@ == gen_poly_spec(i as nat),
        decreases n_sym - i,
    {
        proof {
            lemma_gen_poly_len(i as nat);
        }
        let mut f: Vec<u8> = Vec::new();
        f.push(1u8);
        f.push(t[i]);
        assert(f@ =~= seq![1u8, exp_table_entry(i as int)]);
        g = poly_mul(g.as_slice(), f.as_slice());
        i = i + 1;
    }
    g
}

/// One step of the Reed-Solomon shift register: feed byte `b` into the
/// remainder `rem` of the division by the generator `gen`.
pub open spec fn lfsr_step(rem: Seq<u8>, b: u8, gen: Seq<u8>) -> Seq<u8> {
    let f = b ^ rem[0];
    Seq::new(
        rem.len(),
        |j: int|
            if j < rem.len() - 1 {
                rem[j + 1] ^ gf_mul_spec(f, gen[j + 1])
            } else {
                gf_mul_spec(f, gen[rem.len() as int])
            },
    )
}

/// The remainder of `msg(x) * x^e` modulo the generator `gen` (of degree `e`),
/// as computed by the shift register.
pub open spec fn rs_remainder(msg: Seq<u8>, gen: Seq<u8>, e: nat) -> Seq<u8>
    decreases msg.len(),
{
    if msg.len() == 0 {
        Seq::new(e, |j: int| 0u8)
    } else {
        lfsr_step(rs_remainder(msg.drop_last(), gen, e), msg.last(), gen)
    }
}

/// The `e` parity codewords of a message block.
pub open spec fn rs_parity_spec(msg: Seq<u8>, e: nat) -> Seq<u8> {
    if e == 0 {
        Seq::empty()
    } else {
        rs_remainder(msg, gen_poly_spec(e), e)
    }
}

proof fn lemma_rs_remainder_len(msg: Seq<u8>, gen: Seq<u8>, e: nat)
    ensures
        rs_remainder(msg, gen, e).len() == e,
    decreases msg.len(),
{
    if msg.len() > 0 {
        lemma_rs_remainder_len(msg.drop_last(), gen, e);
    }
}

/// Encode a single message block with `ecc_len` Reed-Solomon parity codewords.
/// Returns the generated `ecc_len` ECC codewords.
pub fn rs_encode_block(msg: &[u8], ecc_len: usize) -> (rem: Vec<u8>)
    requires
        ecc_len <= 512,
    ensures
        rem@ == rs_parity_spec(msg@, ecc_len as nat),
        rem@.len() == ecc_len,
        is_rs_codeword(msg@ + rem@, ecc_len as nat),
{
    proof {
        lemma_rs_encode_block_codeword(msg@, ecc_len as nat);
    }
    if ecc_len == 0 {
        return Vec::new();
    }
    let gen = rs_generator_poly(ecc_len);
    proof {
        lemma_gen_poly_len(ecc_len as nat);
    }
    let mut rem: Vec<u8> = vec![0u8; ecc_len];
    assert(rem@ =~= rs_remainder(msg@.take(0), gen@, ecc_len as nat));
    let mut i: usize = 0;
    while i < msg.len()
        invariant
            0 <= i <= msg.len(),
            0 < ecc_len <= 512,
            gen@ == gen_poly_spec(ecc_len as nat),
            gen@.len() == ecc_len + 1,
            rem@ == rs_remainder(msg@.take(i as int), gen@, ecc_len as nat),
        decreases msg.len() - i,
    {
        let ghost old_rem = rem@;
        proof {
            lemma_rs_remainder_len(msg@.take(i as int), gen@, ecc_len as nat);
        }
        let factor = gf_add(msg[i], rem[0]);
        let mut j: usize = 0;
        while j < ecc_len - 1
            invariant
                0 <= j <= ecc_len - 1,
                0 <= i < msg@.len(),
                gen@.len() == ecc_len + 1,
                rem@.len() == ecc_len,
                old_rem.len() == ecc_len,
                factor == msg@[i as int] ^ old_rem[0],
                forall|k: int|
                    0 <= k < j ==> #[trigger] rem@[k] == lfsr_step(old_rem, msg@[i as int], gen@)[k],
                forall|k: int| j <= k < ecc_len ==> #[trigger] rem@[k] == old_rem[k],
            decreases ecc_len - 1 - j,
        {
            let v = gf_add(rem[j + 1], gf_mul(factor, gen[j + 1]));
            rem.set(j, v);
            j = j + 1;
        }
        let last = gf_mul(factor, gen[ecc_len]);
        rem.set(ecc_len - 1, last);
        proof {
            let step = lfsr_step(old_rem, msg@[i as int], gen@);
            assert(msg@.take(i as int + 1).drop_last() =~= msg@.take(i as int));
            assert(msg@.take(i as int + 1).last() == msg@[i as int]);
            assert(rem@ =~= step);
        }
        i = i + 1;
    }
    assert(msg@.take(msg@.len() as int) =~= msg@);
    proof {
        lemma_rs_remainder_len(msg@, gen@, ecc_len as nat);
    }
    rem
}

/// Syndrome `i` of codeword `c`, summed over its first `m` symbols: each
/// symbol `c[j]` is weighted by `alpha^(i * (n - 1 - j) mod 255)`.
pub open spec fn syndrome_acc(c: Seq<u8>, i: int, m: int) -> u8
    decreases m,
{
    if m <= 0 {
        0
    } else {
        syndrome_acc(c, i, m - 1) ^ gf_mul_spec(
            c[m - 1],
            exp_table_entry((i * (c.len() - 1 - (m - 1))) % 255),
        )
    }
}

/// The first `e` syndromes of codeword `c`.
pub open spec fn syndromes_spec(c: Seq<u8>, e: nat) -> Seq<u8> {
    Seq::new(e, |i: int| syndrome_acc(c, i, c.len() as int))
}

/// Whether all of a sequence's entries are zero.
pub open spec fn all_zero(s: Seq<u8>) -> bool {
    forall|i: int| 0 <= i < s.len() ==> #[trigger] s[i] == 0u8
}

/// The products `i * (n - 1 - j)` in the syndrome exponents fit in a `usize`.
pub open spec fn syndrome_indices_fit(n: int, e: int) -> bool {
    e == 0 || n == 0 || (e - 1) * (n - 1) <= usize::MAX
}

/// Calculate syndromes for a received codeword of length `n` with `ecc_len` parity symbols.
pub fn rs_calc_syndromes(codeword: &[u8], ecc_len: usize) -> (syn: Vec<u8>)
    requires
        syndrome_indices_fit(codeword@.len() as int, ecc_len as int),
    ensures
        syn@ == syndromes_spec(codeword@, ecc_len as nat),
{
    let t = exp_table();
    let n = codeword.len();
    let mut syn: Vec<u8> = vec![0u8; ecc_len];
    let mut i: usize = 0;
    while i < ecc_len
        invariant
            0 <= i <= ecc_len,
            n == codeword@.len(),
            syndrome_indices_fit(n as int, ecc_len as int),
            t.len() == 512,
            forall|k: int| 0 <= k < 512 ==> t[k] == exp_table_entry(k),
            syn@.len() == ecc_len,
            forall|k: int| 0 <= k < i ==> #[trigger] syn@[k] == syndrome_acc(codeword@, k, n as int),
        decreases ecc_len - i,
    {
        let mut val: u8 = 0;
        let mut j: usize = 0;
        while j < n
            invariant
                0 <= i < ecc_len,
                0 <= j <= n,
                n == codeword@.len(),
                syndrome_indices_fit(n as int, ecc_len as int),
                t.len() == 512,
                forall|k: int| 0 <= k < 512 ==> t[k] == exp_table_entry(k),
                val == syndrome_acc(codeword@, i as int, j as int),
            decreases n - j,
        {
            assert(i * (n - 1 - j) <= usize::MAX) by (nonlinear_arith)
                requires
                    i <= ecc_len - 1,
                    n - 1 - j <= n - 1,
                    0 <= n - 1 - j,
                    (ecc_len - 1) * (n - 1) <= usize::MAX,
            ;
            let power = (i * (n - 1 - j)) % 255;
            val = val ^ gf_mul(codeword[j], t[power]);
            j = j + 1;
        }
        syn.set(i, val);
        i = i + 1;
    }
    assert(syn@ =~= syndromes_spec(codeword@, ecc_len as nat));
    syn
}

/// The discrepancy of the Berlekamp-Massey step at index `n`: `s[n]` plus
/// the sum of `c[i] * s[n - i]` for `1 <= i <= upto` with `i < c.len()`.
pub open spec fn bm_discrepancy(s: Seq<u8>, n: int, c: Seq<u8>, upto: int) -> u8
    decreases upto,
{
    if upto <= 0 {
        s[n]
    } else {
        bm_discrepancy(s, n, c, upto - 1) ^ (if upto < c.len() {
            gf_mul_spec(c[upto], s[n - upto])
        } else {
            0u8
        })
    }
}

/// `c + scale * x^m * b`, with `c` extended by zeros to hold the sum.
pub open spec fn bm_update(c: Seq<u8>, b: Seq<u8>, m: int, scale: u8) -> Seq<u8> {
    let len = if c.len() >= m + b.len() {
        c.len() as int
    } else {
        m + b.len()
    };
    Seq::new(
        len as nat,
        |k: int|
            (if k < c.len() {
                c[k]
            } else {
                0u8
            }) ^ (if m <= k < m + b.len() {
                gf_mul_spec(scale, b[k - m])
            } else {
                0u8
            }),
    )
}

/// The Berlekamp-Massey state `(C, B, L, m, b)` after the first `steps`
/// syndromes: the connection polynomial `C` (constant term first), the
/// previous connection polynomial `B`, the register length `L`, the shift
/// `m` since `B` was taken, and the discrepancy `b` recorded with `B`.
pub open spec fn bm_state(s: Seq<u8>, steps: nat) -> (Seq<u8>, Seq<u8>, nat, nat, u8)
    decreases steps,
{
    if steps == 0 {
        (seq![1u8], seq![1u8], 0, 1, 1u8)
    } else {
        let prev = bm_state(s, (steps - 1) as nat);
        let c = prev.0;
        let b = prev.1;
        let l = prev.2;
        let m = prev.3;
        let bs = prev.4;
        let n = steps - 1;
        let d = bm_discrepancy(s, n, c, l as int);
        if d == 0 {
            (c, b, l, m + 1, bs)
        } else {
            let c2 = bm_update(c, b, m as int, gf_div_spec(d, bs));
            if 2 * l <= n {
                (c2, c, (n + 1 - l) as nat, 1, d)
            } else {
                (c2, b, l, m + 1, bs)
            }
        }
    }
}

/// The error locator polynomial that Berlekamp-Massey derives from `s`.
pub open spec fn bm_locator(s: Seq<u8>) -> Seq<u8> {
    bm_state(s, s.len()).0
}

/// Berlekamp-Massey algorithm to find the error locator polynomial Lambda(x).
pub fn rs_berlekamp_massey(syndromes: &[u8]) -> (c: Vec<u8>)
    requires
        syndromes@.len() < usize::MAX,
    ensures
        c@ == bm_locator(syndromes@),
        1 <= c@.len() <= syndromes@.len() + 1,
        c@[0] == 1,
{
    let ghost s = syndromes@;
    let mut c: Vec<u8> = Vec::new();
    c.push(1u8);
    let mut b: Vec<u8> = Vec::new();
    b.push(1u8);
    let mut l: usize = 0;
    let mut m: usize = 1;
    let mut b_scale: u8 = 1;
    assert(c@ =~= seq![1u8]);
    assert(b@ =~= seq![1u8]);
    let mut n: usize = 0;
    while n < syndromes.len()
        invariant
            0 <= n <= syndromes@.len(),
            s == syndromes@,
            syndromes@.len() < usize::MAX,
            (c@, b@, l as nat, m as nat, b_scale) == bm_state(s, n as nat),
            l <= n,
            1 <= c@.len() <= n + 1,
            1 <= b@.len(),
            1 <= m,
            b@.len() + m <= n + 2,
            b_scale != 0,
            c@[0] == 1,
        decreases syndromes.len() - n,
    {
        let mut d = syndromes[n];
        let mut i: usize = 1;
        while i <= l
            invariant
                1 <= i <= l + 1,
                l <= n < syndromes@.len(),
                syndromes@.len() < usize::MAX,
                s == syndromes@,
                d == bm_discrepancy(s, n as int, c@, i - 1),
            decreases l + 1 - i,
        {
            if i < c.len() {
                d = d ^ gf_mul(c[i], syndromes[n - i]);
            } else {
                proof {
                    lemma_xor_facts(d, 0u8, 0u8);
                }
            }
            i = i + 1;
        }
        if d == 0 {
            m = m + 1;
        } else {
            let t = c.clone();
            assert(t@ =~= c@);
            let scale = gf_div(d, b_scale);
            let needed = m + b.len();
            let ghost c0 = c@;
            if c.len() < needed {
                c.resize(needed, 0u8);
            }
            assert forall|k: int| 0 <= k < c@.len() implies #[trigger] c@[k] == (if k < c0.len() {
                c0[k]
            } else {
                0u8
            }) ^ 0u8 by {
                lemma_xor_facts(c@[k], 0u8, 0u8);
            }
            let mut j: usize = 0;
            while j < b.len()
                invariant
                    0 <= j <= b@.len(),
                    m + b@.len() == needed,
                    c@.len() == (if c0.len() >= needed {
                        c0.len() as int
                    } else {
                        needed as int
                    }),
                    forall|k: int|
                        0 <= k < c@.len() ==> #[trigger] c@[k] == (if k < c0.len() {
                            c0[k]
                        } else {
                            0u8
                        }) ^ (if m <= k < m + j {
                            gf_mul_spec(scale, b@[k - m])
                        } else {
                            0u8
                        }),
                decreases b@.len() - j,
            {
                let v = c[m + j] ^ gf_mul(scale, b[j]);
                c.set(m + j, v);
                proof {
                    let k0 = (m + j) as int;
                    let base = if k0 < c0.len() {
                        c0[k0]
                    } else {
                        0u8
                    };
                    lemma_xor_facts(base, 0u8, gf_mul_spec(scale, b@[j as int]));
                }
                j = j + 1;
            }
            assert(c@ =~= bm_update(c0, b@, m as int, gf_div_spec(d, b_scale)));
            if l <= n - l {
                l = n + 1 - l;
                b = t;
                b_scale = d;
                m = 1;
            } else {
                m = m + 1;
            }
        }
        n = n + 1;
    }
    c
}

/// `p[0] + p[1] z + ... + p[m-1] z^(m-1)`: evaluation of the first `m`
/// coefficients of a constant-term-first polynomial at `z`.
pub open spec fn eval_asc(p: Seq<u8>, z: u8, m: int) -> u8
    decreases m,
{
    if m <= 0 {
        0
    } else {
        eval_asc(p, z, m - 1) ^ gf_mul_spec(p[m - 1], gf_pow(z, (m - 1) as nat))
    }
}

/// The evaluation point tested for an error at position `j` of an
/// `n`-symbol codeword: `alpha^(-(n - 1 - j))`.
pub open spec fn chien_point(n: int, j: int) -> u8 {
    exp_table_entry((255 - ((n - 1 - j) % 255)) % 255)
}

/// Whether position `j` is a root position of the locator polynomial.
pub open spec fn is_chien_root(loc: Seq<u8>, n: int, j: int) -> bool {
    eval_asc(loc, chien_point(n, j), loc.len() as int) == 0
}

/// The root positions among `0..m`, in increasing order.
pub open spec fn chien_roots(loc: Seq<u8>, n: int, m: int) -> Seq<usize>
    decreases m,
{
    if m <= 0 {
        Seq::empty()
    } else {
        chien_roots(loc, n, m - 1) + (if is_chien_root(loc, n, m - 1) {
            seq![(m - 1) as usize]
        } else {
            Seq::empty()
        })
    }
}

/// The index of the last nonzero coefficient among the first `m`, or 0 if
/// there is none: the degree of a constant-term-first polynomial.
pub open spec fn last_nonzero_index(p: Seq<u8>, m: int) -> int
    decreases m,
{
    if m <= 0 {
        0
    } else if p[m - 1] != 0 {
        m - 1
    } else {
        last_nonzero_index(p, m - 1)
    }
}

proof fn lemma_chien_roots_bounds(loc: Seq<u8>, n: int, m: int)
    requires
        0 <= m,
    ensures
        chien_roots(loc, n, m).len() <= m,
        forall|k: int|
            0 <= k < chien_roots(loc, n, m).len() ==> #[trigger] chien_roots(loc, n, m)[k] < m,
    decreases m,
{
    if m > 0 {
        lemma_chien_roots_bounds(loc, n, m - 1);
    }
}

/// Chien search: evaluate roots of Lambda(x) to determine error locations.
pub fn rs_chien_search(locator: &[u8], n: usize) -> (r: Result<Vec<usize>, RrcError>)
    ensures
        match r {
            Ok(v) => v@ == chien_roots(locator@, n as int, n as int) && v@.len()
                == last_nonzero_index(locator@, locator@.len() as int) && (forall|k: int|
                0 <= k < v@.len() ==> #[trigger] v@[k] < n),
            Err(e) => e == RrcError::EccUncorrectable && chien_roots(
                locator@,
                n as int,
                n as int,
            ).len() != last_nonzero_index(locator@, locator@.len() as int),
        },
{
    let t = exp_table();
    let mut err_pos: Vec<usize> = Vec::new();
    let mut j: usize = 0;
    while j < n
        invariant
            0 <= j <= n,
            t.len() == 512,
            forall|k: int| 0 <= k < 512 ==> t[k] == exp_table_entry(k),
            err_pos@ == chien_roots(locator@, n as int, j as int),
        decreases n - j,
    {
        let power = (255 - ((n - 1 - j) % 255)) % 255;
        let z = t[power];
        let mut val: u8 = 0;
        let mut term: u8 = 1;
        let mut k: usize = 0;
        while k < locator.len()
            invariant
                0 <= k <= locator@.len(),
                val == eval_asc(locator@, z, k as int),
                term == gf_pow(z, k as nat),
            decreases locator@.len() - k,
        {
            val = val ^ gf_mul(locator[k], term);
            term = gf_mul(term, z);
            k = k + 1;
        }
        if val == 0 {
            err_pos.push(j);
        }
        assert(err_pos@ =~= chien_roots(locator@, n as int, j as int + 1));
        j = j + 1;
    }
    let mut deg: usize = 0;
    let mut q: usize = 0;
    while q < locator.len()
        invariant
            0 <= q <= locator@.len(),
            deg == last_nonzero_index(locator@, q as int),
        decreases locator@.len() - q,
    {
        if locator[q] != 0 {
            deg = q;
        }
        q = q + 1;
    }
    if err_pos.len() != deg {
        return Err(RrcError::EccUncorrectable);
    }
    proof {
        lemma_chien_roots_bounds(locator@, n as int, n as int);
    }
    Ok(err_pos)
}

/// `s` cut down to at most `len` entries.
pub open spec fn truncate_to(s: Seq<u8>, len: int) -> Seq<u8> {
    if s.len() > len {
        s.take(len)
    } else {
        s
    }
}

/// The error evaluator `Omega(x) = S(x) * Lambda(x) mod x^(syn.len())`.
pub open spec fn forney_omega(syn: Seq<u8>, loc: Seq<u8>) -> Seq<u8> {
    truncate_to(poly_mul_spec(syn, loc), syn.len() as int)
}

/// The formal derivative of a constant-term-first polynomial over a field
/// of characteristic 2: the odd-degree coefficients shifted down by one.
pub open spec fn formal_derivative(loc: Seq<u8>) -> Seq<u8> {
    Seq::new(
        loc.len(),
        |k: int|
            if k + 1 < loc.len() && (k + 1) % 2 == 1 {
                loc[k + 1]
            } else {
                0u8
            },
    )
}

/// The error locator value `X = alpha^(n - 1 - j)` of position `j`.
pub open spec fn forney_x(n: int, j: int) -> u8 {
    exp_table_entry((n - 1 - j) % 255)
}

/// Forney's error magnitudes for the first `m` positions of `pos`:
/// `(j, X * Omega(X^-1) / Lambda'(X^-1))`, skipping the positions at which
/// the derivative vanishes.
pub open spec fn forney_list(syn: Seq<u8>, loc: Seq<u8>, pos: Seq<usize>, n: int, m: int) -> Seq<
    (usize, u8),
>
    decreases m,
{
    if m <= 0 {
        Seq::empty()
    } else {
        let prev = forney_list(syn, loc, pos, n, m - 1);
        let j = pos[m - 1] as int;
        let z = chien_point(n, j);
        let omega = forney_omega(syn, loc);
        let deriv = formal_derivative(loc);
        let ov = eval_asc(omega, z, omega.len() as int);
        let lv = eval_asc(deriv, z, deriv.len() as int);
        if lv == 0 {
            prev
        } else {
            prev.push((pos[m - 1], gf_mul_spec(forney_x(n, j), gf_div_spec(ov, lv))))
        }
    }
}

proof fn lemma_forney_list_bounds(syn: Seq<u8>, loc: Seq<u8>, pos: Seq<usize>, n: int, m: int)
    requires
        0 <= m <= pos.len(),
        forall|k: int| 0 <= k < pos.len() ==> #[trigger] pos[k] < n,
    ensures
        forney_list(syn, loc, pos, n, m).len() <= m,
        forall|k: int|
            0 <= k < forney_list(syn, loc, pos, n, m).len() ==> #[trigger] forney_list(
                syn,
                loc,
                pos,
                n,
                m,
            )[k].0 < n,
    decreases m,
{
    if m > 0 {
        lemma_forney_list_bounds(syn, loc, pos, n, m - 1);
    }
}

/// Forney's algorithm: calculate error magnitudes for identified error positions.
pub fn rs_forney(syndromes: &[u8], locator: &[u8], err_pos: &[usize], n: usize) -> (corrections:
    Vec<(usize, u8)>)
    requires
        syndromes@.len() + locator@.len() >= 1,
        syndromes@.len() + locator@.len() <= usize::MAX,
        locator@.len() < usize::MAX,
        forall|k: int| 0 <= k < err_pos@.len() ==> #[trigger] err_pos@[k] < n,
    ensures
        corrections@ == forney_list(syndromes@, locator@, err_pos@, n as int, err_pos@.len() as int),
        corrections@.len() <= err_pos@.len(),
        forall|k: int| 0 <= k < corrections@.len() ==> #[trigger] corrections@[k].0 < n,
{
    let t = exp_table();
    let full_omega = poly_mul(syndromes, locator);
    let mut omega: Vec<u8> = Vec::new();
    let olen = if full_omega.len() > syndromes.len() {
        syndromes.len()
    } else {
        full_omega.len()
    };
    let mut q: usize = 0;
    while q < olen
        invariant
            0 <= q <= olen,
            olen <= full_omega@.len(),
            omega@ == full_omega@.take(q as int),
        decreases olen - q,
    {
        omega.push(full_omega[q]);
        assert(omega@ =~= full_omega@.take(q as int + 1));
        q = q + 1;
    }
    assert(omega@ =~= forney_omega(syndromes@, locator@));
    let mut loc_prime: Vec<u8> = vec![0u8; locator.len()];
    let mut i: usize = 1;
    while i < locator.len()
        invariant
            1 <= i,
            i % 2 == 1,
            i <= locator@.len() + 1,
            locator@.len() < usize::MAX,
            loc_prime@.len() == locator@.len(),
            forall|k: int|
                0 <= k < locator@.len() ==> #[trigger] loc_prime@[k] == (if k + 1 < i && k + 1
                    < locator@.len() && (k + 1) % 2 == 1 {
                    locator@[k + 1]
                } else {
                    0u8
                }),
        decreases locator@.len() + 1 - i,
    {
        loc_prime.set(i - 1, locator[i]);
        i = i + 2;
    }
    assert(loc_prime@ =~= formal_derivative(locator@));
    let mut corrections: Vec<(usize, u8)> = Vec::new();
    let mut e: usize = 0;
    while e < err_pos.len()
        invariant
            0 <= e <= err_pos@.len(),
            forall|k: int| 0 <= k < err_pos@.len() ==> #[trigger] err_pos@[k] < n,
            t.len() == 512,
            forall|k: int| 0 <= k < 512 ==> t[k] == exp_table_entry(k),
            omega@ == forney_omega(syndromes@, locator@),
            loc_prime@ == formal_derivative(locator@),
            corrections@ == forney_list(syndromes@, locator@, err_pos@, n as int, e as int),
        decreases err_pos@.len() - e,
    {
        let j = err_pos[e];
        let x_k = t[(n - 1 - j) % 255];
        let z = t[(255 - ((n - 1 - j) % 255)) % 255];
        let mut omega_val: u8 = 0;
        let mut term: u8 = 1;
        let mut a: usize = 0;
        while a < omega.len()
            invariant
                0 <= a <= omega@.len(),
                omega_val == eval_asc(omega@, z, a as int),
                term == gf_pow(z, a as nat),
            decreases omega@.len() - a,
        {
            omega_val = omega_val ^ gf_mul(omega[a], term);
            term = gf_mul(term, z);
            a = a + 1;
        }
        let mut loc_prime_val: u8 = 0;
        let mut term_p: u8 = 1;
        let mut b: usize = 0;
        while b < loc_prime.len()
            invariant
                0 <= b <= loc_prime@.len(),
                loc_prime_val == eval_asc(loc_prime@, z, b as int),
                term_p == gf_pow(z, b as nat),
            decreases loc_prime@.len() - b,
        {
            loc_prime_val = loc_prime_val ^ gf_mul(loc_prime[b], term_p);
            term_p = gf_mul(term_p, z);
            b = b + 1;
        }
        if loc_prime_val != 0 {
            let mag = gf_mul(x_k, gf_div(omega_val, loc_prime_val));
            corrections.push((j, mag));
        }
        e = e + 1;
    }
    proof {
        lemma_forney_list_bounds(syndromes@, locator@, err_pos@, n as int, err_pos@.len() as int);
    }
    corrections
}

/// Apply `(position, magnitude)` corrections in order, XORing each
/// magnitude into the symbol at its position.
pub open spec fn apply_corrections(c: Seq<u8>, corr: Seq<(usize, u8)>) -> Seq<u8>
    decreases corr.len(),
{
    if corr.len() == 0 {
        c
    } else {
        let prev = apply_corrections(c, corr.drop_last());
        let p = corr.last().0 as int;
        prev.update(p, prev[p] ^ corr.last().1)
    }
}

/// The number of indices below `m` at which `a` and `b` differ.
pub open spec fn differ_count(a: Seq<u8>, b: Seq<u8>, m: int) -> nat
    decreases m,
{
    if m <= 0 {
        0
    } else {
        differ_count(a, b, m - 1) + (if a[m - 1] != b[m - 1] {
            1nat
        } else {
            0nat
        })
    }
}

/// The Hamming distance between two equally long symbol sequences.
pub open spec fn hamming_distance(a: Seq<u8>, b: Seq<u8>) -> nat {
    differ_count(a, b, a.len() as int)
}

/// A Reed-Solomon codeword with `e` parity symbols: all of its first `e`
/// syndromes vanish.
pub open spec fn is_rs_codeword(w: Seq<u8>, e: nat) -> bool {
    all_zero(syndromes_spec(w, e))
}

/// The result of decoding one Reed-Solomon block with `e` parity symbols:
/// the data prefix of the received word if its syndromes vanish, otherwise
/// the data prefix of the word corrected by Berlekamp-Massey, Chien search
/// and Forney's algorithm, provided it locates at most `e / 2` errors and
/// the corrected word is a codeword.
pub open spec fn rs_decode_block_spec(c: Seq<u8>, e: nat) -> Result<Seq<u8>, RrcError> {
    let n = c.len() as int;
    if n < e {
        Err(RrcError::EccUncorrectable)
    } else {
        let data_len = n - e;
        let syn = syndromes_spec(c, e);
        if all_zero(syn) {
            Ok(c.take(data_len))
        } else {
            let loc = bm_locator(syn);
            let roots = chien_roots(loc, n, n);
            if roots.len() != last_nonzero_index(loc, loc.len() as int) {
                Err(RrcError::EccUncorrectable)
            } else if roots.len() > e / 2 {
                Err(RrcError::EccUncorrectable)
            } else {
                let fixed = apply_corrections(c, forney_list(syn, loc, roots, n, roots.len() as int));
                if all_zero(syndromes_spec(fixed, e)) {
                    Ok(fixed.take(data_len))
                } else {
                    Err(RrcError::EccUncorrectable)
                }
            }
        }
    }
}

/// The view of a decoding result.
pub open spec fn bytes_result_view(r: Result<Vec<u8>, RrcError>) -> Result<Seq<u8>, RrcError> {
    match r {
        Ok(v) => Ok(v@),
        Err(e) => Err(e),
    }
}

proof fn lemma_differ_update(a: Seq<u8>, b: Seq<u8>, p: int, v: u8, m: int)
    requires
        0 <= p < b.len(),
        0 <= m <= b.len(),
        a.len() == b.len(),
    ensures
        differ_count(a, b.update(p, v), m) <= differ_count(a, b, m) + 1,
        p >= m ==> differ_count(a, b.update(p, v), m) == differ_count(a, b, m),
    decreases m,
{
    if m > 0 {
        lemma_differ_update(a, b, p, v, m - 1);
    }
}

proof fn lemma_differ_self(a: Seq<u8>, m: int)
    requires
        0 <= m <= a.len(),
    ensures
        differ_count(a, a, m) == 0,
    decreases m,
{
    if m > 0 {
        lemma_differ_self(a, m - 1);
    }
}

/// Applying `k` corrections moves a word by at most `k` symbols.
pub proof fn lemma_apply_corrections_distance(c: Seq<u8>, corr: Seq<(usize, u8)>)
    requires
        forall|k: int| 0 <= k < corr.len() ==> #[trigger] corr[k].0 < c.len(),
    ensures
        apply_corrections(c, corr).len() == c.len(),
        hamming_distance(c, apply_corrections(c, corr)) <= corr.len(),
    decreases corr.len(),
{
    if corr.len() == 0 {
        lemma_differ_self(c, c.len() as int);
    } else {
        let rest = corr.drop_last();
        assert forall|k: int| 0 <= k < rest.len() implies #[trigger] rest[k].0 < c.len() by {
            assert(rest[k] == corr[k]);
        }
        lemma_apply_corrections_distance(c, rest);
        let prev = apply_corrections(c, rest);
        let p = corr.last().0 as int;
        assert(corr.last() == corr[corr.len() - 1]);
        lemma_differ_update(c, prev, p, prev[p] ^ corr.last().1, c.len() as int);
    }
}

fn prefix_vec(s: &[u8], len: usize) -> (r: Vec<u8>)
    requires
        len <= s@.len(),
    ensures
        r@ == s@.take(len as int),
{
    let mut r: Vec<u8> = Vec::new();
    let mut i: usize = 0;
    while i < len
        invariant
            0 <= i <= len <= s@.len(),
            r@ == s@.take(i as int),
        decreases len - i,
    {
        r.push(s[i]);
        assert(r@ =~= s@.take(i as int + 1));
        i = i + 1;
    }
    r
}

fn slice_vec(s: &[u8], from: usize, to: usize) -> (r: Vec<u8>)
    requires
        from <= to <= s@.len(),
    ensures
        r@ == s@.subrange(from as int, to as int),
{
    let mut r: Vec<u8> = Vec::new();
    let mut i: usize = from;
    while i < to
        invariant
            from <= i <= to <= s@.len(),
            r@ == s@.subrange(from as int, i as int),
        decreases to - i,
    {
        r.push(s[i]);
        assert(r@ =~= s@.subrange(from as int, i as int + 1));
        i = i + 1;
    }
    r
}

fn is_all_zero(s: &[u8]) -> (b: bool)
    ensures
        b == all_zero(s@),
{
    let mut i: usize = 0;
    while i < s.len()
        invariant
            0 <= i <= s@.len(),
            forall|k: int| 0 <= k < i ==> s@[k] == 0u8,
        decreases s@.len() - i,
    {
        if s[i] != 0 {
            return false;
        }
        i = i + 1;
    }
    true
}

/// Machine limits on the sizes handled by the block decoders.
pub open spec fn block_sizes_fit(n: int, e: int) -> bool {
    &&& syndrome_indices_fit(n, e)
    &&& e < usize::MAX / 4
}

/// Decode a single Reed-Solomon codeword block.
/// Corrects up to `ecc_len / 2` errors. Returns the corrected data codewords.
#[verifier::rlimit(50)]
pub fn rs_decode_block(codeword: &[u8], ecc_len: usize) -> (r: Result<Vec<u8>, RrcError>)
    requires
        block_sizes_fit(codeword@.len() as int, ecc_len as int),
    ensures
        bytes_result_view(r) == rs_decode_block_spec(codeword@, ecc_len as nat),
        r matches Ok(d) ==> exists|w: Seq<u8>|
            #![trigger is_rs_codeword(w, ecc_len as nat)]
            w.len() == codeword@.len() && is_rs_codeword(w, ecc_len as nat) && hamming_distance(
                codeword@,
                w,
            ) <= ecc_len / 2 && d@ == w.take(codeword@.len() - ecc_len),
        codeword@.len() <= 255 && ecc_len <= codeword@.len() ==> forall|w: Seq<u8>|
            #![trigger is_rs_codeword(w, ecc_len as nat)]
            w.len() == codeword@.len() && is_rs_codeword(w, ecc_len as nat) && hamming_distance(
                codeword@,
                w,
            ) <= ecc_len / 2 ==> bytes_result_view(r) == Ok::<Seq<u8>, RrcError>(
                w.take(codeword@.len() - ecc_len),
            ),
{
    proof {
        if codeword@.len() <= 255 && ecc_len <= codeword@.len() {
            assert forall|w: Seq<u8>|
                #![trigger is_rs_codeword(w, ecc_len as nat)]
                w.len() == codeword@.len() && is_rs_codeword(w, ecc_len as nat) && hamming_distance(
                    codeword@,
                    w,
                ) <= ecc_len / 2 implies rs_decode_block_spec(codeword@, ecc_len as nat) == Ok::<
                Seq<u8>,
                RrcError,
            >(w.take(codeword@.len() - ecc_len)) by {
                lemma_rs_corrects_half_parity(codeword@, w, ecc_len as nat);
            }
        }
    }
    let n = codeword.len();
    if n < ecc_len {
        return Err(RrcError::EccUncorrectable);
    }
    let data_len = n - ecc_len;
    let syn = rs_calc_syndromes(codeword, ecc_len);
    if is_all_zero(syn.as_slice()) {
        proof {
            lemma_differ_self(codeword@, n as int);
            assert(is_rs_codeword(codeword@, ecc_len as nat));
        }
        return Ok(prefix_vec(codeword, data_len));
    }
    let locator = rs_berlekamp_massey(syn.as_slice());
    let positions = rs_chien_search(locator.as_slice(), n)?;
    if positions.len() > ecc_len / 2 {
        return Err(RrcError::EccUncorrectable);
    }
    let corrections = rs_forney(syn.as_slice(), locator.as_slice(), positions.as_slice(), n);
    let mut corrected: Vec<u8> = prefix_vec(codeword, n);
    assert(corrected@ =~= codeword@);
    let mut q: usize = 0;
    while q < corrections.len()
        invariant
            0 <= q <= corrections@.len(),
            corrected@ == apply_corrections(codeword@, corrections@.take(q as int)),
            corrected@.len() == n,
            n == codeword@.len(),
            forall|k: int| 0 <= k < corrections@.len() ==> #[trigger] corrections@[k].0 < n,
        decreases corrections@.len() - q,
    {
        let (pos, mag) = corrections[q];
        let v = corrected[pos] ^ mag;
        corrected.set(pos, v);
        assert(corrections@.take(q as int + 1).drop_last() =~= corrections@.take(q as int));
        q = q + 1;
    }
    assert(corrections@.take(corrections@.len() as int) =~= corrections@);
    let syn_check = rs_calc_syndromes(corrected.as_slice(), ecc_len);
    if !is_all_zero(syn_check.as_slice()) {
        return Err(RrcError::EccUncorrectable);
    }
    proof {
        lemma_apply_corrections_distance(codeword@, corrections@);
        assert(is_rs_codeword(corrected@, ecc_len as nat));
    }
    Ok(prefix_vec(corrected.as_slice(), data_len))
}

/// The erasure locator `Gamma(x) = prod (1 + X_k x)` over the first `m`
/// erasure positions, constant term first.
pub open spec fn erasure_locator(erasures: Seq<usize>, n: int, m: int) -> Seq<u8>
    decreases m,
{
    if m <= 0 {
        seq![1u8]
    } else {
        poly_mul_spec(
            erasure_locator(erasures, n, m - 1),
            seq![1u8, forney_x(n, erasures[m - 1] as int)],
        )
    }
}

proof fn lemma_erasure_locator_len(erasures: Seq<usize>, n: int, m: int)
    requires
        0 <= m,
    ensures
        erasure_locator(erasures, n, m).len() == m + 1,
    decreases m,
{
    if m > 0 {
        lemma_erasure_locator_len(erasures, n, m - 1);
    }
}

/// The modified syndromes `S * Gamma mod x^e` from index `v` on, `v` being
/// the number of erasures: the terms in which the erasures no longer appear.
pub open spec fn forney_syndromes(syn: Seq<u8>, gamma: Seq<u8>, v: int, e: int) -> Seq<u8> {
    let t = truncate_to(poly_mul_spec(syn, gamma), e);
    if v <= t.len() {
        t.subrange(v, t.len() as int)
    } else {
        Seq::empty()
    }
}

/// The combined errata locator: `Gamma` itself when every parity symbol is
/// spent on erasures, otherwise `Lambda * Gamma` where `Lambda` comes from
/// Berlekamp-Massey on the modified syndromes past the erasures.
pub open spec fn errata_locator(syn: Seq<u8>, erasures: Seq<usize>, n: int, e: nat) -> Seq<u8> {
    let gamma = erasure_locator(erasures, n, erasures.len() as int);
    if erasures.len() == e {
        gamma
    } else {
        poly_mul_spec(
            bm_locator(forney_syndromes(syn, gamma, erasures.len() as int, e as int)),
            gamma,
        )
    }
}

/// The result of decoding one block with known erasure positions.
pub open spec fn rs_decode_block_erasures_spec(c: Seq<u8>, e: nat, erasures: Seq<usize>) -> Result<
    Seq<u8>,
    RrcError,
> {
    let n = c.len() as int;
    if n < e || erasures.len() > e {
        Err(RrcError::EccUncorrectable)
    } else {
        let data_len = n - e;
        let syn = syndromes_spec(c, e);
        if all_zero(syn) {
            Ok(c.take(data_len))
        } else if erasures.len() == 0 {
            rs_decode_block_spec(c, e)
        } else {
            let loc = errata_locator(syn, erasures, n, e);
            let roots = chien_roots(loc, n, n);
            if roots.len() != last_nonzero_index(loc, loc.len() as int) {
                Err(RrcError::EccUncorrectable)
            } else if roots.len() > e {
                Err(RrcError::EccUncorrectable)
            } else {
                let fixed = apply_corrections(c, forney_list(syn, loc, roots, n, roots.len() as int));
                if all_zero(syndromes_spec(fixed, e)) {
                    Ok(fixed.take(data_len))
                } else {
                    Err(RrcError::EccUncorrectable)
                }
            }
        }
    }
}

/// Whether the decoder reaches the erasure locator, where every erasure
/// position must lie inside the codeword.
pub open spec fn erasure_locator_reached(c: Seq<u8>, e: nat, erasures: Seq<usize>) -> bool {
    &&& c.len() >= e
    &&& erasures.len() <= e
    &&& !all_zero(syndromes_spec(c, e))
    &&& erasures.len() > 0
}

/// Decode a single Reed-Solomon codeword block with optional known erasure positions.
/// Corrects up to `2e + v <= ecc_len` where `e` is unknown errors and `v` is known erasures.
#[verifier::rlimit(50)]
pub fn rs_decode_block_erasures(codeword: &[u8], ecc_len: usize, erasures: &[usize]) -> (r: Result<
    Vec<u8>,
    RrcError,
>)
    requires
        block_sizes_fit(codeword@.len() as int, ecc_len as int),
        erasure_locator_reached(codeword@, ecc_len as nat, erasures@) ==> forall|k: int|
            0 <= k < erasures@.len() ==> #[trigger] erasures@[k] < codeword@.len(),
    ensures
        bytes_result_view(r) == rs_decode_block_erasures_spec(codeword@, ecc_len as nat, erasures@),
        r matches Ok(d) ==> exists|w: Seq<u8>|
            #![trigger is_rs_codeword(w, ecc_len as nat)]
            w.len() == codeword@.len() && is_rs_codeword(w, ecc_len as nat) && hamming_distance(
                codeword@,
                w,
            ) <= ecc_len && d@ == w.take(codeword@.len() - ecc_len),
{
    let n = codeword.len();
    if n < ecc_len || erasures.len() > ecc_len {
        return Err(RrcError::EccUncorrectable);
    }
    let data_len = n - ecc_len;
    let syn = rs_calc_syndromes(codeword, ecc_len);
    if is_all_zero(syn.as_slice()) {
        proof {
            lemma_differ_self(codeword@, n as int);
            assert(is_rs_codeword(codeword@, ecc_len as nat));
        }
        return Ok(prefix_vec(codeword, data_len));
    }
    if erasures.len() == 0 {
        return rs_decode_block(codeword, ecc_len);
    }
    let t = exp_table();
    let mut gamma: Vec<u8> = Vec::new();
    gamma.push(1u8);
    assert(gamma@ =~= erasure_locator(erasures@, n as int, 0));
    let mut q: usize = 0;
    while q < erasures.len()
        invariant
            0 <= q <= erasures@.len() <= ecc_len < usize::MAX / 4,
            n == codeword@.len(),
            forall|k: int| 0 <= k < erasures@.len() ==> #[trigger] erasures@[k] < n,
            t.len() == 512,
            forall|k: int| 0 <= k < 512 ==> t[k] == exp_table_entry(k),
            gamma@ == erasure_locator(erasures@, n as int, q as int),
        decreases erasures@.len() - q,
    {
        proof {
            lemma_erasure_locator_len(erasures@, n as int, q as int);
        }
        let j = erasures[q];
        let mut f: Vec<u8> = Vec::new();
        f.push(1u8);
        f.push(t[(n - 1 - j) % 255]);
        assert(f@ =~= seq![1u8, forney_x(n as int, erasures@[q as int] as int)]);
        gamma = poly_mul(gamma.as_slice(), f.as_slice());
        q = q + 1;
    }
    proof {
        lemma_erasure_locator_len(erasures@, n as int, erasures@.len() as int);
    }
    let locator = if erasures.len() == ecc_len {
        gamma
    } else {
        let s_star = poly_mul(syn.as_slice(), gamma.as_slice());
        let slen = if s_star.len() > ecc_len {
            ecc_len
        } else {
            s_star.len()
        };
        let start = if erasures.len() <= slen {
            erasures.len()
        } else {
            slen
        };
        let s_mod = slice_vec(s_star.as_slice(), start, slen);
        assert(s_mod@ =~= forney_syndromes(
            syn@,
            gamma@,
            erasures@.len() as int,
            ecc_len as int,
        ));
        let lambda = rs_berlekamp_massey(s_mod.as_slice());
        poly_mul(lambda.as_slice(), gamma.as_slice())
    };
    assert(locator@ == errata_locator(syn@, erasures@, n as int, ecc_len as nat));
    let all_positions = rs_chien_search(locator.as_slice(), n)?;
    if all_positions.len() > ecc_len {
        return Err(RrcError::EccUncorrectable);
    }
    let corrections = rs_forney(syn.as_slice(), locator.as_slice(), all_positions.as_slice(), n);
    let mut corrected: Vec<u8> = prefix_vec(codeword, n);
    assert(corrected@ =~= codeword@);
    let mut c: usize = 0;
    while c < corrections.len()
        invariant
            0 <= c <= corrections@.len(),
            corrected@ == apply_corrections(codeword@, corrections@.take(c as int)),
            corrected@.len() == n,
            n == codeword@.len(),
            forall|k: int| 0 <= k < corrections@.len() ==> #[trigger] corrections@[k].0 < n,
        decreases corrections@.len() - c,
    {
        let (pos, mag) = corrections[c];
        let v = corrected[pos] ^ mag;
        corrected.set(pos, v);
        assert(corrections@.take(c as int + 1).drop_last() =~= corrections@.take(c as int));
        c = c + 1;
    }
    assert(corrections@.take(corrections@.len() as int) =~= corrections@);
    let syn_check = rs_calc_syndromes(corrected.as_slice(), ecc_len);
    if !is_all_zero(syn_check.as_slice()) {
        return Err(RrcError::EccUncorrectable);
    }
    proof {
        lemma_apply_corrections_distance(codeword@, corrections@);
        assert(is_rs_codeword(corrected@, ecc_len as nat));
    }
    Ok(prefix_vec(corrected.as_slice(), data_len))
}

/// The generator polynomial is monic.
pub proof fn lemma_gen_poly_monic(n: nat)
    ensures
        gen_poly_spec(n)[0] == 1,
    decreases n,
{
    if n > 0 {
        lemma_gen_poly_monic((n - 1) as nat);
        let p = gen_poly_spec((n - 1) as nat);
        let a = exp_table_entry(n - 1);
        lemma_gen_poly_len((n - 1) as nat);
        lemma_poly_mul_linear_split(p, a);
        lemma_mul_zero_one(a);
        lemma_xor_facts(1u8, 0u8, 0u8);
        assert((seq![0u8] + p)[0] == 0u8);
    }
}

/// Every table entry `exp_table_entry(i)` with `i < n` is a root of the
/// generator polynomial for `n` symbols.
pub proof fn lemma_gen_poly_roots(n: nat, i: int)
    requires
        0 <= i < n,
    ensures
        poly_eval(gen_poly_spec(n), exp_table_entry(i)) == 0,
    decreases n,
{
    let y = exp_table_entry(i);
    let p = gen_poly_spec((n - 1) as nat);
    let a = exp_table_entry(n - 1);
    lemma_eval_mul_linear(p, a, y);
    if i == n - 1 {
        lemma_xor_facts(y, 0u8, 0u8);
        lemma_mul_zero_one(poly_eval(p, y));
    } else {
        lemma_gen_poly_roots((n - 1) as nat, i);
        lemma_mul_zero_one(y ^ a);
    }
}

/// The shift register keeps the remainder congruent to `msg(x) * x^e`
/// at every root `y` of the monic generator.
pub proof fn lemma_remainder_eval(msg: Seq<u8>, gen: Seq<u8>, e: nat, y: u8)
    requires
        e >= 1,
        gen.len() == e + 1,
        gen[0] == 1,
        poly_eval(gen, y) == 0,
    ensures
        poly_eval(rs_remainder(msg, gen, e), y) == gf_mul_spec(poly_eval(msg, y), gf_pow(y, e)),
    decreases msg.len(),
{
    let ye = gf_pow(y, e);
    if msg.len() == 0 {
        crate::poly::lemma_eval_zeros(e, y);
        lemma_mul_zero_one(ye);
    } else {
        let m1 = msg.drop_last();
        let b = msg.last();
        lemma_remainder_eval(m1, gen, e, y);
        lemma_rs_remainder_len(m1, gen, e);
        let rem = rs_remainder(m1, gen, e);
        let r0 = rem[0];
        let f = b ^ r0;
        let tail = gen.drop_first();
        let shift = rem.drop_first().push(0u8);
        let next = lfsr_step(rem, b, gen);
        assert(next =~= seq_xor(shift, seq_scale(tail, f))) by {
            assert forall|j: int| 0 <= j < next.len() implies #[trigger] next[j] == seq_xor(
                shift,
                seq_scale(tail, f),
            )[j] by {
                lemma_mul_commutative(f, gen[j + 1]);
                if j == e - 1 {
                    lemma_xor_facts(gf_mul_spec(gen[j + 1], f), 0u8, 0u8);
                }
            }
        }
        assert(msg =~= m1.push(b));
        let rr = poly_eval(rem, y);
        let ye1 = gf_pow(y, (e - 1) as nat);
        let rest = rem.drop_first();
        // eval(rem) = r0 * y^(e-1) + eval(rest)
        lemma_eval_first(rem, y);
        let t0 = gf_mul_spec(r0, ye1);
        let er = poly_eval(rest, y);
        lemma_xor_facts(t0, er, t0);
        lemma_xor_facts(t0, t0, er);
        lemma_xor_facts(er, 0u8, 0u8);
        lemma_xor_facts(t0, er, 0u8);
        assert(er == rr ^ t0);
        // eval(shift) = rr * y + r0 * y^e
        lemma_eval_push(rest, 0u8, y);
        lemma_xor_facts(gf_mul_spec(er, y), 0u8, 0u8);
        lemma_mul_commutative(rr ^ t0, y);
        lemma_mul_distributive(y, rr, t0);
        lemma_mul_commutative(y, rr);
        lemma_mul_commutative(y, t0);
        lemma_mul_associative(r0, ye1, y);
        assert(ye == gf_mul_spec(ye1, y));
        let es = poly_eval(shift, y);
        assert(es == gf_mul_spec(rr, y) ^ gf_mul_spec(r0, ye));
        // eval(tail) = y^e
        lemma_eval_first(gen, y);
        lemma_gen_tail(gen, e);
        lemma_mul_zero_one(ye);
        let et = poly_eval(tail, y);
        lemma_xor_facts(ye, et, ye);
        lemma_xor_facts(ye, ye, et);
        lemma_xor_facts(et, 0u8, 0u8);
        assert(et == ye);
        // eval(next) = eval(shift) + y^e * f
        lemma_eval_xor(shift, seq_scale(tail, f), y);
        lemma_eval_scale(tail, f, y);
        lemma_mul_commutative(ye, f);
        lemma_mul_commutative(f, ye);
        lemma_mul_distributive(ye, b, r0);
        lemma_mul_commutative(ye, b);
        lemma_mul_commutative(ye, r0);
        let x1 = gf_mul_spec(rr, y);
        let x2 = gf_mul_spec(r0, ye);
        let x3 = gf_mul_spec(b, ye);
        assert(poly_eval(next, y) == (x1 ^ x2) ^ (x3 ^ x2));
        lemma_xor_facts(x1, x2, x3 ^ x2);
        lemma_xor_facts(x2, x3, x2);
        lemma_xor_facts(x3, x2, x2);
        lemma_xor_facts(x2, x2, x3);
        lemma_xor_facts(x3, x2, 0u8);
        lemma_xor_facts(x2, x3, 0u8);
        lemma_xor_facts(x3, 0u8, 0u8);
        assert(poly_eval(next, y) == x1 ^ x3);
        // target: (eval(m1) * y + b) * y^e
        let em = poly_eval(m1, y);
        lemma_eval_push(m1, b, y);
        lemma_mul_commutative(gf_mul_spec(em, y) ^ b, ye);
        lemma_mul_distributive(ye, gf_mul_spec(em, y), b);
        lemma_mul_commutative(ye, gf_mul_spec(em, y));
        lemma_mul_associative(em, y, ye);
        lemma_mul_commutative(y, ye);
        lemma_mul_associative(em, ye, y);
    }
}

proof fn lemma_gen_tail(gen: Seq<u8>, e: nat)
    requires
        gen.len() == e + 1,
    ensures
        gen.drop_first().len() == e,
        forall|j: int| 0 <= j < e ==> #[trigger] gen.drop_first()[j] == gen[j + 1],
{
}

/// Syndrome `i` is the evaluation of the codeword at `alpha^i`.
pub proof fn lemma_syndrome_is_eval(c: Seq<u8>, i: int)
    requires
        0 <= i,
    ensures
        syndrome_acc(c, i, c.len() as int) == poly_eval(c, alpha_pow(i as nat)),
{
    let n = c.len() as int;
    let y = alpha_pow(i as nat);
    lemma_syndrome_prefix(c, i, n);
    assert(c.take(n) =~= c);
    lemma_mul_zero_one(poly_eval(c, y));
}

proof fn lemma_syndrome_prefix(c: Seq<u8>, i: int, m: int)
    requires
        0 <= i,
        0 <= m <= c.len(),
    ensures
        syndrome_acc(c, i, m) == gf_mul_spec(
            poly_eval(c.take(m), alpha_pow(i as nat)),
            gf_pow(alpha_pow(i as nat), (c.len() - m) as nat),
        ),
    decreases m,
{
    let n = c.len() as int;
    let y = alpha_pow(i as nat);
    if m == 0 {
        assert(c.take(0) =~= Seq::<u8>::empty());
        lemma_mul_zero_one(gf_pow(y, n as nat));
    } else {
        lemma_syndrome_prefix(c, i, m - 1);
        let k = (n - m) as nat;
        let x = ((i * (n - 1 - (m - 1))) % 255) as int;
        assert(0 <= i * k) by (nonlinear_arith) requires 0 <= i, 0 <= k;
        assert(0 <= x < 255) by (nonlinear_arith) requires x == (i * k) % 255, 0 <= i * k;
        assert(x % 255 == x);
        lemma_alpha_pow_mod((i * k) as nat);
        lemma_pow_mul(2, i as nat, k);
        assert(exp_table_entry(x) == gf_pow(y, k));
        let pm = c.take(m - 1);
        assert(c.take(m) =~= pm.push(c[m - 1]));
        lemma_eval_push(pm, c[m - 1], y);
        let ep = poly_eval(pm, y);
        let yk = gf_pow(y, k);
        // (ep * y + c) * y^k == ep * y^(k+1) + c * y^k
        lemma_mul_commutative(gf_mul_spec(ep, y) ^ c[m - 1], yk);
        lemma_mul_distributive(yk, gf_mul_spec(ep, y), c[m - 1]);
        lemma_mul_commutative(yk, gf_mul_spec(ep, y));
        lemma_mul_commutative(yk, c[m - 1]);
        lemma_mul_associative(ep, y, yk);
        lemma_mul_commutative(y, yk);
        assert(gf_pow(y, k + 1) == gf_mul_spec(yk, y));
        assert((n - (m - 1)) as nat == k + 1);
    }
}

/// Reed-Solomon encoding produces a codeword: the message followed by its
/// parity has all syndromes zero.
pub proof fn lemma_rs_encode_block_codeword(msg: Seq<u8>, e: nat)
    requires
        e <= 512,
    ensures
        is_rs_codeword(msg + rs_parity_spec(msg, e), e),
{
    let c = msg + rs_parity_spec(msg, e);
    if e > 0 {
        let gen = gen_poly_spec(e);
        lemma_gen_poly_len(e);
        lemma_gen_poly_monic(e);
        lemma_rs_remainder_len(msg, gen, e);
        assert forall|i: int| 0 <= i < e implies #[trigger] syndromes_spec(c, e)[i] == 0u8 by {
            let y = alpha_pow(i as nat);
            lemma_alpha_pow_mod(i as nat);
            if i < 510 {
                assert(exp_table_entry(i) == y);
                lemma_gen_poly_roots(e, i);
            } else {
                assert(i % 255 == i - 510);
                assert(exp_table_entry(i - 510) == alpha_pow(((i - 510) % 255) as nat));
                assert((i - 510) % 255 == i - 510);
                lemma_gen_poly_roots(e, i - 510);
            }
            lemma_syndrome_is_eval(c, i);
            lemma_eval_concat(msg, rs_parity_spec(msg, e), y);
            lemma_remainder_eval(msg, gen, e, y);
            lemma_xor_facts(gf_mul_spec(poly_eval(msg, y), gf_pow(y, e)), 0u8, 0u8);
        }
    }
}

/// Decoding a freshly encoded block gives back its message.
pub proof fn lemma_rs_block_roundtrip(msg: Seq<u8>, e: nat)
    requires
        e <= 512,
    ensures
        rs_decode_block_spec(msg + rs_parity_spec(msg, e), e) == Ok::<Seq<u8>, RrcError>(msg),
        rs_decode_block_erasures_spec(msg + rs_parity_spec(msg, e), e, Seq::empty()) == Ok::<
            Seq<u8>,
            RrcError,
        >(msg),
{
    lemma_rs_encode_block_codeword(msg, e);
    if e > 0 {
        lemma_rs_remainder_len(msg, gen_poly_spec(e), e);
    }
    let c = msg + rs_parity_spec(msg, e);
    assert(c.take(msg.len() as int) =~= msg);
}

/// The number of interleaved blocks for `total` codewords (at most 255 each).
pub open spec fn rs_num_blocks(total: int) -> int {
    (total + 254) / 255
}

/// The data of block `b` when `dc` data codewords are split into `nb` blocks.
pub open spec fn data_block(data: Seq<u8>, dc: int, nb: int, b: int) -> Seq<u8> {
    data.subrange(split_offset(dc, nb, b), split_offset(dc, nb, b) + split_len(dc, nb, b))
}

/// The parity of block `b` when `ec` parity codewords are split into `nb` blocks.
pub open spec fn parity_block(data: Seq<u8>, dc: int, ec: int, nb: int, b: int) -> Seq<u8> {
    rs_parity_spec(data_block(data, dc, nb, b), split_len(ec, nb, b) as nat)
}

/// The full message: data followed by parity for a single block; otherwise
/// the interleaved data of all blocks followed by their interleaved parity.
pub open spec fn rs_encode_spec(data: Seq<u8>, total: int, ec: int) -> Seq<u8> {
    let dc = total - ec;
    let nb = rs_num_blocks(total);
    if nb <= 1 {
        data + rs_parity_spec(data, ec as nat)
    } else {
        interleave_spec(Seq::new(nb as nat, |b: int| data_block(data, dc, nb, b)), dc, nb)
            + interleave_spec(
            Seq::new(nb as nat, |b: int| parity_block(data, dc, ec, nb, b)),
            ec,
            nb,
        )
    }
}

/// Block `b` of a received message: its data and parity read back out of
/// the two interleaved regions.
pub open spec fn received_block(received: Seq<u8>, dc: int, ec: int, nb: int, b: int) -> Seq<u8> {
    deinterleave_block(received, 0, dc, nb, b) + deinterleave_block(received, dc, ec, nb, b)
}

/// The block holding position `i` of a received message of `dc` data and
/// `ec` parity codewords split into `nb` blocks, and the index of that
/// position within the block's codeword (its data followed by its parity).
pub open spec fn block_position(dc: int, ec: int, nb: int, i: int) -> (int, int) {
    if i < dc {
        (interleave_block(dc, nb, i), interleave_col(dc, nb, i))
    } else {
        (
            interleave_block(ec, nb, i - dc),
            split_len(dc, nb, interleave_block(ec, nb, i - dc)) + interleave_col(ec, nb, i - dc),
        )
    }
}

/// Those of the first `m` erasures that fall in block `b`, in order, as
/// positions within the block's codeword; a position past the end of the
/// message falls in no block.
pub open spec fn block_erasures(erasures: Seq<usize>, dc: int, ec: int, nb: int, b: int, m: int) -> Seq<
    usize,
>
    decreases m,
{
    if m <= 0 {
        Seq::empty()
    } else {
        let acc = block_erasures(erasures, dc, ec, nb, b, m - 1);
        let i = erasures[m - 1] as int;
        if i < dc + ec && block_position(dc, ec, nb, i).0 == b {
            acc.push(block_position(dc, ec, nb, i).1 as usize)
        } else {
            acc
        }
    }
}

/// The erasures of block `b`.
pub open spec fn erasures_of_block(erasures: Seq<usize>, dc: int, ec: int, nb: int, b: int) -> Seq<
    usize,
> {
    block_erasures(erasures, dc, ec, nb, b, erasures.len() as int)
}

/// Decoding of the first `m` blocks, each with its own erasures, stopping
/// at the first failure.
pub open spec fn rs_decode_blocks_spec(
    received: Seq<u8>,
    dc: int,
    ec: int,
    nb: int,
    erasures: Seq<usize>,
    m: int,
) -> Result<Seq<u8>, RrcError>
    decreases m,
{
    if m <= 0 {
        Ok(Seq::empty())
    } else {
        match rs_decode_blocks_spec(received, dc, ec, nb, erasures, m - 1) {
            Err(e) => Err(e),
            Ok(acc) => match rs_decode_block_erasures_spec(
                received_block(received, dc, ec, nb, m - 1),
                split_len(ec, nb, m - 1) as nat,
                erasures_of_block(erasures, dc, ec, nb, m - 1),
            ) {
                Ok(d) => Ok(acc + d),
                Err(e) => Err(e),
            },
        }
    }
}

/// The result of decoding a full received message: a single block with the
/// erasure list as given, or each interleaved block with the erasures that
/// fall in it.
pub open spec fn rs_decode_erasures_spec(
    received: Seq<u8>,
    total: int,
    ec: int,
    erasures: Seq<usize>,
) -> Result<Seq<u8>, RrcError> {
    if received.len() != total {
        Err(RrcError::TruncatedBitstream)
    } else {
        let nb = rs_num_blocks(total);
        if nb <= 1 {
            rs_decode_block_erasures_spec(received, ec as nat, erasures)
        } else {
            rs_decode_blocks_spec(received, total - ec, ec, nb, erasures, nb)
        }
    }
}

/// Without erasures, erasure decoding of a block is plain decoding.
pub proof fn lemma_no_erasures_block(c: Seq<u8>, e: nat)
    ensures
        rs_decode_block_erasures_spec(c, e, Seq::empty()) == rs_decode_block_spec(c, e),
{
}

/// An empty erasure list puts no erasure in any block.
proof fn lemma_block_erasures_empty(dc: int, ec: int, nb: int, b: int)
    ensures
        erasures_of_block(Seq::<usize>::empty(), dc, ec, nb, b) == Seq::<usize>::empty(),
{
}

/// Blocks hold at most 256 data and 256 parity codewords.
proof fn lemma_block_sizes(total: int, count: int, b: int)
    requires
        0 <= count <= total,
        rs_num_blocks(total) >= 1,
        0 <= b < rs_num_blocks(total),
    ensures
        0 <= split_len(count, rs_num_blocks(total), b) <= 256,
        rs_num_blocks(total) <= 1 ==> total <= 255,
{
    let nb = rs_num_blocks(total);
    lemma_split_basics(count, nb);
    assert(255 * nb >= total) by (nonlinear_arith) requires nb == (total + 254) / 255, total >= 0;
    assert(count / nb <= 255) by (nonlinear_arith)
        requires
            count == (count / nb) * nb + count % nb,
            count % nb >= 0,
            count <= total,
            255 * nb >= total,
            nb >= 1,
    ;
    if nb <= 1 {
        assert(total <= 255) by (nonlinear_arith) requires nb == (total + 254) / 255, nb <= 1, total >= 0;
    }
}

/// Encode `data` into `total_codewords` codewords, the last `ecc_codewords`
/// of them (after interleaving) Reed-Solomon parity.
pub fn rs_encode(data: &[u8], total_codewords: usize, ecc_codewords: usize) -> (out: Vec<u8>)
    requires
        ecc_codewords <= total_codewords <= usize::MAX - 254,
        data@.len() == total_codewords - ecc_codewords,
    ensures
        out@ == rs_encode_spec(data@, total_codewords as int, ecc_codewords as int),
{
    let data_codewords = total_codewords - ecc_codewords;
    let num_blocks = (total_codewords + 254) / 255;
    if num_blocks <= 1 {
        proof {
            assert(total_codewords <= 255) by (nonlinear_arith)
                requires num_blocks == (total_codewords + 254) / 255, num_blocks <= 1;
        }
        let ecc = rs_encode_block(data, ecc_codewords);
        let mut out = prefix_vec(data, data.len());
        assert(out@ =~= data@);
        let mut q: usize = 0;
        while q < ecc.len()
            invariant
                0 <= q <= ecc@.len(),
                out@ == data@ + ecc@.take(q as int),
            decreases ecc@.len() - q,
        {
            out.push(ecc[q]);
            assert(out@ =~= data@ + ecc@.take(q as int + 1));
            q = q + 1;
        }
        assert(ecc@.take(ecc@.len() as int) =~= ecc@);
        return out;
    }
    let ghost dc = data_codewords as int;
    let ghost ec = ecc_codewords as int;
    let ghost nb = num_blocks as int;
    proof {
        lemma_split_basics(dc, nb);
        lemma_split_basics(ec, nb);
    }
    let base_data = data_codewords / num_blocks;
    let extra_data = data_codewords % num_blocks;
    let base_ecc = ecc_codewords / num_blocks;
    let extra_ecc = ecc_codewords % num_blocks;
    let mut data_blocks: Vec<Vec<u8>> = Vec::new();
    let mut ecc_blocks: Vec<Vec<u8>> = Vec::new();
    let mut offset: usize = 0;
    let mut i: usize = 0;
    while i < num_blocks
        invariant
            0 <= i <= num_blocks,
            nb == num_blocks as int,
            dc == data_codewords as int,
            ec == ecc_codewords as int,
            num_blocks >= 2,
            num_blocks == (total_codewords + 254) / 255,
            ecc_codewords <= total_codewords,
            data@.len() == data_codewords,
            data_codewords == total_codewords - ecc_codewords,
            base_data == data_codewords / num_blocks,
            extra_data == data_codewords % num_blocks,
            base_ecc == ecc_codewords / num_blocks,
            extra_ecc == ecc_codewords % num_blocks,
            extra_data < num_blocks,
            extra_ecc < num_blocks,
            offset == split_offset(dc, nb, i as int),
            data_blocks@.len() == i,
            ecc_blocks@.len() == i,
            forall|b: int| 0 <= b < i ==> #[trigger] data_blocks@[b]@ == data_block(data@, dc, nb, b),
            forall|b: int| 0 <= b < i ==> #[trigger] ecc_blocks@[b]@ == parity_block(data@, dc, ec, nb, b),
            forall|b: int| 0 <= b < i ==> #[trigger] ecc_blocks@[b]@.len() == split_len(ec, nb, b),
            forall|b: int| 0 <= b < i ==> #[trigger] data_blocks@[b]@.len() == split_len(dc, nb, b),
        decreases num_blocks - i,
    {
        proof {
            lemma_split_offset_step(dc, nb, i as int);
            lemma_block_sizes(total_codewords as int, ec, i as int);
            lemma_block_sizes(total_codewords as int, dc, i as int);
        }
        let d_len = base_data + if i >= num_blocks - extra_data { 1 } else { 0 };
        let e_len = base_ecc + if i >= num_blocks - extra_ecc { 1 } else { 0 };
        let mut block_data: Vec<u8> = Vec::new();
        let mut q: usize = 0;
        while q < d_len
            invariant
                0 <= q <= d_len,
                offset + d_len <= data@.len(),
                data@.len() == data_codewords,
                block_data@ == data@.subrange(offset as int, offset + q),
            decreases d_len - q,
        {
            assert(offset + q < data@.len());
            block_data.push(data[offset + q]);
            assert(block_data@ =~= data@.subrange(offset as int, offset + q + 1));
            q = q + 1;
        }
        let block_ecc = rs_encode_block(block_data.as_slice(), e_len);
        offset = offset + d_len;
        data_blocks.push(block_data);
        ecc_blocks.push(block_ecc);
        i = i + 1;
    }
    let mut out: Vec<u8> = Vec::new();
    assert(data_blocks@.map_values(|v: Vec<u8>| v@) =~= Seq::new(
        nb as nat,
        |b: int| data_block(data@, dc, nb, b),
    ));
    assert(ecc_blocks@.map_values(|v: Vec<u8>| v@) =~= Seq::new(
        nb as nat,
        |b: int| parity_block(data@, dc, ec, nb, b),
    ));
    interleave_into(&data_blocks, data_codewords, num_blocks, &mut out);
    interleave_into(&ecc_blocks, ecc_codewords, num_blocks, &mut out);
    assert(out@ =~= rs_encode_spec(data@, total_codewords as int, ecc_codewords as int));
    out
}

/// Decodes one block made of `data` followed by `parity`, with the erasures
/// `er` as positions within it, and appends its data to `out`; on failure
/// `out` is left unchanged.
fn decode_block_step(
    data: &Vec<u8>,
    parity: &Vec<u8>,
    e_len: usize,
    er: &Vec<usize>,
    out: &mut Vec<u8>,
) -> (r: Result<(), RrcError>)
    requires
        data@.len() <= 256,
        parity@.len() <= 256,
        e_len == parity@.len(),
        forall|k: int| 0 <= k < er@.len() ==> #[trigger] er@[k] < data@.len() + parity@.len(),
    ensures
        match rs_decode_block_erasures_spec(data@ + parity@, e_len as nat, er@) {
            Ok(d) => r is Ok && final(out)@ == old(out)@ + d,
            Err(e) => r == Err::<(), RrcError>(e) && final(out)@ == old(out)@,
        },
{
    let block_codeword = concat_bytes(data, parity);
    proof {
        let n = block_codeword@.len() as int;
        let e = e_len as int;
        assert(syndrome_indices_fit(n, e)) by (nonlinear_arith)
            requires 0 <= e <= 256, 0 <= n <= 512;
    }
    match rs_decode_block_erasures(block_codeword.as_slice(), e_len, er.as_slice()) {
        Ok(d) => {
            append_bytes(out, &d);
            Ok(())
        },
        Err(e) => Err(e),
    }
}

/// The erasures that fall in block `b`, as positions within its codeword.
fn block_erasure_list(
    erasures: &[usize],
    dc: usize,
    ec: usize,
    nb: usize,
    b: usize,
) -> (r: Vec<usize>)
    requires
        1 <= nb,
        b < nb,
        dc + ec <= usize::MAX,
    ensures
        r@ == erasures_of_block(erasures@, dc as int, ec as int, nb as int, b as int),
        forall|k: int|
            0 <= k < r@.len() ==> #[trigger] r@[k] < split_len(dc as int, nb as int, b as int)
                + split_len(ec as int, nb as int, b as int),
{
    let ghost dci = dc as int;
    let ghost eci = ec as int;
    let ghost nbi = nb as int;
    let ghost bi = b as int;
    proof {
        lemma_split_basics(dci, nbi);
        lemma_split_basics(eci, nbi);
    }
    let mut r: Vec<usize> = Vec::new();
    let mut k: usize = 0;
    while k < erasures.len()
        invariant
            0 <= k <= erasures@.len(),
            1 <= nb,
            b < nb,
            dc + ec <= usize::MAX,
            dci == dc,
            eci == ec,
            nbi == nb,
            bi == b,
            r@ == block_erasures(erasures@, dci, eci, nbi, bi, k as int),
            forall|q: int|
                0 <= q < r@.len() ==> #[trigger] r@[q] < split_len(dci, nbi, bi) + split_len(
                    eci,
                    nbi,
                    bi,
                ),
        decreases erasures@.len() - k,
    {
        let i = erasures[k];
        if i < dc {
            let (blk, col) = interleave_source(dc, nb, i);
            if blk == b {
                r.push(col);
            }
        } else if i - dc < ec {
            let (blk, col) = interleave_source(ec, nb, i - dc);
            if blk == b {
                let dlen = dc / nb + if b >= nb - dc % nb {
                    1
                } else {
                    0
                };
                assert(dlen == split_len(dci, nbi, bi));
                proof {
                    lemma_split_basics(dci, nbi);
                    lemma_split_basics(eci, nbi);
                }
                assert(split_len(dci, nbi, bi) <= dci && split_len(eci, nbi, bi) <= eci);
                r.push(dlen + col);
            }
        }
        k = k + 1;
    }
    r
}

/// Once a block fails, decoding of every longer prefix of blocks fails the same way.
proof fn lemma_decode_blocks_err_persists(
    received: Seq<u8>,
    dc: int,
    ec: int,
    nb: int,
    erasures: Seq<usize>,
    m: int,
    k: int,
)
    requires
        0 <= m <= k,
        rs_decode_blocks_spec(received, dc, ec, nb, erasures, m) is Err,
    ensures
        rs_decode_blocks_spec(received, dc, ec, nb, erasures, k) == rs_decode_blocks_spec(
            received,
            dc,
            ec,
            nb,
            erasures,
            m,
        ),
    decreases k - m,
{
    if k > m {
        lemma_decode_blocks_err_persists(received, dc, ec, nb, erasures, m, k - 1);
    }
}

/// The concatenation of two byte vectors.
fn concat_bytes(a: &Vec<u8>, b: &Vec<u8>) -> (out: Vec<u8>)
    ensures
        out@ == a@ + b@,
{
    let mut out = a.clone();
    assert(out@ =~= a@);
    let mut q: usize = 0;
    while q < b.len()
        invariant
            0 <= q <= b@.len(),
            out@ == a@ + b@.take(q as int),
        decreases b@.len() - q,
    {
        out.push(b[q]);
        assert(out@ =~= a@ + b@.take(q as int + 1));
        q = q + 1;
    }
    assert(b@.take(b@.len() as int) =~= b@);
    out
}

/// Appends the bytes of `d` to `out`.
fn append_bytes(out: &mut Vec<u8>, d: &Vec<u8>)
    ensures
        final(out)@ == old(out)@ + d@,
{
    let ghost acc = out@;
    let mut q: usize = 0;
    while q < d.len()
        invariant
            0 <= q <= d@.len(),
            out@ == acc + d@.take(q as int),
        decreases d@.len() - q,
    {
        out.push(d[q]);
        assert(out@ =~= acc + d@.take(q as int + 1));
        q = q + 1;
    }
    assert(d@.take(d@.len() as int) =~= d@);
}

/// The single-block decoder reaches its erasure locator.
pub open spec fn rs_erasures_need_range(received: Seq<u8>, total: int, ec: int, erasures: Seq<usize>) -> bool {
    &&& received.len() == total
    &&& rs_num_blocks(total) <= 1
    &&& erasure_locator_reached(received, ec as nat, erasures)
}

/// Decode full message across one or more interleaved Reed-Solomon blocks with erasures.
/// Each erasure, a position in the received message, is handed to the block
/// it falls in as a position within that block.
#[verifier::rlimit(50)]
pub fn rs_decode_erasures(
    received: &[u8],
    total_codewords: usize,
    ecc_codewords: usize,
    erasures: &[usize],
) -> (r: Result<Vec<u8>, RrcError>)
    requires
        total_codewords <= usize::MAX - 254,
        received@.len() == total_codewords ==> ecc_codewords <= total_codewords,
        rs_erasures_need_range(received@, total_codewords as int, ecc_codewords as int, erasures@)
            ==> forall|k: int| 0 <= k < erasures@.len() ==> #[trigger] erasures@[k] < total_codewords,
    ensures
        bytes_result_view(r) == rs_decode_erasures_spec(
            received@,
            total_codewords as int,
            ecc_codewords as int,
            erasures@,
        ),
{
    if received.len() != total_codewords {
        return Err(RrcError::TruncatedBitstream);
    }
    let data_codewords = total_codewords - ecc_codewords;
    let num_blocks = (total_codewords + 254) / 255;
    if num_blocks <= 1 {
        proof {
            assert(total_codewords <= 255) by (nonlinear_arith)
                requires num_blocks == (total_codewords + 254) / 255, num_blocks <= 1;
            assert(syndrome_indices_fit(total_codewords as int, ecc_codewords as int)) by (nonlinear_arith)
                requires ecc_codewords <= total_codewords, total_codewords <= 255;
        }
        return rs_decode_block_erasures(received, ecc_codewords, erasures);
    }
    let ghost dc = data_codewords as int;
    let ghost ec = ecc_codewords as int;
    let ghost nb = num_blocks as int;
    proof {
        lemma_split_basics(dc, nb);
        lemma_split_basics(ec, nb);
    }
    let data_blocks = deinterleave(received, 0, data_codewords, num_blocks);
    let ecc_blocks = deinterleave(received, data_codewords, ecc_codewords, num_blocks);
    let base_ecc = ecc_codewords / num_blocks;
    let extra_ecc = ecc_codewords % num_blocks;
    let mut out_data: Vec<u8> = Vec::new();
    let mut b: usize = 0;
    while b < num_blocks
        invariant
            0 <= b <= num_blocks,
            nb == num_blocks as int,
            dc == data_codewords as int,
            ec == ecc_codewords as int,
            num_blocks == (total_codewords + 254) / 255,
            num_blocks >= 2,
            data_codewords + ecc_codewords == total_codewords,
            received@.len() == total_codewords,
            base_ecc == ecc_codewords / num_blocks,
            extra_ecc == ecc_codewords % num_blocks,
            extra_ecc < num_blocks,
            data_blocks@.len() == nb,
            ecc_blocks@.len() == nb,
            forall|q: int|
                0 <= q < nb ==> #[trigger] data_blocks@[q]@ == deinterleave_block(
                    received@,
                    0,
                    dc,
                    nb,
                    q,
                ),
            forall|q: int|
                0 <= q < nb ==> #[trigger] ecc_blocks@[q]@ == deinterleave_block(
                    received@,
                    dc,
                    ec,
                    nb,
                    q,
                ),
            rs_decode_blocks_spec(received@, dc, ec, nb, erasures@, b as int) == Ok::<
                Seq<u8>,
                RrcError,
            >(out_data@),
        decreases num_blocks - b,
    {
        proof {
            lemma_block_sizes(total_codewords as int, ec, b as int);
            lemma_block_sizes(total_codewords as int, dc, b as int);
        }
        let e_len = base_ecc + if b >= num_blocks - extra_ecc { 1 } else { 0 };
        let er = block_erasure_list(erasures, data_codewords, ecc_codewords, num_blocks, b);
        let step = decode_block_step(&data_blocks[b], &ecc_blocks[b], e_len, &er, &mut out_data);
        proof {
            assert(data_blocks@[b as int]@ + ecc_blocks@[b as int]@ == received_block(
                received@,
                dc,
                ec,
                nb,
                b as int,
            ));
        }
        if let Err(e) = step {
            proof {
                lemma_decode_blocks_err_persists(received@, dc, ec, nb, erasures@, b as int + 1, nb);
            }
            return Err(e);
        }
        b = b + 1;
    }
    Ok(out_data)
}

/// Decode full message across one or more interleaved Reed-Solomon blocks without erasure hints.
pub fn rs_decode(received: &[u8], total_codewords: usize, ecc_codewords: usize) -> (r: Result<
    Vec<u8>,
    RrcError,
>)
    requires
        total_codewords <= usize::MAX - 254,
        received@.len() == total_codewords ==> ecc_codewords <= total_codewords,
    ensures
        bytes_result_view(r) == rs_decode_erasures_spec(
            received@,
            total_codewords as int,
            ecc_codewords as int,
            Seq::empty(),
        ),
{
    let none: Vec<usize> = Vec::new();
    assert(none@ =~= Seq::<usize>::empty());
    rs_decode_erasures(received, total_codewords, ecc_codewords, none.as_slice())
}

/// Reading blocks back out of their own interleaving gives each block.
proof fn lemma_deinterleave_of_interleave(
    received: Seq<u8>,
    start: int,
    blocks: Seq<Seq<u8>>,
    count: int,
    nb: int,
    b: int,
)
    requires
        0 <= count,
        1 <= nb,
        0 <= b < nb,
        blocks.len() == nb,
        forall|q: int| 0 <= q < nb ==> (#[trigger] blocks[q]).len() == split_len(count, nb, q),
        0 <= start,
        start + count <= received.len(),
        received.subrange(start, start + count) == interleave_spec(blocks, count, nb),
    ensures
        deinterleave_block(received, start, count, nb, b) == blocks[b],
{
    let d = deinterleave_block(received, start, count, nb, b);
    assert forall|c: int| 0 <= c < d.len() implies d[c] == blocks[b][c] by {
        lemma_interleave_pos_src(count, nb, b, c);
        let k = interleave_pos(count, nb, b, c);
        assert(received.subrange(start, start + count)[k] == received[start + k]);
    }
    assert(d =~= blocks[b]);
}

/// The length of the parity of a block.
proof fn lemma_parity_len(msg: Seq<u8>, e: nat)
    ensures
        rs_parity_spec(msg, e).len() == e,
{
    if e > 0 {
        lemma_rs_remainder_len(msg, gen_poly_spec(e), e);
    }
}

/// The first `m` blocks of a freshly encoded message decode to the first
/// `split_offset(dc, nb, m)` data codewords.
/// Block `b` of an interleaved encoded message is that block's data
/// followed by its parity.
proof fn lemma_encoded_block(data: Seq<u8>, total: int, ec: int, b: int)
    requires
        0 <= ec <= total,
        data.len() == total - ec,
        rs_num_blocks(total) >= 2,
        0 <= b < rs_num_blocks(total),
    ensures
        received_block(rs_encode_spec(data, total, ec), total - ec, ec, rs_num_blocks(total), b)
            == data_block(data, total - ec, rs_num_blocks(total), b) + rs_parity_spec(
            data_block(data, total - ec, rs_num_blocks(total), b),
            split_len(ec, rs_num_blocks(total), b) as nat,
        ),
        split_len(ec, rs_num_blocks(total), b) <= 256,
{
    let dc = total - ec;
    let nb = rs_num_blocks(total);
    lemma_split_basics(dc, nb);
    lemma_split_basics(ec, nb);
    lemma_block_sizes(total, ec, b);
    lemma_block_sizes(total, dc, b);
    let dblocks = Seq::new(nb as nat, |q: int| data_block(data, dc, nb, q));
    let pblocks = Seq::new(nb as nat, |q: int| parity_block(data, dc, ec, nb, q));
    let enc = rs_encode_spec(data, total, ec);
    let di = interleave_spec(dblocks, dc, nb);
    let pi = interleave_spec(pblocks, ec, nb);
    assert(enc == di + pi);
    assert forall|q: int| 0 <= q < nb implies (#[trigger] dblocks[q]).len() == split_len(dc, nb, q) by {
        lemma_split_offset_step(dc, nb, q);
    }
    assert forall|q: int| 0 <= q < nb implies (#[trigger] pblocks[q]).len() == split_len(ec, nb, q) by {
        lemma_block_sizes(total, ec, q);
        lemma_parity_len(data_block(data, dc, nb, q), split_len(ec, nb, q) as nat);
    }
    assert(enc.subrange(0, dc) =~= di);
    assert(enc.subrange(dc, dc + ec) =~= pi);
    lemma_deinterleave_of_interleave(enc, 0, dblocks, dc, nb, b);
    lemma_deinterleave_of_interleave(enc, dc, pblocks, ec, nb, b);
}

proof fn lemma_decode_blocks_of_encoded(data: Seq<u8>, total: int, ec: int, m: int)
    requires
        0 <= ec <= total,
        data.len() == total - ec,
        rs_num_blocks(total) >= 2,
        0 <= m <= rs_num_blocks(total),
    ensures
        rs_decode_blocks_spec(
            rs_encode_spec(data, total, ec),
            total - ec,
            ec,
            rs_num_blocks(total),
            Seq::empty(),
            m,
        ) == Ok::<Seq<u8>, RrcError>(data.take(split_offset(total - ec, rs_num_blocks(total), m))),
    decreases m,
{
    let dc = total - ec;
    let nb = rs_num_blocks(total);
    lemma_split_basics(dc, nb);
    lemma_split_basics(ec, nb);
    if m == 0 {
        assert(data.take(0) =~= Seq::<u8>::empty());
    } else {
        let b = m - 1;
        lemma_decode_blocks_of_encoded(data, total, ec, b);
        lemma_split_offset_step(dc, nb, b);
        lemma_encoded_block(data, total, ec, b);
        let msg = data_block(data, dc, nb, b);
        lemma_rs_block_roundtrip(msg, split_len(ec, nb, b) as nat);
        lemma_block_erasures_empty(dc, ec, nb, b);
        lemma_no_erasures_block(received_block(rs_encode_spec(data, total, ec), dc, ec, nb, b), split_len(ec, nb, b) as nat);
        assert(data.take(split_offset(dc, nb, b)) + msg =~= data.take(split_offset(dc, nb, m)));
    }
}

/// Decoding an encoded message without errors gives back its data, whether
/// it was sent as one block or interleaved across several.
pub proof fn lemma_rs_roundtrip(data: Seq<u8>, total: int, ec: int)
    requires
        0 <= ec <= total,
        data.len() == total - ec,
    ensures
        rs_encode_spec(data, total, ec).len() == total,
        rs_decode_erasures_spec(rs_encode_spec(data, total, ec), total, ec, Seq::empty()) == Ok::<
            Seq<u8>,
            RrcError,
        >(data),
{
    let nb = rs_num_blocks(total);
    let dc = total - ec;
    if nb <= 1 {
        assert(total <= 255) by (nonlinear_arith) requires nb == (total + 254) / 255, nb <= 1, total >= 0;
        lemma_parity_len(data, ec as nat);
        lemma_rs_block_roundtrip(data, ec as nat);
    } else {
        lemma_split_basics(dc, nb);
        lemma_decode_blocks_of_encoded(data, total, ec, nb);
        assert(data.take(dc) =~= data);
    }
}

/// A decoded block holds the codeword's data codewords.
proof fn lemma_block_decode_len(c: Seq<u8>, e: nat, erasures: Seq<usize>)
    ensures
        rs_decode_block_spec(c, e) is Ok ==> (rs_decode_block_spec(c, e)->Ok_0).len() == c.len() - e,
        rs_decode_block_erasures_spec(c, e, erasures) is Ok ==> (rs_decode_block_erasures_spec(
            c,
            e,
            erasures,
        )->Ok_0).len() == c.len() - e,
{
    let n = c.len() as int;
    if n >= e {
        let syn = syndromes_spec(c, e);
        let loc = bm_locator(syn);
        let roots = chien_roots(loc, n, n);
        lemma_chien_roots_bounds(loc, n, n);
        lemma_forney_list_bounds(syn, loc, roots, n, roots.len() as int);
        lemma_apply_corrections_distance(c, forney_list(syn, loc, roots, n, roots.len() as int));
        let loc2 = errata_locator(syn, erasures, n, e);
        let roots2 = chien_roots(loc2, n, n);
        lemma_chien_roots_bounds(loc2, n, n);
        lemma_forney_list_bounds(syn, loc2, roots2, n, roots2.len() as int);
        lemma_apply_corrections_distance(c, forney_list(syn, loc2, roots2, n, roots2.len() as int));
    }
}

proof fn lemma_decode_blocks_len(received: Seq<u8>, dc: int, ec: int, nb: int, erasures: Seq<usize>, m: int)
    requires
        0 <= dc,
        0 <= ec,
        1 <= nb,
        0 <= m <= nb,
        received.len() == dc + ec,
    ensures
        rs_decode_blocks_spec(received, dc, ec, nb, erasures, m) is Ok ==> (rs_decode_blocks_spec(
            received,
            dc,
            ec,
            nb,
            erasures,
            m,
        )->Ok_0).len() == split_offset(dc, nb, m),
    decreases m,
{
    lemma_split_basics(dc, nb);
    if m > 0 {
        lemma_decode_blocks_len(received, dc, ec, nb, erasures, m - 1);
        lemma_split_offset_step(dc, nb, m - 1);
        let rb = received_block(received, dc, ec, nb, m - 1);
        lemma_block_decode_len(rb, split_len(ec, nb, m - 1) as nat, erasures_of_block(erasures, dc, ec, nb, m - 1));
        lemma_split_offset_step(ec, nb, m - 1);
    }
}

/// A decoded message holds at most as many codewords as were received.
pub proof fn lemma_decode_len(received: Seq<u8>, total: int, ec: int, erasures: Seq<usize>)
    requires
        0 <= ec <= total,
    ensures
        rs_decode_erasures_spec(received, total, ec, erasures) is Ok ==> (rs_decode_erasures_spec(
            received,
            total,
            ec,
            erasures,
        )->Ok_0).len() <= total,
{
    if received.len() == total {
        let nb = rs_num_blocks(total);
        if nb <= 1 {
            lemma_block_decode_len(received, ec as nat, erasures);
        } else {
            lemma_decode_blocks_len(received, total - ec, ec, nb, erasures, nb);
            lemma_split_basics(total - ec, nb);
        }
    }
}

/// Whether every block of `received` has at most 255 symbols and lies
/// within half its parity symbols of the same block of the encoded `data`.
pub open spec fn within_half_parity(received: Seq<u8>, data: Seq<u8>, total: int, ec: int) -> bool {
    let nb = rs_num_blocks(total);
    let enc = rs_encode_spec(data, total, ec);
    if nb <= 1 {
        hamming_distance(received, enc) <= ec / 2
    } else {
        forall|b: int|
            0 <= b < nb ==> #[trigger] received_block(received, total - ec, ec, nb, b).len() <= 255
                && hamming_distance(
                received_block(received, total - ec, ec, nb, b),
                received_block(enc, total - ec, ec, nb, b),
            ) <= split_len(ec, nb, b) / 2
    }
}

proof fn lemma_decode_blocks_within_half(received: Seq<u8>, data: Seq<u8>, total: int, ec: int, m: int)
    requires
        0 <= ec <= total,
        data.len() == total - ec,
        received.len() == total,
        rs_num_blocks(total) >= 2,
        0 <= m <= rs_num_blocks(total),
        within_half_parity(received, data, total, ec),
    ensures
        rs_decode_blocks_spec(received, total - ec, ec, rs_num_blocks(total), Seq::empty(), m)
            == Ok::<Seq<u8>, RrcError>(data.take(split_offset(total - ec, rs_num_blocks(total), m))),
    decreases m,
{
    let dc = total - ec;
    let nb = rs_num_blocks(total);
    lemma_split_basics(dc, nb);
    lemma_split_basics(ec, nb);
    if m == 0 {
        assert(data.take(0) =~= Seq::<u8>::empty());
    } else {
        let b = m - 1;
        lemma_decode_blocks_within_half(received, data, total, ec, b);
        lemma_split_offset_step(dc, nb, b);
        lemma_encoded_block(data, total, ec, b);
        let msg = data_block(data, dc, nb, b);
        let e = split_len(ec, nb, b) as nat;
        let enc_block = msg + rs_parity_spec(msg, e);
        lemma_rs_encode_block_codeword(msg, e);
        let rb = received_block(received, dc, ec, nb, b);
        assert(rb.len() <= 255 && hamming_distance(rb, enc_block) <= e / 2);
        lemma_split_offset_step(ec, nb, b);
        lemma_parity_len(msg, e);
        lemma_rs_corrects_half_parity(rb, enc_block, e);
        lemma_block_erasures_empty(dc, ec, nb, b);
        assert(enc_block.take(rb.len() - e) =~= msg);
        assert(data.take(split_offset(dc, nb, b)) + msg =~= data.take(split_offset(dc, nb, m)));
    }
}

/// Error correction of a whole message: when every block of the received
/// message has at most 255 symbols and lies within half its parity symbols
/// of the same block of the encoded `data`, decoding without erasures
/// returns exactly `data`.
pub proof fn lemma_rs_decode_within_half_parity(received: Seq<u8>, data: Seq<u8>, total: int, ec: int)
    requires
        0 <= ec <= total,
        data.len() == total - ec,
        received.len() == total,
        within_half_parity(received, data, total, ec),
    ensures
        rs_decode_erasures_spec(received, total, ec, Seq::empty()) == Ok::<Seq<u8>, RrcError>(data),
{
    let nb = rs_num_blocks(total);
    let dc = total - ec;
    if nb <= 1 {
        assert(total <= 255) by (nonlinear_arith) requires nb == (total + 254) / 255, nb <= 1, total >= 0;
        lemma_parity_len(data, ec as nat);
        lemma_rs_encode_block_codeword(data, ec as nat);
        lemma_rs_corrects_half_parity(received, rs_encode_spec(data, total, ec), ec as nat);
        assert(rs_encode_spec(data, total, ec).take(total - ec) =~= data);
    } else {
        lemma_decode_blocks_within_half(received, data, total, ec, nb);
        lemma_split_basics(dc, nb);
        assert(data.take(dc) =~= data);
    }
}

/// Erasure decoding of a single-block message: when the message has at most
/// 255 codewords, the erasure list names as many distinct positions as
/// there are parity codewords, and the received message differs from the
/// encoded `data` only at erased positions, decoding returns `data`.
pub proof fn lemma_rs_decode_full_erasures(
    received: Seq<u8>,
    data: Seq<u8>,
    total: int,
    ec: int,
    erasures: Seq<usize>,
)
    requires
        0 <= ec <= total <= 255,
        data.len() == total - ec,
        received.len() == total,
        errors_at_erasures(received, rs_encode_spec(data, total, ec), ec as nat, erasures),
    ensures
        rs_decode_erasures_spec(received, total, ec, erasures) == Ok::<Seq<u8>, RrcError>(data),
{
    assert(rs_num_blocks(total) <= 1);
    lemma_parity_len(data, ec as nat);
    lemma_rs_corrects_full_erasures(received, rs_encode_spec(data, total, ec), ec as nat, erasures);
    assert(rs_encode_spec(data, total, ec).take(total - ec) =~= data);
}

/// Whether a received block `c` with erasures `er` lies within reach of the
/// codeword `w` with `e` parity symbols: it has at most 255 symbols, its
/// erasures are distinct positions inside it, and twice the number of
/// positions outside the erasures where it differs from `w`, plus the
/// number of erasures, is at most `e`.
pub open spec fn block_correctable(c: Seq<u8>, w: Seq<u8>, e: nat, er: Seq<usize>) -> bool {
    &&& c.len() <= 255
    &&& e <= c.len()
    &&& w.len() == c.len()
    &&& er.no_duplicates()
    &&& forall|k: int| 0 <= k < er.len() ==> #[trigger] er[k] < c.len()
    &&& 2 * unerased_diff(c, w, er, c.len() as int).len() + er.len() <= e
}

/// Whether every block of `received`, with the erasures that fall in it, is
/// within reach of the same block of the encoded `data`.
pub open spec fn message_correctable(
    received: Seq<u8>,
    data: Seq<u8>,
    total: int,
    ec: int,
    erasures: Seq<usize>,
) -> bool {
    let nb = rs_num_blocks(total);
    let enc = rs_encode_spec(data, total, ec);
    if nb <= 1 {
        block_correctable(received, enc, ec as nat, erasures)
    } else {
        forall|b: int|
            0 <= b < nb ==> #[trigger] block_correctable(
                received_block(received, total - ec, ec, nb, b),
                received_block(enc, total - ec, ec, nb, b),
                split_len(ec, nb, b) as nat,
                erasures_of_block(erasures, total - ec, ec, nb, b),
            )
    }
}

/// A block within reach of its codeword decodes to the codeword's data.
proof fn lemma_block_correctable(c: Seq<u8>, w: Seq<u8>, e: nat, er: Seq<usize>)
    requires
        block_correctable(c, w, e, er),
        is_rs_codeword(w, e),
    ensures
        rs_decode_block_erasures_spec(c, e, er) == Ok::<Seq<u8>, RrcError>(w.take(c.len() - e)),
{
    if er.len() == 0 {
        assert(er =~= Seq::<usize>::empty());
        lemma_unerased_diff_empty(c, w, c.len() as int);
        lemma_diff_positions(c, w, c.len() as int);
        lemma_rs_corrects_half_parity(c, w, e);
    } else {
        lemma_rs_corrects_errors_and_erasures(c, w, e, er);
    }
}

#[verifier::spinoff_prover]
#[verifier::rlimit(50)]
proof fn lemma_decode_blocks_correctable(
    received: Seq<u8>,
    data: Seq<u8>,
    total: int,
    ec: int,
    erasures: Seq<usize>,
    m: int,
)
    requires
        0 <= ec <= total,
        data.len() == total - ec,
        received.len() == total,
        rs_num_blocks(total) >= 2,
        0 <= m <= rs_num_blocks(total),
        message_correctable(received, data, total, ec, erasures),
    ensures
        rs_decode_blocks_spec(received, total - ec, ec, rs_num_blocks(total), erasures, m) == Ok::<
            Seq<u8>,
            RrcError,
        >(data.take(split_offset(total - ec, rs_num_blocks(total), m))),
    decreases m,
{
    let dc = total - ec;
    let nb = rs_num_blocks(total);
    lemma_split_basics(dc, nb);
    lemma_split_basics(ec, nb);
    if m == 0 {
        assert(data.take(0) =~= Seq::<u8>::empty());
    } else {
        let b = m - 1;
        lemma_decode_blocks_correctable(received, data, total, ec, erasures, b);
        lemma_split_offset_step(dc, nb, b);
        lemma_encoded_block(data, total, ec, b);
        let msg = data_block(data, dc, nb, b);
        let e = split_len(ec, nb, b) as nat;
        let enc_block = msg + rs_parity_spec(msg, e);
        lemma_rs_encode_block_codeword(msg, e);
        let rb = received_block(received, dc, ec, nb, b);
        let enc = rs_encode_spec(data, total, ec);
        assert(block_correctable(
            rb,
            received_block(enc, dc, ec, nb, b),
            e,
            erasures_of_block(erasures, dc, ec, nb, b),
        ));
        lemma_split_offset_step(ec, nb, b);
        lemma_parity_len(msg, e);
        lemma_block_correctable(rb, enc_block, e, erasures_of_block(erasures, dc, ec, nb, b));
        assert(enc_block.take(rb.len() - e) =~= msg);
        assert(data.take(split_offset(dc, nb, b)) + msg =~= data.take(split_offset(dc, nb, m)));
    }
}

/// Error and erasure correction of a whole message: when every block, with
/// the erasures that fall in it, is within reach of the same block of the
/// encoded `data` (twice its errors outside the erasures plus its erasures
/// at most its parity symbols), decoding returns exactly `data`.
pub proof fn lemma_rs_decode_correctable(
    received: Seq<u8>,
    data: Seq<u8>,
    total: int,
    ec: int,
    erasures: Seq<usize>,
)
    requires
        0 <= ec <= total,
        data.len() == total - ec,
        received.len() == total,
        message_correctable(received, data, total, ec, erasures),
    ensures
        rs_decode_erasures_spec(received, total, ec, erasures) == Ok::<Seq<u8>, RrcError>(data),
{
    let nb = rs_num_blocks(total);
    let dc = total - ec;
    if nb <= 1 {
        assert(total <= 255) by (nonlinear_arith) requires nb == (total + 254) / 255, nb <= 1, total >= 0;
        lemma_parity_len(data, ec as nat);
        lemma_rs_encode_block_codeword(data, ec as nat);
        lemma_block_correctable(received, rs_encode_spec(data, total, ec), ec as nat, erasures);
        assert(rs_encode_spec(data, total, ec).take(total - ec) =~= data);
    } else {
        lemma_decode_blocks_correctable(received, data, total, ec, erasures, nb);
        lemma_split_basics(dc, nb);
        assert(data.take(dc) =~= data);
    }
}

} // verus!
