//! Radial data masks: the eight mask patterns, their application to the
//! data sectors of a symbol, and the choice of the best-scoring mask.

use crate::geometry::{is_data_sector, is_data_sector_spec};
use vstd::prelude::*;

verus! {

/// Whether mask `m` (taken modulo 8) inverts the sector at `(ring, sector)`.
pub open spec fn mask_spec(m: u8, ring: int, sector: int) -> bool {
    let k = m % 8;
    if k == 0 {
        (ring + sector) % 2 == 0
    } else if k == 1 {
        ring % 2 == 0
    } else if k == 2 {
        sector % 3 == 0
    } else if k == 3 {
        (ring + sector) % 3 == 0
    } else if k == 4 {
        (ring / 2 + sector / 3) % 2 == 0
    } else if k == 5 {
        (ring * sector) % 2 + (ring * sector) % 3 == 0
    } else if k == 6 {
        ((ring + sector) % 2 + (ring * sector) % 3) % 2 == 0
    } else {
        ((ring + sector) % 2 + (ring * sector) % 3) % 2 == 0
    }
}

proof fn lemma_mask_shapes_0_1(k: int, s: int)
    requires
        0 <= k,
        0 <= s,
    ensures
        mask_spec(0, 0, 0),
        mask_spec(0, k + 1, s) == !mask_spec(0, k, s),
        mask_spec(0, k, s + 1) == !mask_spec(0, k, s),
        mask_spec(1, 0, 0),
        mask_spec(1, k + 1, s) == !mask_spec(1, k, s),
        mask_spec(1, k, s + 1) == mask_spec(1, k, s),
{
}

proof fn lemma_mask_shapes_2_3(k: int, s: int)
    requires
        0 <= k,
        0 <= s,
    ensures
        mask_spec(2, 0, 0) && !mask_spec(2, 0, 1) && !mask_spec(2, 0, 2),
        mask_spec(2, k + 1, s) == mask_spec(2, k, s),
        mask_spec(2, k, s + 3) == mask_spec(2, k, s),
        mask_spec(3, 0, 0) && !mask_spec(3, 0, 1) && !mask_spec(3, 0, 2),
        mask_spec(3, k + 1, s) == mask_spec(3, k, s + 1),
        mask_spec(3, k, s + 3) == mask_spec(3, k, s),
{
}

proof fn lemma_mask_shapes_4(k: int, s: int)
    requires
        0 <= k,
        0 <= s,
    ensures
        mask_spec(4, 0, 0),
        mask_spec(4, 2 * (k / 2) + 1, s) == mask_spec(4, 2 * (k / 2), s),
        mask_spec(4, k, 3 * (s / 3) + 1) == mask_spec(4, k, 3 * (s / 3)),
        mask_spec(4, k, 3 * (s / 3) + 2) == mask_spec(4, k, 3 * (s / 3)),
        mask_spec(4, k + 2, s) == !mask_spec(4, k, s),
        mask_spec(4, k, s + 3) == !mask_spec(4, k, s),
{
    let h = k / 2;
    let t = s / 3;
    assert((2 * h + 1) / 2 == h);
    assert((2 * h) / 2 == h);
    assert((3 * t + 1) / 3 == t);
    assert((3 * t + 2) / 3 == t);
    assert((3 * t) / 3 == t);
    assert((k + 2) / 2 == h + 1);
    assert((s + 3) / 3 == t + 1);
}

proof fn lemma_mask_shapes_5_6_7(k: int, s: int)
    requires
        0 <= k,
        0 <= s,
    ensures
        mask_spec(5, k, s) <==> (k * s) % 6 == 0,
        mask_spec(6, k, s) <==> ((k + s) % 2 == 1 <==> (k * s) % 3 == 1),
        mask_spec(7, k, s) <==> ((k + s) % 2 == 1 <==> (k * s) % 3 == 1),
{
    let p = k * s;
    assert(p >= 0) by (nonlinear_arith)
        requires
            k >= 0,
            s >= 0,
            p == k * s,
    ;
    let q = p / 6;
    let r = p % 6;
    assert(p == 6 * q + r && 0 <= r < 6);
    assert(p % 2 == r % 2 && p % 3 == r % 3);
    let a = (k + s) % 2;
    let b = p % 3;
    assert(0 <= a < 2 && 0 <= b < 3);
}

/// The shapes of the eight radial masks over rings `k` and sectors `s`:
/// mask 0 alternates along both rings and sectors; mask 1 alternates from
/// ring to ring and is constant along a ring; mask 2 marks every third
/// sector, on every ring; mask 3 depends only on `k + s` and marks every
/// third diagonal; mask 4 is constant on blocks of two rings by three
/// sectors and alternates from block to block in both directions; mask 5
/// marks the cells whose product `k s` is a multiple of six; masks 6 and 7
/// mark the cells where `k + s` is odd exactly when `k s` leaves remainder
/// one modulo three. Each mask index is taken modulo eight.
pub proof fn lemma_mask_shapes(k: int, s: int)
    requires
        0 <= k,
        0 <= s,
    ensures
        mask_spec(0, 0, 0),
        mask_spec(0, k + 1, s) == !mask_spec(0, k, s),
        mask_spec(0, k, s + 1) == !mask_spec(0, k, s),
        mask_spec(1, 0, 0),
        mask_spec(1, k + 1, s) == !mask_spec(1, k, s),
        mask_spec(1, k, s + 1) == mask_spec(1, k, s),
        mask_spec(2, 0, 0) && !mask_spec(2, 0, 1) && !mask_spec(2, 0, 2),
        mask_spec(2, k + 1, s) == mask_spec(2, k, s),
        mask_spec(2, k, s + 3) == mask_spec(2, k, s),
        mask_spec(3, 0, 0) && !mask_spec(3, 0, 1) && !mask_spec(3, 0, 2),
        mask_spec(3, k + 1, s) == mask_spec(3, k, s + 1),
        mask_spec(3, k, s + 3) == mask_spec(3, k, s),
        mask_spec(4, 0, 0),
        mask_spec(4, 2 * (k / 2) + 1, s) == mask_spec(4, 2 * (k / 2), s),
        mask_spec(4, k, 3 * (s / 3) + 1) == mask_spec(4, k, 3 * (s / 3)),
        mask_spec(4, k, 3 * (s / 3) + 2) == mask_spec(4, k, 3 * (s / 3)),
        mask_spec(4, k + 2, s) == !mask_spec(4, k, s),
        mask_spec(4, k, s + 3) == !mask_spec(4, k, s),
        mask_spec(5, k, s) <==> (k * s) % 6 == 0,
        mask_spec(6, k, s) <==> ((k + s) % 2 == 1 <==> (k * s) % 3 == 1),
        mask_spec(7, k, s) <==> ((k + s) % 2 == 1 <==> (k * s) % 3 == 1),
        forall|m: u8| #[trigger] mask_spec(m, k, s) == mask_spec(m % 8, k, s),
{
    lemma_mask_shapes_0_1(k, s);
    lemma_mask_shapes_2_3(k, s);
    lemma_mask_shapes_4(k, s);
    lemma_mask_shapes_5_6_7(k, s);
}

/// The sums and products a mask computes fit in a `usize`.
pub open spec fn mask_args_fit(m: u8, ring: int, sector: int) -> bool {
    &&& ring + sector <= usize::MAX
    &&& ring * sector <= usize::MAX
}

/// Evaluate whether the sector at `(ring, sector)` should be inverted under mask `mask_index` (0–7).
pub fn mask_fn(mask_index: u8, ring: usize, sector: usize) -> (b: bool)
    requires
        mask_args_fit(mask_index, ring as int, sector as int),
    ensures
        b == mask_spec(mask_index, ring as int, sector as int),
{
    let k = mask_index & 0b111;
    assert(k == mask_index % 8) by (bit_vector)
        requires
            k == mask_index & 7,
    ;
    if k == 0 {
        (ring + sector) % 2 == 0
    } else if k == 1 {
        ring % 2 == 0
    } else if k == 2 {
        sector % 3 == 0
    } else if k == 3 {
        (ring + sector) % 3 == 0
    } else if k == 4 {
        (ring / 2 + sector / 3) % 2 == 0
    } else if k == 5 {
        ((ring * sector) % 2 + (ring * sector) % 3) == 0
    } else if k == 6 {
        (((ring + sector) % 2 + (ring * sector) % 3) % 2) == 0
    } else {
        (((ring + sector) % 2 + (ring * sector) % 3) % 2) == 0
    }
}

/// A cell after masking: data sectors selected by the mask are inverted.
pub open spec fn masked_cell(m: u8, ring: int, sector: int, c: bool) -> bool {
    if is_data_sector_spec(ring, sector) && mask_spec(m, ring, sector) {
        !c
    } else {
        c
    }
}

/// A symbol after masking.
pub open spec fn mask_symbol(m: u8, symbol: Seq<Seq<bool>>) -> Seq<Seq<bool>> {
    Seq::new(
        symbol.len(),
        |r: int| Seq::new(symbol[r].len(), |s: int| masked_cell(m, r, s, symbol[r][s])),
    )
}

/// The rows of a symbol as sequences.
pub open spec fn rows_view(symbol: Seq<Vec<bool>>) -> Seq<Seq<bool>> {
    symbol.map_values(|row: Vec<bool>| row@)
}

/// Every cell index of the symbol can be evaluated by every mask.
pub open spec fn symbol_fits(symbol: Seq<Seq<bool>>) -> bool {
    forall|r: int, s: int|
        0 <= r < symbol.len() && 0 <= s < symbol[r].len() ==> #[trigger] mask_args_fit(0, r, s)
}

/// Apply mask `mask_index` to symbol data sectors.
/// Format word sectors and reference gaps are never masked.
pub fn apply_mask(symbol: &mut [Vec<bool>], mask_index: u8)
    requires
        symbol_fits(rows_view(old(symbol)@)),
    ensures
        rows_view(final(symbol)@) == mask_symbol(mask_index, rows_view(old(symbol)@)),
{
    let ghost orig = rows_view(symbol@);
    let n = symbol.len();
    let mut r: usize = 0;
    while r < n
        invariant
            0 <= r <= n,
            n == symbol@.len(),
            orig.len() == n,
            symbol_fits(orig),
            forall|q: int| 0 <= q < r ==> #[trigger] symbol@[q]@ == mask_symbol(mask_index, orig)[q],
            forall|q: int| r <= q < n ==> #[trigger] symbol@[q]@ == orig[q],
        decreases n - r,
    {
        let mut row = symbol[r].clone();
        assert(row@ =~= orig[r as int]);
        let m = row.len();
        let mut s: usize = 0;
        while s < m
            invariant
                0 <= s <= m,
                m == row@.len(),
                m == orig[r as int].len(),
                0 <= r < orig.len(),
                symbol_fits(orig),
                forall|t: int| 0 <= t < s ==> #[trigger] row@[t] == masked_cell(
                    mask_index,
                    r as int,
                    t,
                    orig[r as int][t],
                ),
                forall|t: int| s <= t < m ==> #[trigger] row@[t] == orig[r as int][t],
            decreases m - s,
        {
            assert(mask_args_fit(0, r as int, s as int));
            if is_data_sector(r, s) {
                if mask_fn(mask_index, r, s) {
                    let c = row[s];
                    row.set(s, !c);
                }
            }
            s = s + 1;
        }
        assert(row@ =~= mask_symbol(mask_index, orig)[r as int]);
        symbol[r] = row;
        r = r + 1;
    }
    assert(rows_view(symbol@) =~= mask_symbol(mask_index, orig));
}

/// Masking twice with the same mask restores the symbol.
pub proof fn lemma_mask_involution(m: u8, symbol: Seq<Seq<bool>>)
    ensures
        mask_symbol(m, mask_symbol(m, symbol)) == symbol,
{
    let once = mask_symbol(m, symbol);
    let twice = mask_symbol(m, once);
    assert forall|r: int| 0 <= r < symbol.len() implies twice[r] =~= symbol[r] by {}
    assert(twice =~= symbol);
}

/// Masking changes only data sectors: reference gaps and format word
/// sectors keep their color, and the shape of the symbol is kept.
pub proof fn lemma_mask_keeps_non_data(m: u8, symbol: Seq<Seq<bool>>, r: int, s: int)
    requires
        0 <= r < symbol.len(),
        0 <= s < symbol[r].len(),
        !is_data_sector_spec(r, s),
    ensures
        mask_symbol(m, symbol)[r][s] == symbol[r][s],
        mask_symbol(m, symbol).len() == symbol.len(),
        mask_symbol(m, symbol)[r].len() == symbol[r].len(),
{
}

/// Index of the first smallest of the first `n` penalties.
pub open spec fn first_min_index(p: Seq<u64>, n: int) -> int
    decreases n,
{
    if n <= 1 {
        0
    } else {
        let b = first_min_index(p, n - 1);
        if p[n - 1] < p[b] {
            n - 1
        } else {
            b
        }
    }
}

/// The first least score is a least score: it lies among the first `n`, is at
/// most each of them, and is below each score before it.
pub proof fn lemma_first_min_index(p: Seq<u64>, n: int)
    requires
        1 <= n <= p.len(),
    ensures
        0 <= first_min_index(p, n) < n,
        forall|j: int| 0 <= j < n ==> p[first_min_index(p, n)] <= #[trigger] p[j],
        forall|j: int| 0 <= j < first_min_index(p, n) ==> p[first_min_index(p, n)] < #[trigger] p[j],
    decreases n,
{
    if n > 1 {
        lemma_first_min_index(p, n - 1);
    }
}

proof fn lemma_first_min_index_prefix(p: Seq<u64>, q: Seq<u64>, n: int)
    requires
        1 <= n <= p.len(),
        n <= q.len(),
        forall|j: int| 0 <= j < n ==> p[j] == q[j],
    ensures
        first_min_index(p, n) == first_min_index(q, n),
    decreases n,
{
    if n > 1 {
        lemma_first_min_index_prefix(p, q, n - 1);
        lemma_first_min_index(p, n - 1);
    }
}

/// Select the mask (0–7) with the lowest penalty, the first one on ties,
/// scoring each masked candidate with `penalty`.
pub fn select_best_mask<F: Fn(&Vec<Vec<bool>>) -> u64>(unmasked_symbol: &[Vec<bool>], penalty: F) -> (r:
    (u8, Vec<Vec<bool>>))
    requires
        symbol_fits(rows_view(unmasked_symbol@)),
        forall|c: &Vec<Vec<bool>>| #[trigger] penalty.requires((c,)),
    ensures
        r.0 < 8,
        rows_view(r.1@) == mask_symbol(r.0, rows_view(unmasked_symbol@)),
        exists|p: Seq<u64>, cs: Seq<Vec<Vec<bool>>>|
            #![trigger first_min_index(p, 8), cs.len()]
            p.len() == 8 && cs.len() == 8 && r.0 == first_min_index(p, 8) && (forall|j: int|
                0 <= j < 8 ==> rows_view(#[trigger] cs[j]@) == mask_symbol(
                    j as u8,
                    rows_view(unmasked_symbol@),
                ) && penalty.ensures((&cs[j],), p[j])) && (forall|j: int|
                0 <= j < 8 ==> p[r.0 as int] <= #[trigger] p[j]) && (forall|j: int|
                0 <= j < r.0 ==> p[r.0 as int] < #[trigger] p[j]),
{
    let ghost base = rows_view(unmasked_symbol@);
    let mut best_mask: u8 = 0;
    let mut min_penalty: u64 = 0;
    let mut best_symbol: Vec<Vec<bool>> = Vec::new();
    let ghost mut pens: Seq<u64> = Seq::empty();
    let ghost mut cands: Seq<Vec<Vec<bool>>> = Seq::empty();
    let mut mask: u8 = 0;
    while mask < 8
        invariant
            0 <= mask <= 8,
            base == rows_view(unmasked_symbol@),
            symbol_fits(base),
            forall|c: &Vec<Vec<bool>>| #[trigger] penalty.requires((c,)),
            pens.len() == mask,
            cands.len() == mask,
            mask > 0 ==> best_mask == first_min_index(pens, mask as int),
            mask > 0 ==> best_mask < mask,
            mask > 0 ==> min_penalty == pens[best_mask as int],
            mask > 0 ==> rows_view(best_symbol@) == mask_symbol(best_mask, base),
            forall|j: int|
                0 <= j < mask ==> rows_view(#[trigger] cands[j]@) == mask_symbol(j as u8, base)
                    && penalty.ensures((&cands[j],), pens[j]),
        decreases 8 - mask,
    {
        let mut candidate = copy_symbol(unmasked_symbol);
        apply_mask(candidate.as_mut_slice(), mask);
        let p = penalty(&candidate);
        let ghost old_pens = pens;
        let ghost old_cands = cands;
        proof {
            pens = pens.push(p);
            cands = cands.push(candidate);
            if mask > 0 {
                lemma_first_min_index_prefix(old_pens, pens, mask as int);
            }
        }
        let ghost prev_best = best_mask;
        if mask == 0 || p < min_penalty {
            min_penalty = p;
            best_mask = mask;
            best_symbol = candidate;
        }
        proof {
            lemma_first_min_index(pens, mask as int + 1);
            assert forall|j: int| 0 <= j < mask + 1 implies rows_view(#[trigger] cands[j]@)
                == mask_symbol(j as u8, base) && penalty.ensures((&cands[j],), pens[j]) by {
                if j < mask {
                    assert(cands[j] == old_cands[j]);
                    assert(pens[j] == old_pens[j]);
                }
            }
        }
        mask = mask + 1;
    }
    proof {
        lemma_first_min_index(pens, 8);
    }
    (best_mask, best_symbol)
}

/// A copy of a symbol.
pub fn copy_symbol(symbol: &[Vec<bool>]) -> (c: Vec<Vec<bool>>)
    ensures
        rows_view(c@) == rows_view(symbol@),
{
    let mut out: Vec<Vec<bool>> = Vec::new();
    let mut r: usize = 0;
    while r < symbol.len()
        invariant
            0 <= r <= symbol@.len(),
            out@.len() == r,
            forall|q: int| 0 <= q < r ==> #[trigger] out@[q]@ == symbol@[q]@,
        decreases symbol@.len() - r,
    {
        let row = symbol[r].clone();
        assert(row@ =~= symbol@[r as int]@);
        out.push(row);
        r = r + 1;
    }
    assert(rows_view(out@) =~= rows_view(symbol@));
    out
}

} // verus!
