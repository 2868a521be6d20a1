//! The block layout of long Reed-Solomon messages: a count of codewords
//! split into `nb` nearly equal blocks (the last `count % nb` blocks one
//! longer), and the column-wise interleaving of those blocks.

use vstd::arithmetic::div_mod::{lemma_fundamental_div_mod, lemma_fundamental_div_mod_converse};
use vstd::prelude::*;

verus! {

/// Length of block `b` when `count` symbols are split into `nb` blocks.
pub open spec fn split_len(count: int, nb: int, b: int) -> int {
    count / nb + (if b >= nb - count % nb {
        1int
    } else {
        0int
    })
}

/// Offset of block `b` when `count` symbols are split into `nb` blocks.
pub open spec fn split_offset(count: int, nb: int, b: int) -> int {
    b * (count / nb) + (if b > nb - count % nb {
        b - (nb - count % nb)
    } else {
        0int
    })
}

/// Position of symbol `col` of block `b` in the interleaved sequence.
pub open spec fn interleave_pos(count: int, nb: int, b: int, col: int) -> int {
    if col < count / nb {
        col * nb + b
    } else {
        (count / nb) * nb + b - (nb - count % nb)
    }
}

/// The block that position `k` of the interleaved sequence comes from.
pub open spec fn interleave_block(count: int, nb: int, k: int) -> int {
    if k < (count / nb) * nb {
        k % nb
    } else {
        nb - count % nb + (k - (count / nb) * nb)
    }
}

/// The index within its block of position `k` of the interleaved sequence.
pub open spec fn interleave_col(count: int, nb: int, k: int) -> int {
    if k < (count / nb) * nb {
        k / nb
    } else {
        count / nb
    }
}

/// How many symbols precede the visit of `(col, b)` when columns are
/// visited in order and, within a column, the blocks that reach it.
pub open spec fn interleave_count(count: int, nb: int, col: int, b: int) -> int {
    if col < count / nb {
        col * nb + b
    } else if col == count / nb {
        (count / nb) * nb + (if b > nb - count % nb {
            b - (nb - count % nb)
        } else {
            0int
        })
    } else {
        count
    }
}

/// The largest block length.
pub open spec fn split_max_len(count: int, nb: int) -> int {
    count / nb + (if count % nb > 0 {
        1int
    } else {
        0int
    })
}

/// Basic facts on the split of `count` into `nb` blocks.
pub proof fn lemma_split_basics(count: int, nb: int)
    requires
        0 <= count,
        1 <= nb,
    ensures
        count == (count / nb) * nb + count % nb,
        0 <= count % nb < nb,
        0 <= count / nb <= count,
        count % nb > 0 ==> count / nb < count,
        split_offset(count, nb, 0) == 0,
        split_offset(count, nb, nb) == count,
        interleave_count(count, nb, split_max_len(count, nb), 0) == count,
{
    lemma_fundamental_div_mod(count, nb);
    assert(0 <= count % nb < nb);
    assert(0 <= count / nb) by (nonlinear_arith)
        requires
            count == nb * (count / nb) + count % nb,
            0 <= count % nb < nb,
            0 <= count,
            1 <= nb,
    ;
    assert(nb * (count / nb) == (count / nb) * nb) by (nonlinear_arith);
    assert(count / nb <= (count / nb) * nb) by (nonlinear_arith) requires count / nb >= 0, nb >= 1;
    assert(0 * (count / nb) == 0);
    assert(split_offset(count, nb, nb) == count);
}

/// Consecutive block offsets differ by the block length.
pub proof fn lemma_split_offset_step(count: int, nb: int, b: int)
    requires
        0 <= count,
        1 <= nb,
        0 <= b < nb,
    ensures
        split_offset(count, nb, b + 1) == split_offset(count, nb, b) + split_len(count, nb, b),
        split_len(count, nb, b) >= 0,
        split_offset(count, nb, b) >= 0,
        split_offset(count, nb, b + 1) <= count,
{
    lemma_split_basics(count, nb);
    let base = count / nb;
    assert((b + 1) * base == b * base + base) by (nonlinear_arith);
    assert(b * base >= 0) by (nonlinear_arith) requires b >= 0, base >= 0;
    assert((b + 1) * base <= nb * base) by (nonlinear_arith) requires b + 1 <= nb, base >= 0;
    assert(nb * base == base * nb) by (nonlinear_arith);
}

/// The interleaved position of an existing symbol lies in range and maps
/// back to its block and index.
pub proof fn lemma_interleave_pos_src(count: int, nb: int, b: int, col: int)
    requires
        0 <= count,
        1 <= nb,
        0 <= b < nb,
        0 <= col < split_len(count, nb, b),
    ensures
        0 <= interleave_pos(count, nb, b, col) < count,
        interleave_block(count, nb, interleave_pos(count, nb, b, col)) == b,
        interleave_col(count, nb, interleave_pos(count, nb, b, col)) == col,
        interleave_pos(count, nb, b, col) == interleave_count(count, nb, col, b),
{
    lemma_split_basics(count, nb);
    let base = count / nb;
    let ex = count % nb;
    if col < base {
        let k = col * nb + b;
        assert((col + 1) * nb <= base * nb) by (nonlinear_arith) requires col + 1 <= base, nb >= 1;
        assert(k < base * nb) by (nonlinear_arith) requires (col + 1) * nb <= base * nb, b < nb, k == col * nb + b;
        assert(k >= 0) by (nonlinear_arith) requires col >= 0, b >= 0, nb >= 1, k == col * nb + b;
        lemma_fundamental_div_mod_converse(k, nb, col, b);
    } else {
        assert(col == base);
    }
}

/// Every position of the interleaved sequence comes from an existing symbol.
pub proof fn lemma_interleave_src_pos(count: int, nb: int, k: int)
    requires
        0 <= count,
        1 <= nb,
        0 <= k < count,
    ensures
        0 <= interleave_block(count, nb, k) < nb,
        0 <= interleave_col(count, nb, k) < split_len(
            count,
            nb,
            interleave_block(count, nb, k),
        ),
        interleave_pos(
            count,
            nb,
            interleave_block(count, nb, k),
            interleave_col(count, nb, k),
        ) == k,
{
    lemma_split_basics(count, nb);
    let base = count / nb;
    if k < base * nb {
        lemma_fundamental_div_mod(k, nb);
        let q = k / nb;
        let r = k % nb;
        assert(q < base) by (nonlinear_arith) requires k == nb * q + r, 0 <= r, k < base * nb, nb >= 1;
        assert(q >= 0) by (nonlinear_arith) requires k == nb * q + r, r < nb, k >= 0, nb >= 1;
        assert(nb * q == q * nb) by (nonlinear_arith);
    }
}

/// Advancing within a column and from one column to the next.
pub proof fn lemma_interleave_count_step(count: int, nb: int, col: int, b: int)
    requires
        0 <= count,
        1 <= nb,
        0 <= col,
        0 <= b < nb,
    ensures
        col < split_len(count, nb, b) ==> interleave_count(count, nb, col, b + 1) == interleave_count(
            count,
            nb,
            col,
            b,
        ) + 1,
        col >= split_len(count, nb, b) ==> interleave_count(count, nb, col, b + 1)
            == interleave_count(count, nb, col, b),
        interleave_count(count, nb, col, nb) == interleave_count(count, nb, col + 1, 0),
        interleave_count(count, nb, col, b) <= count,
{
    lemma_split_basics(count, nb);
    let base = count / nb;
    assert((col + 1) * nb == col * nb + nb) by (nonlinear_arith);
    if col < base {
        assert((col + 1) * nb <= base * nb) by (nonlinear_arith) requires col + 1 <= base, nb >= 1;
        assert(col * nb + b < base * nb) by (nonlinear_arith) requires (col + 1) * nb <= base * nb, b < nb;
        assert(col * nb + b <= count) by (nonlinear_arith) requires col * nb + b < base * nb, count == base * nb + count % nb, count % nb >= 0;
    }
}

/// The interleaving of `nb` blocks whose lengths follow the split of `count`.
pub open spec fn interleave_spec(blocks: Seq<Seq<u8>>, count: int, nb: int) -> Seq<u8> {
    Seq::new(
        count as nat,
        |k: int| blocks[interleave_block(count, nb, k)][interleave_col(count, nb, k)],
    )
}

/// Block `b` read back out of an interleaved sequence starting at `start`.
pub open spec fn deinterleave_block(received: Seq<u8>, start: int, count: int, nb: int, b: int) -> Seq<
    u8,
> {
    Seq::new(
        split_len(count, nb, b) as nat,
        |c: int| received[start + interleave_pos(count, nb, b, c)],
    )
}

/// Where position `k` of an interleaved run of `count` symbols comes from:
/// its block and its index within the block.
pub fn interleave_source(count: usize, nb: usize, k: usize) -> (r: (usize, usize))
    requires
        1 <= nb,
        k < count,
    ensures
        r.0 == interleave_block(count as int, nb as int, k as int),
        r.1 == interleave_col(count as int, nb as int, k as int),
        r.0 < nb,
        r.1 < split_len(count as int, nb as int, r.0 as int),
{
    proof {
        lemma_split_basics(count as int, nb as int);
        lemma_interleave_src_pos(count as int, nb as int, k as int);
    }
    let base = count / nb;
    assert(base * nb <= count);
    let full = base * nb;
    if k < full {
        (k % nb, k / nb)
    } else {
        (nb - count % nb + (k - full), base)
    }
}

/// Appends the column-wise interleaving of `blocks` to `out`.
pub fn interleave_into(blocks: &Vec<Vec<u8>>, count: usize, nb: usize, out: &mut Vec<u8>)
    requires
        1 <= nb,
        blocks@.len() == nb,
        forall|b: int| 0 <= b < nb ==> #[trigger] blocks@[b]@.len() == split_len(count as int, nb as int, b),
    ensures
        final(out)@ == old(out)@ + interleave_spec(
            blocks@.map_values(|v: Vec<u8>| v@),
            count as int,
            nb as int,
        ),
{
    let ghost bs = blocks@.map_values(|v: Vec<u8>| v@);
    let ghost start = old(out)@.len();
    proof {
        lemma_split_basics(count as int, nb as int);
    }
    let base = count / nb;
    let max_len = if count % nb > 0 {
        base + 1
    } else {
        base
    };
    let mut col: usize = 0;
    while col < max_len
        invariant
            1 <= nb,
            blocks@.len() == nb,
            bs == blocks@.map_values(|v: Vec<u8>| v@),
            forall|b: int| 0 <= b < nb ==> #[trigger] blocks@[b]@.len() == split_len(count as int, nb as int, b),
            base == count / nb,
            max_len == split_max_len(count as int, nb as int),
            0 <= col <= max_len,
            start == old(out)@.len(),
            out@.len() == start + interleave_count(count as int, nb as int, col as int, 0),
            out@.subrange(0, start as int) == old(out)@,
            forall|k: int|
                start <= k < out@.len() ==> #[trigger] out@[k] == bs[interleave_block(
                    count as int,
                    nb as int,
                    k - start,
                )][interleave_col(count as int, nb as int, k - start)],
        decreases max_len - col,
    {
        let mut b: usize = 0;
        while b < nb
            invariant
                1 <= nb,
                blocks@.len() == nb,
                bs == blocks@.map_values(|v: Vec<u8>| v@),
                forall|b: int| 0 <= b < nb ==> #[trigger] blocks@[b]@.len() == split_len(count as int, nb as int, b),
                0 <= col < max_len,
                max_len == split_max_len(count as int, nb as int),
                0 <= b <= nb,
                start == old(out)@.len(),
                out@.len() == start + interleave_count(count as int, nb as int, col as int, b as int),
                out@.subrange(0, start as int) == old(out)@,
                forall|k: int|
                    start <= k < out@.len() ==> #[trigger] out@[k] == bs[interleave_block(
                        count as int,
                        nb as int,
                        k - start,
                    )][interleave_col(count as int, nb as int, k - start)],
            decreases nb - b,
        {
            proof {
                lemma_interleave_count_step(count as int, nb as int, col as int, b as int);
            }
            if col < blocks[b].len() {
                proof {
                    lemma_interleave_pos_src(count as int, nb as int, b as int, col as int);
                }
                out.push(blocks[b][col]);
            }
            b = b + 1;
        }
        proof {
            lemma_interleave_count_step(count as int, nb as int, col as int, 0);
        }
        col = col + 1;
    }
    assert(out@ =~= old(out)@ + interleave_spec(bs, count as int, nb as int));
}

/// Reads the `nb` blocks of a `count`-symbol interleaved sequence that
/// starts at `start` in `received`.
pub fn deinterleave(received: &[u8], start: usize, count: usize, nb: usize) -> (blocks: Vec<Vec<u8>>)
    requires
        1 <= nb,
        start + count <= received@.len(),
    ensures
        blocks@.len() == nb,
        forall|b: int|
            0 <= b < nb ==> #[trigger] blocks@[b]@ == deinterleave_block(
                received@,
                start as int,
                count as int,
                nb as int,
                b,
            ),
{
    proof {
        lemma_split_basics(count as int, nb as int);
    }
    let mut blocks: Vec<Vec<u8>> = Vec::new();
    let mut q: usize = 0;
    while q < nb
        invariant
            0 <= q <= nb,
            blocks@.len() == q,
            forall|b: int| 0 <= b < q ==> #[trigger] blocks@[b]@.len() == 0,
        decreases nb - q,
    {
        blocks.push(Vec::new());
        q = q + 1;
    }
    let base = count / nb;
    let max_len = if count % nb > 0 {
        base + 1
    } else {
        base
    };
    let mut idx: usize = start;
    let mut col: usize = 0;
    while col < max_len
        invariant
            1 <= nb,
            start + count <= received@.len(),
            base == count / nb,
            max_len == split_max_len(count as int, nb as int),
            0 <= col <= max_len,
            blocks@.len() == nb,
            idx == start + interleave_count(count as int, nb as int, col as int, 0),
            forall|b: int|
                0 <= b < nb ==> #[trigger] blocks@[b]@.len() == (if col < split_len(
                    count as int,
                    nb as int,
                    b,
                ) {
                    col as int
                } else {
                    split_len(count as int, nb as int, b)
                }),
            forall|b: int, c: int|
                0 <= b < nb && 0 <= c < blocks@[b]@.len() ==> #[trigger] blocks@[b]@[c]
                    == received@[start + interleave_pos(count as int, nb as int, b, c)],
        decreases max_len - col,
    {
        let mut b: usize = 0;
        while b < nb
            invariant
                1 <= nb,
                start + count <= received@.len(),
                0 <= col < max_len,
                max_len == split_max_len(count as int, nb as int),
                base == count / nb,
                0 <= b <= nb,
                blocks@.len() == nb,
                idx == start + interleave_count(count as int, nb as int, col as int, b as int),
                forall|b2: int|
                    0 <= b2 < nb ==> #[trigger] blocks@[b2]@.len() == (if col + (if b2 < b {
                        1int
                    } else {
                        0int
                    }) < split_len(count as int, nb as int, b2) {
                        col + (if b2 < b {
                            1int
                        } else {
                            0int
                        })
                    } else {
                        split_len(count as int, nb as int, b2)
                    }),
                forall|b2: int, c: int|
                    0 <= b2 < nb && 0 <= c < blocks@[b2]@.len() ==> #[trigger] blocks@[b2]@[c]
                        == received@[start + interleave_pos(count as int, nb as int, b2, c)],
            decreases nb - b,
        {
            proof {
                lemma_interleave_count_step(count as int, nb as int, col as int, b as int);
            }
            if col < base + (if b >= nb - count % nb { 1 } else { 0 }) {
                proof {
                    lemma_interleave_pos_src(count as int, nb as int, b as int, col as int);
                }
                let v = received[idx];
                let mut blk = blocks[b].clone();
                assert(blk@ =~= blocks@[b as int]@);
                blk.push(v);
                blocks.set(b, blk);
                idx = idx + 1;
            }
            b = b + 1;
        }
        proof {
            lemma_interleave_count_step(count as int, nb as int, col as int, 0);
        }
        col = col + 1;
    }
    assert forall|b: int|
        0 <= b < nb implies #[trigger] blocks@[b]@ == deinterleave_block(
        received@,
        start as int,
        count as int,
        nb as int,
        b,
    ) by {
        assert(blocks@[b]@ =~= deinterleave_block(received@, start as int, count as int, nb as int, b));
    }
    blocks
}

} // verus!
