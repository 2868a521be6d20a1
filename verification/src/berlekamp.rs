//! The Berlekamp-Massey algorithm as the decoder runs it: the connection
//! polynomial it keeps generates the syndromes seen so far, and its
//! register length never exceeds that of any other generator (Massey's
//! bound).

use crate::distance::lemma_xor_swap;
use crate::ecc::{bm_discrepancy, bm_state, bm_update};
use crate::gf::{
    gf_div_spec, gf_inv_spec, gf_mul_spec, lemma_inverse, lemma_mul_associative,
    lemma_mul_commutative, lemma_mul_distributive, lemma_mul_zero_one, lemma_xor_facts,
};
use vstd::prelude::*;

verus! {

/// `sum_{j <= u} c[j] * s[i - j]`, coefficients past the end of `c` being zero.
pub open spec fn conn_sum(c: Seq<u8>, s: Seq<u8>, i: int, u: int) -> u8
    decreases u + 1,
{
    if u < 0 {
        0u8
    } else {
        conn_sum(c, s, i, u - 1) ^ (if u < c.len() {
            gf_mul_spec(c[u], s[i - u])
        } else {
            0u8
        })
    }
}

/// `c` of register length `l` generates `s` at every index in `[l, to)`.
pub open spec fn generates(c: Seq<u8>, s: Seq<u8>, l: int, to: int) -> bool {
    forall|i: int| l <= i < to ==> #[trigger] conn_sum(c, s, i, l) == 0u8
}

/// The coefficients of `c` past `l` are zero, and its constant term is one.
pub open spec fn monic_degree_at_most(c: Seq<u8>, l: int) -> bool {
    &&& c.len() >= 1
    &&& c[0] == 1u8
    &&& forall|j: int| l < j < c.len() ==> #[trigger] c[j] == 0u8
}

/// The Berlekamp-Massey discrepancy is the connection sum.
proof fn lemma_discrepancy_is_sum(s: Seq<u8>, n: int, c: Seq<u8>, u: int)
    requires
        c.len() >= 1,
        c[0] == 1u8,
        0 <= u,
    ensures
        bm_discrepancy(s, n, c, u) == conn_sum(c, s, n, u),
    decreases u,
{
    if u == 0 {
        reveal_with_fuel(conn_sum, 2);
        lemma_mul_zero_one(s[n]);
        lemma_xor_facts(s[n], 0u8, 0u8);
    } else {
        lemma_discrepancy_is_sum(s, n, c, u - 1);
    }
}

/// Terms past the degree add nothing.
proof fn lemma_conn_sum_degree(c: Seq<u8>, s: Seq<u8>, i: int, l: int, u: int)
    requires
        0 <= l <= u,
        forall|j: int| l < j < c.len() ==> #[trigger] c[j] == 0u8,
    ensures
        conn_sum(c, s, i, u) == conn_sum(c, s, i, l),
    decreases u,
{
    if u > l {
        lemma_conn_sum_degree(c, s, i, l, u - 1);
        if u < c.len() {
            lemma_mul_zero_one(s[i - u]);
        }
        lemma_xor_facts(conn_sum(c, s, i, u - 1), 0u8, 0u8);
    }
}

/// The connection sum of `c + a x^m b`.
proof fn lemma_conn_sum_update(c: Seq<u8>, b: Seq<u8>, m: int, a: u8, s: Seq<u8>, i: int, u: int)
    requires
        m >= 1,
        u >= 0,
    ensures
        conn_sum(bm_update(c, b, m, a), s, i, u) == conn_sum(c, s, i, u) ^ gf_mul_spec(
            a,
            conn_sum(b, s, i - m, u - m),
        ),
    decreases u,
{
    let c2 = bm_update(c, b, m, a);
    lemma_mul_zero_one(a);
    if u == 0 {
        reveal_with_fuel(conn_sum, 2);
        lemma_mul_zero_one(s[i]);
        assert(conn_sum(b, s, i - m, u - m) == 0u8);
        lemma_xor_facts(conn_sum(c, s, i, 0), 0u8, 0u8);
        if 0 < c.len() {
            assert(c2[0] == c[0] ^ 0u8);
            lemma_xor_facts(c[0], 0u8, 0u8);
        }
        lemma_xor_facts(0u8, 0u8, 0u8);
    } else {
        lemma_conn_sum_update(c, b, m, a, s, i, u - 1);
        let pc = conn_sum(c, s, i, u - 1);
        let pb = conn_sum(b, s, i - m, u - 1 - m);
        let tc = if u < c.len() {
            gf_mul_spec(c[u], s[i - u])
        } else {
            0u8
        };
        let tb = if 0 <= u - m < b.len() {
            gf_mul_spec(b[u - m], s[i - m - (u - m)])
        } else {
            0u8
        };
        // the b-sum gains its term u - m exactly when u - m >= 0
        if u - m >= 0 {
            assert(conn_sum(b, s, i - m, u - m) == pb ^ tb);
        } else {
            assert(conn_sum(b, s, i - m, u - m) == 0u8);
            assert(pb == 0u8);
        }
        // the new coefficient u of c2
        let cu = if u < c.len() {
            c[u]
        } else {
            0u8
        };
        let bu = if m <= u < m + b.len() {
            gf_mul_spec(a, b[u - m])
        } else {
            0u8
        };
        let t2 = if u < c2.len() {
            gf_mul_spec(c2[u], s[i - u])
        } else {
            0u8
        };
        if u < c2.len() {
            assert(c2[u] == cu ^ bu);
            lemma_mul_commutative(cu ^ bu, s[i - u]);
            lemma_mul_distributive(s[i - u], cu, bu);
            lemma_mul_commutative(s[i - u], cu);
            lemma_mul_commutative(s[i - u], bu);
            lemma_mul_zero_one(s[i - u]);
        } else {
            assert(u >= c.len() && !(m <= u < m + b.len()));
        }
        lemma_mul_zero_one(s[i - u]);
        lemma_xor_facts(0u8, 0u8, 0u8);
        if m <= u < m + b.len() {
            lemma_mul_associative(a, b[u - m], s[i - u]);
            assert(gf_mul_spec(bu, s[i - u]) == gf_mul_spec(a, tb));
        } else {
            assert(bu == 0u8);
            assert(tb == 0u8);
            assert(gf_mul_spec(bu, s[i - u]) == gf_mul_spec(a, tb));
        }
        if u < c.len() {
            assert(gf_mul_spec(cu, s[i - u]) == tc);
        } else {
            assert(gf_mul_spec(cu, s[i - u]) == tc);
        }
        if u < c2.len() {
            assert(t2 == gf_mul_spec(cu, s[i - u]) ^ gf_mul_spec(bu, s[i - u]));
        }
        assert(t2 == tc ^ gf_mul_spec(a, tb));
        lemma_mul_distributive(a, pb, tb);
        lemma_xor_swap(pc, gf_mul_spec(a, pb), tc, gf_mul_spec(a, tb));
    }
}

/// The Berlekamp-Massey state after `n` steps: the connection polynomial
/// `C` of register length `L` generates the first `n` syndromes; the kept
/// polynomial `B`, of register length `n - m + 1 - L`, generates the
/// syndromes before index `n - m` and has discrepancy `b` there.
pub open spec fn bm_invariant(s: Seq<u8>, n: int) -> bool {
    let st = bm_state(s, n as nat);
    let c = st.0;
    let b = st.1;
    let l = st.2 as int;
    let m = st.3 as int;
    let lb = n - m + 1 - l;
    &&& m >= 1
    &&& lb >= 0
    &&& st.4 != 0u8
    &&& monic_degree_at_most(c, l)
    &&& monic_degree_at_most(b, lb)
    &&& generates(c, s, l, n)
    &&& generates(b, s, lb, n - m)
    &&& (n - m >= 0 ==> conn_sum(b, s, n - m, lb) == st.4)
    &&& (n - m < 0 ==> l == 0)
}

/// `(d / b) * b == d` for nonzero `b`.
proof fn lemma_div_mul(d: u8, b: u8)
    requires
        b != 0,
    ensures
        gf_mul_spec(gf_div_spec(d, b), b) == d,
{
    lemma_inverse(b);
    lemma_mul_associative(d, gf_inv_spec(b), b);
    lemma_mul_commutative(gf_inv_spec(b), b);
    lemma_mul_zero_one(d);
}

/// One Berlekamp-Massey step keeps the invariant.
#[verifier::rlimit(50)]
proof fn lemma_bm_step(s: Seq<u8>, n: int)
    requires
        0 <= n < s.len(),
        bm_invariant(s, n),
    ensures
        bm_invariant(s, n + 1),
{
    let st = bm_state(s, n as nat);
    let c = st.0;
    let b = st.1;
    let l = st.2 as int;
    let m = st.3 as int;
    let bs = st.4;
    let lb = n - m + 1 - l;
    let d = bm_discrepancy(s, n, c, l);
    lemma_discrepancy_is_sum(s, n, c, l);
    assert(bm_state(s, (n + 1) as nat) == if d == 0 {
        (c, b, st.2, (m + 1) as nat, bs)
    } else if 2 * l <= n {
        (bm_update(c, b, m, gf_div_spec(d, bs)), c, (n + 1 - l) as nat, 1nat, d)
    } else {
        (bm_update(c, b, m, gf_div_spec(d, bs)), b, st.2, (m + 1) as nat, bs)
    });
    if d == 0 {
        assert forall|i: int| l <= i < n + 1 implies #[trigger] conn_sum(c, s, i, l) == 0u8 by {}
    } else {
        let a = gf_div_spec(d, bs);
        let c2 = bm_update(c, b, m, a);
        lemma_div_mul(d, bs);
        lemma_mul_commutative(a, bs);
        lemma_xor_facts(d, d, 0u8);
        lemma_mul_zero_one(a);
        lemma_xor_facts(0u8, 0u8, 0u8);
        let l2 = if 2 * l <= n {
            n + 1 - l
        } else {
            l
        };
        // the constant term and the degree of the update
        assert(c2[0] == c[0] ^ 0u8);
        lemma_xor_facts(1u8, 0u8, 0u8);
        assert forall|j: int| l2 < j < c2.len() implies #[trigger] c2[j] == 0u8 by {
            if j < c.len() {
                assert(c[j] == 0u8);
            }
            if m <= j < m + b.len() {
                assert(b[j - m] == 0u8);
            }
        }
        // the update generates up to and including index n
        assert forall|i: int| l2 <= i < n + 1 implies #[trigger] conn_sum(c2, s, i, l2) == 0u8 by {
            lemma_conn_sum_update(c, b, m, a, s, i, l2);
            lemma_conn_sum_degree(c, s, i, l, l2);
            lemma_conn_sum_degree(b, s, i - m, lb, l2 - m);
            if i < n {
                assert(conn_sum(c, s, i, l) == 0u8);
                assert(conn_sum(b, s, i - m, lb) == 0u8);
            }
        }
        if 2 * l <= n {
            assert forall|i: int| l <= i < n implies #[trigger] conn_sum(c, s, i, l) == 0u8 by {}
        }
    }
}

/// The invariant holds after every step.
pub proof fn lemma_bm_invariant(s: Seq<u8>, n: int)
    requires
        0 <= n <= s.len(),
    ensures
        bm_invariant(s, n),
    decreases n,
{
    if n == 0 {
        assert(bm_state(s, 0) == (seq![1u8], seq![1u8], 0nat, 1nat, 1u8));
    } else {
        lemma_bm_invariant(s, n - 1);
        lemma_bm_step(s, n - 1);
    }
}

/// `sum_{j <= u} c[j] * conn_sum(d, s, n - j, v)`.
pub open spec fn nested_sum(c: Seq<u8>, d: Seq<u8>, s: Seq<u8>, n: int, u: int, v: int) -> u8
    decreases u + 1,
{
    if u < 0 {
        0u8
    } else {
        nested_sum(c, d, s, n, u - 1, v) ^ (if u < c.len() {
            gf_mul_spec(c[u], conn_sum(d, s, n - u, v))
        } else {
            0u8
        })
    }
}

/// A nested sum whose inner sums all vanish is zero.
proof fn lemma_nested_zero(c: Seq<u8>, d: Seq<u8>, s: Seq<u8>, n: int, u: int, v: int)
    requires
        forall|j: int| 0 <= j <= u && j < c.len() ==> #[trigger] conn_sum(d, s, n - j, v) == 0u8,
    ensures
        nested_sum(c, d, s, n, u, v) == 0u8,
    decreases u + 1,
{
    if u >= 0 {
        lemma_nested_zero(c, d, s, n, u - 1, v);
        if u < c.len() {
            lemma_mul_zero_one(c[u]);
        }
        lemma_xor_facts(0u8, 0u8, 0u8);
    }
}

/// Raising the inner bound of the swapped nested sum by one adds the
/// matching outer term.
proof fn lemma_nested_inner_step(c: Seq<u8>, d: Seq<u8>, s: Seq<u8>, n: int, u: int, v: int)
    requires
        u >= 0,
    ensures
        nested_sum(d, c, s, n, v, u) == nested_sum(d, c, s, n, v, u - 1) ^ (if u < c.len() {
            gf_mul_spec(c[u], conn_sum(d, s, n - u, v))
        } else {
            0u8
        }),
    decreases v + 1,
{
    lemma_mul_zero_one(0u8);
    lemma_xor_facts(0u8, 0u8, 0u8);
    if u < c.len() {
        lemma_mul_zero_one(c[u]);
    }
    if v < 0 {
        lemma_xor_facts(0u8, 0u8, 0u8);
    } else {
        lemma_nested_inner_step(c, d, s, n, u, v - 1);
        let a = nested_sum(d, c, s, n, v - 1, u - 1);
        let tp = if u < c.len() {
            gf_mul_spec(c[u], conn_sum(d, s, n - u, v - 1))
        } else {
            0u8
        };
        let sv = s[n - v - u];
        let cu = if u < c.len() {
            c[u]
        } else {
            0u8
        };
        let dv = if v < d.len() {
            d[v]
        } else {
            0u8
        };
        // the new inner term of c at n - v, and of d at n - u
        let cprev = conn_sum(c, s, n - v, u - 1);
        assert(conn_sum(c, s, n - v, u) == cprev ^ (if u < c.len() {
            gf_mul_spec(c[u], s[n - v - u])
        } else {
            0u8
        }));
        assert(conn_sum(d, s, n - u, v) == conn_sum(d, s, n - u, v - 1) ^ (if v < d.len() {
            gf_mul_spec(d[v], s[n - u - v])
        } else {
            0u8
        }));
        let x = gf_mul_spec(dv, gf_mul_spec(cu, sv));
        lemma_mul_zero_one(sv);
        lemma_mul_zero_one(gf_mul_spec(cu, sv));
        lemma_mul_zero_one(gf_mul_spec(dv, sv));
        lemma_mul_zero_one(dv);
        lemma_mul_zero_one(cu);
        lemma_mul_associative(dv, cu, sv);
        lemma_mul_associative(cu, dv, sv);
        lemma_mul_commutative(dv, cu);
        if v < d.len() {
            lemma_mul_distributive(d[v], cprev, gf_mul_spec(cu, sv));
        }
        if u < c.len() {
            lemma_mul_distributive(c[u], conn_sum(d, s, n - u, v - 1), gf_mul_spec(dv, sv));
        }
        let dterm = if v < d.len() {
            gf_mul_spec(d[v], cprev)
        } else {
            0u8
        };
        assert(s[n - u - v] == sv);
        let inner_c = if u < c.len() {
            gf_mul_spec(c[u], sv)
        } else {
            0u8
        };
        assert(inner_c == gf_mul_spec(cu, sv));
        let inner_d = if v < d.len() {
            gf_mul_spec(d[v], sv)
        } else {
            0u8
        };
        assert(inner_d == gf_mul_spec(dv, sv));
        let dfull = if v < d.len() {
            gf_mul_spec(d[v], conn_sum(c, s, n - v, u))
        } else {
            0u8
        };
        assert(conn_sum(c, s, n - v, u) == cprev ^ inner_c);
        if v < d.len() {
            lemma_mul_distributive(d[v], cprev, inner_c);
            assert(dfull == gf_mul_spec(d[v], cprev ^ inner_c));
            assert(gf_mul_spec(d[v], inner_c) == x);
        } else {
            assert(dfull == 0u8);
            assert(dterm == 0u8);
            assert(x == 0u8);
        }
        assert(dfull == dterm ^ x);
        assert(nested_sum(d, c, s, n, v, u) == nested_sum(d, c, s, n, v - 1, u) ^ dfull);
        assert(nested_sum(d, c, s, n, v, u) == (a ^ tp) ^ (dterm ^ x));
        assert(nested_sum(d, c, s, n, v, u - 1) == a ^ dterm);
        let cd_prev = conn_sum(d, s, n - u, v - 1);
        assert(conn_sum(d, s, n - u, v) == cd_prev ^ inner_d);
        if u < c.len() {
            lemma_mul_distributive(c[u], cd_prev, inner_d);
            assert(gf_mul_spec(c[u], cd_prev ^ inner_d) == tp ^ gf_mul_spec(c[u], gf_mul_spec(dv, sv)));
            assert(gf_mul_spec(c[u], gf_mul_spec(dv, sv)) == x);
        } else {
            assert(tp == 0u8);
            assert(x == 0u8);
        }
        assert((if u < c.len() {
            gf_mul_spec(c[u], conn_sum(d, s, n - u, v))
        } else {
            0u8
        }) == tp ^ x);
        lemma_xor_swap(a, tp, dterm, x);
    }
}

/// Exchanging the order of a nested sum.
proof fn lemma_nested_exchange(c: Seq<u8>, d: Seq<u8>, s: Seq<u8>, n: int, u: int, v: int)
    ensures
        nested_sum(c, d, s, n, u, v) == nested_sum(d, c, s, n, v, u),
    decreases u + 1,
{
    if u < 0 {
        assert forall|k: int| 0 <= k <= v && k < d.len() implies #[trigger] conn_sum(c, s, n - k, u)
            == 0u8 by {}
        lemma_nested_zero(d, c, s, n, v, u);
    } else {
        lemma_nested_exchange(c, d, s, n, u - 1, v);
        lemma_nested_inner_step(c, d, s, n, u, v);
    }
}

/// A nested sum whose inner sums vanish past the first is its first term.
proof fn lemma_nested_first(d: Seq<u8>, c: Seq<u8>, s: Seq<u8>, n: int, v: int, u: int)
    requires
        v >= 0,
        d.len() >= 1,
        forall|k: int| 1 <= k <= v && k < d.len() ==> #[trigger] conn_sum(c, s, n - k, u) == 0u8,
    ensures
        nested_sum(d, c, s, n, v, u) == gf_mul_spec(d[0], conn_sum(c, s, n, u)),
    decreases v,
{
    if v == 0 {
        reveal_with_fuel(nested_sum, 2);
        lemma_xor_facts(gf_mul_spec(d[0], conn_sum(c, s, n, u)), 0u8, 0u8);
    } else {
        lemma_nested_first(d, c, s, n, v - 1, u);
        if v < d.len() {
            lemma_mul_zero_one(d[v]);
        }
        lemma_xor_facts(gf_mul_spec(d[0], conn_sum(c, s, n, u)), 0u8, 0u8);
    }
}

/// Massey's bound: if `c` of register length `l` generates the syndromes
/// before `n` but not the one at `n`, any generator of the syndromes up to
/// `n` has register length at least `n + 1 - l`.
pub proof fn lemma_massey_bound(s: Seq<u8>, c: Seq<u8>, l: int, d: Seq<u8>, ld: int, n: int)
    requires
        0 <= l,
        0 <= ld,
        monic_degree_at_most(c, l),
        monic_degree_at_most(d, ld),
        generates(c, s, l, n),
        conn_sum(c, s, n, l) != 0u8,
        generates(d, s, ld, n + 1),
    ensures
        ld >= n + 1 - l,
{
    if ld + l <= n {
        assert forall|j: int| 0 <= j <= l && j < c.len() implies #[trigger] conn_sum(d, s, n - j, ld)
            == 0u8 by {}
        lemma_nested_zero(c, d, s, n, l, ld);
        lemma_nested_exchange(c, d, s, n, l, ld);
        assert forall|k: int| 1 <= k <= ld && k < d.len() implies #[trigger] conn_sum(c, s, n - k, l)
            == 0u8 by {}
        lemma_nested_first(d, c, s, n, ld, l);
        lemma_mul_zero_one(conn_sum(c, s, n, l));
    }
}

/// When some generator of register length `t` produces all the syndromes
/// from `t` on, Berlekamp-Massey's register length never exceeds `t`.
pub proof fn lemma_bm_length_bound(s: Seq<u8>, d: Seq<u8>, t: int, n: int)
    requires
        0 <= t,
        monic_degree_at_most(d, t),
        generates(d, s, t, s.len() as int),
        0 <= n <= s.len(),
    ensures
        bm_state(s, n as nat).2 <= t,
    decreases n,
{
    if n > 0 {
        lemma_bm_length_bound(s, d, t, n - 1);
        lemma_bm_invariant(s, n - 1);
        let st = bm_state(s, (n - 1) as nat);
        let l = st.2 as int;
        let dd = bm_discrepancy(s, n - 1, st.0, l);
        lemma_discrepancy_is_sum(s, n - 1, st.0, l);
        if dd != 0u8 && 2 * l <= n - 1 {
            assert forall|i: int| t <= i < n implies #[trigger] conn_sum(d, s, i, t) == 0u8 by {}
            lemma_massey_bound(s, st.0, l, d, t, n - 1);
        }
    }
}

} // verus!
