//! Arithmetic in the finite field GF(2^8) defined by the primitive
//! polynomial x^8 + x^4 + x^3 + x^2 + 1 (0x11D), with generator alpha = 2.

use vstd::prelude::*;

verus! {

/// Multiplication of a field element by x (that is, by alpha = 2),
/// reduced modulo 0x11D.
pub open spec fn xtime(a: u8) -> u8 {
    if a & 0x80u8 == 0u8 {
        a << 1u8
    } else {
        (a << 1u8) ^ 0x1du8
    }
}

/// Field multiplication: the carry-less product of `a` and `b` reduced
/// modulo 0x11D, written as the sum of `a * x^i` over the set bits `i` of `b`.
pub closed spec fn gf_mul_spec(a: u8, b: u8) -> u8 {
    let a1 = xtime(a);
    let a2 = xtime(a1);
    let a3 = xtime(a2);
    let a4 = xtime(a3);
    let a5 = xtime(a4);
    let a6 = xtime(a5);
    let a7 = xtime(a6);
    (if b & 0x01u8 != 0u8 { a } else { 0u8 })
    ^ (if b & 0x02u8 != 0u8 { a1 } else { 0u8 })
    ^ (if b & 0x04u8 != 0u8 { a2 } else { 0u8 })
    ^ (if b & 0x08u8 != 0u8 { a3 } else { 0u8 })
    ^ (if b & 0x10u8 != 0u8 { a4 } else { 0u8 })
    ^ (if b & 0x20u8 != 0u8 { a5 } else { 0u8 })
    ^ (if b & 0x40u8 != 0u8 { a6 } else { 0u8 })
    ^ (if b & 0x80u8 != 0u8 { a7 } else { 0u8 })
}

/// Multiplication is commutative.
#[verifier::rlimit(100)]
pub proof fn lemma_mul_commutative(a: u8, b: u8)
    ensures
        gf_mul_spec(a, b) == gf_mul_spec(b, a),
{
    assert(gf_mul_spec(a, b) == gf_mul_spec(b, a)) by (bit_vector);
}


/// Multiplication distributes over addition (XOR).
#[verifier::rlimit(100)]
pub proof fn lemma_mul_distributive(a: u8, b: u8, c: u8)
    ensures
        gf_mul_spec(a, b ^ c) == gf_mul_spec(a, b) ^ gf_mul_spec(a, c),
{
    assert(gf_mul_spec(a, b ^ c) == gf_mul_spec(a, b) ^ gf_mul_spec(a, c)) by (bit_vector);
}

/// Multiplying a product by x equals multiplying the second factor by x first.
#[verifier::rlimit(100)]
proof fn lemma_xtime_of_product(a: u8, y: u8)
    ensures
        xtime(gf_mul_spec(a, y)) == gf_mul_spec(a, xtime(y)),
{
    assert(xtime(gf_mul_spec(a, y)) == gf_mul_spec(a, xtime(y))) by (bit_vector);
}

/// Zero is absorbing and one is neutral for multiplication.
pub proof fn lemma_mul_zero_one(a: u8)
    ensures
        gf_mul_spec(a, 0) == 0,
        gf_mul_spec(0, a) == 0,
        gf_mul_spec(a, 1) == a,
        gf_mul_spec(1, a) == a,
{
    assert(gf_mul_spec(a, 0) == 0) by (bit_vector);
    assert(gf_mul_spec(0, a) == 0) by (bit_vector);
    assert(gf_mul_spec(a, 1) == a) by (bit_vector);
    assert(gf_mul_spec(1, a) == a) by (bit_vector);
}

/// Multiplying by a guarded term distributes like multiplying by the term.
proof fn lemma_mul_guarded(a: u8, cond: bool, t: u8)
    ensures
        gf_mul_spec(a, if cond { t } else { 0u8 }) == (if cond { gf_mul_spec(a, t) } else { 0u8 }),
{
    lemma_mul_zero_one(a);
}

/// Multiplication is associative.
pub proof fn lemma_mul_associative(a: u8, b: u8, c: u8)
    ensures
        gf_mul_spec(gf_mul_spec(a, b), c) == gf_mul_spec(a, gf_mul_spec(b, c)),
{
    let b1 = xtime(b);
    let b2 = xtime(b1);
    let b3 = xtime(b2);
    let b4 = xtime(b3);
    let b5 = xtime(b4);
    let b6 = xtime(b5);
    let b7 = xtime(b6);
    lemma_xtime_of_product(a, b);
    lemma_xtime_of_product(a, b1);
    lemma_xtime_of_product(a, b2);
    lemma_xtime_of_product(a, b3);
    lemma_xtime_of_product(a, b4);
    lemma_xtime_of_product(a, b5);
    lemma_xtime_of_product(a, b6);
    let t0 = if c & 0x01u8 != 0u8 { b } else { 0u8 };
    let t1 = if c & 0x02u8 != 0u8 { b1 } else { 0u8 };
    let t2 = if c & 0x04u8 != 0u8 { b2 } else { 0u8 };
    let t3 = if c & 0x08u8 != 0u8 { b3 } else { 0u8 };
    let t4 = if c & 0x10u8 != 0u8 { b4 } else { 0u8 };
    let t5 = if c & 0x20u8 != 0u8 { b5 } else { 0u8 };
    let t6 = if c & 0x40u8 != 0u8 { b6 } else { 0u8 };
    let t7 = if c & 0x80u8 != 0u8 { b7 } else { 0u8 };
    assert(gf_mul_spec(b, c) == t0 ^ t1 ^ t2 ^ t3 ^ t4 ^ t5 ^ t6 ^ t7);
    lemma_mul_distributive(a, t0 ^ t1 ^ t2 ^ t3 ^ t4 ^ t5 ^ t6, t7);
    lemma_mul_distributive(a, t0 ^ t1 ^ t2 ^ t3 ^ t4 ^ t5, t6);
    lemma_mul_distributive(a, t0 ^ t1 ^ t2 ^ t3 ^ t4, t5);
    lemma_mul_distributive(a, t0 ^ t1 ^ t2 ^ t3, t4);
    lemma_mul_distributive(a, t0 ^ t1 ^ t2, t3);
    lemma_mul_distributive(a, t0 ^ t1, t2);
    lemma_mul_distributive(a, t0, t1);
    lemma_mul_guarded(a, c & 0x01u8 != 0u8, b);
    lemma_mul_guarded(a, c & 0x02u8 != 0u8, b1);
    lemma_mul_guarded(a, c & 0x04u8 != 0u8, b2);
    lemma_mul_guarded(a, c & 0x08u8 != 0u8, b3);
    lemma_mul_guarded(a, c & 0x10u8 != 0u8, b4);
    lemma_mul_guarded(a, c & 0x20u8 != 0u8, b5);
    lemma_mul_guarded(a, c & 0x40u8 != 0u8, b6);
    lemma_mul_guarded(a, c & 0x80u8 != 0u8, b7);
}

/// Multiplying by alpha = 2 is the `xtime` step.
pub proof fn lemma_mul_by_alpha(y: u8)
    ensures
        gf_mul_spec(y, 2) == xtime(y),
{
    assert(gf_mul_spec(y, 2) == xtime(y)) by (bit_vector);
}

/// A nonzero element has at most one inverse.
pub proof fn lemma_inverse_unique(a: u8, r: u8, s: u8)
    requires
        gf_mul_spec(a, r) == 1,
        gf_mul_spec(a, s) == 1,
    ensures
        r == s,
{
    lemma_mul_zero_one(r);
    lemma_mul_zero_one(s);
    lemma_mul_associative(s, a, r);
    lemma_mul_commutative(s, a);
}

/// `x^n`, built by repeated multiplication on the right.
pub open spec fn gf_pow(x: u8, n: nat) -> u8
    decreases n,
{
    if n == 0 {
        1
    } else {
        gf_mul_spec(gf_pow(x, (n - 1) as nat), x)
    }
}

/// `alpha^n` for the field generator alpha = 2.
pub open spec fn alpha_pow(n: nat) -> u8 {
    gf_pow(2, n)
}

/// `x^(a + b) = x^a * x^b`.
pub proof fn lemma_pow_add(x: u8, a: nat, b: nat)
    ensures
        gf_pow(x, a + b) == gf_mul_spec(gf_pow(x, a), gf_pow(x, b)),
    decreases b,
{
    if b == 0 {
        lemma_mul_zero_one(gf_pow(x, a));
    } else {
        lemma_pow_add(x, a, (b - 1) as nat);
        assert((a + b - 1) as nat == a + (b - 1) as nat);
        lemma_mul_associative(gf_pow(x, a), gf_pow(x, (b - 1) as nat), x);
    }
}

/// `x^(a * b) = (x^a)^b`.
pub proof fn lemma_pow_mul(x: u8, a: nat, b: nat)
    ensures
        gf_pow(x, a * b) == gf_pow(gf_pow(x, a), b),
    decreases b,
{
    if b == 0 {
        assert(a * b == 0) by (nonlinear_arith) requires b == 0;
    } else {
        lemma_pow_mul(x, a, (b - 1) as nat);
        assert(a * b == a * (b - 1) as nat + a) by (nonlinear_arith) requires b >= 1;
        lemma_pow_add(x, a * (b - 1) as nat, a);
    }
}

/// Powers of one are one.
pub proof fn lemma_pow_one(n: nat)
    ensures
        gf_pow(1, n) == 1,
    decreases n,
{
    if n > 0 {
        lemma_pow_one((n - 1) as nat);
        lemma_mul_zero_one(1);
    }
}

/// The generator alpha has multiplicative order dividing 255.
pub proof fn lemma_alpha_order()
    ensures
        alpha_pow(255) == 1,
{
    let s1 = 2u8;
    let s2 = gf_mul_spec(s1, s1);
    let s4 = gf_mul_spec(s2, s2);
    let s8 = gf_mul_spec(s4, s4);
    let s16 = gf_mul_spec(s8, s8);
    let s32 = gf_mul_spec(s16, s16);
    let s64 = gf_mul_spec(s32, s32);
    let s128 = gf_mul_spec(s64, s64);
    let p3 = gf_mul_spec(s2, s1);
    let p7 = gf_mul_spec(s4, p3);
    let p15 = gf_mul_spec(s8, p7);
    let p31 = gf_mul_spec(s16, p15);
    let p63 = gf_mul_spec(s32, p31);
    let p127 = gf_mul_spec(s64, p63);
    let p255 = gf_mul_spec(s128, p127);
    assert(p255 == 1u8) by (bit_vector)
        requires
            s1 == 2u8,
            s2 == gf_mul_spec(s1, s1),
            s4 == gf_mul_spec(s2, s2),
            s8 == gf_mul_spec(s4, s4),
            s16 == gf_mul_spec(s8, s8),
            s32 == gf_mul_spec(s16, s16),
            s64 == gf_mul_spec(s32, s32),
            s128 == gf_mul_spec(s64, s64),
            p3 == gf_mul_spec(s2, s1),
            p7 == gf_mul_spec(s4, p3),
            p15 == gf_mul_spec(s8, p7),
            p31 == gf_mul_spec(s16, p15),
            p63 == gf_mul_spec(s32, p31),
            p127 == gf_mul_spec(s64, p63),
            p255 == gf_mul_spec(s128, p127),
    ;
    assert(gf_pow(2, 1) == 2) by {
        reveal_with_fuel(gf_pow, 2);
        lemma_mul_zero_one(2);
    }
    lemma_pow_add(2, 1, 1);
    lemma_pow_add(2, 2, 2);
    lemma_pow_add(2, 4, 4);
    lemma_pow_add(2, 8, 8);
    lemma_pow_add(2, 16, 16);
    lemma_pow_add(2, 32, 32);
    lemma_pow_add(2, 64, 64);
    lemma_pow_add(2, 2, 1);
    lemma_pow_add(2, 4, 3);
    lemma_pow_add(2, 8, 7);
    lemma_pow_add(2, 16, 15);
    lemma_pow_add(2, 32, 31);
    lemma_pow_add(2, 64, 63);
    lemma_pow_add(2, 128, 127);
}

/// Exponents of alpha may be reduced modulo 255.
pub proof fn lemma_alpha_pow_mod(n: nat)
    ensures
        alpha_pow(n) == alpha_pow(n % 255),
    decreases n,
{
    if n >= 255 {
        lemma_alpha_pow_mod((n - 255) as nat);
        lemma_pow_add(2, 255, (n - 255) as nat);
        lemma_alpha_order();
        lemma_mul_zero_one(alpha_pow((n - 255) as nat));
        assert((n - 255) as nat % 255 == n % 255) by (nonlinear_arith) requires n >= 255;
    } else {
        assert(n % 255 == n) by (nonlinear_arith) requires n < 255;
    }
}

/// The field has no zero divisors.
#[verifier::rlimit(100)]
pub proof fn lemma_mul_nonzero(a: u8, b: u8)
    requires
        a != 0,
        b != 0,
    ensures
        gf_mul_spec(a, b) != 0,
{
    assert(a != 0u8 && b != 0u8 ==> gf_mul_spec(a, b) != 0u8) by (bit_vector);
}

/// `alpha^15`, `alpha^51` and `alpha^85` differ from one.
proof fn lemma_alpha_proper_divisor_powers()
    ensures
        alpha_pow(15) != 1,
        alpha_pow(51) != 1,
        alpha_pow(85) != 1,
{
    let s1 = 2u8;
    let s2 = gf_mul_spec(s1, s1);
    let s4 = gf_mul_spec(s2, s2);
    let s8 = gf_mul_spec(s4, s4);
    let s16 = gf_mul_spec(s8, s8);
    let s32 = gf_mul_spec(s16, s16);
    let s64 = gf_mul_spec(s32, s32);
    let p3 = gf_mul_spec(s2, s1);
    let p5 = gf_mul_spec(s4, s1);
    let p7 = gf_mul_spec(s4, p3);
    let p15 = gf_mul_spec(s8, p7);
    let p19 = gf_mul_spec(s16, p3);
    let p51 = gf_mul_spec(s32, p19);
    let p21 = gf_mul_spec(s16, p5);
    let p85 = gf_mul_spec(s64, p21);
    assert(p15 != 1u8 && p51 != 1u8 && p85 != 1u8) by (bit_vector)
        requires
            s1 == 2u8,
            s2 == gf_mul_spec(s1, s1),
            s4 == gf_mul_spec(s2, s2),
            s8 == gf_mul_spec(s4, s4),
            s16 == gf_mul_spec(s8, s8),
            s32 == gf_mul_spec(s16, s16),
            s64 == gf_mul_spec(s32, s32),
            p3 == gf_mul_spec(s2, s1),
            p5 == gf_mul_spec(s4, s1),
            p7 == gf_mul_spec(s4, p3),
            p15 == gf_mul_spec(s8, p7),
            p19 == gf_mul_spec(s16, p3),
            p51 == gf_mul_spec(s32, p19),
            p21 == gf_mul_spec(s16, p5),
            p85 == gf_mul_spec(s64, p21),
    ;
    lemma_pow_one_exp(2);
    lemma_pow_add(2, 1, 1);
    lemma_pow_add(2, 2, 2);
    lemma_pow_add(2, 4, 4);
    lemma_pow_add(2, 8, 8);
    lemma_pow_add(2, 16, 16);
    lemma_pow_add(2, 32, 32);
    lemma_pow_add(2, 2, 1);
    lemma_pow_add(2, 4, 1);
    lemma_pow_add(2, 4, 3);
    lemma_pow_add(2, 8, 7);
    lemma_pow_add(2, 16, 3);
    lemma_pow_add(2, 32, 19);
    lemma_pow_add(2, 16, 5);
    lemma_pow_add(2, 64, 21);
}

/// If `alpha^d == 1` then `alpha^(d * k) == 1`.
proof fn lemma_alpha_pow_multiple(d: nat, k: nat)
    requires
        alpha_pow(d) == 1,
    ensures
        alpha_pow(d * k) == 1,
{
    lemma_pow_mul(2, d, k);
    lemma_pow_one(k);
}

/// Alpha is primitive: no power of alpha strictly between the 0th and the
/// 255th is one.
pub proof fn lemma_alpha_primitive(d: nat)
    requires
        0 < d < 255,
    ensures
        alpha_pow(d) != 1,
    decreases d,
{
    if alpha_pow(d) == 1 {
        let q: nat = 255nat / d;
        let r: nat = 255nat % d;
        vstd::arithmetic::div_mod::lemma_fundamental_div_mod(255, d as int);
        assert(d * q + r == 255);
        lemma_pow_add(2, d * q, r);
        lemma_alpha_pow_multiple(d, q);
        lemma_alpha_order();
        lemma_mul_zero_one(alpha_pow(r));
        assert(alpha_pow(r) == 1);
        if r == 0 {
            lemma_alpha_proper_divisor_powers();
            let dd = d as u8;
            assert(255u8 % dd == 0u8);
            assert(85u8 % dd == 0u8 || 51u8 % dd == 0u8 || 15u8 % dd == 0u8) by (bit_vector)
                requires
                    0u8 < dd,
                    dd < 255u8,
                    255u8 % dd == 0u8,
            ;
            if 85nat % d == 0 {
                vstd::arithmetic::div_mod::lemma_fundamental_div_mod(85, d as int);
                lemma_alpha_pow_multiple(d, 85nat / d);
                assert(d * (85nat / d) == 85);
            } else if 51nat % d == 0 {
                vstd::arithmetic::div_mod::lemma_fundamental_div_mod(51, d as int);
                lemma_alpha_pow_multiple(d, 51nat / d);
                assert(d * (51nat / d) == 51);
            } else {
                vstd::arithmetic::div_mod::lemma_fundamental_div_mod(15, d as int);
                lemma_alpha_pow_multiple(d, 15nat / d);
                assert(d * (15nat / d) == 15);
            }
        } else {
            lemma_alpha_primitive(r);
        }
    }
}

/// A power of alpha is one exactly when its exponent is a multiple of 255.
pub proof fn lemma_alpha_pow_is_one(k: nat)
    ensures
        alpha_pow(k) == 1 <==> k % 255 == 0,
{
    lemma_alpha_pow_mod(k);
    if k % 255 != 0 {
        lemma_alpha_primitive(k % 255);
    } else {
        assert(alpha_pow(0) == 1);
    }
}

/// Distinct exponents below 255 give distinct powers of alpha.
pub proof fn lemma_alpha_pow_distinct(a: nat, b: nat)
    requires
        a < b < 255,
    ensures
        alpha_pow(a) != alpha_pow(b),
{
    if alpha_pow(a) == alpha_pow(b) {
        let u = alpha_pow(a);
        let v = alpha_pow((255 - a) as nat);
        let t = alpha_pow((b - a) as nat);
        lemma_pow_add(2, a, (255 - a) as nat);
        lemma_pow_add(2, a, (b - a) as nat);
        lemma_alpha_order();
        // u * v == 1 and u * t == u, so t == v * u * t == v * u == 1
        lemma_mul_associative(v, u, t);
        lemma_mul_commutative(v, u);
        lemma_mul_zero_one(t);
        lemma_alpha_primitive((b - a) as nat);
    }
}

/// The multiplicative inverse of a nonzero element, `a^254`.
pub open spec fn gf_inv_spec(a: u8) -> u8 {
    gf_pow(a, 254)
}

/// Field division `a / b`, as `a * b^254`.
pub open spec fn gf_div_spec(a: u8, b: u8) -> u8 {
    gf_mul_spec(a, gf_inv_spec(b))
}

/// `x^1 = x`.
pub proof fn lemma_pow_one_exp(x: u8)
    ensures
        gf_pow(x, 1) == x,
{
    reveal_with_fuel(gf_pow, 2);
    lemma_mul_zero_one(x);
}

/// The square-and-multiply chain used for inversion computes `a^254`.
proof fn lemma_pow_chain_254(
    a: u8, a2: u8, a3: u8, a6: u8, a7: u8, a14: u8, a15: u8, a30: u8, a31: u8, a62: u8,
    a63: u8, a126: u8, a127: u8, a254: u8,
)
    requires
        a2 == gf_mul_spec(a, a),
        a3 == gf_mul_spec(a2, a),
        a6 == gf_mul_spec(a3, a3),
        a7 == gf_mul_spec(a6, a),
        a14 == gf_mul_spec(a7, a7),
        a15 == gf_mul_spec(a14, a),
        a30 == gf_mul_spec(a15, a15),
        a31 == gf_mul_spec(a30, a),
        a62 == gf_mul_spec(a31, a31),
        a63 == gf_mul_spec(a62, a),
        a126 == gf_mul_spec(a63, a63),
        a127 == gf_mul_spec(a126, a),
        a254 == gf_mul_spec(a127, a127),
    ensures
        a254 == gf_pow(a, 254),
{
    lemma_pow_one_exp(a);
    lemma_pow_add(a, 1, 1);
    lemma_pow_add(a, 2, 1);
    lemma_pow_add(a, 3, 3);
    lemma_pow_add(a, 6, 1);
    lemma_pow_add(a, 7, 7);
    lemma_pow_add(a, 14, 1);
    lemma_pow_add(a, 15, 15);
    lemma_pow_add(a, 30, 1);
    lemma_pow_add(a, 31, 31);
    lemma_pow_add(a, 62, 1);
    lemma_pow_add(a, 63, 63);
    lemma_pow_add(a, 126, 1);
    lemma_pow_add(a, 127, 127);
}

/// Facts about XOR, the field addition.
pub proof fn lemma_xor_facts(a: u8, b: u8, c: u8)
    ensures
        a ^ 0u8 == a,
        0u8 ^ a == a,
        a ^ a == 0u8,
        a ^ b == b ^ a,
        (a ^ b) ^ c == a ^ (b ^ c),
{
    assert(a ^ 0u8 == a && 0u8 ^ a == a && a ^ a == 0u8 && a ^ b == b ^ a && (a ^ b) ^ c == a ^ (b
        ^ c)) by (bit_vector);
}

/// Addition in GF(2^8) (bitwise XOR).
pub fn gf_add(a: u8, b: u8) -> (r: u8)
    ensures
        r == a ^ b,
{
    a ^ b
}

/// Subtraction in GF(2^8) (identical to addition).
pub fn gf_sub(a: u8, b: u8) -> (r: u8)
    ensures
        r == a ^ b,
{
    a ^ b
}

pub(crate) fn xtime_exec(a: u8) -> (r: u8)
    ensures
        r == xtime(a),
{
    if a & 0x80u8 == 0u8 {
        a << 1u8
    } else {
        (a << 1u8) ^ 0x1du8
    }
}

/// Multiplication in GF(2^8).
pub fn gf_mul(a: u8, b: u8) -> (r: u8)
    ensures
        r == gf_mul_spec(a, b),
{
    let a1 = xtime_exec(a);
    let a2 = xtime_exec(a1);
    let a3 = xtime_exec(a2);
    let a4 = xtime_exec(a3);
    let a5 = xtime_exec(a4);
    let a6 = xtime_exec(a5);
    let a7 = xtime_exec(a6);
    (if b & 0x01u8 != 0u8 { a } else { 0u8 })
    ^ (if b & 0x02u8 != 0u8 { a1 } else { 0u8 })
    ^ (if b & 0x04u8 != 0u8 { a2 } else { 0u8 })
    ^ (if b & 0x08u8 != 0u8 { a3 } else { 0u8 })
    ^ (if b & 0x10u8 != 0u8 { a4 } else { 0u8 })
    ^ (if b & 0x20u8 != 0u8 { a5 } else { 0u8 })
    ^ (if b & 0x40u8 != 0u8 { a6 } else { 0u8 })
    ^ (if b & 0x80u8 != 0u8 { a7 } else { 0u8 })
}

/// A nonzero element times its 254th power is one.
#[verifier::rlimit(100)]
pub proof fn lemma_inverse(a: u8)
    requires
        a != 0,
    ensures
        gf_mul_spec(a, gf_inv_spec(a)) == 1,
{
    let a2 = gf_mul_spec(a, a);
    let a3 = gf_mul_spec(a2, a);
    let a6 = gf_mul_spec(a3, a3);
    let a7 = gf_mul_spec(a6, a);
    let a14 = gf_mul_spec(a7, a7);
    let a15 = gf_mul_spec(a14, a);
    let a30 = gf_mul_spec(a15, a15);
    let a31 = gf_mul_spec(a30, a);
    let a62 = gf_mul_spec(a31, a31);
    let a63 = gf_mul_spec(a62, a);
    let a126 = gf_mul_spec(a63, a63);
    let a127 = gf_mul_spec(a126, a);
    let a254 = gf_mul_spec(a127, a127);
    lemma_pow_chain_254(a, a2, a3, a6, a7, a14, a15, a30, a31, a62, a63, a126, a127, a254);
    let p = gf_mul_spec(a, a254);
    assert(p == 1u8) by (bit_vector)
        requires
            a != 0u8,
            a2 == gf_mul_spec(a, a),
            a3 == gf_mul_spec(a2, a),
            a6 == gf_mul_spec(a3, a3),
            a7 == gf_mul_spec(a6, a),
            a14 == gf_mul_spec(a7, a7),
            a15 == gf_mul_spec(a14, a),
            a30 == gf_mul_spec(a15, a15),
            a31 == gf_mul_spec(a30, a),
            a62 == gf_mul_spec(a31, a31),
            a63 == gf_mul_spec(a62, a),
            a126 == gf_mul_spec(a63, a63),
            a127 == gf_mul_spec(a126, a),
            a254 == gf_mul_spec(a127, a127),
            p == gf_mul_spec(a, a254),
    ;
}

/// Multiplicative inverse in GF(2^8), computed as `a^254`.
pub fn gf_inv(a: u8) -> (r: u8)
    requires
        a != 0,
    ensures
        gf_mul_spec(a, r) == 1,
        r == gf_inv_spec(a),
{
    let a2 = gf_mul(a, a);
    let a3 = gf_mul(a2, a);
    let a6 = gf_mul(a3, a3);
    let a7 = gf_mul(a6, a);
    let a14 = gf_mul(a7, a7);
    let a15 = gf_mul(a14, a);
    let a30 = gf_mul(a15, a15);
    let a31 = gf_mul(a30, a);
    let a62 = gf_mul(a31, a31);
    let a63 = gf_mul(a62, a);
    let a126 = gf_mul(a63, a63);
    let a127 = gf_mul(a126, a);
    let a254 = gf_mul(a127, a127);
    proof {
        lemma_pow_chain_254(a, a2, a3, a6, a7, a14, a15, a30, a31, a62, a63, a126, a127, a254);
        lemma_inverse(a);
    }
    a254
}

/// Division in GF(2^8): the unique `r` with `r * b == a`.
pub fn gf_div(a: u8, b: u8) -> (r: u8)
    requires
        b != 0,
    ensures
        gf_mul_spec(r, b) == a,
        r == gf_div_spec(a, b),
{
    let ib = gf_inv(b);
    let r = gf_mul(a, ib);
    proof {
        lemma_mul_associative(a, ib, b);
        lemma_mul_commutative(ib, b);
        lemma_mul_zero_one(a);
    }
    r
}

} // verus!
