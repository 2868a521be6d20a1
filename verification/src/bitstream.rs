//! The data bitstream of an RRC symbol: encoding modes, the BCH-protected
//! format word, bit buffers and readers, and the assembly and parsing of
//! data codewords.

use crate::error::RrcError;
use crate::geometry::{ecc_bits_spec, ecc_from_bits_spec, EccLevel};
use vstd::arithmetic::div_mod::{lemma_div_denominator, lemma_fundamental_div_mod};
use vstd::arithmetic::power2::{lemma_pow2_unfold, pow2, lemma_pow2_pos};
use vstd::bits::lemma_u64_shr_is_div;
use vstd::prelude::*;

verus! {

/// Mode indicator of the payload encoding.
#[derive(Debug, Clone, Copy, PartialEq, Eq, Structural)]
pub enum Mode {
    Numeric,
    Alphanumeric,
    Byte,
    Extended,
}

/// The 4-bit indicator of a mode.
pub open spec fn mode_bits_spec(mode: Mode) -> u8 {
    match mode {
        Mode::Numeric => 0b0001,
        Mode::Alphanumeric => 0b0010,
        Mode::Byte => 0b0100,
        Mode::Extended => 0b0111,
    }
}

/// The mode named by a 4-bit indicator.
pub open spec fn mode_from_bits_spec(bits: u8) -> Result<Mode, RrcError> {
    if bits == 0b0001 {
        Ok(Mode::Numeric)
    } else if bits == 0b0010 {
        Ok(Mode::Alphanumeric)
    } else if bits == 0b0100 {
        Ok(Mode::Byte)
    } else if bits == 0b0111 {
        Ok(Mode::Extended)
    } else {
        Err(RrcError::InvalidMode(bits))
    }
}

/// Width of the character count field of a mode in a version.
pub open spec fn length_bits_spec(mode: Mode, version: u8) -> nat {
    match mode {
        Mode::Numeric => if version <= 9 {
            10
        } else if version <= 26 {
            12
        } else {
            14
        },
        Mode::Alphanumeric => if version <= 9 {
            9
        } else if version <= 26 {
            11
        } else {
            13
        },
        Mode::Byte => if version <= 9 {
            8
        } else {
            16
        },
        Mode::Extended => if version <= 26 {
            16
        } else {
            24
        },
    }
}

impl Mode {
    pub fn from_bits(bits: u8) -> (r: Result<Self, RrcError>)
        ensures
            r == mode_from_bits_spec(bits),
    {
        match bits {
            0b0001 => Ok(Mode::Numeric),
            0b0010 => Ok(Mode::Alphanumeric),
            0b0100 => Ok(Mode::Byte),
            0b0111 => Ok(Mode::Extended),
            _ => Err(RrcError::InvalidMode(bits)),
        }
    }

    pub fn to_bits(self) -> (r: u8)
        ensures
            r == mode_bits_spec(self),
    {
        match self {
            Mode::Numeric => 0b0001,
            Mode::Alphanumeric => 0b0010,
            Mode::Byte => 0b0100,
            Mode::Extended => 0b0111,
        }
    }

    pub fn length_bits(self, version: u8) -> (r: usize)
        ensures
            r == length_bits_spec(self, version),
    {
        match self {
            Mode::Numeric => {
                if version <= 9 {
                    10
                } else if version <= 26 {
                    12
                } else {
                    14
                }
            },
            Mode::Alphanumeric => {
                if version <= 9 {
                    9
                } else if version <= 26 {
                    11
                } else {
                    13
                }
            },
            Mode::Byte => {
                if version <= 9 {
                    8
                } else {
                    16
                }
            },
            Mode::Extended => {
                if version <= 26 {
                    16
                } else {
                    24
                }
            },
        }
    }
}

/// Modes survive the trip through their indicator bits.
pub proof fn lemma_mode_bits_roundtrip(mode: Mode)
    ensures
        mode_from_bits_spec(mode_bits_spec(mode)) == Ok::<Mode, RrcError>(mode),
{
}

// ---------------------------------------------------------------------------
// Bits and their values
// ---------------------------------------------------------------------------

/// The low `n` bits of `v`, most significant first.
pub open spec fn bits_be(v: nat, n: nat) -> Seq<bool>
    decreases n,
{
    if n == 0 {
        Seq::empty()
    } else {
        bits_be(v / 2, (n - 1) as nat).push(v % 2 == 1)
    }
}

/// The number whose binary digits, most significant first, are `b`.
pub open spec fn bits_value(b: Seq<bool>) -> nat
    decreases b.len(),
{
    if b.len() == 0 {
        0
    } else {
        2 * bits_value(b.drop_last()) + (if b.last() {
            1nat
        } else {
            0nat
        })
    }
}

/// `n` zero bits.
pub open spec fn zero_bits(n: nat) -> Seq<bool> {
    Seq::new(n, |i: int| false)
}

/// The big-endian bits of a value, taken `n` at a time, are `n` bits.
pub proof fn lemma_bits_be_len(v: nat, n: nat)
    ensures
        bits_be(v, n).len() == n,
    decreases n,
{
    if n > 0 {
        lemma_bits_be_len(v / 2, (n - 1) as nat);
    }
}

/// The value of the low `n` bits of `v` is `v` modulo `2^n`.
pub proof fn lemma_bits_value_of_bits_be(v: nat, n: nat)
    ensures
        bits_value(bits_be(v, n)) == v % pow2(n),
    decreases n,
{
    lemma_bits_be_len(v, n);
    if n == 0 {
        assert(pow2(0) == 1) by {
            vstd::arithmetic::power2::lemma2_to64();
        }
    } else {
        let m = (n - 1) as nat;
        lemma_bits_value_of_bits_be(v / 2, m);
        let b = bits_be(v, n);
        assert(b.drop_last() =~= bits_be(v / 2, m));
        lemma_pow2_unfold(n);
        lemma_pow2_pos(m);
        let p = pow2(m) as int;
        let vi = v as int;
        lemma_fundamental_div_mod(vi, 2);
        lemma_fundamental_div_mod(vi / 2, p);
        lemma_fundamental_div_mod(vi, 2 * p);
        lemma_div_denominator(vi, 2, p);
        assert(vi % (2 * p) == 2 * ((vi / 2) % p) + vi % 2) by (nonlinear_arith)
            requires
                vi == 2 * (vi / 2) + vi % 2,
                (vi / 2) == p * ((vi / 2) / p) + (vi / 2) % p,
                vi == (2 * p) * (vi / (2 * p)) + vi % (2 * p),
                vi / (2 * p) == (vi / 2) / p,
                0 <= vi % 2 < 2,
                0 <= (vi / 2) % p < p,
                0 <= vi % (2 * p) < 2 * p,
                p > 0,
        ;
    }
}

/// A value of `n` bits is below `2^n`.
pub proof fn lemma_bits_value_bound(b: Seq<bool>)
    ensures
        bits_value(b) < pow2(b.len()),
    decreases b.len(),
{
    if b.len() == 0 {
        vstd::arithmetic::power2::lemma2_to64();
    } else {
        lemma_bits_value_bound(b.drop_last());
        lemma_pow2_unfold(b.len());
    }
}

/// Writing a value's bits back out gives the same bits.
pub proof fn lemma_bits_be_of_value(b: Seq<bool>)
    ensures
        bits_be(bits_value(b), b.len()) == b,
    decreases b.len(),
{
    if b.len() > 0 {
        let d = b.drop_last();
        lemma_bits_be_of_value(d);
        let v = bits_value(b);
        assert(v / 2 == bits_value(d));
        assert(bits_be(v, b.len()) =~= b);
    }
}

/// Bits of a value below `2^n` read back to the value.
pub proof fn lemma_bits_roundtrip(v: nat, n: nat)
    requires
        v < pow2(n),
    ensures
        bits_value(bits_be(v, n)) == v,
        bits_be(v, n).len() == n,
{
    lemma_bits_value_of_bits_be(v, n);
    lemma_bits_be_len(v, n);
    vstd::arithmetic::div_mod::lemma_small_mod(v, pow2(n));
}

// ---------------------------------------------------------------------------
// Bit buffer
// ---------------------------------------------------------------------------

/// A bit buffer for appending arbitrary-length bit sequences.
#[derive(Debug, Clone)]
pub struct BitBuffer {
    bits: Vec<bool>,
}

impl View for BitBuffer {
    type V = Seq<bool>;

    closed spec fn view(&self) -> Seq<bool> {
        self.bits@
    }
}

/// The byte holding bits `8k .. 8k + 8` of `bits`, missing bits read as zero.
pub open spec fn chunk_byte(bits: Seq<bool>, k: int) -> u8 {
    bits_value(Seq::new(8, |i: int| 8 * k + i < bits.len() && bits[8 * k + i])) as u8
}

/// `bits` packed into bytes, most significant bit first, the last byte
/// padded with zero bits.
pub open spec fn pack_bits(bits: Seq<bool>) -> Seq<u8> {
    Seq::new(((bits.len() + 7) / 8) as nat, |k: int| chunk_byte(bits, k))
}

/// The bits of `bytes`, eight per byte, most significant first.
pub open spec fn bytes_to_bits(bytes: Seq<u8>) -> Seq<bool> {
    Seq::new(8 * bytes.len(), |i: int| (bytes[i / 8] as nat / pow2((7 - i % 8) as nat)) % 2 == 1)
}

impl Default for BitBuffer {
    fn default() -> (r: Self)
        ensures
            r@ == Seq::<bool>::empty(),
    {
        BitBuffer { bits: Vec::new() }
    }
}

impl BitBuffer {
    pub fn new() -> (r: Self)
        ensures
            r@ == Seq::<bool>::empty(),
    {
        Self { bits: Vec::new() }
    }

    pub fn with_capacity(capacity: usize) -> (r: Self)
        ensures
            r@ == Seq::<bool>::empty(),
    {
        Self { bits: Vec::with_capacity(capacity) }
    }

    pub fn len(&self) -> (n: usize)
        ensures
            n == self@.len(),
    {
        self.bits.len()
    }

    pub fn is_empty(&self) -> (b: bool)
        ensures
            b == (self@.len() == 0),
    {
        self.bits.len() == 0
    }

    pub fn push_bit(&mut self, bit: bool)
        ensures
            final(self)@ == old(self)@.push(bit),
    {
        self.bits.push(bit);
    }

    /// Appends the low `bit_count` bits of `value`, most significant first.
    pub fn push_bits(&mut self, value: u64, bit_count: usize)
        requires
            bit_count <= 64,
        ensures
            final(self)@ == old(self)@ + bits_be(value as nat, bit_count as nat),
    {
        let ghost start = self.bits@;
        let mut i: usize = bit_count;
        proof {
            vstd::arithmetic::power2::lemma2_to64();
            let z = bits_be((value as nat) / pow2(bit_count as nat), 0);
            lemma_bits_be_len((value as nat) / pow2(bit_count as nat), 0);
            assert(z =~= Seq::<bool>::empty());
            assert(self.bits@ =~= start + z);
        }
        while i > 0
            invariant
                i <= bit_count <= 64,
                self.bits@ == start + bits_be(
                    (value as nat) / pow2(i as nat),
                    (bit_count - i) as nat,
                ),
            decreases i,
        {
            let s = (i - 1) as u64;
            let bit = ((value >> s) & 1) != 0;
            proof {
                lemma_u64_shr_is_div(value, s);
                let q = value >> s;
                assert((q & 1 != 0) == (q % 2 == 1)) by (bit_vector);
                lemma_pow2_unfold(i as nat);
                lemma_pow2_pos(s as nat);
                lemma_div_denominator(value as int, pow2(s as nat) as int, 2);
                assert((value as nat) / pow2(s as nat) / 2 == (value as nat) / pow2(i as nat));
                assert(bits_be((value as nat) / pow2(s as nat), (bit_count - s) as nat) == bits_be(
                    (value as nat) / pow2(i as nat),
                    (bit_count - i) as nat,
                ).push(bit));
            }
            self.bits.push(bit);
            i = i - 1;
        }
        proof {
            vstd::arithmetic::power2::lemma2_to64();
            assert((value as nat) / pow2(0) == value as nat);
        }
    }

    /// Packs the bits into bytes, most significant bit first; the last
    /// byte is padded with zero bits.
    pub fn to_bytes(&self) -> (bytes: Vec<u8>)
        ensures
            bytes@ == pack_bits(self@),
    {
        let n = self.bits.len();
        let chunks = n / 8 + if n % 8 == 0 { 0 } else { 1 };
        assert(chunks == (n + 7) / 8);
        let mut bytes: Vec<u8> = Vec::new();
        let mut c: usize = 0;
        while c < chunks
            invariant
                n == self@.len(),
                chunks == (n + 7) / 8,
                0 <= c <= chunks,
                bytes@.len() == c,
                forall|j: int| 0 <= j < c ==> bytes@[j] == chunk_byte(self@, j),
            decreases chunks - c,
        {
            let k = 8 * c;
            let ghost chunk = Seq::new(8, |t: int| 8 * c + t < self@.len() && self@[8 * c + t]);
            let mut b: u8 = 0;
            let mut i: usize = 0;
            proof {
                vstd::arithmetic::power2::lemma2_to64();
                assert(chunk.take(0) =~= Seq::<bool>::empty());
            }
            while i < 8
                invariant
                    0 <= i <= 8,
                    n == self@.len(),
                    k == 8 * c,
                    k < n,
                    chunk == Seq::new(8, |t: int| 8 * c + t < self@.len() && self@[8 * c + t]),
                    b as nat == bits_value(chunk.take(i as int)),
                    (b as nat) < pow2(i as nat),
                decreases 8 - i,
            {
                let on = i < n - k && self.bits[k + i];
                assert(on == chunk[i as int]);
                proof {
                    assert(chunk.take(i as int + 1).drop_last() =~= chunk.take(i as int));
                    lemma_pow2_unfold((i + 1) as nat);
                    vstd::arithmetic::power2::lemma2_to64();
                }
                b = b * 2 + if on { 1 } else { 0 };
                i = i + 1;
            }
            assert(chunk.take(8) =~= chunk);
            bytes.push(b);
            c = c + 1;
        }
        assert(bytes@ =~= pack_bits(self@));
        bytes
    }

    pub fn as_slice(&self) -> (s: &[bool])
        ensures
            s@ == self@,
    {
        self.bits.as_slice()
    }
}

// ---------------------------------------------------------------------------
// Bit reader
// ---------------------------------------------------------------------------

/// `2^64`, the modulus of values read into a `u64`.
pub open spec fn u64_modulus() -> int {
    0x1_0000_0000_0000_0000
}

/// A bit reader for sequential reading of arbitrary-length bit sequences.
pub struct BitReader<'a> {
    bits: &'a [bool],
    cursor: usize,
}

impl<'a> BitReader<'a> {
    #[verifier::type_invariant]
    spec fn cursor_in_range(&self) -> bool {
        self.cursor <= self.bits@.len()
    }

    /// The bits being read.
    pub closed spec fn source(&self) -> Seq<bool> {
        self.bits@
    }

    /// The position of the next bit to read.
    pub closed spec fn position(&self) -> int {
        self.cursor as int
    }

    pub fn new(bits: &'a [bool]) -> (r: Self)
        ensures
            r.source() == bits@,
            r.position() == 0,
    {
        Self { bits, cursor: 0 }
    }

    pub fn remaining(&self) -> (n: usize)
        ensures
            n == (if self.position() <= self.source().len() {
                self.source().len() - self.position()
            } else {
                0
            }),
    {
        self.bits.len().saturating_sub(self.cursor)
    }

    pub fn read_bit(&mut self) -> (r: Result<bool, RrcError>)
        ensures
            final(self).source() == old(self).source(),
            old(self).position() < old(self).source().len() ==> r == Ok::<bool, RrcError>(
                old(self).source()[old(self).position()],
            ) && final(self).position() == old(self).position() + 1,
            old(self).position() >= old(self).source().len() ==> r == Err::<bool, RrcError>(
                RrcError::TruncatedBitstream,
            ) && final(self).position() == old(self).position(),
    {
        if self.cursor >= self.bits.len() {
            return Err(RrcError::TruncatedBitstream);
        }
        let b = self.bits[self.cursor];
        self.cursor += 1;
        Ok(b)
    }

    /// Reads `bit_count` bits, most significant first; a value wider than
    /// 64 bits keeps its low 64 bits.
    pub fn read_bits(&mut self, bit_count: usize) -> (r: Result<u64, RrcError>)
        ensures
            final(self).source() == old(self).source(),
            old(self).position() + bit_count <= old(self).source().len() ==> (r matches Ok(v)
                && v == (bits_value(
                old(self).source().subrange(
                    old(self).position(),
                    old(self).position() + bit_count,
                ),
            ) as int) % u64_modulus()) && final(self).position() == old(self).position() + bit_count,
            old(self).position() + bit_count > old(self).source().len() ==> r == Err::<
                u64,
                RrcError,
            >(RrcError::TruncatedBitstream) && final(self).position() == old(self).position(),
    {
        proof {
            use_type_invariant(&*self);
        }
        if self.remaining() < bit_count {
            return Err(RrcError::TruncatedBitstream);
        }
        let ghost start = self.cursor as int;
        let ghost src = self.bits@;
        let mut val: u64 = 0;
        let mut i: usize = 0;
        proof {
            assert(src.subrange(start, start) =~= Seq::<bool>::empty());
        }
        while i < bit_count
            invariant
                0 <= i <= bit_count,
                self.bits@ == src,
                self.cursor == start + i,
                0 <= start,
                start + bit_count <= src.len(),
                val as int == (bits_value(src.subrange(start, start + i)) as int) % u64_modulus(),
            decreases bit_count - i,
        {
            let bit = match self.read_bit() {
                Ok(b) => b,
                Err(e) => {
                    return Err(e);
                },
            };
            proof {
                assert(i < bit_count);
                let pre = src.subrange(start, start + i);
                let nxt = src.subrange(start, start + i + 1);
                assert(nxt.drop_last() =~= pre);
                assert(nxt.last() == bit);
                let x = bits_value(pre) as int;
                let bi: int = if bit { 1 } else { 0 };
                let m = u64_modulus();
                vstd::arithmetic::div_mod::lemma_mul_mod_noop_right(2, x, m);
                vstd::arithmetic::div_mod::lemma_add_mod_noop(2 * x, bi, m);
                vstd::arithmetic::div_mod::lemma_add_mod_noop(2 * (x % m), bi, m);
                vstd::arithmetic::div_mod::lemma_mod_twice(2 * (x % m), m);
                vstd::arithmetic::div_mod::lemma_small_mod(bi as nat, m as nat);
            }
            let bv: u64 = if bit { 1 } else { 0 };
            let nv = (val << 1) | bv;
            assert(nv as int == (2 * (val as int) + bv as int) % 0x1_0000_0000_0000_0000) by (
            bit_vector)
                requires
                    nv == (val << 1) | bv,
                    bv <= 1,
            ;
            val = nv;
            i = i + 1;
        }
        Ok(val)
    }
}

// ---------------------------------------------------------------------------
// Format word
// ---------------------------------------------------------------------------

/// BCH generator polynomial of the format word: x^10 + x^8 + x^5 + x^4 + x^2 + x + 1.
pub const BCH_POLY: u32 = 0x537;

/// One step of the long division by the generator: clear bit `15 - i`.
pub open spec fn bch_step(val: u32, i: u32) -> u32 {
    if val & (1u32 << (15u32 - i)) != 0 {
        val ^ (0x537u32 << (5u32 - i))
    } else {
        val
    }
}

/// The remainder of `d * x^11` divided by the generator polynomial.
pub open spec fn bch_remainder(d: u32) -> u32 {
    bch_step(bch_step(bch_step(bch_step(bch_step(d << 11u32, 0), 1), 2), 3), 4)
}

/// The steps of the division from step `i` on.
pub open spec fn bch_reduce(val: u32, i: u32) -> u32
    decreases 5 - i,
{
    if i >= 5 {
        val
    } else {
        bch_reduce(bch_step(val, i), (i + 1) as u32)
    }
}

/// The 16-bit format word of the 5-bit format data `d`: the data in the top
/// five bits followed by its 11 BCH check bits, XORed with the alternating
/// mask `0x5555` so that no format word is all zero.
pub open spec fn format_word_spec(d: u32) -> u16 {
    (((d << 11u32) | bch_remainder(d)) as u16) ^ 0x5555u16
}

/// The 5-bit format data of a level and mask.
pub open spec fn format_data_spec(level: EccLevel, mask: u8) -> u32 {
    ((ecc_bits_spec(level) as u32) * 8 + (mask % 8) as u32) as u32
}

/// Number of set bits of a 16-bit word.
pub open spec fn popcount16(x: u16) -> u16 {
    ((x & 1u16) + ((x >> 1u16) & 1u16) + ((x >> 2u16) & 1u16) + ((x >> 3u16) & 1u16) + ((x
        >> 4u16) & 1u16) + ((x >> 5u16) & 1u16) + ((x >> 6u16) & 1u16) + ((x >> 7u16) & 1u16) + ((x
        >> 8u16) & 1u16) + ((x >> 9u16) & 1u16) + ((x >> 10u16) & 1u16) + ((x >> 11u16) & 1u16) + ((x
        >> 12u16) & 1u16) + ((x >> 13u16) & 1u16) + ((x >> 14u16) & 1u16) + ((x >> 15u16) & 1u16)) as u16
}

/// The set bits of `x` below bit `k`.
pub open spec fn popcount_below(x: u16, k: int) -> int
    decreases k,
{
    if k <= 0 {
        0
    } else {
        popcount_below(x, k - 1) + ((x >> ((k - 1) as u16)) & 1u16) as int
    }
}

/// Hamming distance between a received word and the format word of `d`.
pub open spec fn format_distance(w: u16, d: int) -> int {
    popcount16(w ^ format_word_spec(d as u32)) as int
}

/// The first of the first `n` format words nearest to `w`.
pub open spec fn nearest_format(w: u16, n: int) -> int
    decreases n,
{
    if n <= 1 {
        0
    } else {
        let b = nearest_format(w, n - 1);
        if format_distance(w, n - 1) < format_distance(w, b) {
            n - 1
        } else {
            b
        }
    }
}

/// The result of decoding a received format word.
pub open spec fn decode_format_spec(w: u16) -> Result<(EccLevel, u8), RrcError> {
    let b = nearest_format(w, 32);
    if format_distance(w, b) <= 3 {
        Ok((ecc_from_bits_spec(((b / 8) % 4) as u8), (b % 8) as u8))
    } else {
        Err(RrcError::FormatWordCorrupted)
    }
}

/// Encode 5-bit format data (2 bits ECC, 3 bits mask) into 16-bit BCH format word.
pub fn encode_format_word(ecc_level: EccLevel, mask_index: u8) -> (w: u16)
    ensures
        w == format_word_spec(format_data_spec(ecc_level, mask_index)),
{
    let e = ecc_level.to_bits() as u32;
    let m = (mask_index & 0b111) as u32;
    let data = (e << 3) | m;
    assert(data == e * 8 + (mask_index % 8) as u32) by (bit_vector)
        requires
            data == (e << 3) | m,
            m == (mask_index & 7) as u32,
            e < 4,
    ;
    let mut val = data << 11;
    let mut i: u32 = 0;
    while i < 5
        invariant
            0 <= i <= 5,
            bch_reduce(val, i) == bch_reduce(data << 11u32, 0),
        decreases 5 - i,
    {
        if (val & (1 << (15 - i))) != 0 {
            val = val ^ (BCH_POLY << (5 - i));
        }
        i = i + 1;
    }
    proof {
        reveal_with_fuel(bch_reduce, 6);
    }
    (((data << 11) | val) as u16) ^ 0x5555
}

/// Number of set bits of a 16-bit word.
fn popcount(x: u16) -> (n: u16)
    ensures
        n == popcount16(x),
{
    let mut count: u16 = 0;
    let mut k: u16 = 0;
    while k < 16
        invariant
            0 <= k <= 16,
            count as int == popcount_below(x, k as int),
            count <= k,
        decreases 16 - k,
    {
        let bit = (x >> k) & 1;
        assert(bit <= 1) by (bit_vector)
            requires
                bit == (x >> k) & 1,
        ;
        count = count + bit;
        k = k + 1;
    }
    proof {
        lemma_popcount_below_16(x);
    }
    count
}

proof fn lemma_popcount_below_16(x: u16)
    ensures
        popcount16(x) as int == popcount_below(x, 16),
{
    reveal_with_fuel(popcount_below, 17);
    assert(popcount16(x) as int == (x & 1u16) as int + ((x >> 1u16) & 1u16) as int + ((x >> 2u16)
        & 1u16) as int + ((x >> 3u16) & 1u16) as int + ((x >> 4u16) & 1u16) as int + ((x >> 5u16)
        & 1u16) as int + ((x >> 6u16) & 1u16) as int + ((x >> 7u16) & 1u16) as int + ((x >> 8u16)
        & 1u16) as int + ((x >> 9u16) & 1u16) as int + ((x >> 10u16) & 1u16) as int + ((x
        >> 11u16) & 1u16) as int + ((x >> 12u16) & 1u16) as int + ((x >> 13u16) & 1u16) as int + ((x
        >> 14u16) & 1u16) as int + ((x >> 15u16) & 1u16) as int) by (bit_vector);
    assert(x & 1u16 == (x >> 0u16) & 1u16) by (bit_vector);
}

/// Decode 16-bit format word using minimum Hamming distance (corrects up to 3 bit errors).
pub fn decode_format_word(received: u16) -> (r: Result<(EccLevel, u8), RrcError>)
    ensures
        r == decode_format_spec(received),
{
    let mut best_idx: u32 = 0;
    let mut min_dist: u16 = popcount(received ^ encode_format_word_data(0));
    let mut idx: u32 = 1;
    while idx < 32
        invariant
            1 <= idx <= 32,
            best_idx == nearest_format(received, idx as int),
            min_dist as int == format_distance(received, best_idx as int),
        decreases 32 - idx,
    {
        let dist = popcount(received ^ encode_format_word_data(idx));
        if dist < min_dist {
            min_dist = dist;
            best_idx = idx;
        }
        idx = idx + 1;
    }
    if min_dist <= 3 {
        let ecc_bits = ((best_idx >> 3) & 0b11) as u8;
        let mask = (best_idx & 0b111) as u8;
        proof {
            lemma_nearest_format_range(received, 32);
        }
        assert(ecc_bits == ((best_idx / 8) % 4) as u8 && mask == (best_idx % 8) as u8) by (bit_vector)
            requires
                ecc_bits == ((best_idx >> 3) & 3) as u8,
                mask == (best_idx & 7) as u8,
                best_idx < 32,
        ;
        Ok((EccLevel::from_bits(ecc_bits), mask))
    } else {
        Err(RrcError::FormatWordCorrupted)
    }
}

proof fn lemma_nearest_format_range(w: u16, n: int)
    requires
        n >= 1,
    ensures
        0 <= nearest_format(w, n) < n,
    decreases n,
{
    if n > 1 {
        lemma_nearest_format_range(w, n - 1);
    }
}

/// The format word of the 5-bit data `d`.
fn encode_format_word_data(d: u32) -> (w: u16)
    requires
        d < 32,
    ensures
        w == format_word_spec(d),
{
    let mut val = d << 11;
    let mut i: u32 = 0;
    while i < 5
        invariant
            0 <= i <= 5,
            bch_reduce(val, i) == bch_reduce(d << 11u32, 0),
        decreases 5 - i,
    {
        if (val & (1 << (15 - i))) != 0 {
            val = val ^ (BCH_POLY << (5 - i));
        }
        i = i + 1;
    }
    proof {
        reveal_with_fuel(bch_reduce, 6);
    }
    (((d << 11) | val) as u16) ^ 0x5555
}

/// Distinct format words differ in at least seven bits.
proof fn lemma_format_min_distance(d1: u32, d2: u32)
    requires
        d1 < 32,
        d2 < 32,
        d1 != d2,
    ensures
        popcount16(format_word_spec(d1) ^ format_word_spec(d2)) >= 7,
{
    assert(popcount16(format_word_spec(d1) ^ format_word_spec(d2)) >= 7) by (bit_vector)
        requires
            d1 < 32,
            d2 < 32,
            d1 != d2,
    ;
}

/// Hamming distance obeys the triangle inequality.
proof fn lemma_popcount_triangle(a: u16, b: u16, c: u16)
    ensures
        popcount16(a ^ c) <= popcount16(a ^ b) + popcount16(b ^ c),
        popcount16(a ^ a) == 0,
        a ^ b ^ a == b,
{
    assert(popcount16(a ^ c) <= popcount16(a ^ b) + popcount16(b ^ c)) by (bit_vector);
    assert(popcount16(a ^ a) == 0) by (bit_vector);
    assert(a ^ b ^ a == b) by (bit_vector);
}

/// A strictly nearest word is the one the search picks.
proof fn lemma_nearest_unique(w: u16, d: int, n: int)
    requires
        0 <= d < n,
        forall|j: int| 0 <= j < n && j != d ==> format_distance(w, d) < #[trigger] format_distance(w, j),
    ensures
        nearest_format(w, n) == d,
    decreases n,
{
    if n > d + 1 {
        lemma_nearest_unique(w, d, n - 1);
    } else if n > 1 {
        lemma_nearest_format_range(w, n - 1);
    }
}

/// The format word corrects up to three flipped bits: decoding the word of
/// a level and mask, with any error pattern of weight at most three,
/// returns that level and mask.
pub proof fn lemma_format_word_corrects(level: EccLevel, mask: u8, err: u16)
    requires
        popcount16(err) <= 3,
    ensures
        decode_format_spec(format_word_spec(format_data_spec(level, mask)) ^ err) == Ok::<
            (EccLevel, u8),
            RrcError,
        >((level, mask % 8)),
{
    let d = format_data_spec(level, mask);
    let c = format_word_spec(d);
    let w = c ^ err;
    assert(d < 32);
    lemma_popcount_triangle(c, err, c);
    assert(w ^ c == err) by (bit_vector)
        requires
            w == c ^ err,
    ;
    assert forall|j: int| 0 <= j < 32 && j != d implies format_distance(w, d as int)
        < #[trigger] format_distance(w, j) by {
        let cj = format_word_spec(j as u32);
        lemma_format_min_distance(d, j as u32);
        lemma_popcount_triangle(c, w, cj);
        assert(c ^ w == err) by (bit_vector)
            requires
                w == c ^ err,
        ;
    }
    lemma_nearest_unique(w, d as int, 32);
}

/// The word that the search picks is at least as near as every other.
proof fn lemma_nearest_min(w: u16, n: int)
    requires
        n >= 1,
    ensures
        forall|j: int|
            0 <= j < n ==> format_distance(w, nearest_format(w, n)) <= #[trigger] format_distance(
                w,
                j,
            ),
    decreases n,
{
    if n > 1 {
        lemma_nearest_min(w, n - 1);
    }
}

/// Distinct format words are far apart: the words of two different pairs of
/// level and mask differ in at least seven bits, and only the low three bits
/// of the mask enter the word.
pub proof fn lemma_format_words_distance(l1: EccLevel, m1: u8, l2: EccLevel, m2: u8)
    requires
        l1 != l2 || m1 % 8 != m2 % 8,
    ensures
        popcount16(
            format_word_spec(format_data_spec(l1, m1)) ^ format_word_spec(format_data_spec(l2, m2)),
        ) >= 7,
        format_data_spec(l1, m1) == format_data_spec(l1, m1 % 8),
{
    let d1 = format_data_spec(l1, m1);
    let d2 = format_data_spec(l2, m2);
    assert(d1 != d2);
    lemma_format_min_distance(d1, d2);
}

/// Decoding a received word gives a level and mask exactly when the word lies
/// within three bits of that pair's format word, and fails exactly when every
/// format word is at least four bits away.
pub proof fn lemma_decode_format_exact(w: u16, level: EccLevel, mask: u8)
    requires
        mask < 8,
    ensures
        decode_format_spec(w) == Ok::<(EccLevel, u8), RrcError>((level, mask)) <==> popcount16(
            w ^ format_word_spec(format_data_spec(level, mask)),
        ) <= 3,
        decode_format_spec(w) == Err::<(EccLevel, u8), RrcError>(RrcError::FormatWordCorrupted)
            <==> forall|d: int| 0 <= d < 32 ==> #[trigger] format_distance(w, d) >= 4,
{
    let d = format_data_spec(level, mask);
    let c = format_word_spec(d);
    let b = nearest_format(w, 32);
    lemma_nearest_format_range(w, 32);
    lemma_nearest_min(w, 32);
    if popcount16(w ^ c) <= 3 {
        let err = w ^ c;
        assert(c ^ err == w) by (bit_vector)
            requires
                err == w ^ c,
        ;
        lemma_format_word_corrects(level, mask, err);
    }
    if decode_format_spec(w) == Ok::<(EccLevel, u8), RrcError>((level, mask)) {
        assert(format_distance(w, b) <= 3);
        assert(b == d);
    }
    if decode_format_spec(w) is Err {
        assert forall|j: int| 0 <= j < 32 implies #[trigger] format_distance(w, j) >= 4 by {
            assert(format_distance(w, b) <= format_distance(w, j));
        }
    } else {
        assert(format_distance(w, b) < 4);
    }
}

// ---------------------------------------------------------------------------
// Alphanumeric characters and mode detection
// ---------------------------------------------------------------------------

/// The alphanumeric character set "0123456789ABCDEFGHIJKLMNOPQRSTUVWXYZ $%*+-./:",
/// indexed from 0 to 44.
pub open spec fn alpha_char_at(i: int) -> u8 {
    if i < 10 {
        (48 + i) as u8
    } else if i < 36 {
        (65 + (i - 10)) as u8
    } else if i == 36 {
        32
    } else if i == 37 {
        36
    } else if i == 38 {
        37
    } else if i == 39 {
        42
    } else if i == 40 {
        43
    } else if i == 41 {
        45
    } else if i == 42 {
        46
    } else if i == 43 {
        47
    } else {
        58
    }
}

/// Whether `c` belongs to the alphanumeric character set.
pub open spec fn is_alpha_char(c: u8) -> bool {
    exists|i: int| 0 <= i < 45 && #[trigger] alpha_char_at(i) == c
}

/// The index of an alphanumeric character in the set.
pub open spec fn alpha_index(c: u8) -> int {
    if 48 <= c <= 57 {
        c - 48
    } else if 65 <= c <= 90 {
        c - 55
    } else if c == 32 {
        36
    } else if c == 36 {
        37
    } else if c == 37 {
        38
    } else if c == 42 {
        39
    } else if c == 43 {
        40
    } else if c == 45 {
        41
    } else if c == 46 {
        42
    } else if c == 47 {
        43
    } else {
        44
    }
}

/// The set is a table without repetitions, and `alpha_index` inverts it:
/// a byte belongs to the set exactly when the table entry at its index is
/// the byte itself.
pub proof fn lemma_alpha_table(c: u8, i: int)
    ensures
        0 <= i < 45 ==> alpha_index(alpha_char_at(i)) == i,
        0 <= alpha_index(c) < 45,
        is_alpha_char(c) <==> alpha_char_at(alpha_index(c)) == c,
{
    if is_alpha_char(c) {
        let j = choose|j: int| 0 <= j < 45 && #[trigger] alpha_char_at(j) == c;
        assert(alpha_index(alpha_char_at(j)) == j);
    }
    if alpha_char_at(alpha_index(c)) == c {
        assert(0 <= alpha_index(c) < 45 && alpha_char_at(alpha_index(c)) == c);
    }
}

fn alpha_char_exec(i: u16) -> (c: u8)
    requires
        i < 45,
    ensures
        c == alpha_char_at(i as int),
{
    if i < 10 {
        48 + i as u8
    } else if i < 36 {
        65 + (i - 10) as u8
    } else if i == 36 {
        32
    } else if i == 37 {
        36
    } else if i == 38 {
        37
    } else if i == 39 {
        42
    } else if i == 40 {
        43
    } else if i == 41 {
        45
    } else if i == 42 {
        46
    } else if i == 43 {
        47
    } else {
        58
    }
}

/// The index of `c` in the alphanumeric set.
pub fn alpha_char_value(c: u8) -> (r: Result<u16, RrcError>)
    ensures
        is_alpha_char(c) ==> r == Ok::<u16, RrcError>(alpha_index(c) as u16),
        !is_alpha_char(c) ==> r == Err::<u16, RrcError>(RrcError::InvalidCharacter(c as char)),
{
    let mut i: u16 = 0;
    while i < 45
        invariant
            0 <= i <= 45,
            forall|j: int| 0 <= j < i ==> #[trigger] alpha_char_at(j) != c,
        decreases 45 - i,
    {
        if alpha_char_exec(i) == c {
            proof {
                lemma_alpha_table(c, i as int);
            }
            return Ok(i);
        }
        i = i + 1;
    }
    Err(RrcError::InvalidCharacter(c as char))
}

/// The alphanumeric character of a value, taken modulo 45.
pub fn alpha_value_char(val: u16) -> (c: u8)
    ensures
        c == alpha_char_at((val % 45) as int),
{
    alpha_char_exec(val % 45)
}

/// Whether `c` is an ASCII decimal digit.
pub open spec fn is_digit(c: u8) -> bool {
    48 <= c <= 57
}

/// The mode chosen for `data`: numeric when all are digits, alphanumeric
/// when all are in the alphanumeric set, byte otherwise or when empty.
pub open spec fn detect_mode_spec(data: Seq<u8>) -> Mode {
    if data.len() == 0 {
        Mode::Byte
    } else if forall|i: int| 0 <= i < data.len() ==> is_digit(#[trigger] data[i]) {
        Mode::Numeric
    } else if forall|i: int| 0 <= i < data.len() ==> is_alpha_char(#[trigger] data[i]) {
        Mode::Alphanumeric
    } else {
        Mode::Byte
    }
}

/// Automatically detect the best encoding mode for given data.
pub fn detect_mode(data: &[u8]) -> (m: Mode)
    ensures
        m == detect_mode_spec(data@),
{
    if data.len() == 0 {
        return Mode::Byte;
    }
    let mut all_digits = true;
    let mut i: usize = 0;
    while i < data.len()
        invariant
            0 <= i <= data@.len(),
            all_digits == forall|j: int| 0 <= j < i ==> is_digit(#[trigger] data@[j]),
        decreases data@.len() - i,
    {
        let c = data[i];
        all_digits = all_digits && 48 <= c && c <= 57;
        i = i + 1;
    }
    if all_digits {
        return Mode::Numeric;
    }
    let mut all_alpha = true;
    let mut i: usize = 0;
    while i < data.len()
        invariant
            0 <= i <= data@.len(),
            all_alpha == forall|j: int| 0 <= j < i ==> is_alpha_char(#[trigger] data@[j]),
        decreases data@.len() - i,
    {
        all_alpha = all_alpha && alpha_char_value(data[i]).is_ok();
        i = i + 1;
    }
    if all_alpha {
        return Mode::Alphanumeric;
    }
    Mode::Byte
}

/// What mode detection promises: numeric exactly for a nonempty payload of
/// ASCII digits `'0'..='9'`; alphanumeric only when every byte is one of the
/// 45 characters of the alphanumeric table and not all are digits; byte
/// never for a nonempty payload drawn from that table.
pub proof fn lemma_detect_mode(data: Seq<u8>)
    ensures
        detect_mode_spec(data) == Mode::Numeric ==> data.len() > 0 && forall|i: int|
            0 <= i < data.len() ==> 48 <= #[trigger] data[i] <= 57,
        detect_mode_spec(data) == Mode::Alphanumeric ==> data.len() > 0 && (forall|i: int|
            0 <= i < data.len() ==> exists|j: int|
                0 <= j < 45 && #[trigger] data[i] == alpha_char_at(j)) && exists|i: int|
            0 <= i < data.len() && !(48 <= #[trigger] data[i] <= 57),
        data.len() > 0 && (forall|i: int| 0 <= i < data.len() ==> 48 <= #[trigger] data[i] <= 57)
            ==> detect_mode_spec(data) == Mode::Numeric,
        data.len() > 0 && (forall|i: int|
            0 <= i < data.len() ==> exists|j: int|
                0 <= j < 45 && #[trigger] data[i] == alpha_char_at(j)) ==> detect_mode_spec(data)
            != Mode::Byte,
        detect_mode_spec(data) != Mode::Extended,
{
    if data.len() > 0 && (forall|i: int|
        0 <= i < data.len() ==> exists|j: int| 0 <= j < 45 && #[trigger] data[i] == alpha_char_at(j)) {
        assert forall|i: int| 0 <= i < data.len() implies is_alpha_char(#[trigger] data[i]) by {
            let j = choose|j: int| 0 <= j < 45 && data[i] == alpha_char_at(j);
            assert(alpha_char_at(j) == data[i]);
        }
    }
    if detect_mode_spec(data) == Mode::Alphanumeric {
        assert forall|i: int| 0 <= i < data.len() implies exists|j: int|
            0 <= j < 45 && #[trigger] data[i] == alpha_char_at(j) by {
            assert(is_alpha_char(data[i]));
        }
    }
}

// ---------------------------------------------------------------------------
// Assembly of data codewords
// ---------------------------------------------------------------------------

/// The value of a digit character.
pub open spec fn digit_value(c: u8) -> int {
    c - 48
}

/// Numeric payload: groups of three digits in 10 bits, a final pair in 7
/// bits, a final single digit in 4 bits.
pub open spec fn numeric_payload(data: Seq<u8>) -> Seq<bool>
    decreases data.len(),
{
    if data.len() >= 3 {
        bits_be(
            (digit_value(data[0]) * 100 + digit_value(data[1]) * 10 + digit_value(data[2])) as nat,
            10,
        ) + numeric_payload(data.skip(3))
    } else if data.len() == 2 {
        bits_be((digit_value(data[0]) * 10 + digit_value(data[1])) as nat, 7)
    } else if data.len() == 1 {
        bits_be(digit_value(data[0]) as nat, 4)
    } else {
        Seq::empty()
    }
}

/// Alphanumeric payload: pairs of characters as `45 * a + b` in 11 bits, a
/// final single character in 6 bits.
pub open spec fn alpha_payload(data: Seq<u8>) -> Seq<bool>
    decreases data.len(),
{
    if data.len() >= 2 {
        bits_be((alpha_index(data[0]) * 45 + alpha_index(data[1])) as nat, 11) + alpha_payload(
            data.skip(2),
        )
    } else if data.len() == 1 {
        bits_be(alpha_index(data[0]) as nat, 6)
    } else {
        Seq::empty()
    }
}

/// Byte payload: eight bits per byte.
pub open spec fn byte_payload(data: Seq<u8>) -> Seq<bool>
    decreases data.len(),
{
    if data.len() >= 1 {
        bits_be(data[0] as nat, 8) + byte_payload(data.skip(1))
    } else {
        Seq::empty()
    }
}

/// The payload bits of `data` in a mode.
pub open spec fn payload_bits(mode: Mode, data: Seq<u8>) -> Seq<bool> {
    match mode {
        Mode::Numeric => numeric_payload(data),
        Mode::Alphanumeric => alpha_payload(data),
        _ => byte_payload(data),
    }
}

/// Header (version, mode, character count) followed by the payload.
pub open spec fn stream_bits(version: u8, mode: Mode, data: Seq<u8>) -> Seq<bool> {
    bits_be(version as nat, 6) + bits_be(mode_bits_spec(mode) as nat, 4) + bits_be(
        data.len(),
        length_bits_spec(mode, version),
    ) + payload_bits(mode, data)
}

/// The first character of `data` outside the alphanumeric set, if any.
pub open spec fn first_non_alpha(data: Seq<u8>) -> Option<u8>
    decreases data.len(),
{
    if data.len() == 0 {
        None
    } else if !is_alpha_char(data[0]) {
        Some(data[0])
    } else {
        first_non_alpha(data.skip(1))
    }
}

/// The bits after the terminator (up to four zero bits, as room allows) and
/// the zero bits up to a byte boundary.
pub open spec fn finish_bits(b: Seq<bool>, target_bits: nat) -> Seq<bool> {
    let room = target_bits - b.len();
    let term = if room < 4 {
        room
    } else {
        4
    };
    let b2 = b + zero_bits(term as nat);
    b2 + zero_bits(((8 - b2.len() % 8) % 8) as nat)
}

/// Filler codewords: 0xEC and 0x11 in turn.
pub open spec fn pad_codewords(n: nat) -> Seq<u8> {
    Seq::new(n, |i: int| if i % 2 == 0 { 0xECu8 } else { 0x11u8 })
}

/// The data codewords of `data`, or the error the assembly meets first.
pub open spec fn assemble_spec(version: u8, mode: Mode, data: Seq<u8>, target: nat) -> Result<
    Seq<u8>,
    RrcError,
> {
    let lb = length_bits_spec(mode, version);
    if data.len() >= pow2(lb) {
        Err(RrcError::DataTooLarge { needed: data.len() as usize, capacity: (pow2(lb) - 1) as usize })
    } else if mode == Mode::Alphanumeric && first_non_alpha(data) is Some {
        Err(RrcError::InvalidCharacter((first_non_alpha(data)->0) as char))
    } else {
        let b = stream_bits(version, mode, data);
        if b.len() > 8 * target {
            Err(RrcError::DataTooLarge { needed: b.len() as usize, capacity: (8 * target) as usize })
        } else {
            let packed = pack_bits(finish_bits(b, 8 * target));
            Ok(packed + pad_codewords((target - packed.len()) as nat))
        }
    }
}

/// The view of a codeword result.
pub open spec fn codewords_view(r: Result<Vec<u8>, RrcError>) -> Result<Seq<u8>, RrcError> {
    match r {
        Ok(v) => Ok(v@),
        Err(e) => Err(e),
    }
}

/// `2^n` for small `n`.
fn pow2_exec(n: usize) -> (r: usize)
    requires
        n <= 24,
    ensures
        r == pow2(n as nat),
{
    let mut r: usize = 1;
    let mut i: usize = 0;
    proof {
        vstd::arithmetic::power2::lemma2_to64();
    }
    while i < n
        invariant
            0 <= i <= n <= 24,
            r == pow2(i as nat),
            r <= 0x1000000,
        decreases n - i,
    {
        proof {
            lemma_pow2_unfold((i + 1) as nat);
            vstd::arithmetic::power2::lemma_pow2_strictly_increases(i as nat, 24);
            vstd::arithmetic::power2::lemma_pow2_strictly_increases((i + 1) as nat, 25);
            vstd::arithmetic::power2::lemma2_to64();
        }
        r = r * 2;
        i = i + 1;
    }
    r
}

proof fn lemma_first_non_alpha(data: Seq<u8>, i: int)
    requires
        0 <= i <= data.len(),
        forall|j: int| 0 <= j < i ==> is_alpha_char(#[trigger] data[j]),
    ensures
        i < data.len() && !is_alpha_char(data[i]) ==> first_non_alpha(data) == Some(data[i]),
        i == data.len() ==> first_non_alpha(data) is None,
    decreases i,
{
    if i > 0 {
        let t = data.skip(1);
        assert forall|j: int| 0 <= j < i - 1 implies is_alpha_char(#[trigger] t[j]) by {
            assert(t[j] == data[j + 1]);
        }
        lemma_first_non_alpha(t, i - 1);
    } else if data.len() > 0 {
    }
}

proof fn lemma_numeric_step(data: Seq<u8>, i: int)
    requires
        0 <= i < data.len(),
    ensures
        data.len() - i >= 3 ==> numeric_payload(data.skip(i)) == bits_be(
            (digit_value(data[i]) * 100 + digit_value(data[i + 1]) * 10 + digit_value(data[i + 2])) as nat,
            10,
        ) + numeric_payload(data.skip(i + 3)),
        data.len() - i == 2 ==> numeric_payload(data.skip(i)) == bits_be(
            (digit_value(data[i]) * 10 + digit_value(data[i + 1])) as nat,
            7,
        ),
        data.len() - i == 1 ==> numeric_payload(data.skip(i)) == bits_be(
            digit_value(data[i]) as nat,
            4,
        ),
{
    let t = data.skip(i);
    if t.len() >= 3 {
        assert(t.skip(3) =~= data.skip(i + 3));
    }
}

proof fn lemma_alpha_step(data: Seq<u8>, i: int)
    requires
        0 <= i < data.len(),
    ensures
        data.len() - i >= 2 ==> alpha_payload(data.skip(i)) == bits_be(
            (alpha_index(data[i]) * 45 + alpha_index(data[i + 1])) as nat,
            11,
        ) + alpha_payload(data.skip(i + 2)),
        data.len() - i == 1 ==> alpha_payload(data.skip(i)) == bits_be(
            alpha_index(data[i]) as nat,
            6,
        ),
{
    let t = data.skip(i);
    if t.len() >= 2 {
        assert(t.skip(2) =~= data.skip(i + 2));
    }
}

proof fn lemma_byte_step(data: Seq<u8>, i: int)
    requires
        0 <= i < data.len(),
    ensures
        byte_payload(data.skip(i)) == bits_be(data[i] as nat, 8) + byte_payload(data.skip(i + 1)),
{
    assert(data.skip(i).skip(1) =~= data.skip(i + 1));
}

/// Assemble the complete data bitstream before Reed-Solomon encoding.
#[verifier::rlimit(50)]
pub fn assemble_data_codewords(
    version: u8,
    mode: Mode,
    data: &[u8],
    data_codewords_target: usize,
) -> (r: Result<Vec<u8>, RrcError>)
    requires
        data_codewords_target <= usize::MAX / 8,
        mode == Mode::Numeric && data@.len() < pow2(length_bits_spec(mode, version)) ==> forall|
            i: int,
        | 0 <= i < data@.len() ==> #[trigger] data@[i] >= 48,
    ensures
        codewords_view(r) == assemble_spec(version, mode, data@, data_codewords_target as nat),
{
    let mut buf = BitBuffer::with_capacity(data_codewords_target * 8);
    buf.push_bits(version as u64, 6);
    buf.push_bits(mode.to_bits() as u64, 4);
    let len_bits = mode.length_bits(version);
    let count = data.len();
    let limit = pow2_exec(len_bits);
    proof {
        lemma_pow2_pos(len_bits as nat);
    }
    if count >= limit {
        return Err(RrcError::DataTooLarge { needed: count, capacity: limit - 1 });
    }
    buf.push_bits(count as u64, len_bits);
    let ghost header = buf@;
    let ghost want = stream_bits(version, mode, data@);
    assert(want == header + payload_bits(mode, data@));
    match mode {
        Mode::Numeric => {
            let mut i: usize = 0;
            assert(data@.skip(0) =~= data@);
            while i < data.len()
                invariant
                    0 <= i <= data@.len(),
                    mode == Mode::Numeric,
                    data@.len() < pow2(length_bits_spec(mode, version)),
                    forall|j: int| 0 <= j < data@.len() ==> #[trigger] data@[j] >= 48,
                    buf@ + numeric_payload(data@.skip(i as int)) == want,
                    want == header + payload_bits(mode, data@),
                decreases data@.len() - i,
            {
                let rem = data.len() - i;
                proof {
                    lemma_numeric_step(data@, i as int);
                }
                if rem >= 3 {
                    let d1 = (data[i] - 48) as u64;
                    let d2 = (data[i + 1] - 48) as u64;
                    let d3 = (data[i + 2] - 48) as u64;
                    let val = d1 * 100 + d2 * 10 + d3;
                    buf.push_bits(val, 10);
                    i = i + 3;
                } else if rem == 2 {
                    let d1 = (data[i] - 48) as u64;
                    let d2 = (data[i + 1] - 48) as u64;
                    let val = d1 * 10 + d2;
                    buf.push_bits(val, 7);
                    i = i + 2;
                } else {
                    let d1 = (data[i] - 48) as u64;
                    buf.push_bits(d1, 4);
                    i = i + 1;
                }
            }
        },
        Mode::Alphanumeric => {
            let mut i: usize = 0;
            assert(data@.skip(0) =~= data@);
            while i < data.len()
                invariant
                    0 <= i <= data@.len(),
                    mode == Mode::Alphanumeric,
                    data@.len() < pow2(length_bits_spec(mode, version)),
                    forall|j: int| 0 <= j < i ==> is_alpha_char(#[trigger] data@[j]),
                    buf@ + alpha_payload(data@.skip(i as int)) == want,
                    want == header + payload_bits(mode, data@),
                decreases data@.len() - i,
            {
                let rem = data.len() - i;
                proof {
                    lemma_alpha_step(data@, i as int);
                }
                let c1 = match alpha_char_value(data[i]) {
                    Ok(v) => v as u64,
                    Err(e) => {
                        proof {
                            lemma_first_non_alpha(data@, i as int);
                        }
                        return Err(e);
                    },
                };
                if rem >= 2 {
                    let c2 = match alpha_char_value(data[i + 1]) {
                        Ok(v) => v as u64,
                        Err(e) => {
                            proof {
                                lemma_first_non_alpha(data@, i + 1);
                            }
                            return Err(e);
                        },
                    };
                    let val = c1 * 45 + c2;
                    buf.push_bits(val, 11);
                    i = i + 2;
                } else {
                    buf.push_bits(c1, 6);
                    i = i + 1;
                }
            }
            proof {
                lemma_first_non_alpha(data@, data@.len() as int);
            }
        },
        _ => {
            let mut i: usize = 0;
            assert(data@.skip(0) =~= data@);
            while i < data.len()
                invariant
                    0 <= i <= data@.len(),
                    mode != Mode::Numeric && mode != Mode::Alphanumeric,
                    buf@ + byte_payload(data@.skip(i as int)) == want,
                    want == header + payload_bits(mode, data@),
                decreases data@.len() - i,
            {
                proof {
                    lemma_byte_step(data@, i as int);
                }
                buf.push_bits(data[i] as u64, 8);
                i = i + 1;
            }
        },
    }
    proof {
        assert(data@.skip(data@.len() as int) =~= Seq::<u8>::empty());
        assert(buf@ =~= want);
    }
    let target_bits = data_codewords_target * 8;
    if buf.len() > target_bits {
        return Err(RrcError::DataTooLarge { needed: buf.len(), capacity: target_bits });
    }
    let room = target_bits - buf.len();
    let term_bits = if room < 4 { room } else { 4 };
    buf.push_bits(0, term_bits);
    let pad_to_byte = (8 - (buf.len() % 8)) % 8;
    buf.push_bits(0, pad_to_byte);
    proof {
        lemma_zero_bits_be(term_bits as nat);
        lemma_zero_bits_be(pad_to_byte as nat);
        assert(buf@ =~= finish_bits(want, 8 * data_codewords_target as nat));
    }
    let mut bytes = buf.to_bytes();
    let ghost packed = bytes@;
    let mut pad_idx: usize = 0;
    while bytes.len() < data_codewords_target
        invariant
            bytes@ == packed + pad_codewords(pad_idx as nat),
            packed.len() + pad_idx <= data_codewords_target,
        decreases data_codewords_target - bytes@.len(),
    {
        let b: u8 = if pad_idx % 2 == 0 { 0xEC } else { 0x11 };
        bytes.push(b);
        assert(bytes@ =~= packed + pad_codewords((pad_idx + 1) as nat));
        pad_idx = pad_idx + 1;
    }
    Ok(bytes)
}

/// Zero values give zero bits.
proof fn lemma_zero_bits_be(n: nat)
    ensures
        bits_be(0, n) == zero_bits(n),
    decreases n,
{
    if n > 0 {
        lemma_zero_bits_be((n - 1) as nat);
        assert(bits_be(0, n) =~= zero_bits(n));
    }
}

// ---------------------------------------------------------------------------
// Parsing of data codewords
// ---------------------------------------------------------------------------

/// The value of the `n` bits at `pos`.
pub open spec fn read_value(bits: Seq<bool>, pos: int, n: int) -> nat {
    bits_value(bits.subrange(pos, pos + n))
}

/// `p` followed by the payload of `r`, or the error of `r`.
pub open spec fn prepend(p: Seq<u8>, r: Result<Seq<u8>, RrcError>) -> Result<Seq<u8>, RrcError> {
    match r {
        Ok(rest) => Ok(p + rest),
        Err(e) => Err(e),
    }
}

/// The digits of a numeric group of `k` digits with value `v`.
pub open spec fn numeric_digits(v: nat, k: nat) -> Seq<u8> {
    if k == 3 {
        seq![(v / 100 + 48) as u8, ((v % 100) / 10 + 48) as u8, (v % 10 + 48) as u8]
    } else if k == 2 {
        seq![(v / 10 + 48) as u8, (v % 10 + 48) as u8]
    } else {
        seq![(v + 48) as u8]
    }
}

/// Parse `rem` numeric characters starting at bit `pos`.
pub open spec fn numeric_decode(bits: Seq<bool>, pos: int, rem: nat) -> Result<Seq<u8>, RrcError>
    decreases rem,
{
    if rem == 0 {
        Ok(Seq::empty())
    } else {
        let k: nat = if rem >= 3 {
            3
        } else {
            rem
        };
        let n: int = if k == 3 {
            10
        } else if k == 2 {
            7
        } else {
            4
        };
        if pos + n > bits.len() {
            Err(RrcError::TruncatedBitstream)
        } else {
            prepend(
                numeric_digits(read_value(bits, pos, n), k),
                numeric_decode(bits, pos + n, (rem - k) as nat),
            )
        }
    }
}

/// Parse `rem` alphanumeric characters starting at bit `pos`.
pub open spec fn alpha_decode(bits: Seq<bool>, pos: int, rem: nat) -> Result<Seq<u8>, RrcError>
    decreases rem,
{
    if rem == 0 {
        Ok(Seq::empty())
    } else if rem >= 2 {
        if pos + 11 > bits.len() {
            Err(RrcError::TruncatedBitstream)
        } else {
            let v = read_value(bits, pos, 11);
            prepend(
                seq![alpha_char_at(((v / 45) % 45) as int), alpha_char_at((v % 45) as int)],
                alpha_decode(bits, pos + 11, (rem - 2) as nat),
            )
        }
    } else {
        if pos + 6 > bits.len() {
            Err(RrcError::TruncatedBitstream)
        } else {
            Ok(seq![alpha_char_at((read_value(bits, pos, 6) % 45) as int)])
        }
    }
}

/// Parse `rem` bytes starting at bit `pos`.
pub open spec fn byte_decode(bits: Seq<bool>, pos: int, rem: nat) -> Result<Seq<u8>, RrcError>
    decreases rem,
{
    if rem == 0 {
        Ok(Seq::empty())
    } else if pos + 8 > bits.len() {
        Err(RrcError::TruncatedBitstream)
    } else {
        prepend(seq![read_value(bits, pos, 8) as u8], byte_decode(bits, pos + 8, (rem - 1) as nat))
    }
}

/// Parse the payload of a mode.
pub open spec fn payload_decode(mode: Mode, bits: Seq<bool>, pos: int, rem: nat) -> Result<
    Seq<u8>,
    RrcError,
> {
    match mode {
        Mode::Numeric => numeric_decode(bits, pos, rem),
        Mode::Alphanumeric => alpha_decode(bits, pos, rem),
        _ => byte_decode(bits, pos, rem),
    }
}

/// The version, mode and payload read from data codewords, or the error met first.
pub open spec fn disassemble_spec(bytes: Seq<u8>) -> Result<(u8, Mode, Seq<u8>), RrcError> {
    let bits = bytes_to_bits(bytes);
    if bits.len() < 6 {
        Err(RrcError::TruncatedBitstream)
    } else {
        let version = read_value(bits, 0, 6) as u8;
        if !(1 <= version <= 40) {
            Err(RrcError::InvalidVersion(version))
        } else if bits.len() < 10 {
            Err(RrcError::TruncatedBitstream)
        } else {
            match mode_from_bits_spec(read_value(bits, 6, 4) as u8) {
                Err(e) => Err(e),
                Ok(mode) => {
                    let lb = length_bits_spec(mode, version);
                    if bits.len() < 10 + lb {
                        Err(RrcError::TruncatedBitstream)
                    } else {
                        with_header(
                            version,
                            mode,
                            payload_decode(mode, bits, 10 + lb as int, read_value(bits, 10, lb as int)),
                        )
                    }
                },
            }
        }
    }
}

/// A parsing result given its header fields and the payload parse.
pub open spec fn with_header(version: u8, mode: Mode, r: Result<Seq<u8>, RrcError>) -> Result<
    (u8, Mode, Seq<u8>),
    RrcError,
> {
    match r {
        Ok(p) => Ok((version, mode, p)),
        Err(e) => Err(e),
    }
}

/// The view of a parsing result.
pub open spec fn parsed_view(r: Result<(u8, Mode, Vec<u8>), RrcError>) -> Result<
    (u8, Mode, Seq<u8>),
    RrcError,
> {
    match r {
        Ok((v, m, p)) => Ok((v, m, p@)),
        Err(e) => Err(e),
    }
}

/// The bits of a byte, most significant first.
proof fn lemma_byte_bits(b: u8, j: u8)
    requires
        j < 8,
    ensures
        (((b >> (7 - j) as u8) & 1u8) != 0) == ((b as nat / pow2((7 - j) as nat)) % 2 == 1),
{
    let s = (7 - j) as u8;
    vstd::bits::lemma_u8_shr_is_div(b, s);
    let q = b >> s;
    assert((q & 1 != 0) == (q % 2 == 1)) by (bit_vector);
}

/// Read `n` (at most 24) bits as a number.
fn read_small(reader: &mut BitReader, n: usize) -> (r: Result<u64, RrcError>)
    requires
        n <= 24,
    ensures
        final(reader).source() == old(reader).source(),
        old(reader).position() + n <= old(reader).source().len() ==> r == Ok::<u64, RrcError>(
            read_value(old(reader).source(), old(reader).position(), n as int) as u64,
        ) && final(reader).position() == old(reader).position() + n && (read_value(
            old(reader).source(),
            old(reader).position(),
            n as int,
        ) as int) < pow2(n as nat),
        old(reader).position() + n > old(reader).source().len() ==> r == Err::<u64, RrcError>(
            RrcError::TruncatedBitstream,
        ) && final(reader).position() == old(reader).position(),
{
    let ghost src = reader.source();
    let ghost pos = reader.position();
    let r = reader.read_bits(n);
    proof {
        if pos + n <= src.len() {
            let sub = src.subrange(pos, pos + n);
            lemma_bits_value_bound(sub);
            if n < 24 {
                vstd::arithmetic::power2::lemma_pow2_strictly_increases(n as nat, 24);
            }
            vstd::arithmetic::power2::lemma2_to64();
            vstd::arithmetic::div_mod::lemma_small_mod(bits_value(sub), u64_modulus() as nat);
        }
    }
    r
}

/// Disassemble and decode data payload from error-corrected data bytes.
#[verifier::rlimit(50)]
pub fn disassemble_data_codewords(bytes: &[u8]) -> (r: Result<(u8, Mode, Vec<u8>), RrcError>)
    requires
        bytes@.len() <= usize::MAX / 8,
    ensures
        parsed_view(r) == disassemble_spec(bytes@),
{
    let mut bits: Vec<bool> = Vec::new();
    let mut k: usize = 0;
    while k < bytes.len()
        invariant
            0 <= k <= bytes@.len() <= usize::MAX / 8,
            bits@ == bytes_to_bits(bytes@.take(k as int)),
        decreases bytes@.len() - k,
    {
        let b = bytes[k];
        let mut j: u8 = 0;
        let ghost base = bits@;
        while j < 8
            invariant
                0 <= j <= 8,
                k < bytes@.len(),
                b == bytes@[k as int],
                base == bytes_to_bits(bytes@.take(k as int)),
                base.len() == 8 * k,
                bits@.len() == 8 * k + j,
                bits@.subrange(0, 8 * k) == base,
                forall|t: int| 0 <= t < j ==> #[trigger] bits@[8 * k + t] == ((b as nat / pow2(
                    (7 - t) as nat,
                )) % 2 == 1),
            decreases 8 - j,
        {
            proof {
                lemma_byte_bits(b, j);
            }
            bits.push(((b >> (7 - j)) & 1) != 0);
            j = j + 1;
        }
        proof {
            let nb = bytes_to_bits(bytes@.take(k as int + 1));
            assert forall|i: int| 0 <= i < nb.len() implies nb[i] == bits@[i] by {
                if i < 8 * k {
                    assert(bits@[i] == base[i]);
                    assert(bytes@.take(k as int + 1)[i / 8] == bytes@.take(k as int)[i / 8]);
                } else {
                    assert(i / 8 == k);
                    assert(bits@[8 * k + (i - 8 * k)] == bits@[i]);
                }
            }
            assert(bits@ =~= nb);
        }
        k = k + 1;
    }
    assert(bytes@.take(bytes@.len() as int) =~= bytes@);
    proof {
        vstd::arithmetic::power2::lemma2_to64();
    }
    let ghost all = bits@;
    let mut reader = BitReader::new(bits.as_slice());
    let version = match read_small(&mut reader, 6) {
        Ok(v) => v as u8,
        Err(e) => {
            return Err(e);
        },
    };
    if !(1 <= version && version <= 40) {
        return Err(RrcError::InvalidVersion(version));
    }
    let mode_bits = match read_small(&mut reader, 4) {
        Ok(v) => v as u8,
        Err(e) => {
            return Err(e);
        },
    };
    let mode = match Mode::from_bits(mode_bits) {
        Ok(m) => m,
        Err(e) => {
            return Err(e);
        },
    };
    let len_bits = mode.length_bits(version);
    let count = match read_small(&mut reader, len_bits) {
        Ok(v) => v as usize,
        Err(e) => {
            return Err(e);
        },
    };
    let ghost start = reader.position();
    assert(disassemble_spec(bytes@) == with_header(
        version,
        mode,
        payload_decode(mode, all, start, count as nat),
    ));
    let mut payload: Vec<u8> = Vec::new();
    match mode {
        Mode::Numeric => {
            let mut remaining = count;
            while remaining > 0
                invariant
                    reader.source() == all,
                    disassemble_spec(bytes@) == with_header(
                        version,
                        mode,
                        numeric_decode(all, start, count as nat),
                    ),
                    numeric_decode(all, start, count as nat) == prepend(
                        payload@,
                        numeric_decode(all, reader.position(), remaining as nat),
                    ),
                decreases remaining,
            {
                let ghost pos = reader.position();
                proof {
                    vstd::arithmetic::power2::lemma2_to64();
                }
                if remaining >= 3 {
                    let val = match read_small(&mut reader, 10) {
                        Ok(v) => v,
                        Err(e) => {
                            return Err(e);
                        },
                    };
                    let d1 = (val / 100) as u8 + 48;
                    let d2 = ((val % 100) / 10) as u8 + 48;
                    let d3 = (val % 10) as u8 + 48;
                    let ghost before = payload@;
                    payload.push(d1);
                    payload.push(d2);
                    payload.push(d3);
                    proof {
                        assert(numeric_digits(val as nat, 3) =~= seq![d1, d2, d3]);
                        assert(payload@ =~= before + numeric_digits(val as nat, 3));
                        assert(before + numeric_digits(val as nat, 3) + Seq::<u8>::empty()
                            =~= before + numeric_digits(val as nat, 3));
                        lemma_prepend_assoc(before, numeric_digits(val as nat, 3), numeric_decode(all, pos + 10, (remaining - 3) as nat));
                    }
                    remaining = remaining - 3;
                } else if remaining == 2 {
                    let val = match read_small(&mut reader, 7) {
                        Ok(v) => v,
                        Err(e) => {
                            return Err(e);
                        },
                    };
                    let d1 = (val / 10) as u8 + 48;
                    let d2 = (val % 10) as u8 + 48;
                    let ghost before = payload@;
                    payload.push(d1);
                    payload.push(d2);
                    proof {
                        assert(numeric_digits(val as nat, 2) =~= seq![d1, d2]);
                        assert(payload@ =~= before + numeric_digits(val as nat, 2));
                        lemma_prepend_assoc(before, numeric_digits(val as nat, 2), numeric_decode(all, pos + 7, 0));
                    }
                    remaining = remaining - 2;
                } else {
                    let val = match read_small(&mut reader, 4) {
                        Ok(v) => v,
                        Err(e) => {
                            return Err(e);
                        },
                    };
                    let ghost before = payload@;
                    payload.push(val as u8 + 48);
                    proof {
                        assert(numeric_digits(val as nat, 1) =~= seq![(val as u8 + 48) as u8]);
                        assert(payload@ =~= before + numeric_digits(val as nat, 1));
                        lemma_prepend_assoc(before, numeric_digits(val as nat, 1), numeric_decode(all, pos + 4, 0));
                    }
                    remaining = remaining - 1;
                }
            }
        },
        Mode::Alphanumeric => {
            let mut remaining = count;
            while remaining > 0
                invariant
                    reader.source() == all,
                    disassemble_spec(bytes@) == with_header(
                        version,
                        mode,
                        alpha_decode(all, start, count as nat),
                    ),
                    alpha_decode(all, start, count as nat) == prepend(
                        payload@,
                        alpha_decode(all, reader.position(), remaining as nat),
                    ),
                decreases remaining,
            {
                let ghost pos = reader.position();
                proof {
                    vstd::arithmetic::power2::lemma2_to64();
                }
                if remaining >= 2 {
                    let val = match read_small(&mut reader, 11) {
                        Ok(v) => v as u16,
                        Err(e) => {
                            return Err(e);
                        },
                    };
                    let c1 = val / 45;
                    let c2 = val % 45;
                    let ghost before = payload@;
                    payload.push(alpha_value_char(c1));
                    payload.push(alpha_value_char(c2));
                    proof {
                        let ds = seq![alpha_char_at(((val as nat / 45) % 45) as int), alpha_char_at((val as nat % 45) as int)];
                        assert(payload@ =~= before + ds);
                        lemma_prepend_assoc(before, ds, alpha_decode(all, pos + 11, (remaining - 2) as nat));
                    }
                    remaining = remaining - 2;
                } else {
                    let val = match read_small(&mut reader, 6) {
                        Ok(v) => v as u16,
                        Err(e) => {
                            return Err(e);
                        },
                    };
                    let ghost before = payload@;
                    payload.push(alpha_value_char(val));
                    proof {
                        let ds = seq![alpha_char_at((val as nat % 45) as int)];
                        assert(payload@ =~= before + ds);
                        assert(alpha_decode(all, pos, 1) == Ok::<Seq<u8>, RrcError>(ds));
                        assert(alpha_decode(all, reader.position(), 0) == Ok::<Seq<u8>, RrcError>(Seq::empty()));
                        assert(payload@ + Seq::<u8>::empty() =~= payload@);
                        assert(before + ds =~= payload@);
                    }
                    remaining = remaining - 1;
                }
            }
        },
        _ => {
            let mut remaining = count;
            while remaining > 0
                invariant
                    reader.source() == all,
                    mode != Mode::Numeric && mode != Mode::Alphanumeric,
                    disassemble_spec(bytes@) == with_header(
                        version,
                        mode,
                        byte_decode(all, start, count as nat),
                    ),
                    byte_decode(all, start, count as nat) == prepend(
                        payload@,
                        byte_decode(all, reader.position(), remaining as nat),
                    ),
                decreases remaining,
            {
                let ghost pos = reader.position();
                proof {
                    vstd::arithmetic::power2::lemma2_to64();
                }
                let val = match read_small(&mut reader, 8) {
                    Ok(v) => v as u8,
                    Err(e) => {
                        return Err(e);
                    },
                };
                let ghost before = payload@;
                payload.push(val);
                proof {
                    lemma_prepend_assoc(before, seq![val], byte_decode(all, pos + 8, (remaining - 1) as nat));
                    assert(payload@ =~= before + seq![val]);
                }
                remaining = remaining - 1;
            }
        },
    }
    proof {
        assert(payload@ + Seq::<u8>::empty() =~= payload@);
    }
    Ok((version, mode, payload))
}

proof fn lemma_prepend_assoc(a: Seq<u8>, b: Seq<u8>, r: Result<Seq<u8>, RrcError>)
    ensures
        prepend(a, prepend(b, r)) == prepend(a + b, r),
{
    match r {
        Ok(rest) => {
            assert(a + (b + rest) =~= (a + b) + rest);
        },
        Err(e) => {},
    }
}

// ---------------------------------------------------------------------------
// Parsing undoes assembly
// ---------------------------------------------------------------------------

/// Bit `j` of the low `n` bits of `v`, most significant first.
pub proof fn lemma_bits_be_index(v: nat, n: nat, j: int)
    requires
        0 <= j < n,
    ensures
        bits_be(v, n)[j] == ((v / pow2((n - 1 - j) as nat)) % 2 == 1),
    decreases n,
{
    lemma_bits_be_len(v, n);
    lemma_bits_be_len(v / 2, (n - 1) as nat);
    let m = (n - 1) as nat;
    assert(bits_be(v, n) == bits_be(v / 2, m).push(v % 2 == 1));
    if j == n - 1 {
        vstd::arithmetic::power2::lemma2_to64();
        assert(v / pow2(0) == v);
    } else {
        lemma_bits_be_index(v / 2, m, j);
        assert(bits_be(v, n)[j] == bits_be(v / 2, m)[j]);
        let e = (n - 2 - j) as nat;
        assert((m - 1 - j) as nat == e);
        assert((n - 1 - j) as nat == e + 1);
        lemma_pow2_unfold(e + 1);
        lemma_pow2_pos(e);
        lemma_div_denominator(v as int, 2, pow2(e) as int);
        assert((v / 2) / pow2(e) == v / pow2(e + 1));
    }
}

/// Unpacking packed bits of whole bytes gives the bits back.
proof fn lemma_unpack_pack(f: Seq<bool>)
    requires
        f.len() % 8 == 0,
    ensures
        bytes_to_bits(pack_bits(f)) == f,
{
    let p = pack_bits(f);
    let u = bytes_to_bits(p);
    assert(u.len() == f.len());
    assert forall|i: int| 0 <= i < f.len() implies u[i] == f[i] by {
        let k = i / 8;
        let j = i % 8;
        let chunk = Seq::new(8, |t: int| 8 * k + t < f.len() && f[8 * k + t]);
        lemma_bits_value_bound(chunk);
        vstd::arithmetic::power2::lemma2_to64();
        lemma_bits_be_of_value(chunk);
        lemma_bits_be_index(bits_value(chunk), 8, j);
        assert(p[k] as nat == bits_value(chunk));
        assert(8 * k + j == i);
        assert(chunk[j] == f[i]);
    }
    assert(u =~= f);
}

/// The bits of a byte sequence begin with the bits of its prefix.
proof fn lemma_bytes_to_bits_prefix(a: Seq<u8>, c: Seq<u8>, i: int)
    requires
        0 <= i < 8 * a.len(),
    ensures
        bytes_to_bits(a + c)[i] == bytes_to_bits(a)[i],
{
    assert((a + c)[i / 8] == a[i / 8]);
}

/// A run of whole bytes after the terminator and byte padding.
proof fn lemma_finish_bits(b: Seq<bool>, target: nat)
    requires
        b.len() <= 8 * target,
    ensures
        finish_bits(b, 8 * target).len() % 8 == 0,
        finish_bits(b, 8 * target).len() <= 8 * target,
        finish_bits(b, 8 * target).len() >= b.len(),
        forall|i: int| 0 <= i < b.len() ==> finish_bits(b, 8 * target)[i] == b[i],
{
    let f = finish_bits(b, 8 * target);
    let room = 8 * target - b.len();
    let term = if room < 4 {
        room
    } else {
        4
    };
    let l2 = b.len() + term;
    assert(l2 <= 8 * target);
    assert((l2 + (8 - l2 % 8) % 8) % 8 == 0) by (nonlinear_arith)
        requires
            l2 >= 0,
    ;
    assert(l2 + (8 - l2 % 8) % 8 <= 8 * target) by (nonlinear_arith)
        requires
            l2 <= 8 * target,
            l2 >= 0,
    ;
}

/// Reading back the bits of a value.
proof fn lemma_read_back(bits: Seq<bool>, pos: int, v: nat, n: nat)
    requires
        0 <= pos,
        pos + n <= bits.len(),
        bits.subrange(pos, pos + n) == bits_be(v, n),
        v < pow2(n),
    ensures
        read_value(bits, pos, n as int) == v,
{
    lemma_bits_roundtrip(v, n);
}

proof fn lemma_numeric_roundtrip(bits: Seq<bool>, pos: int, data: Seq<u8>)
    requires
        0 <= pos,
        pos + numeric_payload(data).len() <= bits.len(),
        bits.subrange(pos, pos + numeric_payload(data).len()) == numeric_payload(data),
        forall|i: int| 0 <= i < data.len() ==> is_digit(#[trigger] data[i]),
    ensures
        numeric_decode(bits, pos, data.len()) == Ok::<Seq<u8>, RrcError>(data),
    decreases data.len(),
{
    vstd::arithmetic::power2::lemma2_to64();
    let p = numeric_payload(data);
    if data.len() >= 3 {
        let v = (digit_value(data[0]) * 100 + digit_value(data[1]) * 10 + digit_value(data[2])) as nat;
        let rest = data.skip(3);
        lemma_bits_be_len(v, 10);
        let q = numeric_payload(rest);
        assert(p == bits_be(v, 10) + q);
        assert(bits.subrange(pos, pos + 10) =~= p.subrange(0, 10));
        assert(p.subrange(0, 10) =~= bits_be(v, 10));
        lemma_read_back(bits, pos, v, 10);
        assert(bits.subrange(pos + 10, pos + 10 + q.len()) =~= p.subrange(10, p.len() as int));
        assert(p.subrange(10, p.len() as int) =~= q);
        assert forall|i: int| 0 <= i < rest.len() implies is_digit(#[trigger] rest[i]) by {
            assert(rest[i] == data[i + 3]);
        }
        lemma_numeric_roundtrip(bits, pos + 10, rest);
        assert(is_digit(data[0]) && is_digit(data[1]) && is_digit(data[2]));
        let d0 = digit_value(data[0]);
        let d1 = digit_value(data[1]);
        let d2 = digit_value(data[2]);
        assert(v / 100 == d0 && (v % 100) / 10 == d1 && v % 10 == d2) by (nonlinear_arith)
            requires
                v == d0 * 100 + d1 * 10 + d2,
                0 <= d0 <= 9,
                0 <= d1 <= 9,
                0 <= d2 <= 9,
        ;
        assert(numeric_digits(v, 3) =~= data.take(3));
        assert(data.take(3) + rest =~= data);

    } else if data.len() == 2 {
        let v = (digit_value(data[0]) * 10 + digit_value(data[1])) as nat;
        lemma_bits_be_len(v, 7);
        lemma_read_back(bits, pos, v, 7);
        assert(is_digit(data[0]) && is_digit(data[1]));
        let d0 = digit_value(data[0]);
        let d1 = digit_value(data[1]);
        assert(v / 10 == d0 && v % 10 == d1) by (nonlinear_arith)
            requires
                v == d0 * 10 + d1,
                0 <= d0 <= 9,
                0 <= d1 <= 9,
        ;
        assert(numeric_digits(v, 2) + Seq::<u8>::empty() =~= data);
        assert(numeric_decode(bits, pos + 7, 0) == Ok::<Seq<u8>, RrcError>(Seq::empty()));
    } else if data.len() == 1 {
        let v = digit_value(data[0]) as nat;
        lemma_bits_be_len(v, 4);
        lemma_read_back(bits, pos, v, 4);
        assert(is_digit(data[0]));
        assert(numeric_digits(v, 1) + Seq::<u8>::empty() =~= data);
        assert(numeric_decode(bits, pos + 4, 0) == Ok::<Seq<u8>, RrcError>(Seq::empty()));
    } else {
        assert(data =~= Seq::<u8>::empty());
    }
}

proof fn lemma_alpha_roundtrip(bits: Seq<bool>, pos: int, data: Seq<u8>)
    requires
        0 <= pos,
        pos + alpha_payload(data).len() <= bits.len(),
        bits.subrange(pos, pos + alpha_payload(data).len()) == alpha_payload(data),
        forall|i: int| 0 <= i < data.len() ==> is_alpha_char(#[trigger] data[i]),
    ensures
        alpha_decode(bits, pos, data.len()) == Ok::<Seq<u8>, RrcError>(data),
    decreases data.len(),
{
    vstd::arithmetic::power2::lemma2_to64();
    let p = alpha_payload(data);
    if data.len() >= 2 {
        lemma_alpha_table(data[0], 0);
        lemma_alpha_table(data[1], 0);
        let a = alpha_index(data[0]);
        let b = alpha_index(data[1]);
        let v = (a * 45 + b) as nat;
        let rest = data.skip(2);
        lemma_bits_be_len(v, 11);
        let q = alpha_payload(rest);
        assert(p == bits_be(v, 11) + q);
        assert(bits.subrange(pos, pos + 11) =~= p.subrange(0, 11));
        assert(p.subrange(0, 11) =~= bits_be(v, 11));
        lemma_read_back(bits, pos, v, 11);
        assert(bits.subrange(pos + 11, pos + 11 + q.len()) =~= p.subrange(11, p.len() as int));
        assert(p.subrange(11, p.len() as int) =~= q);
        assert forall|i: int| 0 <= i < rest.len() implies is_alpha_char(#[trigger] rest[i]) by {
            assert(rest[i] == data[i + 2]);
        }
        lemma_alpha_roundtrip(bits, pos + 11, rest);
        assert(v / 45 == a && v % 45 == b) by (nonlinear_arith)
            requires
                v == a * 45 + b,
                0 <= a < 45,
                0 <= b < 45,
        ;
        assert(seq![alpha_char_at(((v / 45) % 45) as int), alpha_char_at((v % 45) as int)]
            =~= data.take(2));
        assert(data.take(2) + rest =~= data);
    } else if data.len() == 1 {
        lemma_alpha_table(data[0], 0);
        let v = alpha_index(data[0]) as nat;
        lemma_bits_be_len(v, 6);
        lemma_read_back(bits, pos, v, 6);
        assert(seq![alpha_char_at((v % 45) as int)] =~= data);
    } else {
        assert(data =~= Seq::<u8>::empty());
    }
}

proof fn lemma_byte_roundtrip(bits: Seq<bool>, pos: int, data: Seq<u8>)
    requires
        0 <= pos,
        pos + byte_payload(data).len() <= bits.len(),
        bits.subrange(pos, pos + byte_payload(data).len()) == byte_payload(data),
    ensures
        byte_decode(bits, pos, data.len()) == Ok::<Seq<u8>, RrcError>(data),
    decreases data.len(),
{
    vstd::arithmetic::power2::lemma2_to64();
    let p = byte_payload(data);
    if data.len() >= 1 {
        let v = data[0] as nat;
        let rest = data.skip(1);
        lemma_bits_be_len(v, 8);
        let q = byte_payload(rest);
        assert(p == bits_be(v, 8) + q);
        assert(bits.subrange(pos, pos + 8) =~= p.subrange(0, 8));
        assert(p.subrange(0, 8) =~= bits_be(v, 8));
        lemma_read_back(bits, pos, v, 8);
        assert(bits.subrange(pos + 8, pos + 8 + q.len()) =~= p.subrange(8, p.len() as int));
        assert(p.subrange(8, p.len() as int) =~= q);
        lemma_byte_roundtrip(bits, pos + 8, rest);
        assert(seq![data[0]] + rest =~= data);
    } else {
        assert(data =~= Seq::<u8>::empty());
    }
}

proof fn lemma_first_non_alpha_none(data: Seq<u8>)
    requires
        first_non_alpha(data) is None,
    ensures
        forall|i: int| 0 <= i < data.len() ==> is_alpha_char(#[trigger] data[i]),
    decreases data.len(),
{
    if data.len() > 0 {
        let t = data.skip(1);
        lemma_first_non_alpha_none(t);
        assert forall|i: int| 0 <= i < data.len() implies is_alpha_char(#[trigger] data[i]) by {
            if i > 0 {
                assert(data[i] == t[i - 1]);
            }
        }
    }
}

/// Parsing the data codewords assembled from a payload gives back its
/// version, mode and payload (numeric payloads being decimal digits).
pub proof fn lemma_data_codewords_roundtrip(version: u8, mode: Mode, data: Seq<u8>, target: nat)
    requires
        1 <= version <= 40,
        assemble_spec(version, mode, data, target) is Ok,
        mode == Mode::Numeric ==> forall|i: int| 0 <= i < data.len() ==> is_digit(#[trigger] data[i]),
    ensures
        disassemble_spec(assemble_spec(version, mode, data, target)->Ok_0) == Ok::<
            (u8, Mode, Seq<u8>),
            RrcError,
        >((version, mode, data)),
{
    vstd::arithmetic::power2::lemma2_to64();
    let lb = length_bits_spec(mode, version);
    let b = stream_bits(version, mode, data);
    let f = finish_bits(b, 8 * target);
    lemma_finish_bits(b, target);
    let packed = pack_bits(f);
    let out = packed + pad_codewords((target - packed.len()) as nat);
    assert(assemble_spec(version, mode, data, target)->Ok_0 == out);
    lemma_unpack_pack(f);
    let all = bytes_to_bits(out);
    assert forall|i: int| 0 <= i < b.len() implies all[i] == b[i] by {
        lemma_bytes_to_bits_prefix(packed, pad_codewords((target - packed.len()) as nat), i);
    }
    lemma_bits_be_len(version as nat, 6);
    lemma_bits_be_len(mode_bits_spec(mode) as nat, 4);
    lemma_bits_be_len(data.len(), lb);
    let pl = payload_bits(mode, data);
    assert(b.len() == 10 + lb + pl.len());
    assert(all.subrange(0, 6) =~= bits_be(version as nat, 6)) by {
        assert forall|i: int| 0 <= i < 6 implies all[i] == b[i] by {}
    }
    lemma_read_back(all, 0, version as nat, 6);
    assert(all.subrange(6, 10) =~= bits_be(mode_bits_spec(mode) as nat, 4)) by {
        assert forall|i: int| 6 <= i < 10 implies all[i] == b[i] by {}
    }
    lemma_read_back(all, 6, mode_bits_spec(mode) as nat, 4);
    lemma_mode_bits_roundtrip(mode);
    assert(all.subrange(10, 10 + lb as int) =~= bits_be(data.len(), lb)) by {
        assert forall|i: int| 10 <= i < 10 + lb implies all[i] == b[i] by {}
    }
    lemma_read_back(all, 10, data.len(), lb);
    let start = 10 + lb as int;
    assert(all.subrange(start, start + pl.len()) =~= pl) by {
        assert forall|i: int| start <= i < start + pl.len() implies all[i] == b[i] by {}
    }
    match mode {
        Mode::Numeric => {
            lemma_numeric_roundtrip(all, start, data);
        },
        Mode::Alphanumeric => {
            lemma_first_non_alpha_none(data);
            lemma_alpha_roundtrip(all, start, data);
        },
        _ => {
            lemma_byte_roundtrip(all, start, data);
        },
    }
}

/// Assembled data codewords fill exactly the target number of codewords.
pub proof fn lemma_assemble_len(version: u8, mode: Mode, data: Seq<u8>, target: nat)
    requires
        assemble_spec(version, mode, data, target) is Ok,
    ensures
        (assemble_spec(version, mode, data, target)->Ok_0).len() == target,
{
    let b = stream_bits(version, mode, data);
    lemma_finish_bits(b, target);
    let f = finish_bits(b, 8 * target);
    assert((f.len() + 7) / 8 <= target);
}

/// The bits of a byte sequence, eight per byte, most significant first.
pub fn bytes_to_bit_vec(bytes: &[u8]) -> (bits: Vec<bool>)
    requires
        bytes@.len() <= usize::MAX / 8,
    ensures
        bits@ == bytes_to_bits(bytes@),
{
    let mut bits: Vec<bool> = Vec::new();
    let mut k: usize = 0;
    while k < bytes.len()
        invariant
            0 <= k <= bytes@.len() <= usize::MAX / 8,
            bits@ == bytes_to_bits(bytes@.take(k as int)),
        decreases bytes@.len() - k,
    {
        let b = bytes[k];
        let mut j: u8 = 0;
        let ghost base = bits@;
        while j < 8
            invariant
                0 <= j <= 8,
                k < bytes@.len(),
                b == bytes@[k as int],
                base == bytes_to_bits(bytes@.take(k as int)),
                base.len() == 8 * k,
                bits@.len() == 8 * k + j,
                bits@.subrange(0, 8 * k) == base,
                forall|t: int| 0 <= t < j ==> #[trigger] bits@[8 * k + t] == ((b as nat / pow2(
                    (7 - t) as nat,
                )) % 2 == 1),
            decreases 8 - j,
        {
            proof {
                lemma_byte_bits(b, j);
            }
            bits.push(((b >> (7 - j)) & 1) != 0);
            j = j + 1;
        }
        proof {
            let nb = bytes_to_bits(bytes@.take(k as int + 1));
            assert forall|i: int| 0 <= i < nb.len() implies nb[i] == bits@[i] by {
                if i < 8 * k {
                    assert(bits@[i] == base[i]);
                    assert(bytes@.take(k as int + 1)[i / 8] == bytes@.take(k as int)[i / 8]);
                } else {
                    assert(i / 8 == k);
                    assert(bits@[8 * k + (i - 8 * k)] == bits@[i]);
                }
            }
            assert(bits@ =~= nb);
        }
        k = k + 1;
    }
    assert(bytes@.take(bytes@.len() as int) =~= bytes@);
    bits
}

/// Packing the bits of bytes gives the bytes back.
pub proof fn lemma_pack_unpack(bytes: Seq<u8>)
    ensures
        pack_bits(bytes_to_bits(bytes)) == bytes,
{
    let bits = bytes_to_bits(bytes);
    let p = pack_bits(bits);
    assert(p.len() == bytes.len());
    assert forall|k: int| 0 <= k < bytes.len() implies p[k] == bytes[k] by {
        let chunk = Seq::new(8, |t: int| 8 * k + t < bits.len() && bits[8 * k + t]);
        let b = bytes[k] as nat;
        assert forall|t: int| 0 <= t < 8 implies chunk[t] == bits_be(b, 8)[t] by {
            lemma_bits_be_index(b, 8, t);
            assert((8 * k + t) / 8 == k);
            assert((8 * k + t) % 8 == t);
        }
        lemma_bits_be_len(b, 8);
        assert(chunk =~= bits_be(b, 8));
        lemma_bits_value_of_bits_be(b, 8);
        vstd::arithmetic::power2::lemma2_to64();
    }
    assert(p =~= bytes);
}

} // verus!
