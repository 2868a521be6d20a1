//! Ring geometry of an RRC symbol: sector counts per ring, reference gaps,
//! format word sectors, data sectors, and the per-version capacity table.

use crate::error::RrcError;
use vstd::prelude::*;
use vstd::string::StrSliceExecFns;

verus! {

/// Number of concentric zones in the center bullseye finder pattern.
pub const BULLSEYE_ZONES: usize = 7;

/// Base sector count for data Ring 0.
pub const BASE_SECTORS: usize = 72;

/// Error Correction Level for an RRC symbol.
#[derive(Debug, Clone, Copy, PartialEq, Eq, Structural, PartialOrd, Ord, Hash)]
pub enum EccLevel {
    /// Low: ~7% codeword recovery capability.
    L,
    /// Medium: ~15% codeword recovery capability (default).
    M,
    /// Quality: ~25% codeword recovery capability.
    Q,
    /// High: ~30% codeword recovery capability.
    H,
}

/// The 2-bit format indicator of a level.
pub open spec fn ecc_bits_spec(level: EccLevel) -> u8 {
    match level {
        EccLevel::L => 0,
        EccLevel::M => 1,
        EccLevel::Q => 2,
        EccLevel::H => 3,
    }
}

/// The level named by the low two bits of `bits`.
pub open spec fn ecc_from_bits_spec(bits: u8) -> EccLevel {
    let b = bits % 4;
    if b == 0 {
        EccLevel::L
    } else if b == 1 {
        EccLevel::M
    } else if b == 2 {
        EccLevel::Q
    } else {
        EccLevel::H
    }
}

/// The percentage of codewords given to error correction at a level.
pub open spec fn ecc_percent(level: EccLevel) -> nat {
    match level {
        EccLevel::L => 7,
        EccLevel::M => 15,
        EccLevel::Q => 25,
        EccLevel::H => 30,
    }
}

/// The least number of error correction codewords at a level.
pub open spec fn ecc_minimum(level: EccLevel) -> nat {
    match level {
        EccLevel::L => 2,
        EccLevel::M => 4,
        EccLevel::Q => 6,
        EccLevel::H => 8,
    }
}

/// Whether `c` is white space in the sense of Unicode's `White_Space` property.
pub open spec fn is_unicode_whitespace(c: char) -> bool {
    let u = c as u32;
    (0x9 <= u <= 0xd) || u == 0x20 || u == 0x85 || u == 0xa0 || u == 0x1680 || (0x2000 <= u
        <= 0x200a) || u == 0x2028 || u == 0x2029 || u == 0x202f || u == 0x205f || u == 0x3000
}

/// `s` without its leading white space.
pub open spec fn trim_front(s: Seq<char>) -> Seq<char>
    decreases s.len(),
{
    if s.len() > 0 && is_unicode_whitespace(s[0]) {
        trim_front(s.drop_first())
    } else {
        s
    }
}

/// `s` without its trailing white space.
pub open spec fn trim_back(s: Seq<char>) -> Seq<char>
    decreases s.len(),
{
    if s.len() > 0 && is_unicode_whitespace(s.last()) {
        trim_back(s.drop_last())
    } else {
        s
    }
}

/// `s` without leading and trailing white space.
pub open spec fn trim_spec(s: Seq<char>) -> Seq<char> {
    trim_back(trim_front(s))
}

/// Whether `s`, trimmed, is the single letter `upper` in either case.
pub open spec fn is_letter_loose(s: Seq<char>, upper: char) -> bool {
    let t = trim_spec(s);
    t.len() == 1 && (t[0] == upper || t[0] as u32 == upper as u32 + 32)
}

/// The level named by a string, if any.
pub open spec fn ecc_from_str_spec(s: Seq<char>) -> Option<EccLevel> {
    if is_letter_loose(s, 'L') {
        Some(EccLevel::L)
    } else if is_letter_loose(s, 'M') {
        Some(EccLevel::M)
    } else if is_letter_loose(s, 'Q') {
        Some(EccLevel::Q)
    } else if is_letter_loose(s, 'H') {
        Some(EccLevel::H)
    } else {
        None
    }
}

/// Whether `c` is Unicode white space.
fn is_whitespace_char(c: char) -> (b: bool)
    ensures
        b == is_unicode_whitespace(c),
{
    let u = c as u32;
    (0x9 <= u && u <= 0xd) || u == 0x20 || u == 0x85 || u == 0xa0 || u == 0x1680 || (0x2000 <= u
        && u <= 0x200a) || u == 0x2028 || u == 0x2029 || u == 0x202f || u == 0x205f || u == 0x3000
}

proof fn lemma_trim_front(s: Seq<char>, lo: int)
    requires
        0 <= lo <= s.len(),
        forall|j: int| 0 <= j < lo ==> is_unicode_whitespace(#[trigger] s[j]),
        lo == s.len() || !is_unicode_whitespace(s[lo]),
    ensures
        trim_front(s) == s.skip(lo),
    decreases lo,
{
    if lo == 0 {
        assert(s.skip(0) =~= s);
    } else {
        let t = s.drop_first();
        assert forall|j: int| 0 <= j < lo - 1 implies is_unicode_whitespace(#[trigger] t[j]) by {
            assert(t[j] == s[j + 1]);
        }
        lemma_trim_front(t, lo - 1);
        assert(t.skip(lo - 1) =~= s.skip(lo));
    }
}

proof fn lemma_trim_back(s: Seq<char>, hi: int)
    requires
        0 <= hi <= s.len(),
        forall|j: int| hi <= j < s.len() ==> is_unicode_whitespace(#[trigger] s[j]),
        hi == 0 || !is_unicode_whitespace(s[hi - 1]),
    ensures
        trim_back(s) == s.take(hi),
    decreases s.len() - hi,
{
    if hi == s.len() {
        assert(s.take(hi) =~= s);
    } else {
        let t = s.drop_last();
        assert(is_unicode_whitespace(s[s.len() - 1]));
        lemma_trim_back(t, hi);
        assert(t.take(hi) =~= s.take(hi));
    }
}

/// The bounds `(lo, hi)` of `s` trimmed of white space at both ends.
pub(crate) fn trim_bounds(s: &str) -> (r: (usize, usize))
    ensures
        r.0 <= r.1 <= s@.len(),
        trim_spec(s@) == s@.subrange(r.0 as int, r.1 as int),
{
    let n = s.unicode_len();
    let mut lo: usize = 0;
    while lo < n && is_whitespace_char(s.get_char(lo))
        invariant
            0 <= lo <= n,
            n == s@.len(),
            forall|j: int| 0 <= j < lo ==> is_unicode_whitespace(#[trigger] s@[j]),
        decreases n - lo,
    {
        lo = lo + 1;
    }
    proof {
        lemma_trim_front(s@, lo as int);
    }
    let mut hi: usize = n;
    while hi > lo && is_whitespace_char(s.get_char(hi - 1))
        invariant
            lo <= hi <= n,
            n == s@.len(),
            forall|j: int| hi <= j < n ==> is_unicode_whitespace(#[trigger] s@[j]),
        decreases hi,
    {
        hi = hi - 1;
    }
    proof {
        let t = s@.skip(lo as int);
        let h = hi - lo;
        assert forall|j: int| h <= j < t.len() implies is_unicode_whitespace(#[trigger] t[j]) by {
            assert(t[j] == s@[j + lo]);
        }
        if h > 0 {
            assert(t[h - 1] == s@[hi - 1]);
        }
        lemma_trim_back(t, h);
        assert(t.take(h) =~= s@.subrange(lo as int, hi as int));
    }
    (lo, hi)
}

impl EccLevel {
    /// Convert 2-bit format indicator to EccLevel.
    pub fn from_bits(bits: u8) -> (r: Self)
        ensures
            r == ecc_from_bits_spec(bits),
    {
        let b = bits & 0b11;
        assert(b == bits % 4) by (bit_vector)
            requires
                b == bits & 0b11,
        ;
        if b == 0 {
            EccLevel::L
        } else if b == 1 {
            EccLevel::M
        } else if b == 2 {
            EccLevel::Q
        } else {
            EccLevel::H
        }
    }

    /// Convert EccLevel to 2-bit format indicator.
    pub fn to_bits(self) -> (r: u8)
        ensures
            r == ecc_bits_spec(self),
    {
        match self {
            EccLevel::L => 0,
            EccLevel::M => 1,
            EccLevel::Q => 2,
            EccLevel::H => 3,
        }
    }

    /// Parse from case-insensitive string ("L", "M", "Q", "H"), ignoring
    /// surrounding white space.
    pub fn from_str_loose(s: &str) -> (r: Result<Self, RrcError>)
        ensures
            match ecc_from_str_spec(s@) {
                Some(level) => r == Ok::<EccLevel, RrcError>(level),
                None => r matches Err(RrcError::InvalidEccLevel(t)) && t@ == s@,
            },
    {
        let (lo, hi) = trim_bounds(s);
        if hi - lo == 1 {
            let c = s.get_char(lo);
            proof {
                assert(trim_spec(s@)[0] == s@[lo as int]);
            }
            if c == 'L' || c == 'l' {
                return Ok(EccLevel::L);
            } else if c == 'M' || c == 'm' {
                return Ok(EccLevel::M);
            } else if c == 'Q' || c == 'q' {
                return Ok(EccLevel::Q);
            } else if c == 'H' || c == 'h' {
                return Ok(EccLevel::H);
            }
        }
        Err(RrcError::InvalidEccLevel(s.to_owned()))
    }

    /// Single character representation.
    pub fn as_char(self) -> (c: char)
        ensures
            c == match self {
                EccLevel::L => 'L',
                EccLevel::M => 'M',
                EccLevel::Q => 'Q',
                EccLevel::H => 'H',
            },
    {
        match self {
            EccLevel::L => 'L',
            EccLevel::M => 'M',
            EccLevel::Q => 'Q',
            EccLevel::H => 'H',
        }
    }
}

/// Levels survive the trip through their two format bits.
pub proof fn lemma_ecc_bits_roundtrip(level: EccLevel, bits: u8)
    ensures
        ecc_from_bits_spec(ecc_bits_spec(level)) == level,
        ecc_bits_spec(ecc_from_bits_spec(bits)) == bits % 4,
{
}

/// The allowed sector counts of a ring, in the order they are tried.
pub open spec fn divisor_at(i: int) -> int {
    if i == 0 { 24 } else if i == 1 { 30 } else if i == 2 { 36 } else if i == 3 { 40 }
    else if i == 4 { 45 } else if i == 5 { 60 } else if i == 6 { 72 } else if i == 7 { 90 }
    else if i == 8 { 120 } else if i == 9 { 180 } else { 360 }
}

/// Number of allowed sector counts.
pub open spec fn divisor_count() -> int {
    11
}

/// The nominal sector count of ring `k` before snapping: 72 * (1 + k / 8).
pub open spec fn raw_sectors(k: int) -> int {
    72 + 9 * k
}

/// Distance between two integers.
pub open spec fn abs_diff(a: int, b: int) -> int {
    if a >= b { a - b } else { b - a }
}

/// Index of the allowed count nearest to `raw` among the first `n`, the
/// earliest one on ties.
pub open spec fn nearest_divisor_index(raw: int, n: int) -> int
    decreases n,
{
    if n <= 1 {
        0
    } else {
        let best = nearest_divisor_index(raw, n - 1);
        if abs_diff(divisor_at(n - 1), raw) < abs_diff(divisor_at(best), raw) {
            n - 1
        } else {
            best
        }
    }
}

/// The sector count of ring `k`: the divisor of 360 among the allowed counts
/// nearest to 72 + 9k, the smaller one on ties.
pub open spec fn sectors_spec(k: int) -> int {
    divisor_at(nearest_divisor_index(raw_sectors(k), divisor_count()))
}

/// The number of data sectors in ring `k`.
pub open spec fn data_sectors_spec(k: int) -> int {
    if k == 0 {
        sectors_spec(0) - 34
    } else {
        sectors_spec(k) - 1
    }
}

/// Every allowed count divides 360.
proof fn lemma_divisor_divides_360(i: int)
    requires
        0 <= i < divisor_count(),
    ensures
        360int % divisor_at(i) == 0,
        divisor_at(i) >= 24,
{
}

/// Past the largest allowed count, the nearest one is the largest.
proof fn lemma_nearest_divisor_beyond(raw: int, n: int)
    requires
        1 <= n <= divisor_count(),
        raw >= 360,
    ensures
        nearest_divisor_index(raw, n) == n - 1,
    decreases n,
{
    if n > 1 {
        lemma_nearest_divisor_beyond(raw, n - 1);
        assert(divisor_at(n - 2) < divisor_at(n - 1));
    }
}

/// Properties of the nearest allowed count.
proof fn lemma_nearest_divisor(raw: int, n: int)
    requires
        1 <= n <= divisor_count(),
    ensures
        0 <= nearest_divisor_index(raw, n) < n,
        forall|j: int| 0 <= j < n ==> abs_diff(divisor_at(nearest_divisor_index(raw, n)), raw)
            <= abs_diff(#[trigger] divisor_at(j), raw),
        forall|j: int| 0 <= j < nearest_divisor_index(raw, n) ==> abs_diff(
            divisor_at(nearest_divisor_index(raw, n)),
            raw,
        ) < abs_diff(#[trigger] divisor_at(j), raw),
    decreases n,
{
    if n > 1 {
        lemma_nearest_divisor(raw, n - 1);
    }
}

/// Compute the exact sector count for data ring `k`, snapped to the nearest
/// divisor of 360 (the earliest allowed count on ties).
pub fn sectors_in_ring(k: usize) -> (s: usize)
    ensures
        s == sectors_spec(k as int),
        360int % (s as int) == 0,
        s >= 24,
        forall|j: int| 0 <= j < divisor_count() ==> abs_diff(s as int, raw_sectors(k as int))
            <= abs_diff(#[trigger] divisor_at(j), raw_sectors(k as int)),
{
    if k >= 32 {
        proof {
            lemma_nearest_divisor_beyond(raw_sectors(k as int), 11);
            lemma_nearest_divisor(raw_sectors(k as int), 11);
        }
        return 360;
    }
    let raw: u64 = 72 + 9 * (k as u64);
    let mut best: u64 = 24;
    let mut best_idx: usize = 0;
    let mut min_diff: u64 = if best >= raw { best - raw } else { raw - best };
    let mut i: usize = 1;
    while i < 11
        invariant
            1 <= i <= 11,
            raw == raw_sectors(k as int),
            best_idx == nearest_divisor_index(raw as int, i as int),
            best == divisor_at(best_idx as int),
            min_diff == abs_diff(best as int, raw as int),
        decreases 11 - i,
    {
        let d: u64 = if i == 1 { 30 } else if i == 2 { 36 } else if i == 3 { 40 } else if i == 4 {
            45
        } else if i == 5 { 60 } else if i == 6 { 72 } else if i == 7 { 90 } else if i == 8 {
            120
        } else if i == 9 { 180 } else { 360 };
        assert(d == divisor_at(i as int));
        let diff: u64 = if d >= raw { d - raw } else { raw - d };
        if diff < min_diff {
            min_diff = diff;
            best = d;
            best_idx = i;
        }
        i = i + 1;
    }
    proof {
        lemma_nearest_divisor(raw as int, 11);
        assert(0 <= best_idx < 11);
        lemma_divisor_divides_360(best_idx as int);
    }
    best as usize
}

/// Check if a given sector in a ring is a reference sector gap (Sector 0 at 0°,
/// or mirrored Sector 36 in Ring 0).
pub fn is_reference_gap(ring: usize, sector: usize) -> (b: bool)
    ensures
        b == (sector == 0 || (ring == 0 && sector == 36)),
{
    if sector == 0 {
        return true;
    }
    if ring == 0 && sector == 36 {
        return true;
    }
    false
}

/// The format word bit carried by a sector of Ring 0, if any: sectors 1..=16
/// carry the primary word, sectors 37..=52 its mirror.
pub open spec fn format_info_spec(ring: int, sector: int) -> Option<(usize, bool)> {
    if ring != 0 {
        None
    } else if 1 <= sector <= 16 {
        Some(((sector - 1) as usize, false))
    } else if 37 <= sector <= 52 {
        Some(((sector - 37) as usize, true))
    } else {
        None
    }
}

/// Whether a sector carries payload or ECC data.
pub open spec fn is_data_sector_spec(ring: int, sector: int) -> bool {
    !(sector == 0 || (ring == 0 && sector == 36)) && format_info_spec(ring, sector) is None
}

/// Check if a sector in Ring 0 contains Format Word 1 (primary) or Format Word 2 (mirrored).
/// Returns Some((bit_index, is_mirrored)) if format word sector, None otherwise.
pub fn format_word_sector_info(ring: usize, sector: usize) -> (r: Option<(usize, bool)>)
    ensures
        r == format_info_spec(ring as int, sector as int),
{
    if ring != 0 {
        return None;
    }
    if 1 <= sector && sector <= 16 {
        Some((sector - 1, false))
    } else if 37 <= sector && sector <= 52 {
        Some((sector - 37, true))
    } else {
        None
    }
}

/// Check if a given sector carries payload/ECC data.
pub fn is_data_sector(ring: usize, sector: usize) -> (b: bool)
    ensures
        b == is_data_sector_spec(ring as int, sector as int),
{
    if is_reference_gap(ring, sector) {
        return false;
    }
    if format_word_sector_info(ring, sector).is_some() {
        return false;
    }
    true
}

/// Number of usable data sectors in ring `k`.
pub fn data_sectors_in_ring(k: usize) -> (n: usize)
    ensures
        n == data_sectors_spec(k as int),
{
    let total = sectors_in_ring(k);
    if k == 0 {
        assert(total == 72) by {
            reveal_with_fuel(nearest_divisor_index, 12);
        }
        total - 2 - 32
    } else {
        total - 1
    }
}

/// Total data ring count for a version (V1 = 3 rings, V40 = 81 rings).
pub open spec fn ring_count_spec(version: int) -> int {
    3 + (if version >= 1 { version - 1 } else { 0 }) * 2
}

/// Total data ring count for a version (V1 = 3 rings, V40 = 81 rings).
pub fn ring_count_for_version(version: u8) -> (r: usize)
    ensures
        r == ring_count_spec(version as int),
{
    3 + (version.saturating_sub(1) as usize) * 2
}

/// The data sectors of the first `n` rings.
pub open spec fn data_bits_of_rings(n: int) -> int
    decreases n,
{
    if n <= 0 {
        0
    } else {
        data_bits_of_rings(n - 1) + data_sectors_spec(n - 1)
    }
}

/// Total usable data bits of a version.
pub open spec fn total_data_bits_spec(version: int) -> int {
    data_bits_of_rings(ring_count_spec(version))
}

proof fn lemma_sectors_bounds(k: int)
    requires
        k >= 0,
    ensures
        24 <= sectors_spec(k) <= 360,
        k > 0 ==> 1 <= data_sectors_spec(k) <= 359,
        k == 0 ==> data_sectors_spec(k) == 38,
{
    lemma_nearest_divisor(raw_sectors(k), 11);
    if k == 0 {
        reveal_with_fuel(nearest_divisor_index, 12);
        assert(sectors_spec(0) == 72);
    }
}

/// Bounds on the sector counts.
pub proof fn lemma_sectors_facts(k: int)
    requires
        k >= 0,
    ensures
        24 <= sectors_spec(k) <= 360,
        k == 0 ==> sectors_spec(k) == 72,
        360int % sectors_spec(k) == 0,
{
    lemma_sectors_bounds(k);
    lemma_nearest_divisor(raw_sectors(k), 11);
    lemma_divisor_divides_360(nearest_divisor_index(raw_sectors(k), 11));
    if k == 0 {
        reveal_with_fuel(nearest_divisor_index, 12);
    }
}

/// The first `n` rings hold at most 360 data bits each, and at least 38 in
/// all when there is one.
pub proof fn lemma_data_bits_bounds(n: int)
    requires
        n >= 0,
    ensures
        0 <= data_bits_of_rings(n) <= 360 * n,
        n >= 1 ==> data_bits_of_rings(n) >= 38,
    decreases n,
{
    if n > 0 {
        lemma_data_bits_bounds(n - 1);
        lemma_sectors_bounds(n - 1);
    }
}

/// Total usable data bits for a version.
pub fn total_data_bits_for_version(version: u8) -> (bits: usize)
    ensures
        bits == total_data_bits_spec(version as int),
{
    let rings = ring_count_for_version(version);
    let mut sum: usize = 0;
    let mut k: usize = 0;
    while k < rings
        invariant
            0 <= k <= rings,
            rings == ring_count_spec(version as int),
            rings <= 511,
            sum == data_bits_of_rings(k as int),
        decreases rings - k,
    {
        proof {
            lemma_data_bits_bounds(k as int);
            lemma_sectors_bounds(k as int);
        }
        sum = sum + data_sectors_in_ring(k);
        k = k + 1;
    }
    sum
}

/// Metadata and capacities for a specific RRC version (1 to 40).
#[derive(Debug, Clone, Copy, PartialEq, Eq, Structural)]
pub struct VersionInfo {
    /// Version number (1–40).
    pub version: u8,
    /// Total number of data rings.
    pub ring_count: usize,
    /// Innermost ring sector count.
    pub base_sectors: usize,
    /// Total usable data sectors (excluding format word and reference gaps).
    pub total_data_bits: usize,
    /// Total bytes (data bits / 8).
    pub total_codewords: usize,
    /// ECC codewords at level L.
    pub ecc_codewords_l: usize,
    /// ECC codewords at level M.
    pub ecc_codewords_m: usize,
    /// ECC codewords at level Q.
    pub ecc_codewords_q: usize,
    /// ECC codewords at level H.
    pub ecc_codewords_h: usize,
    /// Usable payload bytes at level M.
    pub capacity_bytes_m: usize,
    /// Usable numeric characters at level M.
    pub capacity_numeric_m: usize,
    /// Usable alphanumeric characters at level M.
    pub capacity_alpha_m: usize,
}

/// Error correction codewords for `total` codewords at a level: the level's
/// percentage of `total`, rounded half up, but at least the level's minimum.
pub open spec fn ecc_codewords_spec(total: int, level: EccLevel) -> int {
    let r = (total * ecc_percent(level) + 50) / 100;
    if r >= ecc_minimum(level) {
        r
    } else {
        ecc_minimum(level) as int
    }
}

/// Usable payload bytes of a version at level M.
pub open spec fn capacity_m_spec(total: int) -> int {
    let c = total - ecc_codewords_spec(total, EccLevel::M);
    if c > 0 {
        c
    } else {
        0
    }
}

/// The table entry of a version.
pub open spec fn version_info_spec(v: int) -> VersionInfo {
    let bits = total_data_bits_spec(v);
    let total = bits / 8;
    let cap = capacity_m_spec(total);
    VersionInfo {
        version: v as u8,
        ring_count: ring_count_spec(v) as usize,
        base_sectors: 72,
        total_data_bits: bits as usize,
        total_codewords: total as usize,
        ecc_codewords_l: ecc_codewords_spec(total, EccLevel::L) as usize,
        ecc_codewords_m: ecc_codewords_spec(total, EccLevel::M) as usize,
        ecc_codewords_q: ecc_codewords_spec(total, EccLevel::Q) as usize,
        ecc_codewords_h: ecc_codewords_spec(total, EccLevel::H) as usize,
        capacity_bytes_m: cap as usize,
        capacity_numeric_m: (if cap > 3 {
            (cap - 3) * 24 / 10
        } else {
            0
        }) as usize,
        capacity_alpha_m: (if cap > 3 {
            (cap - 3) * 145 / 100
        } else {
            0
        }) as usize,
    }
}

/// ECC codewords of an entry at a level.
pub open spec fn entry_ecc(info: VersionInfo, level: EccLevel) -> int {
    match level {
        EccLevel::L => info.ecc_codewords_l as int,
        EccLevel::M => info.ecc_codewords_m as int,
        EccLevel::Q => info.ecc_codewords_q as int,
        EccLevel::H => info.ecc_codewords_h as int,
    }
}

/// Data codewords of an entry at a level (zero when ECC takes all).
pub open spec fn entry_data(info: VersionInfo, level: EccLevel) -> int {
    let d = info.total_codewords - entry_ecc(info, level);
    if d > 0 {
        d
    } else {
        0
    }
}

/// Data codewords of version `v` at a level.
pub open spec fn data_codewords_spec(v: int, level: EccLevel) -> int {
    entry_data(version_info_spec(v), level)
}

fn ecc_for_level(total: usize, level: EccLevel) -> (r: usize)
    requires
        total <= 100_000,
    ensures
        r == ecc_codewords_spec(total as int, level),
{
    let (p, m): (usize, usize) = match level {
        EccLevel::L => (7, 2),
        EccLevel::M => (15, 4),
        EccLevel::Q => (25, 6),
        EccLevel::H => (30, 8),
    };
    let r = (total * p + 50) / 100;
    if r >= m {
        r
    } else {
        m
    }
}

/// Every version has between 38 and 360 * 81 data bits and at most 81
/// rings.
pub proof fn lemma_total_bits_bound(v: int)
    requires
        1 <= v <= 40,
    ensures
        38 <= total_data_bits_spec(v) <= 360 * 81,
        ring_count_spec(v) <= 81,
{
    lemma_data_bits_bounds(ring_count_spec(v));
    assert(360 * ring_count_spec(v) <= 360 * 81) by (nonlinear_arith)
        requires
            ring_count_spec(v) <= 81,
    ;
}

impl VersionInfo {
    /// Return the number of ECC codewords for this version at the specified level.
    pub fn ecc_codewords(&self, level: EccLevel) -> (r: usize)
        ensures
            r == entry_ecc(*self, level),
    {
        match level {
            EccLevel::L => self.ecc_codewords_l,
            EccLevel::M => self.ecc_codewords_m,
            EccLevel::Q => self.ecc_codewords_q,
            EccLevel::H => self.ecc_codewords_h,
        }
    }

    /// Return usable data codewords (bytes) for this version at the specified level.
    pub fn data_codewords(&self, level: EccLevel) -> (r: usize)
        ensures
            r == entry_data(*self, level),
    {
        self.total_codewords.saturating_sub(self.ecc_codewords(level))
    }
}

/// Retrieve `VersionInfo` for a version number (1..=40).
pub fn version_info(version: u8) -> (r: Result<VersionInfo, RrcError>)
    ensures
        1 <= version <= 40 ==> r == Ok::<VersionInfo, RrcError>(version_info_spec(version as int)),
        !(1 <= version <= 40) ==> r == Err::<VersionInfo, RrcError>(RrcError::InvalidVersion(version)),
{
    if !(1 <= version && version <= 40) {
        return Err(RrcError::InvalidVersion(version));
    }
    proof {
        lemma_total_bits_bound(version as int);
    }
    let rings = ring_count_for_version(version);
    let bits = total_data_bits_for_version(version);
    let total = bits / 8;
    let ecc_m = ecc_for_level(total, EccLevel::M);
    let cap = total.saturating_sub(ecc_m);
    let cap_num = if cap > 3 { (cap - 3) * 24 / 10 } else { 0 };
    let cap_alpha = if cap > 3 { (cap - 3) * 145 / 100 } else { 0 };
    Ok(VersionInfo {
        version,
        ring_count: rings,
        base_sectors: BASE_SECTORS,
        total_data_bits: bits,
        total_codewords: total,
        ecc_codewords_l: ecc_for_level(total, EccLevel::L),
        ecc_codewords_m: ecc_m,
        ecc_codewords_q: ecc_for_level(total, EccLevel::Q),
        ecc_codewords_h: ecc_for_level(total, EccLevel::H),
        capacity_bytes_m: cap,
        capacity_numeric_m: cap_num,
        capacity_alpha_m: cap_alpha,
    })
}

/// Whether some version holds `n` data codewords at a level.
pub open spec fn some_version_fits(n: int, level: EccLevel) -> bool {
    exists|v: int| 1 <= v <= 40 && #[trigger] data_codewords_spec(v, level) >= n
}

/// Find the minimum version capable of storing `data_bytes` at the given ECC level.
pub fn find_fitting_version(data_bytes: usize, ecc_level: EccLevel) -> (r: Result<u8, RrcError>)
    requires
        data_bytes <= usize::MAX / 8,
    ensures
        match r {
            Ok(v) => 1 <= v <= 40 && data_codewords_spec(v as int, ecc_level) >= data_bytes
                && forall|w: int| 1 <= w < v ==> #[trigger] data_codewords_spec(w, ecc_level) < data_bytes,
            Err(e) => !some_version_fits(data_bytes as int, ecc_level) && e == RrcError::DataTooLarge {
                needed: (data_bytes * 8) as usize,
                capacity: (data_codewords_spec(40, ecc_level) * 8) as usize,
            },
        },
{
    let mut v: u8 = 1;
    while v <= 40
        invariant
            1 <= v <= 41,
            forall|w: int| 1 <= w < v ==> #[trigger] data_codewords_spec(w, ecc_level) < data_bytes,
        decreases 41 - v,
    {
        let info = match version_info(v) {
            Ok(i) => i,
            Err(_) => {
                return Err(RrcError::InvalidVersion(v));
            },
        };
        if info.data_codewords(ecc_level) >= data_bytes {
            return Ok(v);
        }
        v = v + 1;
    }
    let last = match version_info(40) {
        Ok(i) => i,
        Err(e) => {
            return Err(e);
        },
    };
    proof {
        lemma_total_bits_bound(40);
    }
    let cap = last.data_codewords(ecc_level);
    Err(RrcError::DataTooLarge { needed: data_bytes * 8, capacity: cap * 8 })
}

/// Every ring after the first has at least 71 data sectors.
proof fn lemma_outer_ring_sectors(k: int)
    requires
        k >= 1,
    ensures
        data_sectors_spec(k) >= 71,
{
    lemma_nearest_divisor(raw_sectors(k), 11);
    let idx = nearest_divisor_index(raw_sectors(k), 11);
    assert(abs_diff(divisor_at(idx), raw_sectors(k)) <= abs_diff(divisor_at(6), raw_sectors(k)));
}

/// Capacity at level M grows with the codeword count, once it grows by at least two.
proof fn lemma_capacity_m_grows(t1: int, t2: int)
    requires
        0 <= t1,
        t1 + 2 <= t2,
        8 <= t2,
    ensures
        capacity_m_spec(t1) < capacity_m_spec(t2),
{
    let e1 = ecc_codewords_spec(t1, EccLevel::M);
    let e2 = ecc_codewords_spec(t2, EccLevel::M);
    let r1 = (t1 * 15 + 50) / 100;
    let r2 = (t2 * 15 + 50) / 100;
    assert(r2 - r1 <= (t2 - t1) * 15 / 100 + 1) by (nonlinear_arith)
        requires
            r1 == (t1 * 15 + 50) / 100,
            r2 == (t2 * 15 + 50) / 100,
            t1 <= t2,
    ;
    assert((t2 - t1) * 15 / 100 + 1 < t2 - t1) by (nonlinear_arith)
        requires
            t2 - t1 >= 2,
    ;
    assert(r1 <= t1) by (nonlinear_arith)
        requires
            r1 == (t1 * 15 + 50) / 100,
            t1 >= 0,
    ;
    assert(r2 >= 0) by (nonlinear_arith)
        requires
            r2 == (t2 * 15 + 50) / 100,
            t2 >= 0,
    ;
    assert(r2 <= t2 - 4) by (nonlinear_arith)
        requires
            r2 == (t2 * 15 + 50) / 100,
            t2 >= 8,
    ;
    assert(e2 - e1 < t2 - t1);
    assert(e2 < t2);
}

/// In every version the error correction codewords of every level fit in
/// the codewords, leaving at least one data codeword.
pub proof fn lemma_ecc_fits(v: int, level: EccLevel)
    requires
        1 <= v <= 40,
    ensures
        22 <= version_info_spec(v).total_codewords <= 3645,
        entry_ecc(version_info_spec(v), level) < version_info_spec(v).total_codewords,
        entry_data(version_info_spec(v), level) == version_info_spec(v).total_codewords - entry_ecc(
            version_info_spec(v),
            level,
        ),
        version_info_spec(v).ring_count == ring_count_spec(v),
        version_info_spec(v).ring_count <= 81,
{
    lemma_total_bits_bound(v);
    lemma_rings_bits_lower(ring_count_spec(v));
    let t = total_data_bits_spec(v) / 8;
    let p = ecc_percent(level) as int;
    assert((t * p + 50) / 100 < t) by (nonlinear_arith)
        requires
            t >= 22,
            p <= 30,
    ;
}

/// Three or more rings carry at least 180 data bits.
proof fn lemma_rings_bits_lower(n: int)
    requires
        n >= 3,
    ensures
        data_bits_of_rings(n) >= 180,
    decreases n,
{
    if n > 3 {
        lemma_rings_bits_lower(n - 1);
        lemma_sectors_bounds(n - 1);
    } else {
        lemma_sectors_bounds(0);
        lemma_outer_ring_sectors(1);
        lemma_outer_ring_sectors(2);
        assert(data_bits_of_rings(0) == 0);
        assert(data_bits_of_rings(1) == data_sectors_spec(0));
        assert(data_bits_of_rings(2) == data_bits_of_rings(1) + data_sectors_spec(1));
    }
}

/// Each version holds strictly more data bits, codewords and level-M
/// payload bytes than the one before it.
pub proof fn lemma_version_table_monotonic(v: int)
    requires
        1 <= v < 40,
    ensures
        version_info_spec(v + 1).total_data_bits > version_info_spec(v).total_data_bits,
        version_info_spec(v + 1).total_codewords > version_info_spec(v).total_codewords,
        version_info_spec(v + 1).capacity_bytes_m > version_info_spec(v).capacity_bytes_m,
{
    lemma_total_bits_bound(v);
    lemma_total_bits_bound(v + 1);
    let r = ring_count_spec(v);
    assert(ring_count_spec(v + 1) == r + 2);
    lemma_outer_ring_sectors(r);
    lemma_outer_ring_sectors(r + 1);
    let b1 = total_data_bits_spec(v);
    let b2 = total_data_bits_spec(v + 1);
    assert(data_bits_of_rings(r + 1) == b1 + data_sectors_spec(r));
    assert(b2 == b1 + data_sectors_spec(r) + data_sectors_spec(r + 1));
    assert(b2 / 8 >= b1 / 8 + 17);
    lemma_capacity_m_grows(b1 / 8, b2 / 8);
    let c1 = capacity_m_spec(b1 / 8);
    let c2 = capacity_m_spec(b2 / 8);
    assert(c2 <= b2 / 8);
}

/// The first version from `v` on that holds `n` data codewords at a
/// level, or 41 when none does.
pub open spec fn first_fit_from(n: int, level: EccLevel, v: int) -> int
    decreases 41 - v,
{
    if v > 40 {
        41
    } else if data_codewords_spec(v, level) >= n {
        v
    } else {
        first_fit_from(n, level, v + 1)
    }
}

/// The result of the search for the smallest fitting version.
pub open spec fn fitting_version_spec(n: int, level: EccLevel) -> Result<u8, RrcError> {
    let v = first_fit_from(n, level, 1);
    if v <= 40 {
        Ok(v as u8)
    } else {
        Err(RrcError::DataTooLarge {
            needed: (n * 8) as usize,
            capacity: (data_codewords_spec(40, level) * 8) as usize,
        })
    }
}

pub(crate) proof fn lemma_first_fit_from(n: int, level: EccLevel, v: int)
    requires
        1 <= v <= 41,
        forall|w: int| 1 <= w < v ==> #[trigger] data_codewords_spec(w, level) < n,
    ensures
        first_fit_from(n, level, v) <= 40 ==> data_codewords_spec(first_fit_from(n, level, v), level) >= n
            && forall|w: int| 1 <= w < first_fit_from(n, level, v) ==> #[trigger] data_codewords_spec(w, level) < n,
        first_fit_from(n, level, v) == 41 ==> forall|w: int| 1 <= w <= 40 ==> #[trigger] data_codewords_spec(w, level) < n,
        v <= first_fit_from(n, level, v) <= 41,
    decreases 41 - v,
{
    if v <= 40 && data_codewords_spec(v, level) < n {
        lemma_first_fit_from(n, level, v + 1);
    }
}

/// The smallest fitting version, as a function of the size and level.
pub proof fn lemma_fitting_version(n: int, level: EccLevel, r: Result<u8, RrcError>)
    requires
        match r {
            Ok(v) => 1 <= v <= 40 && data_codewords_spec(v as int, level) >= n
                && forall|w: int| 1 <= w < v ==> #[trigger] data_codewords_spec(w, level) < n,
            Err(e) => !some_version_fits(n, level) && e == RrcError::DataTooLarge {
                needed: (n * 8) as usize,
                capacity: (data_codewords_spec(40, level) * 8) as usize,
            },
        },
    ensures
        r == fitting_version_spec(n, level),
{
    lemma_first_fit_from(n, level, 1);
    let f = first_fit_from(n, level, 1);
    match r {
        Ok(v) => {
            if f < v {
                assert(data_codewords_spec(f, level) < n);
            }
            if f > v {
                assert(data_codewords_spec(v as int, level) < n);
            }
        },
        Err(e) => {
            if f <= 40 {
                assert(some_version_fits(n, level));
            }
        },
    }
}

} // verus!
