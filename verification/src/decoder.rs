//! The decisions of the decoding pipeline once the rings of a symbol have
//! been sampled: reading the format words of Ring 0, and turning the
//! sampled sectors of a candidate version into codewords, correcting them
//! and parsing the payload.

use crate::bitstream::{
    decode_format_spec, decode_format_word, disassemble_data_codewords, disassemble_spec,
    pack_bits, Mode,
};
use crate::ecc::{bytes_result_view, rs_decode, rs_decode_erasures, rs_decode_erasures_spec};
use crate::error::RrcError;
use crate::geometry::{
    data_bits_of_rings, entry_ecc, is_data_sector, is_data_sector_spec, ring_count_for_version,
    ring_count_spec, sectors_in_ring, sectors_spec, total_data_bits_spec, version_info,
    version_info_spec, EccLevel,
};
use crate::encoder::{
    codewords_spec, data_count_below, data_index, layout_cell, layout_spec, matrix_spec,
    format_bit, lemma_data_count_below, lemma_ring_data_count,
};
use crate::mask::{mask_fn, mask_spec, mask_symbol, masked_cell};
use vstd::arithmetic::power2::pow2;
use vstd::prelude::*;
use vstd::utf8::{decode_utf8, valid_utf8};

verus! {

/// Options configuring the RRC decoding process.
#[derive(Debug, Clone, Copy)]
pub struct DecodeOptions {
    /// Provide verbose diagnostic logging.
    pub verbose: bool,
    /// Hint/constrain expected RRC version.
    pub expected_version: Option<u8>,
}

impl Default for DecodeOptions {
    fn default() -> (r: Self)
        ensures
            !r.verbose,
            r.expected_version is None,
    {
        DecodeOptions { verbose: false, expected_version: None }
    }
}

/// The result of successfully decoding an RRC symbol.
#[derive(Debug, Clone, PartialEq, Eq)]
pub struct DecodeResult {
    /// Raw payload bytes.
    pub payload: Vec<u8>,
    /// UTF-8 decoded string, if valid UTF-8.
    pub text: Option<String>,
    /// Detected RRC version (1–40).
    pub version: u8,
    /// Detected Error Correction Level.
    pub ecc_level: EccLevel,
    /// Detected Encoding Mode.
    pub mode: Mode,
}

/// `String::from_utf8`: the text of `bytes` when they are valid UTF-8.
#[verifier::external_body]
fn utf8_text(bytes: &Vec<u8>) -> (r: Option<String>)
    ensures
        r is Some <==> valid_utf8(bytes@),
        r matches Some(s) ==> s@ == decode_utf8(bytes@),
{
    String::from_utf8(bytes.clone()).ok()
}

// ---------------------------------------------------------------------------
// Format words of Ring 0
// ---------------------------------------------------------------------------

/// The 16-bit word read, most significant bit first, from the sectors
/// `start .. start + 16` of a ring; dark sectors are one bits.
pub open spec fn ring_word(ring: Seq<bool>, start: int) -> u16
    decreases 16int,
{
    ring_word_prefix(ring, start, 16) as u16
}

/// The value of the first `n` bits of a ring's word.
pub open spec fn ring_word_prefix(ring: Seq<bool>, start: int, n: int) -> nat
    decreases n,
{
    if n <= 0 {
        0
    } else {
        2 * ring_word_prefix(ring, start, n - 1) + (if ring[start + n - 1] {
            1nat
        } else {
            0nat
        })
    }
}

/// The format information carried by a sampled Ring 0: the primary word
/// when the gap at sector 0 reads dark, and the mirrored word when the gap
/// at sector 36 reads dark, each only when it decodes.
pub open spec fn ring_format_spec(ring0: Seq<bool>) -> (Option<(EccLevel, u8)>, Option<(EccLevel, u8)>) {
    let primary = if ring0[0] {
        match decode_format_spec(ring_word(ring0, 1)) {
            Ok(f) => Some(f),
            Err(_) => None,
        }
    } else {
        None
    };
    let mirrored = if ring0[36] {
        match decode_format_spec(ring_word(ring0, 37)) {
            Ok(f) => Some(f),
            Err(_) => None,
        }
    } else {
        None
    };
    (primary, mirrored)
}

proof fn lemma_ring_word_prefix_bound(ring: Seq<bool>, start: int, n: int)
    requires
        0 <= n <= 16,
    ensures
        ring_word_prefix(ring, start, n) < pow2(n as nat),
    decreases n,
{
    vstd::arithmetic::power2::lemma2_to64();
    if n > 0 {
        lemma_ring_word_prefix_bound(ring, start, n - 1);
        vstd::arithmetic::power2::lemma_pow2_unfold(n as nat);
    }
}

/// The 16-bit word of the sectors `start .. start + 16` of a ring.
pub fn read_ring_word(ring: &[bool], start: usize) -> (w: u16)
    requires
        start + 16 <= ring@.len(),
    ensures
        w == ring_word(ring@, start as int),
{
    let mut w: u16 = 0;
    let mut i: usize = 0;
    let len = ring.len();
    while i < 16
        invariant
            0 <= i <= 16,
            len == ring@.len(),
            start + 16 <= ring@.len(),
            w as nat == ring_word_prefix(ring@, start as int, i as int),
        decreases 16 - i,
    {
        proof {
            lemma_ring_word_prefix_bound(ring@, start as int, i as int + 1);
            lemma_ring_word_prefix_bound(ring@, start as int, i as int);
            vstd::arithmetic::power2::lemma2_to64();
        }
        w = w * 2 + if ring[start + i] { 1 } else { 0 };
        i = i + 1;
    }
    w
}

/// The format information of a sampled Ring 0 (see `ring_format_spec`).
pub fn ring_format_words(ring0: &[bool]) -> (r: (Option<(EccLevel, u8)>, Option<(EccLevel, u8)>))
    requires
        ring0@.len() >= 53,
    ensures
        r == ring_format_spec(ring0@),
{
    let primary = if ring0[0] {
        match decode_format_word(read_ring_word(ring0, 1)) {
            Ok(f) => Some(f),
            Err(_) => None,
        }
    } else {
        None
    };
    let mirrored = if ring0[36] {
        match decode_format_word(read_ring_word(ring0, 37)) {
            Ok(f) => Some(f),
            Err(_) => None,
        }
    } else {
        None
    };
    (primary, mirrored)
}

// ---------------------------------------------------------------------------
// Data of a candidate version
// ---------------------------------------------------------------------------

/// The unmasked data bits of the first `n` sectors of ring `k`.
pub open spec fn ring_bits(row: Seq<bool>, k: int, m: u8, n: int) -> Seq<bool>
    decreases n,
{
    if n <= 0 {
        Seq::empty()
    } else if is_data_sector_spec(k, n - 1) {
        ring_bits(row, k, m, n - 1).push(row[n - 1] != mask_spec(m, k, n - 1))
    } else {
        ring_bits(row, k, m, n - 1)
    }
}

/// The erasure flags of the data sectors among the first `n` sectors of ring `k`.
pub open spec fn ring_flags(row: Seq<bool>, k: int, n: int) -> Seq<bool>
    decreases n,
{
    if n <= 0 {
        Seq::empty()
    } else if is_data_sector_spec(k, n - 1) {
        ring_flags(row, k, n - 1).push(row[n - 1])
    } else {
        ring_flags(row, k, n - 1)
    }
}

/// The unmasked data bits of the first `rings` rings, ring by ring.
pub open spec fn symbol_bits(cells: Seq<Seq<bool>>, m: u8, rings: int) -> Seq<bool>
    decreases rings,
{
    if rings <= 0 {
        Seq::empty()
    } else {
        symbol_bits(cells, m, rings - 1) + ring_bits(
            cells[rings - 1],
            rings - 1,
            m,
            sectors_spec(rings - 1),
        )
    }
}

/// The erasure flags of the data sectors of the first `rings` rings.
pub open spec fn symbol_flags(erased: Seq<Seq<bool>>, rings: int) -> Seq<bool>
    decreases rings,
{
    if rings <= 0 {
        Seq::empty()
    } else {
        symbol_flags(erased, rings - 1) + ring_flags(
            erased[rings - 1],
            rings - 1,
            sectors_spec(rings - 1),
        )
    }
}

/// Indices, among the first `n` codewords, of those with an erased bit.
pub open spec fn erasure_list(flags: Seq<bool>, n: int) -> Seq<usize>
    decreases n,
{
    if n <= 0 {
        Seq::empty()
    } else if exists|i: int| 8 * (n - 1) <= i < 8 * n && #[trigger] flags[i] {
        erasure_list(flags, n - 1).push((n - 1) as usize)
    } else {
        erasure_list(flags, n - 1)
    }
}

/// Reed-Solomon correction of the codewords of a candidate: with erasure
/// hints when there are some and not more than the parity, falling back to
/// correction without hints when that fails.
pub open spec fn correct_spec(cw: Seq<u8>, total: int, ecc: int, erasures: Seq<usize>) -> Result<
    Seq<u8>,
    RrcError,
> {
    if erasures.len() > 0 && erasures.len() <= ecc {
        match rs_decode_erasures_spec(cw, total, ecc, erasures) {
            Ok(d) => Ok(d),
            Err(_) => rs_decode_erasures_spec(cw, total, ecc, Seq::empty()),
        }
    } else {
        rs_decode_erasures_spec(cw, total, ecc, Seq::empty())
    }
}

/// The sampled rows cover every sector of the rings of a version.
pub open spec fn rows_cover(rows: Seq<Seq<bool>>, rings: int) -> bool {
    &&& rows.len() >= rings
    &&& forall|k: int| 0 <= k < rings ==> (#[trigger] rows[k]).len() >= sectors_spec(k)
}

/// The payload decoded from sampled cells of a candidate version at a
/// level and mask: `None` when the codewords cannot be corrected, the data
/// cannot be parsed, or the parsed version differs.
pub open spec fn decode_candidate_spec(
    version: u8,
    level: EccLevel,
    m: u8,
    cells: Seq<Seq<bool>>,
    erased: Seq<Seq<bool>>,
) -> Option<(u8, Mode, Seq<u8>)> {
    if !(1 <= version <= 40) {
        None
    } else {
        decode_version_spec(version, level, m, cells, erased)
    }
}

/// `decode_candidate_spec` for a valid version.
pub open spec fn decode_version_spec(
    version: u8,
    level: EccLevel,
    m: u8,
    cells: Seq<Seq<bool>>,
    erased: Seq<Seq<bool>>,
) -> Option<(u8, Mode, Seq<u8>)> {
    let info = version_info_spec(version as int);
    let rings = ring_count_spec(version as int);
    let bits = symbol_bits(cells, m, rings);
    let total = info.total_codewords as int;
    let ecc = entry_ecc(info, level);
    if bits.len() < 8 * total {
        None
    } else {
        let cw = pack_bits(bits.take(8 * total));
        let erasures = erasure_list(symbol_flags(erased, rings), total);
        match correct_spec(cw, total, ecc, erasures) {
            Err(_) => None,
            Ok(d) => match disassemble_spec(d) {
                Ok((pv, mode, payload)) => if pv == version {
                    Some((pv, mode, payload))
                } else {
                    None
                },
                Err(_) => None,
            },
        }
    }
}

proof fn lemma_ring_bits_len(row: Seq<bool>, k: int, m: u8, n: int)
    requires
        n >= 0,
    ensures
        ring_bits(row, k, m, n).len() == crate::encoder::data_count_below(k, n),
        ring_flags(row, k, n).len() == crate::encoder::data_count_below(k, n),
    decreases n,
{
    if n > 0 {
        lemma_ring_bits_len(row, k, m, n - 1);
    }
}

proof fn lemma_symbol_bits_len(cells: Seq<Seq<bool>>, erased: Seq<Seq<bool>>, m: u8, rings: int)
    requires
        rings >= 0,
    ensures
        symbol_bits(cells, m, rings).len() == data_bits_of_rings(rings),
        symbol_flags(erased, rings).len() == data_bits_of_rings(rings),
    decreases rings,
{
    if rings > 0 {
        lemma_symbol_bits_len(cells, erased, m, rings - 1);
        lemma_ring_bits_len(cells[rings - 1], rings - 1, m, sectors_spec(rings - 1));
        lemma_ring_bits_len(erased[rings - 1], rings - 1, m, sectors_spec(rings - 1));
        crate::encoder::lemma_ring_data_count(rings - 1);
    }
}

/// Reads the unmasked data bits and erasure flags of a candidate version.
fn read_symbol_bits(version: u8, m: u8, cells: &[Vec<bool>], erased: &[Vec<bool>]) -> (r: (
    Vec<bool>,
    Vec<bool>,
))
    requires
        1 <= version <= 40,
        rows_cover(crate::mask::rows_view(cells@), ring_count_spec(version as int)),
        rows_cover(crate::mask::rows_view(erased@), ring_count_spec(version as int)),
    ensures
        r.0@ == symbol_bits(crate::mask::rows_view(cells@), m, ring_count_spec(version as int)),
        r.1@ == symbol_flags(crate::mask::rows_view(erased@), ring_count_spec(version as int)),
{
    let ghost cv = crate::mask::rows_view(cells@);
    let ghost ev = crate::mask::rows_view(erased@);
    let rings = ring_count_for_version(version);
    let mut bits: Vec<bool> = Vec::new();
    let mut flags: Vec<bool> = Vec::new();
    let mut k: usize = 0;
    while k < rings
        invariant
            0 <= k <= rings,
            rings == ring_count_spec(version as int),
            rings <= 81,
            cv == crate::mask::rows_view(cells@),
            ev == crate::mask::rows_view(erased@),
            rows_cover(cv, rings as int),
            rows_cover(ev, rings as int),
            bits@ == symbol_bits(cv, m, k as int),
            flags@ == symbol_flags(ev, k as int),
        decreases rings - k,
    {
        proof {
            crate::geometry::lemma_sectors_facts(k as int);
        }
        let n_sec = sectors_in_ring(k);
        let row = &cells[k];
        let erow = &erased[k];
        assert(row@ == cv[k as int]);
        assert(erow@ == ev[k as int]);
        let ghost b0 = bits@;
        let ghost f0 = flags@;
        let mut s: usize = 0;
        while s < n_sec
            invariant
                0 <= s <= n_sec,
                n_sec == sectors_spec(k as int),
                n_sec <= 360,
                k < rings <= 81,
                row@.len() >= n_sec,
                erow@.len() >= n_sec,
                bits@ == b0 + ring_bits(row@, k as int, m, s as int),
                flags@ == f0 + ring_flags(erow@, k as int, s as int),
            decreases n_sec - s,
        {
            if is_data_sector(k, s) {
                assert(k * s <= 81 * 360) by (nonlinear_arith)
                    requires
                        k <= 81,
                        s <= 360,
                ;
                let raw = row[s];
                let bit = if mask_fn(m, k, s) {
                    !raw
                } else {
                    raw
                };
                bits.push(bit);
                flags.push(erow[s]);
                proof {
                    assert(bits@ =~= b0 + ring_bits(row@, k as int, m, s as int + 1));
                    assert(flags@ =~= f0 + ring_flags(erow@, k as int, s as int + 1));
                }
            }
            s = s + 1;
        }
        k = k + 1;
    }
    (bits, flags)
}

/// The indices of the first `n` codewords with an erased bit.
fn erasure_indices(flags: &Vec<bool>, n: usize) -> (r: Vec<usize>)
    requires
        8 * n <= flags@.len(),
    ensures
        r@ == erasure_list(flags@, n as int),
        forall|j: int| 0 <= j < r@.len() ==> #[trigger] r@[j] < n,
        r@.len() <= n,
{
    let mut out: Vec<usize> = Vec::new();
    let mut c: usize = 0;
    let fl = flags.len();
    while c < n
        invariant
            0 <= c <= n,
            fl == flags@.len(),
            8 * n <= flags@.len(),
            out@ == erasure_list(flags@, c as int),
            forall|j: int| 0 <= j < out@.len() ==> #[trigger] out@[j] < c,
            out@.len() <= c,
        decreases n - c,
    {
        let mut any = false;
        let mut i: usize = 0;
        while i < 8
            invariant
                0 <= i <= 8,
                c < n,
                fl == flags@.len(),
                8 * n <= flags@.len(),
                any == exists|t: int| 8 * c <= t < 8 * c + i && #[trigger] flags@[t],
            decreases 8 - i,
        {
            any = any || flags[8 * c + i];
            i = i + 1;
        }
        if any {
            out.push(c);
        }
        c = c + 1;
    }
    out
}

/// The first `n` bytes packed from `bits`.
fn pack_prefix(bits: &Vec<bool>, n: usize) -> (r: Vec<u8>)
    requires
        8 * n <= bits@.len(),
    ensures
        r@ == pack_bits(bits@.take(8 * n)),
{
    let ghost t = bits@.take(8 * n);
    let mut out: Vec<u8> = Vec::new();
    let mut c: usize = 0;
    let bl = bits.len();
    while c < n
        invariant
            0 <= c <= n,
            bl == bits@.len(),
            8 * n <= bits@.len(),
            t == bits@.take(8 * n),
            out@.len() == c,
            forall|j: int| 0 <= j < c ==> out@[j] == crate::bitstream::chunk_byte(t, j),
        decreases n - c,
    {
        let ghost chunk = Seq::new(8, |q: int| 8 * c + q < t.len() && t[8 * c + q]);
        let mut b: u8 = 0;
        let mut i: usize = 0;
        proof {
            vstd::arithmetic::power2::lemma2_to64();
            assert(chunk.take(0) =~= Seq::<bool>::empty());
        }
        while i < 8
            invariant
                0 <= i <= 8,
                c < n,
                bl == bits@.len(),
                8 * n <= bits@.len(),
                t == bits@.take(8 * n),
                chunk == Seq::new(8, |q: int| 8 * c + q < t.len() && t[8 * c + q]),
                b as nat == crate::bitstream::bits_value(chunk.take(i as int)),
                (b as nat) < pow2(i as nat),
            decreases 8 - i,
        {
            let on = bits[8 * c + i];
            assert(on == chunk[i as int]);
            proof {
                assert(chunk.take(i as int + 1).drop_last() =~= chunk.take(i as int));
                vstd::arithmetic::power2::lemma_pow2_unfold((i + 1) as nat);
                vstd::arithmetic::power2::lemma2_to64();
            }
            b = b * 2 + if on { 1 } else { 0 };
            i = i + 1;
        }
        assert(chunk.take(8) =~= chunk);
        out.push(b);
        c = c + 1;
    }
    assert(out@ =~= pack_bits(t));
    out
}

/// Decode the sampled sectors of a candidate version, read at a level and
/// mask; `None` when the version is not one of 1..=40 or the candidate
/// does not decode (see `decode_candidate_spec`).
#[verifier::rlimit(50)]
pub fn decode_candidate(
    version: u8,
    ecc_level: EccLevel,
    mask_index: u8,
    cells: &[Vec<bool>],
    erased: &[Vec<bool>],
) -> (r: Option<DecodeResult>)
    requires
        1 <= version <= 40 ==> rows_cover(
            crate::mask::rows_view(cells@),
            ring_count_spec(version as int),
        ) && rows_cover(crate::mask::rows_view(erased@), ring_count_spec(version as int)),
    ensures
        match decode_candidate_spec(
            version,
            ecc_level,
            mask_index,
            crate::mask::rows_view(cells@),
            crate::mask::rows_view(erased@),
        ) {
            None => r is None,
            Some((v, mode, payload)) => r matches Some(d) && d.version == v && d.ecc_level
                == ecc_level && d.mode == mode && d.payload@ == payload && (d.text is Some
                <==> valid_utf8(payload)) && (d.text matches Some(t) ==> t@ == decode_utf8(payload)),
        },
{
    let info = match version_info(version) {
        Ok(i) => i,
        Err(_) => {
            return None;
        },
    };
    proof {
        crate::geometry::lemma_ecc_fits(version as int, ecc_level);
    }
    let (bits, flags) = read_symbol_bits(version, mask_index, cells, erased);
    proof {
        lemma_symbol_bits_len(
            crate::mask::rows_view(cells@),
            crate::mask::rows_view(erased@),
            mask_index,
            ring_count_spec(version as int),
        );
    }
    let target = info.total_codewords;
    let ecc = info.ecc_codewords(ecc_level);
    if bits.len() < target * 8 {
        return None;
    }
    let codewords = pack_prefix(&bits, target);
    let erasures = erasure_indices(&flags, target);
    proof {
        let cw = codewords@;
        crate::ecc::lemma_decode_len(cw, target as int, ecc as int, erasures@);
        crate::ecc::lemma_decode_len(cw, target as int, ecc as int, Seq::empty());
    }
    let decoded = if erasures.len() > 0 && erasures.len() <= ecc {
        match rs_decode_erasures(codewords.as_slice(), target, ecc, erasures.as_slice()) {
            Ok(d) => Ok(d),
            Err(_) => rs_decode(codewords.as_slice(), target, ecc),
        }
    } else {
        rs_decode(codewords.as_slice(), target, ecc)
    };
    assert(bytes_result_view(decoded) == correct_spec(codewords@, target as int, ecc as int, erasures@));
    match decoded {
        Ok(data_bytes) => {
            match disassemble_data_codewords(data_bytes.as_slice()) {
                Ok((parsed_version, mode, payload)) => {
                    if parsed_version == version {
                        let text = utf8_text(&payload);
                        Some(DecodeResult { payload, text, version, ecc_level, mode })
                    } else {
                        None
                    }
                },
                Err(_) => None,
            }
        },
        Err(_) => None,
    }
}

// ---------------------------------------------------------------------------
// Reading back an encoded symbol
// ---------------------------------------------------------------------------

/// The data bits `base ..` of `b`, light past its end.
pub open spec fn bits_from(b: Seq<bool>, base: int, n: int) -> Seq<bool> {
    Seq::new(n as nat, |i: int| base + i < b.len() && b[base + i])
}

proof fn lemma_ring_bits_of_cells(row: Seq<bool>, k: int, m: u8, n: int, b: Seq<bool>, base: int)
    requires
        0 <= n <= row.len(),
        forall|s: int|
            0 <= s < n && is_data_sector_spec(k, s) ==> (#[trigger] row[s] != mask_spec(m, k, s)) == (
            base + data_count_below(k, s) < b.len() && b[base + data_count_below(k, s)]),
    ensures
        ring_bits(row, k, m, n) == bits_from(b, base, data_count_below(k, n)),
    decreases n,
{
    lemma_data_count_below(k, n);
    if n > 0 {
        lemma_ring_bits_of_cells(row, k, m, n - 1, b, base);
        lemma_data_count_below(k, n - 1);
        if is_data_sector_spec(k, n - 1) {
            assert(row[n - 1] == row[n - 1]);
        }
        assert(ring_bits(row, k, m, n) =~= bits_from(b, base, data_count_below(k, n)));
    } else {
        assert(ring_bits(row, k, m, n) =~= bits_from(b, base, data_count_below(k, n)));
    }
}

proof fn lemma_symbol_bits_of_cells(cells: Seq<Seq<bool>>, m: u8, rings: int, b: Seq<bool>)
    requires
        0 <= rings <= cells.len(),
        forall|k: int| 0 <= k < rings ==> (#[trigger] cells[k]).len() >= sectors_spec(k),
        forall|k: int, s: int|
            0 <= k < rings && 0 <= s < sectors_spec(k) && is_data_sector_spec(k, s) ==> (
            #[trigger] cells[k][s] != mask_spec(m, k, s)) == (data_index(k, s) < b.len()
                && b[data_index(k, s)]),
    ensures
        symbol_bits(cells, m, rings) == bits_from(b, 0, data_bits_of_rings(rings)),
    decreases rings,
{
    if rings > 0 {
        let k = rings - 1;
        lemma_symbol_bits_of_cells(cells, m, k, b);
        lemma_ring_data_count(k);
        crate::geometry::lemma_data_bits_bounds(k);
        assert forall|s: int|
            0 <= s < sectors_spec(k) && is_data_sector_spec(k, s) implies (#[trigger] cells[k][s]
            != mask_spec(m, k, s)) == (data_bits_of_rings(k) + data_count_below(k, s) < b.len()
            && b[data_bits_of_rings(k) + data_count_below(k, s)]) by {
            assert(data_index(k, s) == data_bits_of_rings(k) + data_count_below(k, s));
        }
        lemma_ring_bits_of_cells(cells[k], k, m, sectors_spec(k), b, data_bits_of_rings(k));
        assert(symbol_bits(cells, m, rings) =~= bits_from(b, 0, data_bits_of_rings(rings)));
    } else {
        assert(symbol_bits(cells, m, rings) =~= bits_from(b, 0, data_bits_of_rings(rings)));
    }
}

proof fn lemma_no_erasures(erased: Seq<Seq<bool>>, rings: int, flags: Seq<bool>, n: int)
    requires
        0 <= n,
        8 * n <= flags.len(),
        forall|i: int| 0 <= i < flags.len() ==> !(#[trigger] flags[i]),
    ensures
        erasure_list(flags, n) == Seq::<usize>::empty(),
    decreases n,
{
    if n > 0 {
        lemma_no_erasures(erased, rings, flags, n - 1);
    }
}

proof fn lemma_flags_clear(erased: Seq<Seq<bool>>, rings: int)
    requires
        0 <= rings <= erased.len(),
        forall|k: int| 0 <= k < rings ==> (#[trigger] erased[k]).len() >= sectors_spec(k),
        forall|k: int, s: int|
            0 <= k < rings && 0 <= s < erased[k].len() ==> !(#[trigger] erased[k][s]),
    ensures
        forall|i: int|
            0 <= i < symbol_flags(erased, rings).len() ==> !(#[trigger] symbol_flags(erased, rings)[i]),
    decreases rings,
{
    if rings > 0 {
        lemma_flags_clear(erased, rings - 1);
        lemma_ring_data_count(rings - 1);
        lemma_ring_flags_clear(erased[rings - 1], rings - 1, sectors_spec(rings - 1));
        let pre = symbol_flags(erased, rings - 1);
        let tail = ring_flags(erased[rings - 1], rings - 1, sectors_spec(rings - 1));
        let cur = symbol_flags(erased, rings);
        assert(cur == pre + tail);
        assert forall|i: int| 0 <= i < cur.len() implies !(#[trigger] cur[i]) by {
            if i < pre.len() {
                assert(cur[i] == pre[i]);
            } else {
                assert(cur[i] == tail[i - pre.len()]);
            }
        }
    }
}

proof fn lemma_ring_flags_clear(row: Seq<bool>, k: int, n: int)
    requires
        0 <= n <= row.len(),
        forall|s: int| 0 <= s < row.len() ==> !(#[trigger] row[s]),
    ensures
        forall|i: int| 0 <= i < ring_flags(row, k, n).len() ==> !(#[trigger] ring_flags(row, k, n)[i]),
    decreases n,
{
    if n > 0 {
        lemma_ring_flags_clear(row, k, n - 1);
        let pre = ring_flags(row, k, n - 1);
        let cur = ring_flags(row, k, n);
        assert forall|i: int| 0 <= i < cur.len() implies !(#[trigger] cur[i]) by {
            if i < pre.len() {
                assert(cur[i] == pre[i]);
            }
        }
    }
}

/// The cells of an encoded matrix give back, after unmasking, the layout's data bits.
proof fn lemma_matrix_cells(version: u8, cw: Seq<u8>, m: u8, level: EccLevel, k: int, s: int)
    requires
        1 <= version <= 40,
        0 <= k < ring_count_spec(version as int),
        0 <= s < sectors_spec(k),
        is_data_sector_spec(k, s),
    ensures
        matrix_spec(version, cw, m, level)[k].len() == sectors_spec(k),
        (matrix_spec(version, cw, m, level)[k][s] != mask_spec(m, k, s)) == (data_index(k, s)
            < crate::bitstream::bytes_to_bits(cw).len() && crate::bitstream::bytes_to_bits(
            cw,
        )[data_index(k, s)]),
{
    let b = crate::bitstream::bytes_to_bits(cw);
    let l = layout_spec(ring_count_spec(version as int), b);
    let ms = mask_symbol(m, l);
    assert(ms[k][s] == masked_cell(m, k, s, l[k][s]));
    assert(l[k][s] == layout_cell(b, k, s));
}

/// The data bits read from an encoded matrix begin with its codewords.
proof fn lemma_matrix_codewords(version: u8, cw: Seq<u8>, m: u8, level: EccLevel)
    requires
        1 <= version <= 40,
        cw.len() == version_info_spec(version as int).total_codewords,
    ensures
        ({
            let total = version_info_spec(version as int).total_codewords as int;
            let bits = symbol_bits(
                matrix_spec(version, cw, m, level),
                m,
                ring_count_spec(version as int),
            );
            &&& bits.len() >= 8 * total
            &&& pack_bits(bits.take(8 * total)) == cw
        }),
{
    let info = version_info_spec(version as int);
    let total = info.total_codewords as int;
    crate::geometry::lemma_ecc_fits(version as int, level);
    let rings = ring_count_spec(version as int);
    let cells = matrix_spec(version, cw, m, level);
    let b = crate::bitstream::bytes_to_bits(cw);
    assert forall|k: int| 0 <= k < rings implies (#[trigger] cells[k]).len() >= sectors_spec(k) by {
        lemma_ring_data_count(k);
    }
    assert forall|k: int, s: int|
        0 <= k < rings && 0 <= s < sectors_spec(k) && is_data_sector_spec(k, s) implies (
        #[trigger] cells[k][s] != mask_spec(m, k, s)) == (data_index(k, s) < b.len()
            && b[data_index(k, s)]) by {
        lemma_matrix_cells(version, cw, m, level, k, s);
    }
    lemma_symbol_bits_of_cells(cells, m, rings, b);
    let bits = symbol_bits(cells, m, rings);
    let tb = total_data_bits_spec(version as int);
    crate::geometry::lemma_total_bits_bound(version as int);
    assert(data_bits_of_rings(rings) == tb);
    assert(total == tb / 8);
    assert((tb / 8) * 8 <= tb) by (nonlinear_arith)
        requires
            tb >= 0,
    ;
    assert(bits.take(8 * total) =~= b);
    crate::bitstream::lemma_pack_unpack(cw);
}

/// Reading the rings of a freshly encoded symbol, for its own version,
/// level and mask and with no sector erased, gives back its version, mode
/// and payload (numeric payloads being decimal digits).
pub proof fn lemma_symbol_roundtrip(
    version: u8,
    level: EccLevel,
    m: u8,
    mode: Mode,
    data: Seq<u8>,
    erased: Seq<Seq<bool>>,
)
    requires
        1 <= version <= 40,
        codewords_spec(version, mode, data, level) is Ok,
        mode == Mode::Numeric ==> forall|i: int|
            0 <= i < data.len() ==> crate::bitstream::is_digit(#[trigger] data[i]),
        rows_cover(erased, ring_count_spec(version as int)),
        forall|k: int, s: int|
            0 <= k < ring_count_spec(version as int) && 0 <= s < erased[k].len() ==> !(
            #[trigger] erased[k][s]),
    ensures
        decode_candidate_spec(
            version,
            level,
            m,
            matrix_spec(version, codewords_spec(version, mode, data, level)->Ok_0, m, level),
            erased,
        ) == Some((version, mode, data)),
{
    let cw = codewords_spec(version, mode, data, level)->Ok_0;
    let info = version_info_spec(version as int);
    let total = info.total_codewords as int;
    let ecc = entry_ecc(info, level);
    crate::geometry::lemma_ecc_fits(version as int, level);
    let target = crate::geometry::entry_data(info, level) as nat;
    let d = crate::bitstream::assemble_spec(version, mode, data, target)->Ok_0;
    crate::bitstream::lemma_assemble_len(version, mode, data, target);
    crate::ecc::lemma_rs_roundtrip(d, total, ecc);
    let rings = ring_count_spec(version as int);
    let cells = matrix_spec(version, cw, m, level);
    lemma_matrix_codewords(version, cw, m, level);
    lemma_symbol_bits_len(cells, erased, m, rings);
    lemma_flags_clear(erased, rings);
    lemma_no_erasures(erased, rings, symbol_flags(erased, rings), total);
    crate::bitstream::lemma_data_codewords_roundtrip(version, mode, data, target);
}

/// The codewords read, for a version and mask, from the sectors of a
/// candidate's rings.
pub open spec fn read_codewords(version: u8, m: u8, cells: Seq<Seq<bool>>) -> Seq<u8> {
    pack_bits(
        symbol_bits(cells, m, ring_count_spec(version as int)).take(
            8 * version_info_spec(version as int).total_codewords as int,
        ),
    )
}

/// Damage correction: when no sector is flagged erased and the codewords
/// read from a candidate lie, block by block, within half the parity of the
/// codewords that encode a payload at the candidate's version and level,
/// the candidate decodes to that payload (numeric payloads being decimal
/// digits).
pub proof fn lemma_symbol_corrects_damage(
    version: u8,
    level: EccLevel,
    m: u8,
    mode: Mode,
    data: Seq<u8>,
    cells: Seq<Seq<bool>>,
    erased: Seq<Seq<bool>>,
)
    requires
        1 <= version <= 40,
        codewords_spec(version, mode, data, level) is Ok,
        mode == Mode::Numeric ==> forall|i: int|
            0 <= i < data.len() ==> crate::bitstream::is_digit(#[trigger] data[i]),
        rows_cover(erased, ring_count_spec(version as int)),
        forall|k: int, s: int|
            0 <= k < ring_count_spec(version as int) && 0 <= s < erased[k].len() ==> !(
            #[trigger] erased[k][s]),
        crate::ecc::within_half_parity(
            read_codewords(version, m, cells),
            crate::bitstream::assemble_spec(
                version,
                mode,
                data,
                crate::geometry::entry_data(version_info_spec(version as int), level) as nat,
            )->Ok_0,
            version_info_spec(version as int).total_codewords as int,
            entry_ecc(version_info_spec(version as int), level),
        ),
    ensures
        decode_candidate_spec(version, level, m, cells, erased) == Some((version, mode, data)),
{
    let info = version_info_spec(version as int);
    let total = info.total_codewords as int;
    let ecc = entry_ecc(info, level);
    crate::geometry::lemma_ecc_fits(version as int, level);
    let target = crate::geometry::entry_data(info, level) as nat;
    let d = crate::bitstream::assemble_spec(version, mode, data, target)->Ok_0;
    crate::bitstream::lemma_assemble_len(version, mode, data, target);
    let rings = ring_count_spec(version as int);
    lemma_symbol_bits_len(cells, erased, m, rings);
    let tb = total_data_bits_spec(version as int);
    crate::geometry::lemma_total_bits_bound(version as int);
    assert(data_bits_of_rings(rings) == tb);
    assert(total == tb / 8);
    assert((tb / 8) * 8 <= tb) by (nonlinear_arith)
        requires
            tb >= 0,
    ;
    let bits = symbol_bits(cells, m, rings);
    let cw = read_codewords(version, m, cells);
    assert(bits.take(8 * total).len() == 8 * total);
    assert(cw.len() == total);
    crate::ecc::lemma_rs_decode_within_half_parity(cw, d, total, ecc);
    lemma_flags_clear(erased, rings);
    lemma_no_erasures(erased, rings, symbol_flags(erased, rings), total);
    crate::bitstream::lemma_data_codewords_roundtrip(version, mode, data, target);
}

/// The 16 sectors from `start` hold the bits of `w`, most significant first.
proof fn lemma_ring_word_of_bits(ring: Seq<bool>, start: int, w: u16, n: int)
    requires
        0 <= n <= 16,
        forall|i: int| 0 <= i < n ==> #[trigger] ring[start + i] == format_bit(w, i),
    ensures
        ring_word_prefix(ring, start, n) == w as nat / pow2((16 - n) as nat),
    decreases n,
{
    vstd::arithmetic::power2::lemma2_to64();
    if n == 0 {
        assert(w as nat / pow2(16) == 0);
    }
    if n > 0 {
        lemma_ring_word_of_bits(ring, start, w, n - 1);
        let a = (16 - n) as nat;
        vstd::arithmetic::power2::lemma_pow2_unfold(a + 1);
        vstd::arithmetic::power2::lemma_pow2_pos(a);
        vstd::arithmetic::div_mod::lemma_div_denominator(w as int, pow2(a) as int, 2);
        let x = w as nat / pow2(a);
        vstd::arithmetic::div_mod::lemma_fundamental_div_mod(x as int, 2);
        assert(x == 2 * (x / 2) + x % 2);
        assert(ring[start + n - 1] == format_bit(w, n - 1));
        assert((16 - (n - 1)) as nat == a + 1);
        assert(pow2(a + 1) == pow2(a) * 2);
        assert(w as nat / pow2(a + 1) == x / 2);
        assert((15 - (n - 1)) as nat == a);
        assert(format_bit(w, n - 1) == (x % 2 == 1));
        assert(ring_word_prefix(ring, start, n) == 2 * (x / 2) + x % 2);
    }
}

/// Ring 0 of an encoded symbol carries the level and mask in both its
/// primary and its mirrored format word, each after a dark reference gap.
#[verifier::spinoff_prover]
pub proof fn lemma_symbol_format_words(version: u8, cw: Seq<u8>, m: u8, level: EccLevel)
    requires
        1 <= version <= 40,
        m < 8,
    ensures
        ring_format_spec(matrix_spec(version, cw, m, level)[0]) == (
            Some((level, m)),
            Some((level, m)),
        ),
{
    let cells = matrix_spec(version, cw, m, level);
    let row = cells[0];
    let w = crate::bitstream::format_word_spec(crate::bitstream::format_data_spec(level, m));
    lemma_ring_data_count(0);
    assert(cells.len() >= 1);
    assert(row.len() == 72);
    assert(row[0]);
    assert(row[36]);
    assert forall|i: int| 0 <= i < 16 implies #[trigger] row[1 + i] == format_bit(w, i) by {}
    assert forall|i: int| 0 <= i < 16 implies #[trigger] row[37 + i] == format_bit(w, i) by {}
    lemma_ring_word_of_bits(row, 1, w, 16);
    lemma_ring_word_of_bits(row, 37, w, 16);
    vstd::arithmetic::power2::lemma2_to64();
    assert(w ^ 0u16 == w) by (bit_vector);
    assert(crate::bitstream::popcount16(0u16) == 0) by (bit_vector);
    crate::bitstream::lemma_format_word_corrects(level, m, 0);
    assert(pow2(0) == 1) by {
        vstd::arithmetic::power2::lemma2_to64();
    }
    assert(w as nat / pow2(0) == w as nat);
    assert(ring_word_prefix(row, 1, 16) == w as nat / pow2(0));
    assert(ring_word_prefix(row, 1, 16) == w as nat);
    assert(ring_word_prefix(row, 37, 16) == w as nat);
    assert(ring_word(row, 1) == w);
    assert(ring_word(row, 37) == w);
    assert(decode_format_spec(w) == Ok::<(EccLevel, u8), RrcError>((level, m)));
}

/// Reading a ring's word depends only on its sixteen sectors.
proof fn lemma_ring_word_local(a: Seq<bool>, b: Seq<bool>, start: int, n: int)
    requires
        0 <= n <= 16,
        forall|i: int| 0 <= i < n ==> a[start + i] == #[trigger] b[start + i],
    ensures
        ring_word_prefix(a, start, n) == ring_word_prefix(b, start, n),
    decreases n,
{
    if n > 0 {
        lemma_ring_word_local(a, b, start, n - 1);
        assert(a[start + (n - 1)] == b[start + (n - 1)]);
    }
}

/// A word written into the sixteen sectors from `start`, most significant
/// bit first, reads back as that word.
proof fn lemma_ring_word_written(ring: Seq<bool>, start: int, w: u16)
    requires
        forall|i: int| 0 <= i < 16 ==> #[trigger] ring[start + i] == format_bit(w, i),
    ensures
        ring_word(ring, start) == w,
{
    lemma_ring_word_of_bits(ring, start, w, 16);
    assert(pow2(0) == 1) by {
        vstd::arithmetic::power2::lemma2_to64();
    }
    let x = pow2(0);
    let y = w as nat;
    assert(y / x == y) by (nonlinear_arith)
        requires
            x == 1,
    ;
    assert(ring_word_prefix(ring, start, 16) == w as nat);
}

/// The mirrored format information of Ring 0 comes from its sectors 36 to 52
/// alone: behind a dark gap at sector 36, sectors 37 to 52 holding the format
/// word of a level and mask with at most three flipped bits give that level
/// and mask, whatever the other sectors hold; behind a light gap there is none.
pub proof fn lemma_mirrored_format_word(ring0: Seq<bool>, level: EccLevel, mask: u8, w: u16)
    requires
        ring0.len() >= 53,
        mask < 8,
        forall|i: int| 0 <= i < 16 ==> #[trigger] ring0[37 + i] == format_bit(w, i),
        crate::bitstream::popcount16(
            w ^ crate::bitstream::format_word_spec(crate::bitstream::format_data_spec(level, mask)),
        ) <= 3,
    ensures
        ring0[36] ==> ring_format_spec(ring0).1 == Some((level, mask)),
        !ring0[36] ==> ring_format_spec(ring0).1 is None,
{
    lemma_ring_word_written(ring0, 37, w);
    crate::bitstream::lemma_decode_format_exact(w, level, mask);
}

/// The primary format information of Ring 0 comes from its sectors 0 to 16
/// alone, in the same way as the mirrored one.
pub proof fn lemma_primary_format_word(ring0: Seq<bool>, level: EccLevel, mask: u8, w: u16)
    requires
        ring0.len() >= 53,
        mask < 8,
        forall|i: int| 0 <= i < 16 ==> #[trigger] ring0[1 + i] == format_bit(w, i),
        crate::bitstream::popcount16(
            w ^ crate::bitstream::format_word_spec(crate::bitstream::format_data_spec(level, mask)),
        ) <= 3,
    ensures
        ring0[0] ==> ring_format_spec(ring0).0 == Some((level, mask)),
        !ring0[0] ==> ring_format_spec(ring0).0 is None,
{
    lemma_ring_word_written(ring0, 1, w);
    crate::bitstream::lemma_decode_format_exact(w, level, mask);
}

/// Two samplings of Ring 0 that agree on sectors 0 to 16 give the same
/// primary format information, and two that agree on sectors 36 to 52 the
/// same mirrored one.
pub proof fn lemma_format_words_local(a: Seq<bool>, b: Seq<bool>)
    requires
        a.len() >= 53,
        b.len() >= 53,
    ensures
        (forall|i: int| 0 <= i <= 16 ==> a[i] == #[trigger] b[i]) ==> ring_format_spec(a).0
            == ring_format_spec(b).0,
        (forall|i: int| 36 <= i <= 52 ==> a[i] == #[trigger] b[i]) ==> ring_format_spec(a).1
            == ring_format_spec(b).1,
{
    if forall|i: int| 0 <= i <= 16 ==> a[i] == #[trigger] b[i] {
        assert(a[0] == b[0]);
        assert forall|i: int| 0 <= i < 16 implies a[1 + i] == #[trigger] b[1 + i] by {
            assert(a[1 + i] == b[1 + i]);
        }
        lemma_ring_word_local(a, b, 1, 16);
    }
    if forall|i: int| 36 <= i <= 52 ==> a[i] == #[trigger] b[i] {
        assert(a[36] == b[36]);
        assert forall|i: int| 0 <= i < 16 implies a[37 + i] == #[trigger] b[37 + i] by {
            assert(a[37 + i] == b[37 + i]);
        }
        lemma_ring_word_local(a, b, 37, 16);
    }
}

/// With the mode detected from the payload, reading the rings of a freshly
/// encoded symbol, with no sector erased, gives back the payload itself.
pub proof fn lemma_auto_mode_roundtrip(
    version: u8,
    level: EccLevel,
    m: u8,
    data: Seq<u8>,
    erased: Seq<Seq<bool>>,
)
    requires
        1 <= version <= 40,
        codewords_spec(version, crate::bitstream::detect_mode_spec(data), data, level) is Ok,
        rows_cover(erased, ring_count_spec(version as int)),
        forall|k: int, s: int|
            0 <= k < ring_count_spec(version as int) && 0 <= s < erased[k].len() ==> !(
            #[trigger] erased[k][s]),
    ensures
        decode_candidate_spec(
            version,
            level,
            m,
            matrix_spec(
                version,
                codewords_spec(version, crate::bitstream::detect_mode_spec(data), data, level)->Ok_0,
                m,
                level,
            ),
            erased,
        ) == Some((version, crate::bitstream::detect_mode_spec(data), data)),
{
    let mode = crate::bitstream::detect_mode_spec(data);
    crate::bitstream::lemma_detect_mode(data);
    lemma_symbol_roundtrip(version, level, m, mode, data, erased);
}

/// The erased codewords are listed in increasing order, each below `n`.
proof fn lemma_erasure_list(flags: Seq<bool>, n: int)
    requires
        0 <= n <= 0x10000,
    ensures
        erasure_list(flags, n).len() <= n,
        forall|k: int|
            0 <= k < erasure_list(flags, n).len() ==> #[trigger] erasure_list(flags, n)[k] < n,
        forall|a: int, b: int|
            0 <= a < b < erasure_list(flags, n).len() ==> #[trigger] erasure_list(flags, n)[a]
                < #[trigger] erasure_list(flags, n)[b],
        erasure_list(flags, n).no_duplicates(),
    decreases n,
{
    if n > 0 {
        lemma_erasure_list(flags, n - 1);
        let prev = erasure_list(flags, n - 1);
        let cur = erasure_list(flags, n);
        if cur != prev {
            assert(cur == prev.push((n - 1) as usize));
            assert forall|a: int, b: int| 0 <= a < b < cur.len() implies #[trigger] cur[a]
                < #[trigger] cur[b] by {
                if b == cur.len() - 1 {
                    assert(cur[a] == prev[a]);
                    assert(prev[a] < n - 1);
                    assert(cur[b] == (n - 1) as usize);
                } else {
                    assert(cur[a] == prev[a] && cur[b] == prev[b]);
                    assert(prev[a] < prev[b]);
                }
            }
            assert forall|k: int| 0 <= k < cur.len() implies #[trigger] cur[k] < n by {
                if k < prev.len() {
                    assert(cur[k] == prev[k]);
                }
            }
        }
        assert forall|a: int, b: int| 0 <= a < cur.len() && 0 <= b < cur.len() && a != b implies cur[a]
            != cur[b] by {
            if a < b {
                assert(cur[a] < cur[b]);
            } else {
                assert(cur[b] < cur[a]);
            }
        }
    }
}

/// Error and erasure correction of a whole candidate: when the codewords
/// flagged erased are at most the parity count and the codewords read from
/// the candidate are, block by block with the erased codewords falling in
/// each, within reach of the codewords that encode a payload at the
/// candidate's version and level (twice the damaged codewords outside the
/// erasures plus the erasures at most the block's parity), the candidate
/// decodes to that payload (numeric payloads being decimal digits).
#[verifier::spinoff_prover]
#[verifier::rlimit(30)]
pub proof fn lemma_symbol_corrects_erasures(
    version: u8,
    level: EccLevel,
    m: u8,
    mode: Mode,
    data: Seq<u8>,
    cells: Seq<Seq<bool>>,
    erased: Seq<Seq<bool>>,
)
    requires
        1 <= version <= 40,
        codewords_spec(version, mode, data, level) is Ok,
        mode == Mode::Numeric ==> forall|i: int|
            0 <= i < data.len() ==> crate::bitstream::is_digit(#[trigger] data[i]),
        erasure_list(
            symbol_flags(erased, ring_count_spec(version as int)),
            version_info_spec(version as int).total_codewords as int,
        ).len() <= entry_ecc(version_info_spec(version as int), level),
        crate::ecc::message_correctable(
            read_codewords(version, m, cells),
            crate::bitstream::assemble_spec(
                version,
                mode,
                data,
                crate::geometry::entry_data(version_info_spec(version as int), level) as nat,
            )->Ok_0,
            version_info_spec(version as int).total_codewords as int,
            entry_ecc(version_info_spec(version as int), level),
            erasure_list(
                symbol_flags(erased, ring_count_spec(version as int)),
                version_info_spec(version as int).total_codewords as int,
            ),
        ),
    ensures
        decode_candidate_spec(version, level, m, cells, erased) == Some((version, mode, data)),
{
    let info = version_info_spec(version as int);
    let total = info.total_codewords as int;
    let ecc = entry_ecc(info, level);
    crate::geometry::lemma_ecc_fits(version as int, level);
    let target = crate::geometry::entry_data(info, level) as nat;
    let d = crate::bitstream::assemble_spec(version, mode, data, target)->Ok_0;
    crate::bitstream::lemma_assemble_len(version, mode, data, target);
    let rings = ring_count_spec(version as int);
    lemma_symbol_bits_len(cells, erased, m, rings);
    let tb = total_data_bits_spec(version as int);
    crate::geometry::lemma_total_bits_bound(version as int);
    assert(data_bits_of_rings(rings) == tb);
    assert(total == tb / 8);
    assert((tb / 8) * 8 <= tb) by (nonlinear_arith)
        requires
            tb >= 0,
    ;
    let bits = symbol_bits(cells, m, rings);
    let cw = read_codewords(version, m, cells);
    assert(bits.take(8 * total).len() == 8 * total);
    assert(cw.len() == total);
    let erasures = erasure_list(symbol_flags(erased, rings), total);
    crate::ecc::lemma_rs_decode_correctable(cw, d, total, ecc, erasures);
    if erasures.len() == 0 {
        assert(erasures =~= Seq::<usize>::empty());
    }
    crate::bitstream::lemma_data_codewords_roundtrip(version, mode, data, target);
}

/// Erasure correction of a candidate whose codewords form one block: when
/// twice the number of codewords read wrong outside the erased ones, plus
/// the number of erased codewords, is at most the parity count, the
/// candidate decodes to the encoded payload (numeric payloads being decimal
/// digits).
#[verifier::spinoff_prover]
#[verifier::rlimit(30)]
pub proof fn lemma_single_block_erasures(
    version: u8,
    level: EccLevel,
    m: u8,
    mode: Mode,
    data: Seq<u8>,
    cells: Seq<Seq<bool>>,
    erased: Seq<Seq<bool>>,
)
    requires
        1 <= version <= 40,
        version_info_spec(version as int).total_codewords <= 255,
        codewords_spec(version, mode, data, level) is Ok,
        mode == Mode::Numeric ==> forall|i: int|
            0 <= i < data.len() ==> crate::bitstream::is_digit(#[trigger] data[i]),
        2 * crate::errors::unerased_diff(
            read_codewords(version, m, cells),
            codewords_spec(version, mode, data, level)->Ok_0,
            erasure_list(
                symbol_flags(erased, ring_count_spec(version as int)),
                version_info_spec(version as int).total_codewords as int,
            ),
            version_info_spec(version as int).total_codewords as int,
        ).len() + erasure_list(
            symbol_flags(erased, ring_count_spec(version as int)),
            version_info_spec(version as int).total_codewords as int,
        ).len() <= entry_ecc(version_info_spec(version as int), level),
    ensures
        decode_candidate_spec(version, level, m, cells, erased) == Some((version, mode, data)),
{
    let info = version_info_spec(version as int);
    let total = info.total_codewords as int;
    let ecc = entry_ecc(info, level);
    crate::geometry::lemma_ecc_fits(version as int, level);
    let target = crate::geometry::entry_data(info, level) as nat;
    let d = crate::bitstream::assemble_spec(version, mode, data, target)->Ok_0;
    crate::bitstream::lemma_assemble_len(version, mode, data, target);
    crate::ecc::lemma_rs_roundtrip(d, total, ecc);
    let rings = ring_count_spec(version as int);
    lemma_symbol_bits_len(cells, erased, m, rings);
    let tb = total_data_bits_spec(version as int);
    crate::geometry::lemma_total_bits_bound(version as int);
    assert(data_bits_of_rings(rings) == tb);
    assert(total == tb / 8);
    assert((tb / 8) * 8 <= tb) by (nonlinear_arith)
        requires
            tb >= 0,
    ;
    let bits = symbol_bits(cells, m, rings);
    let cw = read_codewords(version, m, cells);
    assert(bits.take(8 * total).len() == 8 * total);
    assert(cw.len() == total);
    let erasures = erasure_list(symbol_flags(erased, rings), total);
    lemma_erasure_list(symbol_flags(erased, rings), total);
    assert(crate::ecc::rs_num_blocks(total) <= 1) by (nonlinear_arith)
        requires
            0 <= total <= 255,
    ;
    assert(crate::ecc::block_correctable(
        cw,
        crate::ecc::rs_encode_spec(d, total, ecc),
        ecc as nat,
        erasures,
    ));
    lemma_symbol_corrects_erasures(version, level, m, mode, data, cells, erased);
}

} // verus!
