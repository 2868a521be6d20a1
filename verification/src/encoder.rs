//! The encoding pipeline: payload bytes to the masked ring matrix of an
//! RRC symbol, with its version, level, mode and mask.

use crate::bitstream::{
    assemble_data_codewords, assemble_spec, bytes_to_bit_vec, bytes_to_bits,
    detect_mode, detect_mode_spec, encode_format_word, format_data_spec, format_word_spec,
    length_bits_spec, lemma_assemble_len, Mode, payload_bits, numeric_payload, alpha_payload,
    byte_payload, lemma_bits_be_len,
};
use crate::ecc::{rs_encode, rs_encode_spec};
use crate::error::RrcError;
use crate::geometry::{
    data_bits_of_rings, data_codewords_spec, data_sectors_spec, entry_data, entry_ecc,
    find_fitting_version, fitting_version_spec, format_info_spec,
    is_data_sector_spec, lemma_fitting_version, ring_count_for_version, ring_count_spec,
    sectors_in_ring, sectors_spec, version_info, version_info_spec, EccLevel,
    first_fit_from, lemma_first_fit_from,
};
use crate::mask::{mask_symbol, rows_view, select_best_mask, symbol_fits, first_min_index};
use vstd::arithmetic::power2::pow2;
use vstd::prelude::*;

verus! {

/// Options configuring the RRC encoding process.
#[derive(Debug, Clone, Copy)]
pub struct EncodeOptions {
    /// Force a specific RRC version (1–40); if None, minimum required version is auto-selected.
    pub version: Option<u8>,
    /// Error correction level (default: Medium).
    pub ecc_level: EccLevel,
    /// Encoding mode (default: auto-detected from data).
    pub mode: Option<Mode>,
}

impl Default for EncodeOptions {
    fn default() -> (r: Self)
        ensures
            r.version is None,
            r.ecc_level == EccLevel::M,
            r.mode is None,
    {
        Self { version: None, ecc_level: EccLevel::M, mode: None }
    }
}

/// An encoded, masked RRC symbol ready for visual rendering or transmission.
#[derive(Debug, Clone)]
pub struct RrcSymbol {
    pub version: u8,
    pub ecc_level: EccLevel,
    pub mode: Mode,
    pub mask_index: u8,
    pub payload: Vec<u8>,
    pub matrix: Vec<Vec<bool>>,
}

/// The mode used for `data`: the one asked for, else the detected one.
pub open spec fn effective_mode(data: Seq<u8>, options: EncodeOptions) -> Mode {
    match options.mode {
        Some(m) => m,
        None => detect_mode_spec(data),
    }
}

/// Estimated data codewords needed for `n` characters in a mode.
pub open spec fn needed_bytes_spec(mode: Mode, n: int) -> int {
    match mode {
        Mode::Numeric => (n * 10 + 2) / 24 + 3,
        Mode::Alphanumeric => (n * 11 + 1) / 16 + 3,
        _ => n + 3,
    }
}

/// The estimate and its error report fit in a `usize`.
pub open spec fn encode_args_fit(mode: Mode, n: int) -> bool {
    &&& n * 11 + 1 <= usize::MAX
    &&& n + 3 <= usize::MAX
    &&& needed_bytes_spec(mode, n) * 8 <= usize::MAX
}

/// The version a payload is encoded in, or the error met choosing it.
pub open spec fn choose_version_spec(mode: Mode, n: int, options: EncodeOptions) -> Result<
    u8,
    RrcError,
> {
    let needed = needed_bytes_spec(mode, n);
    match options.version {
        Some(v) => if !(1 <= v <= 40) {
            Err(RrcError::InvalidVersion(v))
        } else if data_codewords_spec(v as int, options.ecc_level) < needed {
            Err(
                RrcError::DataTooLarge {
                    needed: (needed * 8) as usize,
                    capacity: (data_codewords_spec(v as int, options.ecc_level) * 8) as usize,
                },
            )
        } else {
            Ok(v)
        },
        None => fitting_version_spec(needed, options.ecc_level),
    }
}

/// The full codewords (data and Reed-Solomon parity) of a payload in a version.
pub open spec fn codewords_spec(version: u8, mode: Mode, data: Seq<u8>, level: EccLevel) -> Result<
    Seq<u8>,
    RrcError,
> {
    let info = version_info_spec(version as int);
    match assemble_spec(version, mode, data, entry_data(info, level) as nat) {
        Ok(d) => Ok(
            rs_encode_spec(d, info.total_codewords as int, entry_ecc(info, level)),
        ),
        Err(e) => Err(e),
    }
}

/// Data sectors of ring `k` below sector `s`.
pub open spec fn data_count_below(k: int, s: int) -> int
    decreases s,
{
    if s <= 0 {
        0
    } else {
        data_count_below(k, s - 1) + (if is_data_sector_spec(k, s - 1) {
            1int
        } else {
            0int
        })
    }
}

/// The position, among all data sectors in reading order, of sector `(k, s)`.
pub open spec fn data_index(k: int, s: int) -> int {
    data_bits_of_rings(k) + data_count_below(k, s)
}

/// A cell of the unmasked symbol: reference gaps dark, format word sectors
/// light until written, data sectors carrying the next bit (light past the end).
pub open spec fn layout_cell(bits: Seq<bool>, k: int, s: int) -> bool {
    if s == 0 || (k == 0 && s == 36) {
        true
    } else if format_info_spec(k, s) is Some {
        false
    } else {
        data_index(k, s) < bits.len() && bits[data_index(k, s)]
    }
}

/// The unmasked symbol of `rings` rings carrying `bits`.
pub open spec fn layout_spec(rings: int, bits: Seq<bool>) -> Seq<Seq<bool>> {
    Seq::new(
        rings as nat,
        |k: int| Seq::new(sectors_spec(k) as nat, |s: int| layout_cell(bits, k, s)),
    )
}

/// Bit `i` (most significant first) of a 16-bit format word.
pub open spec fn format_bit(w: u16, i: int) -> bool {
    (w as nat / pow2((15 - i) as nat)) % 2 == 1
}

/// The symbol with its reference gaps dark and the format word written into
/// Ring 0, primary in sectors 1..=16 and mirrored in sectors 37..=52.
pub open spec fn place_format(sym: Seq<Seq<bool>>, w: u16) -> Seq<Seq<bool>> {
    Seq::new(
        sym.len(),
        |k: int|
            Seq::new(
                sym[k].len(),
                |s: int|
                    if k == 0 && 1 <= s <= 16 {
                        format_bit(w, s - 1)
                    } else if k == 0 && 37 <= s <= 52 {
                        format_bit(w, s - 37)
                    } else if s == 0 || (k == 0 && s == 36) {
                        true
                    } else {
                        sym[k][s]
                    },
            ),
    )
}

/// The final matrix of a symbol with codewords `cw` in a version, masked
/// with mask `m`, at a level.
pub open spec fn matrix_spec(version: u8, cw: Seq<u8>, m: u8, level: EccLevel) -> Seq<Seq<bool>> {
    place_format(
        mask_symbol(m, layout_spec(ring_count_spec(version as int), bytes_to_bits(cw))),
        format_word_spec(format_data_spec(level, m)),
    )
}

/// The number of data sectors below sector `s` of a ring: all but the
/// reference gap in outer rings, and in Ring 0 all but the two reference
/// gaps and the two format words.
pub proof fn lemma_data_count_below(k: int, s: int)
    requires
        0 <= s,
    ensures
        k > 0 && s >= 1 ==> data_count_below(k, s) == s - 1,
        k > 0 && s == 0 ==> data_count_below(k, s) == 0,
        k == 0 && s <= 17 ==> data_count_below(k, s) == 0,
        k == 0 && 17 <= s <= 36 ==> data_count_below(k, s) == s - 17,
        k == 0 && 36 <= s <= 53 ==> data_count_below(k, s) == 19,
        k == 0 && 53 <= s ==> data_count_below(k, s) == s - 34,
        0 <= data_count_below(k, s) <= s,
    decreases s,
{
    if s > 0 {
        lemma_data_count_below(k, s - 1);
    }
}

/// Counting the data sectors below a ring's sector count gives the ring's
/// data sectors; a ring has between 24 and 360 sectors, and Ring 0 has 72.
pub proof fn lemma_ring_data_count(k: int)
    requires
        k >= 0,
    ensures
        data_count_below(k, sectors_spec(k)) == data_sectors_spec(k),
        sectors_spec(k) >= 24,
        k == 0 ==> sectors_spec(k) == 72,
        sectors_spec(k) <= 360,
{
    crate::geometry::lemma_sectors_facts(k);
    lemma_data_count_below(k, sectors_spec(k));
}

/// The unmasked symbol: ring by ring, sector by sector.
fn build_layout(version: u8, bits: &Vec<bool>) -> (sym: Vec<Vec<bool>>)
    ensures
        rows_view(sym@) == layout_spec(ring_count_spec(version as int), bits@),
{
    let rings = ring_count_for_version(version);
    let mut out: Vec<Vec<bool>> = Vec::new();
    let mut bit_idx: usize = 0;
    let mut k: usize = 0;
    while k < rings
        invariant
            0 <= k <= rings,
            rings == ring_count_spec(version as int),
            rings <= 511,
            out@.len() == k,
            bit_idx == data_bits_of_rings(k as int),
            bit_idx <= 360 * k,
            forall|q: int| 0 <= q < k ==> #[trigger] out@[q]@ == layout_spec(rings as int, bits@)[q],
        decreases rings - k,
    {
        proof {
            lemma_ring_data_count(k as int);
        }
        let n_sectors = sectors_in_ring(k);
        let mut cells: Vec<bool> = Vec::new();
        let ghost ring_start = bit_idx as int;
        let mut s: usize = 0;
        while s < n_sectors
            invariant
                0 <= s <= n_sectors,
                n_sectors == sectors_spec(k as int),
                n_sectors <= 360,
                k < rings,
                rings <= 511,
                ring_start == data_bits_of_rings(k as int),
                ring_start <= 360 * k,
                bit_idx == ring_start + data_count_below(k as int, s as int),
                bit_idx <= ring_start + s,
                cells@.len() == s,
                forall|t: int| 0 <= t < s ==> #[trigger] cells@[t] == layout_cell(bits@, k as int, t),
            decreases n_sectors - s,
        {
            proof {
                lemma_data_count_below(k as int, s as int);
            }
            let cell = if s == 0 || (k == 0 && s == 36) {
                true
            } else if crate::geometry::format_word_sector_info(k, s).is_some() {
                false
            } else {
                let v = bit_idx < bits.len() && bits[bit_idx];
                bit_idx = bit_idx + 1;
                v
            };
            cells.push(cell);
            s = s + 1;
        }
        proof {
            assert(cells@ =~= layout_spec(rings as int, bits@)[k as int]);
            assert(data_bits_of_rings(k as int + 1) == data_bits_of_rings(k as int) + data_sectors_spec(k as int));
        }
        out.push(cells);
        k = k + 1;
    }
    assert(rows_view(out@) =~= layout_spec(rings as int, bits@));
    out
}

/// Writes the format word into Ring 0 and makes the reference gaps dark.
fn write_format(matrix: &mut Vec<Vec<bool>>, w: u16)
    requires
        old(matrix)@.len() >= 1,
        old(matrix)@[0]@.len() >= 53,
    ensures
        rows_view(final(matrix)@) == place_format(rows_view(old(matrix)@), w),
{
    let ghost orig = rows_view(matrix@);
    let mut row0 = matrix[0].clone();
    assert(row0@ =~= orig[0]);
    let mut bit: usize = 0;
    while bit < 16
        invariant
            0 <= bit <= 16,
            row0@.len() == orig[0].len(),
            orig[0].len() >= 53,
            forall|t: int|
                0 <= t < row0@.len() ==> #[trigger] row0@[t] == if 1 <= t <= bit {
                    format_bit(w, t - 1)
                } else if 37 <= t <= 36 + bit {
                    format_bit(w, t - 37)
                } else {
                    orig[0][t]
                },
        decreases 16 - bit,
    {
        let v = ((w >> (15 - bit) as u16) & 1) != 0;
        proof {
            let sh = (15 - bit) as u16;
            vstd::bits::lemma_u16_shr_is_div(w, sh);
            let q = w >> sh;
            assert((q & 1 != 0) == (q % 2 == 1)) by (bit_vector);
        }
        row0.set(bit + 1, v);
        row0.set(bit + 37, v);
        bit = bit + 1;
    }
    row0.set(0, true);
    row0.set(36, true);
    matrix.set(0, row0);
    let n = matrix.len();
    let mut k: usize = 1;
    while k < n
        invariant
            1 <= k <= n,
            n == matrix@.len(),
            n == orig.len(),
            forall|q: int| 0 <= q < n ==> #[trigger] matrix@[q]@.len() == orig[q].len(),
            rows_view(matrix@)[0] == place_format(orig, w)[0],
            forall|q: int| 1 <= q < k ==> #[trigger] matrix@[q]@ == place_format(orig, w)[q],
            forall|q: int| k <= q < n ==> #[trigger] matrix@[q]@ == orig[q],
        decreases n - k,
    {
        let mut row = matrix[k].clone();
        assert(row@ =~= orig[k as int]);
        if row.len() > 0 {
            row.set(0, true);
        }
        assert(row@ =~= place_format(orig, w)[k as int]);
        matrix.set(k, row);
        k = k + 1;
    }
    assert(rows_view(matrix@) =~= place_format(orig, w));
}

/// Every cell of a layout can be evaluated by the masks.
proof fn lemma_layout_fits(rings: int, bits: Seq<bool>)
    requires
        0 <= rings <= 511,
    ensures
        symbol_fits(layout_spec(rings, bits)),
        rings >= 1 ==> layout_spec(rings, bits)[0].len() == 72,
{
    let l = layout_spec(rings, bits);
    assert forall|r: int, s: int| 0 <= r < l.len() && 0 <= s < l[r].len() implies #[trigger] crate::mask::mask_args_fit(
        0,
        r,
        s,
    ) by {
        lemma_ring_data_count(r);
        assert(r * s <= 511 * 360) by (nonlinear_arith)
            requires
                0 <= r <= 511,
                0 <= s <= 360,
        ;
    }
    if rings >= 1 {
        lemma_ring_data_count(0);
    }
}

/// The version a payload of `n` characters in `mode` is encoded in: the
/// requested one if it is valid and holds the payload, otherwise the
/// smallest version that does.
pub fn choose_version(mode: Mode, n: usize, options: &EncodeOptions) -> (r: Result<u8, RrcError>)
    requires
        encode_args_fit(mode, n as int),
    ensures
        r == choose_version_spec(mode, n as int, *options),
        r matches Ok(v) ==> 1 <= v <= 40,
{
    let level = options.ecc_level;
    let needed = match mode {
        Mode::Numeric => (n * 10 + 2) / 24 + 3,
        Mode::Alphanumeric => (n * 11 + 1) / 16 + 3,
        _ => n + 3,
    };
    match options.version {
        Some(v) => {
            if !(1 <= v && v <= 40) {
                return Err(RrcError::InvalidVersion(v));
            }
            let info = match version_info(v) {
                Ok(i) => i,
                Err(e) => {
                    return Err(e);
                },
            };
            proof {
                crate::geometry::lemma_ecc_fits(v as int, level);
            }
            let cap = info.data_codewords(level);
            if cap < needed {
                return Err(RrcError::DataTooLarge { needed: needed * 8, capacity: cap * 8 });
            }
            Ok(v)
        },
        None => {
            let fit = find_fitting_version(needed, level);
            proof {
                lemma_fitting_version(needed as int, level, fit);
            }
            fit
        },
    }
}

/// The mask choice of an encoded symbol: the first of the eight masks with
/// the lowest score under `penalty`.
pub open spec fn mask_choice<F: Fn(&Vec<Vec<bool>>) -> u64>(
    penalty: F,
    m: u8,
    unmasked: Seq<Seq<bool>>,
) -> bool {
    exists|p: Seq<u64>, cs: Seq<Vec<Vec<bool>>>|
        #![trigger first_min_index(p, 8), cs.len()]
        p.len() == 8 && cs.len() == 8 && m == first_min_index(p, 8) && (forall|j: int|
            0 <= j < 8 ==> rows_view(#[trigger] cs[j]@) == mask_symbol(j as u8, unmasked)
                && penalty.ensures((&cs[j],), p[j])) && (forall|j: int|
            0 <= j < 8 ==> p[m as int] <= #[trigger] p[j]) && (forall|j: int|
            0 <= j < m ==> p[m as int] < #[trigger] p[j])
}

/// The symbol of a payload in a chosen version.
fn encode_in_version<F: Fn(&Vec<Vec<bool>>) -> u64>(
    data: &[u8],
    version: u8,
    level: EccLevel,
    mode: Mode,
    penalty: F,
) -> (r: Result<RrcSymbol, RrcError>)
    requires
        1 <= version <= 40,
        forall|c: &Vec<Vec<bool>>| #[trigger] penalty.requires((c,)),
        mode == Mode::Numeric && data@.len() < pow2(length_bits_spec(mode, version)) ==> forall|
            i: int,
        | 0 <= i < data@.len() ==> #[trigger] data@[i] >= 48,
    ensures
        match codewords_spec(version, mode, data@, level) {
            Err(e) => r == Err::<RrcSymbol, RrcError>(e),
            Ok(cw) => r matches Ok(sym) && sym.version == version && sym.ecc_level == level
                && sym.mode == mode && sym.payload@ == data@ && sym.mask_index < 8 && rows_view(
                sym.matrix@,
            ) == matrix_spec(version, cw, sym.mask_index, level) && mask_choice(
                penalty,
                sym.mask_index,
                layout_spec(ring_count_spec(version as int), bytes_to_bits(cw)),
            ),
        },
{
    let info = match version_info(version) {
        Ok(i) => i,
        Err(e) => {
            return Err(e);
        },
    };
    proof {
        crate::geometry::lemma_ecc_fits(version as int, level);
    }
    let data_cw_count = info.data_codewords(level);
    let total_cw_count = info.total_codewords;
    let ecc_cw_count = info.ecc_codewords(level);
    let data_bytes = match assemble_data_codewords(version, mode, data, data_cw_count) {
        Ok(b) => b,
        Err(e) => {
            return Err(e);
        },
    };
    proof {
        lemma_assemble_len(version, mode, data@, data_cw_count as nat);
    }
    let full_codewords = rs_encode(data_bytes.as_slice(), total_cw_count, ecc_cw_count);
    let ghost cw = full_codewords@;
    proof {
        crate::ecc::lemma_rs_roundtrip(data_bytes@, total_cw_count as int, ecc_cw_count as int);
    }
    assert(codewords_spec(version, mode, data@, level) == Ok::<Seq<u8>, RrcError>(cw));
    let bitstream = bytes_to_bit_vec(full_codewords.as_slice());
    let unmasked = build_layout(version, &bitstream);
    proof {
        lemma_layout_fits(ring_count_spec(version as int), bitstream@);
    }
    let (best_mask, mut final_matrix) = select_best_mask(unmasked.as_slice(), penalty);
    assert(rows_view(final_matrix@).len() >= 1);
    assert(final_matrix@[0]@ == rows_view(final_matrix@)[0]);
    let format_word = encode_format_word(level, best_mask);
    write_format(&mut final_matrix, format_word);
    Ok(
        RrcSymbol {
            version,
            ecc_level: level,
            mode,
            mask_index: best_mask,
            payload: vstd::slice::slice_to_vec(data),
            matrix: final_matrix,
        },
    )
}

/// Encode arbitrary data into an RRC symbol, choosing among the eight masks
/// the first one with the lowest score under `penalty`.
pub fn encode<F: Fn(&Vec<Vec<bool>>) -> u64>(data: &[u8], options: &EncodeOptions, penalty: F) -> (r:
    Result<RrcSymbol, RrcError>)
    requires
        encode_args_fit(effective_mode(data@, *options), data@.len() as int),
        forall|c: &Vec<Vec<bool>>| #[trigger] penalty.requires((c,)),
        effective_mode(data@, *options) == Mode::Numeric && choose_version_spec(
            Mode::Numeric,
            data@.len() as int,
            *options,
        ) is Ok && data@.len() < pow2(
            length_bits_spec(
                Mode::Numeric,
                choose_version_spec(Mode::Numeric, data@.len() as int, *options)->Ok_0,
            ),
        ) ==> forall|i: int| 0 <= i < data@.len() ==> #[trigger] data@[i] >= 48,
    ensures
        ({
            let mode = effective_mode(data@, *options);
            let level = options.ecc_level;
            match choose_version_spec(mode, data@.len() as int, *options) {
                Err(e) => r == Err::<RrcSymbol, RrcError>(e),
                Ok(v) => match codewords_spec(v, mode, data@, level) {
                    Err(e) => r == Err::<RrcSymbol, RrcError>(e),
                    Ok(cw) => r matches Ok(sym) && sym.version == v && sym.ecc_level == level
                        && sym.mode == mode && sym.payload@ == data@ && sym.mask_index < 8
                        && rows_view(sym.matrix@) == matrix_spec(v, cw, sym.mask_index, level)
                        && mask_choice(
                        penalty,
                        sym.mask_index,
                        layout_spec(ring_count_spec(v as int), bytes_to_bits(cw)),
                    ),
                },
            }
        }),
{
    let mode = match options.mode {
        Some(m) => m,
        None => detect_mode(data),
    };
    let version = match choose_version(mode, data.len(), options) {
        Ok(v) => v,
        Err(e) => {
            return Err(e);
        },
    };
    encode_in_version(data, version, options.ecc_level, mode, penalty)
}

// ---------------------------------------------------------------------------
// The capacity estimate against the payload bits
// ---------------------------------------------------------------------------

proof fn lemma_numeric_payload_len(data: Seq<u8>)
    ensures
        numeric_payload(data).len() == 10 * (data.len() / 3) + (if data.len() % 3 == 1 {
            4int
        } else if data.len() % 3 == 2 {
            7int
        } else {
            0int
        }),
    decreases data.len(),
{
    if data.len() >= 3 {
        lemma_numeric_payload_len(data.skip(3));
        lemma_bits_be_len(
            (crate::bitstream::digit_value(data[0]) * 100 + crate::bitstream::digit_value(data[1])
                * 10 + crate::bitstream::digit_value(data[2])) as nat,
            10,
        );
    } else if data.len() == 2 {
        lemma_bits_be_len(
            (crate::bitstream::digit_value(data[0]) * 10 + crate::bitstream::digit_value(data[1])) as nat,
            7,
        );
    } else if data.len() == 1 {
        lemma_bits_be_len(crate::bitstream::digit_value(data[0]) as nat, 4);
    }
}

proof fn lemma_alpha_payload_len(data: Seq<u8>)
    ensures
        alpha_payload(data).len() == 11 * (data.len() / 2) + 6 * (data.len() % 2),
    decreases data.len(),
{
    if data.len() >= 2 {
        lemma_alpha_payload_len(data.skip(2));
        lemma_bits_be_len(
            (crate::bitstream::alpha_index(data[0]) * 45 + crate::bitstream::alpha_index(data[1])) as nat,
            11,
        );
    } else if data.len() == 1 {
        lemma_bits_be_len(crate::bitstream::alpha_index(data[0]) as nat, 6);
    }
}

proof fn lemma_byte_payload_len(data: Seq<u8>)
    ensures
        byte_payload(data).len() == 8 * data.len(),
    decreases data.len(),
{
    if data.len() >= 1 {
        lemma_byte_payload_len(data.skip(1));
        lemma_bits_be_len(data[0] as nat, 8);
    }
}

/// The capacity estimate of a payload is its whole bytes of payload bits
/// (three digits in ten bits, two alphanumeric characters in eleven, a byte
/// in eight) plus three bytes for the header.
pub proof fn lemma_needed_bytes(mode: Mode, data: Seq<u8>)
    ensures
        needed_bytes_spec(mode, data.len() as int) == payload_bits(mode, data).len() / 8 + 3,
{
    let n = data.len() as int;
    match mode {
        Mode::Numeric => {
            lemma_numeric_payload_len(data);
            let q = n / 3;
            let t = n % 3;
            let u = q / 4;
            let w = q % 4;
            assert(n == 3 * q + t);
            assert(q == 4 * u + w);
            let r = if t == 1 {
                4int
            } else if t == 2 {
                7int
            } else {
                0int
            };
            assert(n * 10 + 2 == 120 * u + (30 * w + 10 * t + 2));
            assert(10 * q + r == 40 * u + (10 * w + r));
            assert((120 * u + (30 * w + 10 * t + 2)) / 24 == 5 * u + (30 * w + 10 * t + 2) / 24);
            assert((40 * u + (10 * w + r)) / 8 == 5 * u + (10 * w + r) / 8);
            assert((30 * w + 10 * t + 2) / 24 == (10 * w + r) / 8);
        },
        Mode::Alphanumeric => {
            lemma_alpha_payload_len(data);
            let q = n / 2;
            let t = n % 2;
            let u = q / 8;
            let w = q % 8;
            assert(n == 2 * q + t);
            assert(q == 8 * u + w);
            assert(n * 11 + 1 == 176 * u + (22 * w + 11 * t + 1));
            assert(11 * q + 6 * t == 88 * u + (11 * w + 6 * t));
            assert((176 * u + (22 * w + 11 * t + 1)) / 16 == 11 * u + (22 * w + 11 * t + 1) / 16);
            assert((88 * u + (11 * w + 6 * t)) / 8 == 11 * u + (11 * w + 6 * t) / 8);
            assert((22 * w + 11 * t + 1) / 16 == (11 * w + 6 * t) / 8);
        },
        _ => {
            lemma_byte_payload_len(data);
        },
    }
}

/// A requested version is taken exactly when it is a valid version whose
/// data codewords hold the payload's whole bytes plus three header bytes.
pub proof fn lemma_requested_version(mode: Mode, data: Seq<u8>, options: EncodeOptions)
    requires
        options.version is Some,
    ensures
        ({
            let v = options.version->Some_0;
            let room = payload_bits(mode, data).len() / 8 + 3;
            &&& (1 <= v <= 40 && data_codewords_spec(v as int, options.ecc_level) >= room)
                <==> choose_version_spec(mode, data.len() as int, options) == Ok::<u8, RrcError>(v)
            &&& !(1 <= v <= 40) ==> choose_version_spec(mode, data.len() as int, options)
                == Err::<u8, RrcError>(RrcError::InvalidVersion(v))
        }),
{
    lemma_needed_bytes(mode, data);
}

/// Without a requested version, the version taken is the smallest whose
/// data codewords hold the payload's whole bytes plus three header bytes;
/// when none of the forty does, the payload is too large.
pub proof fn lemma_auto_version(mode: Mode, data: Seq<u8>, options: EncodeOptions)
    requires
        options.version is None,
    ensures
        ({
            let room = payload_bits(mode, data).len() / 8 + 3;
            let level = options.ecc_level;
            let r = choose_version_spec(mode, data.len() as int, options);
            &&& r matches Ok(v) ==> 1 <= v <= 40 && data_codewords_spec(v as int, level) >= room
                && forall|w: int| 1 <= w < v ==> #[trigger] data_codewords_spec(w, level) < room
            &&& r is Err ==> forall|w: int|
                1 <= w <= 40 ==> #[trigger] data_codewords_spec(w, level) < room
        }),
{
    lemma_needed_bytes(mode, data);
    let room = payload_bits(mode, data).len() / 8 + 3;
    lemma_first_fit_from(room as int, options.ecc_level, 1);
}

} // verus!
