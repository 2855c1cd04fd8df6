//! Integer, byte-buffer and protocol logic of the kaleidoscope renderer.
//!
//! The pixel mathematics of the renderer is floating point and lives with the
//! application; what is kept here is everything that decides sizes, layouts,
//! orderings and error conditions, each with a contract.
use vstd::prelude::*;

pub mod backends;
pub mod enhancement;
pub mod preprocess;
pub mod rlib;
pub mod video_sink;

verus! {

/// The tiling pattern that the renderer maps the source image onto.
#[derive(Debug, Clone, Copy, PartialEq, Eq, Structural)]
pub enum KaleidoType {
    Radial,
    Square,
    Diamond,
    Hexagonal,
    HexagonalFlatTop,
}

/// Largest internal render dimension for which supersampling stays enabled.
pub const MAX_SUPERSAMPLED_DIMENSION: u32 = 8192;

/// Supersampling factors are limited to `1..=4` to bound the extra render cost.
pub open spec fn clamped_factor(factor: u8) -> u8 {
    if factor < 1 {
        1
    } else if factor > 4 {
        4
    } else {
        factor
    }
}

/// A dimension fits a factor when the enlarged dimension stays within the limit.
pub open spec fn fits_supersampled(dimension: u32, factor: u8) -> bool {
    dimension * factor <= MAX_SUPERSAMPLED_DIMENSION
}

/// The effective supersampling factor: the clamped request when both enlarged
/// dimensions stay within the limit, otherwise `1`.
pub open spec fn safe_factor(factor: u8, width: u32, height: u32) -> u8 {
    let f = clamped_factor(factor);
    if fits_supersampled(width, f) && fits_supersampled(height, f) {
        f
    } else {
        1
    }
}

/// Disable supersampling when either internal dimension would exceed 8192.
pub fn safe_super_sample(factor: u8, width: u32, height: u32) -> (r: u8)
    ensures
        r == safe_factor(factor, width, height),
{
    let factor: u8 = if factor < 1 {
        1
    } else if factor > 4 {
        4
    } else {
        factor
    };
    let limit: u32 = MAX_SUPERSAMPLED_DIMENSION / factor as u32;
    proof {
        lemma_fits_iff_below_quotient(width, factor);
        lemma_fits_iff_below_quotient(height, factor);
    }
    if width > limit || height > limit {
        1
    } else {
        factor
    }
}

proof fn lemma_fits_iff_below_quotient(dimension: u32, factor: u8)
    requires
        1 <= factor <= 4,
    ensures
        fits_supersampled(dimension, factor) <==> dimension <= MAX_SUPERSAMPLED_DIMENSION
            / (factor as u32),
{
    let q = MAX_SUPERSAMPLED_DIMENSION / (factor as u32);
    assert(q * factor <= 8192 && 8192 < (q + 1) * factor) by (nonlinear_arith)
        requires
            q == 8192u32 / (factor as u32),
            1 <= factor <= 4,
    ;
    if dimension <= q {
        assert(dimension * factor <= q * factor) by (nonlinear_arith)
            requires
                dimension <= q,
                factor >= 1,
        ;
    } else {
        assert(dimension * factor >= (q + 1) * factor) by (nonlinear_arith)
            requires
                dimension >= q + 1,
                factor >= 1,
        ;
    }
}

/// The supersampling law: the effective factor is between 1 and 4, never above
/// the request (once clamped), and whenever it is above 1 both enlarged
/// dimensions stay within 8192.
pub proof fn safe_factor_bounds_dimensions(factor: u8, width: u32, height: u32)
    ensures
        1 <= safe_factor(factor, width, height) <= 4,
        safe_factor(factor, width, height) <= clamped_factor(factor),
        safe_factor(factor, width, height) > 1 ==> width * safe_factor(factor, width, height)
            <= MAX_SUPERSAMPLED_DIMENSION && height * safe_factor(factor, width, height)
            <= MAX_SUPERSAMPLED_DIMENSION,
{
}

/// Supersampling is only ever turned off for size: a request of `1..=4`
/// whose enlarged dimensions both stay within 8192 is kept as it is, a larger
/// request is capped at `4` on the same terms, a request of `0` or `1` renders
/// at the output size, and the factor falls to `1` exactly when the enlarged
/// output would exceed 8192 on either side.
pub proof fn safe_factor_keeps_every_fitting_request(factor: u8, width: u32, height: u32)
    ensures
        1 <= factor <= 4 && width * factor <= 8192 && height * factor <= 8192 ==> safe_factor(
            factor,
            width,
            height,
        ) == factor,
        factor > 4 && width * 4 <= 8192 && height * 4 <= 8192 ==> safe_factor(factor, width, height)
            == 4,
        factor <= 1 ==> safe_factor(factor, width, height) == 1,
        1 <= factor <= 4 && (width * factor > 8192 || height * factor > 8192) ==> safe_factor(
            factor,
            width,
            height,
        ) == 1,
        factor > 4 && (width * 4 > 8192 || height * 4 > 8192) ==> safe_factor(factor, width, height)
            == 1,
{
}

/// Default for the `super_sample` setting of presets saved before it existed:
/// supersampling disabled.
pub fn default_super_sample() -> (r: u8)
    ensures
        r == 1,
{
    1
}

/// Default for the `derivative_mipmapping` setting: enabled.
pub fn default_true() -> (r: bool)
    ensures
        r,
{
    true
}

/// Default for the `anisotropy_level` setting: a single tap.
pub fn default_anisotropy() -> (r: u8)
    ensures
        r == 1,
{
    1
}

/// The index of a tiling pattern as the shader and the web front end number it.
pub open spec fn kaleido_type_index(value: KaleidoType) -> u32 {
    match value {
        KaleidoType::Radial => 0,
        KaleidoType::Square => 1,
        KaleidoType::Diamond => 2,
        KaleidoType::Hexagonal => 3,
        KaleidoType::HexagonalFlatTop => 4,
    }
}

/// The tiling pattern for an index; indices past the last pattern select the
/// flat-top hexagonal one.
pub open spec fn kaleido_type_for_index(idx: u32) -> KaleidoType {
    if idx == 0 {
        KaleidoType::Radial
    } else if idx == 1 {
        KaleidoType::Square
    } else if idx == 2 {
        KaleidoType::Diamond
    } else if idx == 3 {
        KaleidoType::Hexagonal
    } else {
        KaleidoType::HexagonalFlatTop
    }
}

/// Numbers a tiling pattern for the GPU uniform block.
pub fn kaleido_type_to_u32(value: KaleidoType) -> (r: u32)
    ensures
        r == kaleido_type_index(value),
{
    match value {
        KaleidoType::Radial => 0,
        KaleidoType::Square => 1,
        KaleidoType::Diamond => 2,
        KaleidoType::Hexagonal => 3,
        KaleidoType::HexagonalFlatTop => 4,
    }
}

/// Reads a tiling pattern from the index the web front end sends.
pub fn kaleido_type_from_idx(idx: u32) -> (r: KaleidoType)
    ensures
        r == kaleido_type_for_index(idx),
{
    match idx {
        0 => KaleidoType::Radial,
        1 => KaleidoType::Square,
        2 => KaleidoType::Diamond,
        3 => KaleidoType::Hexagonal,
        _ => KaleidoType::HexagonalFlatTop,
    }
}

/// Numbering a pattern and reading it back gives the same pattern, and every
/// number in use is below five.
pub proof fn kaleido_type_index_roundtrip(value: KaleidoType)
    ensures
        kaleido_type_for_index(kaleido_type_index(value)) == value,
        kaleido_type_index(value) < 5,
{
}

/// Reading an index below five and numbering the pattern gives the index back.
pub proof fn kaleido_type_for_index_roundtrip(idx: u32)
    requires
        idx < 5,
    ensures
        kaleido_type_index(kaleido_type_for_index(idx)) == idx,
{
}


/// The waveform an animated parameter follows over the video.
#[derive(Debug, Clone, Copy, PartialEq, Eq, Structural)]
pub enum Waveform {
    Triangle,
    Sawtooth,
    Sin,
    Sin2,
    Cos,
    NegCos,
    /// Unknown names hold the parameter at the low end of its range.
    Hold,
}

/// A character with ASCII upper case letters folded to lower case, as a code point.
pub open spec fn ascii_folded(c: char) -> u32 {
    if 'A' <= c <= 'Z' {
        (c as u32 + 32) as u32
    } else {
        c as u32
    }
}

/// `text` equals the lower-case `lower` once ASCII letters are folded to lower case.
pub open spec fn equals_ignoring_ascii_case(text: Seq<char>, lower: Seq<char>) -> bool {
    &&& text.len() == lower.len()
    &&& forall|i: int| 0 <= i < text.len() ==> ascii_folded(#[trigger] text[i]) == lower[i] as u32
}

fn matches_ignoring_ascii_case(text: &str, lower: &str) -> (r: bool)
    ensures
        r == equals_ignoring_ascii_case(text@, lower@),
{
    let n = text.unicode_len();
    if n != lower.unicode_len() {
        return false;
    }
    let mut i: usize = 0;
    while i < n
        invariant
            n == text@.len(),
            n == lower@.len(),
            i <= n,
            forall|k: int| 0 <= k < i ==> ascii_folded(#[trigger] text@[k]) == lower@[k] as u32,
        decreases n - i,
    {
        let c = text.get_char(i);
        let folded: u32 = if c >= 'A' && c <= 'Z' {
            c as u32 + 32
        } else {
            c as u32
        };
        if folded != lower.get_char(i) as u32 {
            return false;
        }
        i = i + 1;
    }
    true
}

/// The waveform a video setting names, ignoring ASCII case: `triangle`;
/// the ramp under any of its names `sawtooth`, `linear` and `saw`; `sin`,
/// `sin2`, `cos` and `-cos`. Any other name holds.
pub fn waveform_from_name(name: &str) -> (r: Waveform)
    ensures
        r == (if equals_ignoring_ascii_case(name@, "triangle"@) {
            Waveform::Triangle
        } else if equals_ignoring_ascii_case(name@, "sawtooth"@) || equals_ignoring_ascii_case(
            name@,
            "linear"@,
        ) || equals_ignoring_ascii_case(name@, "saw"@) {
            Waveform::Sawtooth
        } else if equals_ignoring_ascii_case(name@, "sin"@) {
            Waveform::Sin
        } else if equals_ignoring_ascii_case(name@, "sin2"@) {
            Waveform::Sin2
        } else if equals_ignoring_ascii_case(name@, "cos"@) {
            Waveform::Cos
        } else if equals_ignoring_ascii_case(name@, "-cos"@) {
            Waveform::NegCos
        } else {
            Waveform::Hold
        }),
{
    if matches_ignoring_ascii_case(name, "triangle") {
        Waveform::Triangle
    } else if matches_ignoring_ascii_case(name, "sawtooth") || matches_ignoring_ascii_case(
        name,
        "linear",
    ) || matches_ignoring_ascii_case(name, "saw") {
        Waveform::Sawtooth
    } else if matches_ignoring_ascii_case(name, "sin") {
        Waveform::Sin
    } else if matches_ignoring_ascii_case(name, "sin2") {
        Waveform::Sin2
    } else if matches_ignoring_ascii_case(name, "cos") {
        Waveform::Cos
    } else if matches_ignoring_ascii_case(name, "-cos") {
        Waveform::NegCos
    } else {
        Waveform::Hold
    }
}

} // verus!
