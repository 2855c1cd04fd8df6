//! Mode selection and texture-pyramid layout of the image enhancement stages.
//!
//! The stages resolve every user-selected mode once, when the pipeline is
//! built; these are the rules that resolve them.
use vstd::arithmetic::logarithm::*;
use vstd::prelude::*;

verus! {

/// How the source texture is reconstructed between texels.
#[derive(Clone, Copy, Debug, PartialEq, Eq, Structural)]
pub enum ReconstructionFilter {
    Nearest,
    Bilinear,
    Bicubic,
}

impl Default for ReconstructionFilter {
    /// Bilinear filtering.
    fn default() -> (r: Self)
        ensures
            r == ReconstructionFilter::Bilinear,
    {
        ReconstructionFilter::Bilinear
    }
}

/// The edge anti-aliasing pass run after supersampling is resolved.
#[derive(Clone, Copy, Debug, PartialEq, Eq, Structural)]
pub enum EdgeFilter {
    Disabled,
    Fxaa,
    Smaa,
}

impl Default for EdgeFilter {
    /// No edge filter.
    fn default() -> (r: Self)
        ensures
            r == EdgeFilter::Disabled,
    {
        EdgeFilter::Disabled
    }
}

/// Whether `text` is exactly `expected`, character by character.
pub fn text_equals(text: &str, expected: &str) -> (r: bool)
    ensures
        r == (text@ == expected@),
{
    let n = text.unicode_len();
    if n != expected.unicode_len() {
        return false;
    }
    let mut i: usize = 0;
    while i < n
        invariant
            n == text@.len(),
            n == expected@.len(),
            i <= n,
            forall|k: int| 0 <= k < i ==> text@[k] == expected@[k],
        decreases n - i,
    {
        if text.get_char(i) != expected.get_char(i) {
            return false;
        }
        i = i + 1;
    }
    assert(text@ =~= expected@);
    true
}

/// The reconstruction filter a wire name selects: `"nearest"`, `"bicubic"`,
/// and bilinear for every other name.
pub fn reconstruction_from_wire(name: &str) -> (r: ReconstructionFilter)
    ensures
        r == (if name@ == "nearest"@ {
            ReconstructionFilter::Nearest
        } else if name@ == "bicubic"@ {
            ReconstructionFilter::Bicubic
        } else {
            ReconstructionFilter::Bilinear
        }),
{
    if text_equals(name, "nearest") {
        ReconstructionFilter::Nearest
    } else if text_equals(name, "bicubic") {
        ReconstructionFilter::Bicubic
    } else {
        ReconstructionFilter::Bilinear
    }
}

/// The edge filter a wire name selects: `"fxaa"`, `"smaa"`, and none for every
/// other name.
pub fn edge_filter_from_wire(name: &str) -> (r: EdgeFilter)
    ensures
        r == (if name@ == "fxaa"@ {
            EdgeFilter::Fxaa
        } else if name@ == "smaa"@ {
            EdgeFilter::Smaa
        } else {
            EdgeFilter::Disabled
        }),
{
    if text_equals(name, "fxaa") {
        EdgeFilter::Fxaa
    } else if text_equals(name, "smaa") {
        EdgeFilter::Smaa
    } else {
        EdgeFilter::Disabled
    }
}

/// An anisotropy level from the wire: `2`, `4`, `8` and `16` are kept, every
/// other value becomes `1`.
pub fn anisotropy_from_wire(anisotropy: u8) -> (r: u8)
    ensures
        r == (if anisotropy == 2 || anisotropy == 4 || anisotropy == 8 || anisotropy == 16 {
            anisotropy
        } else {
            1
        }),
{
    match anisotropy {
        2 | 4 | 8 | 16 => anisotropy,
        _ => 1,
    }
}

/// The number of anisotropic taps a pipeline takes for a requested level: the
/// smallest power of two at or above the request clamped to `1..=16`.
pub open spec fn tap_count(anisotropy: u8) -> u8 {
    if anisotropy <= 1 {
        1
    } else if anisotropy <= 2 {
        2
    } else if anisotropy <= 4 {
        4
    } else if anisotropy <= 8 {
        8
    } else {
        16
    }
}

/// The number of anisotropic taps for a requested level.
pub fn pipeline_anisotropy(anisotropy: u8) -> (r: u8)
    ensures
        r == tap_count(anisotropy),
{
    if anisotropy <= 1 {
        1
    } else if anisotropy <= 2 {
        2
    } else if anisotropy <= 4 {
        4
    } else if anisotropy <= 8 {
        8
    } else {
        16
    }
}

/// The tap count is a power of two between 1 and 16, at least the clamped
/// request and less than twice it.
pub proof fn tap_count_is_power_of_two(anisotropy: u8)
    ensures
        tap_count(anisotropy) == 1 || tap_count(anisotropy) == 2 || tap_count(anisotropy) == 4
            || tap_count(anisotropy) == 8 || tap_count(anisotropy) == 16,
        anisotropy <= 16 ==> anisotropy <= tap_count(anisotropy),
        anisotropy >= 1 ==> tap_count(anisotropy) < 2 * anisotropy,
{
}

/// The reconstruction filter a preset's `anti_alias` setting selects: `0`
/// nearest, `2` bicubic, anything else bilinear.
pub fn reconstruction_for_anti_alias(anti_alias: u8) -> (r: ReconstructionFilter)
    ensures
        r == (if anti_alias == 0 {
            ReconstructionFilter::Nearest
        } else if anti_alias == 2 {
            ReconstructionFilter::Bicubic
        } else {
            ReconstructionFilter::Bilinear
        }),
{
    match anti_alias {
        0 => ReconstructionFilter::Nearest,
        2 => ReconstructionFilter::Bicubic,
        _ => ReconstructionFilter::Bilinear,
    }
}

/// The texel a sample coordinate reads along an axis of `extent` texels: the
/// coordinate clamped to the edge texels.
pub open spec fn clamped_texel(coord: i32, extent: u32) -> u32 {
    let last = if extent == 0 {
        0
    } else {
        extent - 1
    };
    if coord < 0 {
        0
    } else if coord > last {
        last as u32
    } else {
        coord as u32
    }
}

/// Clamps a texel coordinate to the edge of an axis of `extent` texels.
pub fn texel_coordinate(coord: i32, extent: u32) -> (r: u32)
    requires
        extent <= 0x8000_0000,
    ensures
        r == clamped_texel(coord, extent),
{
    let last: u32 = if extent == 0 {
        0
    } else {
        extent - 1
    };
    if coord < 0 {
        0
    } else if coord as u32 > last {
        last
    } else {
        coord as u32
    }
}

/// Dimensions of the next smaller mip level: halved, but never below one.
pub open spec fn half_extent(extent: u32) -> u32 {
    if extent / 2 < 1 {
        1
    } else {
        extent / 2
    }
}

/// Dimensions of every level of a mip pyramid, from the full image down to a
/// single texel.
pub open spec fn mip_chain(width: u32, height: u32) -> Seq<(u32, u32)>
    decreases if width >= height {
        width
    } else {
        height
    },
{
    if width > 1 || height > 1 {
        seq![(width, height)] + mip_chain(half_extent(width), half_extent(height))
    } else {
        seq![(width, height)]
    }
}

/// Dimensions of the levels of the CPU mip pyramid built from a
/// `width x height` image: the image itself, then levels halved (never
/// below one texel) until both dimensions are one.
pub fn mip_level_dimensions(width: u32, height: u32) -> (levels: Vec<(u32, u32)>)
    ensures
        levels@ == mip_chain(width, height),
{
    let mut levels: Vec<(u32, u32)> = Vec::new();
    let mut w = width;
    let mut h = height;
    levels.push((w, h));
    assert(levels@.drop_last() + mip_chain(w, h) =~= mip_chain(width, height));
    while w > 1 || h > 1
        invariant
            levels@.len() > 0,
            levels@.last() == (w, h),
            levels@.drop_last() + mip_chain(w, h) == mip_chain(width, height),
        decreases if w >= h {
            w
        } else {
            h
        },
    {
        let ghost before = levels@;
        let ghost (w0, h0) = (w, h);
        w = if w / 2 < 1 {
            1
        } else {
            w / 2
        };
        h = if h / 2 < 1 {
            1
        } else {
            h / 2
        };
        levels.push((w, h));
        proof {
            assert(mip_chain(w0, h0) == seq![(w0, h0)] + mip_chain(w, h));
            assert(levels@.drop_last() =~= before);
            assert(before =~= before.drop_last() + seq![(w0, h0)]);
            assert(levels@.drop_last() + mip_chain(w, h) =~= before.drop_last() + mip_chain(
                w0,
                h0,
            ));
        }
    }
    proof {
        assert(mip_chain(w, h) == seq![(w, h)]);
        assert(levels@ =~= levels@.drop_last() + mip_chain(w, h));
    }
    levels
}

/// A mip pyramid of a non-empty image has `floor(log2(max(width, height))) + 1`
/// levels and ends in a single texel.
pub proof fn mip_chain_length(width: u32, height: u32)
    requires
        width >= 1,
        height >= 1,
    ensures
        mip_chain(width, height).len() == log(
            2,
            if width >= height {
                width as int
            } else {
                height as int
            },
        ) + 1,
        mip_chain(width, height).last() == (1u32, 1u32),
    decreases if width >= height {
        width
    } else {
        height
    },
{
    let m = if width >= height {
        width as int
    } else {
        height as int
    };
    if width > 1 || height > 1 {
        let w2 = half_extent(width);
        let h2 = half_extent(height);
        mip_chain_length(w2, h2);
        let m2 = if w2 >= h2 {
            w2 as int
        } else {
            h2 as int
        };
        assert(m2 == m / 2);
        lemma_log_s(2, m);
        assert(mip_chain(width, height) == seq![(width, height)] + mip_chain(w2, h2));
    } else {
        lemma_log0(2, m);
    }
}


/// Name for the bytes that `image`'s triangle-filter resize makes of a
/// `width x height` RGBA8 image at `new_width x new_height`.
pub uninterp spec fn triangle_resized(rgba: Seq<u8>, width: u32, height: u32, new_width: u32, new_height: u32) -> Seq<u8>;

/// Trusted: wraps the bytes in an `image::RgbaImage` and calls
/// `image::imageops::resize` with `FilterType::Triangle`. Claims that the
/// result is the resize, named `triangle_resized`, which depends on the bytes
/// and the sizes alone; that it holds `new_width * new_height` pixels; and
/// that a resize to the same size gives the bytes back, as `resize` copies the
/// image in that case. The resampled values themselves are not stated.
#[verifier::external_body]
fn resize_triangle(rgba: &[u8], width: u32, height: u32, new_width: u32, new_height: u32) -> (r: Vec<u8>)
    requires
        rgba@.len() == width * height * 4,
        new_width * new_height * 4 <= usize::MAX,
    ensures
        r@ == triangle_resized(rgba@, width, height, new_width, new_height),
        r@.len() == new_width * new_height * 4,
        (new_width == width && new_height == height) ==> r@ == rgba@,
{
    let image = image::RgbaImage::from_raw(width, height, rgba.to_vec()).expect("buffer holds width * height pixels");
    image::imageops::resize(&image, new_width, new_height, image::imageops::FilterType::Triangle).into_raw()
}

/// Bytes of the largest level a mip pyramid of a `width x height` image can
/// have: a zero side counts as one texel, since every level after the first
/// has sides of at least one.
pub open spec fn mip_footprint(width: u32, height: u32) -> int {
    (if width == 0 {
        1int
    } else {
        width as int
    }) * (if height == 0 {
        1int
    } else {
        height as int
    }) * 4
}

/// Builds the CPU mip pyramid of a `width x height` RGBA8 image: the image
/// itself, then each level resized with the triangle filter from the complete
/// preceding level, at the sizes of [`mip_chain`].
pub fn mip_pyramid_levels(rgba: Vec<u8>, width: u32, height: u32) -> (levels: Vec<Vec<u8>>)
    requires
        rgba@.len() == width * height * 4,
        mip_footprint(width, height) <= usize::MAX,
    ensures
        levels@.len() == mip_chain(width, height).len(),
        levels@[0]@ == rgba@,
        forall|i: int|
            0 <= i < levels@.len() ==> #[trigger] levels@[i]@.len() == mip_chain(width, height)[i].0
                * mip_chain(width, height)[i].1 * 4,
        forall|i: int|
            1 <= i < levels@.len() ==> #[trigger] levels@[i]@ == triangle_resized(
                levels@[i - 1]@,
                mip_chain(width, height)[i - 1].0,
                mip_chain(width, height)[i - 1].1,
                mip_chain(width, height)[i].0,
                mip_chain(width, height)[i].1,
            ),
{
    let ghost chain = mip_chain(width, height);
    let ghost first = rgba@;
    let ghost w1: int = if width == 0 { 1 } else { width as int };
    let ghost h1: int = if height == 0 { 1 } else { height as int };
    let mut levels: Vec<Vec<u8>> = Vec::new();
    let mut w = width;
    let mut h = height;
    levels.push(rgba);
    assert(chain.subrange(0, chain.len() as int) =~= mip_chain(w, h));
    while w > 1 || h > 1
        invariant
            chain == mip_chain(width, height),
            w1 * h1 * 4 <= usize::MAX,
            w1 == (if width == 0 { 1 } else { width as int }),
            h1 == (if height == 0 { 1 } else { height as int }),
            1 <= levels@.len() <= chain.len(),
            chain.subrange(levels@.len() - 1, chain.len() as int) == mip_chain(w, h),
            levels@[0]@ == first,
            levels@.len() == 1 ==> w == width && h == height,
            levels@.len() > 1 ==> 1 <= w <= w1 && 1 <= h <= h1,
            forall|i: int|
                0 <= i < levels@.len() ==> #[trigger] levels@[i]@.len() == chain[i].0 * chain[i].1 * 4,
            forall|i: int|
                1 <= i < levels@.len() ==> #[trigger] levels@[i]@ == triangle_resized(
                    levels@[i - 1]@,
                    chain[i - 1].0,
                    chain[i - 1].1,
                    chain[i].0,
                    chain[i].1,
                ),
        decreases if w >= h {
            w
        } else {
            h
        },
    {
        let ghost k = levels@.len() as int;
        let nw: u32 = if w / 2 < 1 {
            1
        } else {
            w / 2
        };
        let nh: u32 = if h / 2 < 1 {
            1
        } else {
            h / 2
        };
        proof {
            assert(mip_chain(w, h) == seq![(w, h)] + mip_chain(nw, nh));
            assert(chain[k - 1] == mip_chain(w, h)[0]);
            assert(1 <= nw <= w1 && 1 <= nh <= h1);
            assert(nw * nh * 4 <= w1 * h1 * 4) by (nonlinear_arith)
                requires
                    1 <= nw <= w1,
                    1 <= nh <= h1,
            ;
            assert(chain.len() - (k - 1) == mip_chain(w, h).len());
            assert(mip_chain(nw, nh).len() >= 1);
            assert(chain[k] == mip_chain(w, h)[1]);
        }
        let next = resize_triangle(levels[levels.len() - 1].as_slice(), w, h, nw, nh);
        let ghost before = levels@;
        levels.push(next);
        proof {
            assert(chain.subrange(k, chain.len() as int) =~= chain.subrange(k - 1, chain.len() as int).subrange(1, chain.len() - (k - 1)));
            assert(mip_chain(w, h).subrange(1, mip_chain(w, h).len() as int) =~= mip_chain(nw, nh));
            assert forall|i: int| 0 <= i < levels@.len() implies #[trigger] levels@[i]@.len() == chain[i].0 * chain[i].1 * 4 by {
                if i < k {
                    assert(levels@[i] == before[i]);
                }
            }
            assert forall|i: int| 1 <= i < levels@.len() implies #[trigger] levels@[i]@ == triangle_resized(
                levels@[i - 1]@,
                chain[i - 1].0,
                chain[i - 1].1,
                chain[i].0,
                chain[i].1,
            ) by {
                assert(levels@[i - 1] == before[i - 1]);
                if i < k {
                    assert(levels@[i] == before[i]);
                }
            }
        }
        w = nw;
        h = nh;
    }
    proof {
        assert(mip_chain(w, h).len() == 1);
    }
    levels
}

} // verus!
