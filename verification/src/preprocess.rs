//! Deterministic seeding, cell numbering and segmentation of the
//! source-image recoloring performed before kaleidoscope mapping.
use rand_core::{Rng, SeedableRng};
use sha2::Digest;
use vstd::arithmetic::div_mod::{
    lemma_div_pos_is_pos, lemma_fundamental_div_mod, lemma_fundamental_div_mod_converse,
    lemma_mod_pos_bound, lemma_multiply_divide_lt,
};
use vstd::arithmetic::mul::lemma_mul_is_commutative;
use vstd::prelude::*;

verus! {

/// Number of hue bands the recoloring chooses offsets from.
pub const HUE_BAND_COUNT: usize = 8;

/// How the source image is segmented before each segment's hue is shifted.
#[derive(Debug, Clone, Copy, PartialEq, Eq, Structural)]
pub enum RecolorMode {
    ColorBands,
    BorderedCells,
    SeededVoronoi,
    ConnectedComponents,
    SlicSuperpixels,
}

/// Errors of the recoloring set-up.
#[derive(Debug, Clone, Copy, PartialEq, Eq, Structural)]
pub enum PreprocessError {
    /// The recolor threshold was not a finite number.
    InvalidThreshold,
}

impl PreprocessError {
    /// The human-readable description of the error.
    pub fn message(&self) -> (r: &'static str)
        ensures
            r@ == "recolor threshold must be finite"@,
    {
        match self {
            PreprocessError::InvalidThreshold => "recolor threshold must be finite",
        }
    }
}

/// The recolor mode a preset's numeric `recolor_mode` setting selects when
/// rendering a still image: `1` selects bordered cells, anything else colour
/// bands.
pub fn recolor_mode_for_setting(setting: u8) -> (r: RecolorMode)
    ensures
        r == (if setting == 1 {
            RecolorMode::BorderedCells
        } else {
            RecolorMode::ColorBands
        }),
{
    if setting == 1 {
        RecolorMode::BorderedCells
    } else {
        RecolorMode::ColorBands
    }
}

/// The integer hash that numbers grid cells and segments: a multiply-xorshift
/// mix of the two coordinates and the seed.
pub open spec fn cell_hash(x: i32, y: i32, seed: u32) -> u32 {
    hash_finish(hash_combine(x, y, seed))
}

/// The first step of [`cell_hash`]: both coordinates multiplied by odd
/// constants and folded together with the seed.
pub open spec fn hash_combine(x: i32, y: i32, seed: u32) -> u32 {
    ((x as u32).wrapping_mul(0x8da6_b343u32) ^ (y as u32).wrapping_mul(0xd816_3841u32)) ^ seed
}

/// The avalanche steps of [`cell_hash`]: xorshifts and odd multiplications.
pub open spec fn hash_finish(h0: u32) -> u32 {
    let h1 = h0 ^ (h0 >> 16u32);
    let h2 = h1.wrapping_mul(0x7feb_352du32);
    let h3 = h2 ^ (h2 >> 15u32);
    let h4 = h3.wrapping_mul(0x846c_a68bu32);
    h4 ^ (h4 >> 16u32)
}

/// Multiplying by `0x7feb_352d` modulo 2^32 loses nothing: `0x1d69_e2a5`
/// undoes it.
proof fn lemma_mul_7feb352d_injective(a: u32, b: u32)
    requires
        a.wrapping_mul(0x7feb_352du32) == b.wrapping_mul(0x7feb_352du32),
    ensures
        a == b,
{
    assert(forall|v: u32|
        #![trigger (v * 0x7feb_352du32) % 0x1_0000_0000]
        ((v * 0x7feb_352du32) % 0x1_0000_0000) * 0x1d69_e2a5u32 % 0x1_0000_0000 == v) by (bit_vector);
    assert((a * 0x7feb_352du32) % 0x1_0000_0000 == (b * 0x7feb_352du32) % 0x1_0000_0000);
}

/// Multiplying by `0x846c_a68b` modulo 2^32 loses nothing: `0x4302_1123`
/// undoes it.
proof fn lemma_mul_846ca68b_injective(a: u32, b: u32)
    requires
        a.wrapping_mul(0x846c_a68bu32) == b.wrapping_mul(0x846c_a68bu32),
    ensures
        a == b,
{
    assert(forall|v: u32|
        #![trigger (v * 0x846c_a68bu32) % 0x1_0000_0000]
        ((v * 0x846c_a68bu32) % 0x1_0000_0000) * 0x4302_1123u32 % 0x1_0000_0000 == v) by (bit_vector);
    assert((a * 0x846c_a68bu32) % 0x1_0000_0000 == (b * 0x846c_a68bu32) % 0x1_0000_0000);
}

/// Multiplying by `0x8da6_b343` modulo 2^32 loses nothing: `0xb19b_f16b`
/// undoes it.
proof fn lemma_mul_8da6b343_injective(a: u32, b: u32)
    requires
        a.wrapping_mul(0x8da6_b343u32) == b.wrapping_mul(0x8da6_b343u32),
    ensures
        a == b,
{
    assert(forall|v: u32|
        #![trigger (v * 0x8da6_b343u32) % 0x1_0000_0000]
        ((v * 0x8da6_b343u32) % 0x1_0000_0000) * 0xb19b_f16bu32 % 0x1_0000_0000 == v) by (bit_vector);
    assert((a * 0x8da6_b343u32) % 0x1_0000_0000 == (b * 0x8da6_b343u32) % 0x1_0000_0000);
}

/// Multiplying by `0xd816_3841` modulo 2^32 loses nothing: `0xc5c1_d7c1`
/// undoes it.
proof fn lemma_mul_d8163841_injective(a: u32, b: u32)
    requires
        a.wrapping_mul(0xd816_3841u32) == b.wrapping_mul(0xd816_3841u32),
    ensures
        a == b,
{
    assert(forall|v: u32|
        #![trigger (v * 0xd816_3841u32) % 0x1_0000_0000]
        ((v * 0xd816_3841u32) % 0x1_0000_0000) * 0xc5c1_d7c1u32 % 0x1_0000_0000 == v) by (bit_vector);
    assert((a * 0xd816_3841u32) % 0x1_0000_0000 == (b * 0xd816_3841u32) % 0x1_0000_0000);
}

/// An xorshift by 16 bits loses nothing.
proof fn lemma_xorshift16_injective(a: u32, b: u32)
    requires
        a ^ (a >> 16u32) == b ^ (b >> 16u32),
    ensures
        a == b,
{
    assert(a ^ (a >> 16u32) == b ^ (b >> 16u32) ==> a == b) by (bit_vector);
}

/// An xorshift by 15 bits loses nothing.
proof fn lemma_xorshift15_injective(a: u32, b: u32)
    requires
        a ^ (a >> 15u32) == b ^ (b >> 15u32),
    ensures
        a == b,
{
    assert(a ^ (a >> 15u32) == b ^ (b >> 15u32) ==> a == b) by (bit_vector);
}

/// The avalanche steps of [`cell_hash`] map distinct words to distinct words.
proof fn lemma_hash_finish_injective(a: u32, b: u32)
    requires
        hash_finish(a) == hash_finish(b),
    ensures
        a == b,
{
    let a1 = a ^ (a >> 16u32);
    let b1 = b ^ (b >> 16u32);
    let a2 = a1.wrapping_mul(0x7feb_352du32);
    let b2 = b1.wrapping_mul(0x7feb_352du32);
    let a3 = a2 ^ (a2 >> 15u32);
    let b3 = b2 ^ (b2 >> 15u32);
    let a4 = a3.wrapping_mul(0x846c_a68bu32);
    let b4 = b3.wrapping_mul(0x846c_a68bu32);
    lemma_xorshift16_injective(a4, b4);
    lemma_mul_846ca68b_injective(a3, b3);
    lemma_xorshift15_injective(a2, b2);
    lemma_mul_7feb352d_injective(a1, b1);
    lemma_xorshift16_injective(a, b);
}

/// A coordinate's bits, read as a `u32`, name the coordinate.
proof fn lemma_coordinate_bits_injective(a: i32, b: i32)
    requires
        a as u32 == b as u32,
    ensures
        a == b,
{
    assert(a as u32 == b as u32 ==> a == b) by (bit_vector);
}

/// For one cell, distinct seeds give distinct hashes.
pub proof fn cell_hash_separates_seeds(x: i32, y: i32, seed1: u32, seed2: u32)
    requires
        cell_hash(x, y, seed1) == cell_hash(x, y, seed2),
    ensures
        seed1 == seed2,
{
    let c = (x as u32).wrapping_mul(0x8da6_b343u32) ^ (y as u32).wrapping_mul(0xd816_3841u32);
    lemma_hash_finish_injective(hash_combine(x, y, seed1), hash_combine(x, y, seed2));
    assert((c ^ seed1) == (c ^ seed2) ==> seed1 == seed2) by (bit_vector);
}

/// Along one row (fixed `y`) and for one seed, distinct columns give distinct
/// hashes.
pub proof fn cell_hash_separates_columns(x1: i32, x2: i32, y: i32, seed: u32)
    requires
        cell_hash(x1, y, seed) == cell_hash(x2, y, seed),
    ensures
        x1 == x2,
{
    let n = (y as u32).wrapping_mul(0xd816_3841u32);
    let m1 = (x1 as u32).wrapping_mul(0x8da6_b343u32);
    let m2 = (x2 as u32).wrapping_mul(0x8da6_b343u32);
    lemma_hash_finish_injective(hash_combine(x1, y, seed), hash_combine(x2, y, seed));
    assert(((m1 ^ n) ^ seed) == ((m2 ^ n) ^ seed) ==> m1 == m2) by (bit_vector);
    lemma_mul_8da6b343_injective(x1 as u32, x2 as u32);
    lemma_coordinate_bits_injective(x1, x2);
}

/// Along one column (fixed `x`) and for one seed, distinct rows give distinct
/// hashes.
pub proof fn cell_hash_separates_rows(x: i32, y1: i32, y2: i32, seed: u32)
    requires
        cell_hash(x, y1, seed) == cell_hash(x, y2, seed),
    ensures
        y1 == y2,
{
    let m = (x as u32).wrapping_mul(0x8da6_b343u32);
    let n1 = (y1 as u32).wrapping_mul(0xd816_3841u32);
    let n2 = (y2 as u32).wrapping_mul(0xd816_3841u32);
    lemma_hash_finish_injective(hash_combine(x, y1, seed), hash_combine(x, y2, seed));
    assert(((m ^ n1) ^ seed) == ((m ^ n2) ^ seed) ==> n1 == n2) by (bit_vector);
    lemma_mul_d8163841_injective(y1 as u32, y2 as u32);
    lemma_coordinate_bits_injective(y1, y2);
}

/// The origin cell hashed with the zero seed is `0`.
pub proof fn cell_hash_of_origin_with_zero_seed()
    ensures
        cell_hash(0, 0, 0) == 0,
{
    let z: u32 = 0;
    assert(z.wrapping_mul(0x8da6_b343u32) == 0);
    assert(z.wrapping_mul(0xd816_3841u32) == 0);
    assert(hash_combine(0, 0, 0) == 0) by (bit_vector);
    assert(z ^ (z >> 16u32) == 0) by (bit_vector)
        requires
            z == 0,
    ;
    assert(z.wrapping_mul(0x7feb_352du32) == 0);
    assert(z ^ (z >> 15u32) == 0) by (bit_vector)
        requires
            z == 0,
    ;
    assert(z.wrapping_mul(0x846c_a68bu32) == 0);
}

/// Hashes a grid cell (or a segment's number and size) with a seed word.
pub fn hash_cell(x: i32, y: i32, seed: u32) -> (r: u32)
    ensures
        r == cell_hash(x, y, seed),
{
    let mut h = (x as u32).wrapping_mul(0x8da6_b343u32) ^ (y as u32).wrapping_mul(0xd816_3841u32)
        ^ seed;
    h = h ^ (h >> 16u32);
    h = h.wrapping_mul(0x7feb_352du32);
    h = h ^ (h >> 15u32);
    h = h.wrapping_mul(0x846c_a68bu32);
    h ^ (h >> 16u32)
}

/// The hue band a hash selects.
pub fn band_index(hash: u32) -> (r: usize)
    ensures
        r == hash as int % HUE_BAND_COUNT as int,
        r < HUE_BAND_COUNT,
{
    hash as usize % HUE_BAND_COUNT
}

/// The hue band of a connected segment, from its number in discovery order,
/// its pixel count and the seed word reserved for segments.
pub fn component_band(component_id: u32, component_len: usize, seed: u32) -> (r: usize)
    ensures
        r == cell_hash(component_id as i32, component_len as i32, seed) as int
            % HUE_BAND_COUNT as int,
        r < HUE_BAND_COUNT,
{
    band_index(hash_cell(component_id as i32, component_len as i32, seed))
}

/// The two hue bands a bordered-cell pixel interpolates between, from its
/// hue, saturation and value bins: the value bin and the next one up (capped
/// at the top bin `3`).
pub fn bordered_cell_bands(hue_bin: usize, sat_bin: usize, value_bin: usize) -> (r: (usize, usize))
    requires
        hue_bin + sat_bin * 5 + value_bin * 3 <= usize::MAX,
        hue_bin + sat_bin * 5 + 9 <= usize::MAX,
    ensures
        r.0 == (hue_bin + sat_bin * 5 + value_bin * 3) % HUE_BAND_COUNT as int,
        r.1 == (hue_bin + sat_bin * 5 + (if value_bin + 1 < 3 {
            value_bin + 1
        } else {
            3
        }) * 3) % HUE_BAND_COUNT as int,
{
    let next_value: usize = if value_bin < 2 {
        value_bin + 1
    } else {
        3
    };
    let a = (hue_bin + sat_bin * 5 + value_bin * 3) % HUE_BAND_COUNT;
    let b = (hue_bin + sat_bin * 5 + next_value * 3) % HUE_BAND_COUNT;
    (a, b)
}

/// The band a hue position falls in and the band after it, wrapping around.
pub fn adjacent_bands(position: usize) -> (r: (usize, usize))
    ensures
        r.0 == position as int % HUE_BAND_COUNT as int,
        r.1 == (position as int % HUE_BAND_COUNT as int + 1) % HUE_BAND_COUNT as int,
{
    let i = position % HUE_BAND_COUNT;
    (i, (i + 1) % HUE_BAND_COUNT)
}

/// Name for the SHA-256 digest of a byte sequence.
pub uninterp spec fn sha256_of(data: Seq<u8>) -> Seq<u8>;

/// Trusted: calls `sha2::Sha256::digest` and converts the 32-byte output to
/// an array. Claims only that the result is the SHA-256 digest of `data`,
/// named `sha256_of`, which depends on the bytes of `data` alone.
#[verifier::external_body]
fn sha256_digest(data: &[u8]) -> (digest: [u8; 32])
    ensures
        digest@ == sha256_of(data@),
{
    sha2::Sha256::digest(data).into()
}

/// Name for the first eight 32-bit words that a ChaCha8 generator seeded with
/// `seed` produces.
pub uninterp spec fn chacha8_opening_words(seed: Seq<u8>) -> Seq<u32>;

/// Trusted: seeds `rand_chacha::ChaCha8Rng::from_seed` with `seed` and draws
/// eight words with `Rng::next_u32`, in order. Claims only that they are the
/// generator's first eight words, named `chacha8_opening_words`, which depend
/// on the seed alone.
#[verifier::external_body]
fn chacha8_words(seed: [u8; 32]) -> (words: [u32; 8])
    ensures
        words@ == chacha8_opening_words(seed@),
{
    let mut rng = rand_chacha::ChaCha8Rng::from_seed(seed);
    [
        rng.next_u32(),
        rng.next_u32(),
        rng.next_u32(),
        rng.next_u32(),
        rng.next_u32(),
        rng.next_u32(),
        rng.next_u32(),
        rng.next_u32(),
    ]
}

/// Little-endian 32-bit word `i` of a byte sequence.
pub open spec fn le_word(bytes: Seq<u8>, i: int) -> u32 {
    (bytes[4 * i] + bytes[4 * i + 1] * 256 + bytes[4 * i + 2] * 65536 + bytes[4 * i + 3]
        * 16777216) as u32
}

/// The first four little-endian words of a 32-byte digest.
pub fn digest_words(digest: &[u8; 32]) -> (r: [u32; 4])
    ensures
        forall|i: int| 0 <= i < 4 ==> #[trigger] r@[i] == le_word(digest@, i),
{
    let mut words = [0u32; 4];
    let mut i: usize = 0;
    while i < 4
        invariant
            i <= 4,
            forall|k: int| 0 <= k < i ==> #[trigger] words@[k] == le_word(digest@, k),
        decreases 4 - i,
    {
        let b0 = digest[4 * i] as u32;
        let b1 = digest[4 * i + 1] as u32;
        let b2 = digest[4 * i + 2] as u32;
        let b3 = digest[4 * i + 3] as u32;
        words[i] = b0 + b1 * 256 + b2 * 65536 + b3 * 16777216;
        i = i + 1;
    }
    words
}

/// The integer material that seeds the recoloring of one seed string: the
/// eight raw words the hue offsets are scaled from, and four seed words for
/// cell and segment hashing.
#[derive(Debug, Clone, Copy, PartialEq, Eq)]
pub struct SeedMaterial {
    pub hue_words: [u32; 8],
    pub seed_words: [u32; 4],
}

/// Derives the seed material of `seed_input`: its SHA-256 digest seeds a
/// ChaCha8 generator whose first eight words become the hue words, and the
/// digest's first four little-endian words become the seed words.
pub fn seed_material(seed_input: &[u8]) -> (r: SeedMaterial)
    ensures
        r.hue_words@ == chacha8_opening_words(sha256_of(seed_input@)),
        forall|i: int| 0 <= i < 4 ==> #[trigger] r.seed_words@[i] == le_word(sha256_of(seed_input@), i),
{
    let digest = sha256_digest(seed_input);
    let hue_words = chacha8_words(digest);
    let seed_words = digest_words(&digest);
    SeedMaterial { hue_words, seed_words }
}

/// Largest squared RGB distance (in 8-bit steps, summed over the three colour
/// channels) at which two neighbouring pixels belong to one connected
/// component: the largest integer within a Euclidean tolerance of 0.12 on the
/// unit colour cube.
pub const COMPONENT_TOLERANCE_SQ: u32 = 936;

/// Marks a pixel no component has reached yet.
const UNLABELED: u32 = 0xffff_ffffu32;

/// Squared RGB distance between pixels `p` and `q` of an RGBA8 image.
pub open spec fn rgb_distance_sq(img: Seq<u8>, p: int, q: int) -> int {
    let d0 = img[4 * p] - img[4 * q];
    let d1 = img[4 * p + 1] - img[4 * q + 1];
    let d2 = img[4 * p + 2] - img[4 * q + 2];
    d0 * d0 + d1 * d1 + d2 * d2
}

/// Pixels `p` and `q` of a `width x height` image are 4-neighbours.
pub open spec fn pixels_adjacent(width: int, height: int, p: int, q: int) -> bool {
    &&& 0 <= p < width * height
    &&& 0 <= q < width * height
    &&& {
        let (px, py, qx, qy) = (p % width, p / width, q % width, q / width);
        ||| py == qy && (px == qx + 1 || qx == px + 1)
        ||| px == qx && (py == qy + 1 || qy == py + 1)
    }
}

/// Pixels `p` and `q` are 4-neighbours of nearly the same colour.
pub open spec fn pixels_linked(img: Seq<u8>, width: int, height: int, p: int, q: int) -> bool {
    pixels_adjacent(width, height, p, q) && rgb_distance_sq(img, p, q)
        <= COMPONENT_TOLERANCE_SQ
}

/// `path` is a walk through the image along linked pixels.
pub open spec fn is_link_path(img: Seq<u8>, width: int, height: int, path: Seq<int>) -> bool {
    &&& path.len() >= 1
    &&& forall|i: int| 0 <= i < path.len() ==> 0 <= #[trigger] path[i] < width * height
    &&& forall|i: int|
        0 <= i < path.len() - 1 ==> pixels_linked(img, width, height, #[trigger] path[i], path[i + 1])
}

/// Pixels `p` and `q` are joined by a walk along linked pixels.
pub open spec fn pixels_connected(img: Seq<u8>, width: int, height: int, p: int, q: int) -> bool {
    exists|path: Seq<int>|
        #[trigger] is_link_path(img, width, height, path) && path[0] == p && path.last() == q
}

/// Number of positions below `m` that hold `k`.
pub open spec fn count_below(labels: Seq<u32>, k: u32, m: int) -> nat
    decreases m,
{
    if m <= 0 {
        0
    } else {
        count_below(labels, k, m - 1) + if labels[m - 1] == k {
            1nat
        } else {
            0nat
        }
    }
}

/// Number of pixels carrying label `k`.
pub open spec fn label_count(labels: Seq<u32>, k: u32) -> nat {
    count_below(labels, k, labels.len() as int)
}

proof fn lemma_count_below_bound(labels: Seq<u32>, k: u32, m: int)
    requires
        m >= 0,
    ensures
        count_below(labels, k, m) <= m,
    decreases m,
{
    if m > 0 {
        lemma_count_below_bound(labels, k, m - 1);
    }
}

proof fn lemma_count_below_update(labels: Seq<u32>, i: int, v: u32, k: u32, m: int)
    requires
        0 <= i < labels.len(),
        0 <= m <= labels.len(),
    ensures
        count_below(labels.update(i, v), k, m) + (if i < m && labels[i] == k {
            1int
        } else {
            0int
        }) == count_below(labels, k, m) + (if i < m && v == k {
            1int
        } else {
            0int
        }),
    decreases m,
{
    if m > 0 {
        lemma_count_below_update(labels, i, v, k, m - 1);
    }
}

proof fn lemma_linked_symmetric(img: Seq<u8>, width: int, height: int, p: int, q: int)
    requires
        pixels_linked(img, width, height, p, q),
    ensures
        pixels_linked(img, width, height, q, p),
{
    let d0 = img[4 * p] - img[4 * q];
    let d1 = img[4 * p + 1] - img[4 * q + 1];
    let d2 = img[4 * p + 2] - img[4 * q + 2];
    assert((-d0) * (-d0) == d0 * d0 && (-d1) * (-d1) == d1 * d1 && (-d2) * (-d2) == d2 * d2)
        by (nonlinear_arith);
}

/// Two walks from a common start join the pixels they end at.
proof fn lemma_join_paths(img: Seq<u8>, width: int, height: int, a: Seq<int>, b: Seq<int>)
    requires
        is_link_path(img, width, height, a),
        is_link_path(img, width, height, b),
        a[0] == b[0],
    ensures
        pixels_connected(img, width, height, a.last(), b.last()),
{
    let ra = a.reverse();
    let path = ra + b.subrange(1, b.len() as int);
    let n = a.len() as int;
    assert forall|i: int| 0 <= i < path.len() - 1 implies pixels_linked(
        img,
        width,
        height,
        #[trigger] path[i],
        path[i + 1],
    ) by {
        if i < n - 1 {
            assert(path[i] == a[n - 1 - i]);
            assert(path[i + 1] == a[n - 2 - i]);
            assert(pixels_linked(img, width, height, a[n - 2 - i], a[n - 1 - i]));
            lemma_linked_symmetric(img, width, height, a[n - 2 - i], a[n - 1 - i]);
        } else if i == n - 1 {
            assert(path[i] == a[0]);
            assert(path[i + 1] == b[1]);
            assert(pixels_linked(img, width, height, b[0], b[1]));
        } else {
            assert(path[i] == b[i - n + 1]);
            assert(path[i + 1] == b[i - n + 2]);
            assert(pixels_linked(img, width, height, b[i - n + 1], b[i - n + 2]));
        }
    }
    assert forall|i: int| 0 <= i < path.len() implies 0 <= #[trigger] path[i] < width * height by {
        if i < n {
            assert(path[i] == a[n - 1 - i]);
        } else {
            assert(path[i] == b[i - n + 1]);
        }
    }
    assert(path[0] == a.last());
    assert(path.last() == b.last());
    assert(is_link_path(img, width, height, path));
}

/// A walk extended by a pixel linked to its end.
proof fn lemma_extend_path(img: Seq<u8>, width: int, height: int, a: Seq<int>, q: int)
    requires
        is_link_path(img, width, height, a),
        pixels_linked(img, width, height, a.last(), q),
    ensures
        is_link_path(img, width, height, a.push(q)),
        a.push(q)[0] == a[0],
        a.push(q).last() == q,
{
    let path = a.push(q);
    assert forall|i: int| 0 <= i < path.len() - 1 implies pixels_linked(
        img,
        width,
        height,
        #[trigger] path[i],
        path[i + 1],
    ) by {
        if i < a.len() - 1 {
            assert(path[i] == a[i] && path[i + 1] == a[i + 1]);
        }
    }
}


/// Coordinates of a pixel index: `p == (p / width) * width + p % width`,
/// with the row below `height` and the column below `width`.
proof fn lemma_pixel_coordinates(width: int, height: int, p: int)
    requires
        width > 0,
        0 <= p < width * height,
    ensures
        p == (p / width) * width + p % width,
        0 <= p % width < width,
        0 <= p / width < height,
{
    lemma_fundamental_div_mod(p, width);
    lemma_div_pos_is_pos(p, width);
    lemma_mod_pos_bound(p, width);
    lemma_multiply_divide_lt(p, width, height);
    lemma_mul_is_commutative(p / width, width);
}

/// The 4-neighbours of `p`: left, right, up and down, where they exist.
proof fn lemma_neighbours(width: int, height: int, p: int, q: int)
    requires
        width > 0,
        height > 0,
        0 <= p < width * height,
    ensures
        pixels_adjacent(width, height, p, q) <==> {
            ||| p % width > 0 && q == p - 1
            ||| p % width + 1 < width && q == p + 1
            ||| p / width > 0 && q == p - width
            ||| p / width + 1 < height && q == p + width
        },
{
    let x = p % width;
    let y = p / width;
    lemma_pixel_coordinates(width, height, p);
    let n = width * height;
    if x > 0 && q == p - 1 {
        lemma_fundamental_div_mod_converse(q, width, y, x - 1);
        assert(pixels_adjacent(width, height, p, q));
    }
    if x + 1 < width && q == p + 1 {
        lemma_fundamental_div_mod_converse(q, width, y, x + 1);
        assert((y + 1) * width <= width * height) by (nonlinear_arith)
            requires
                0 <= y < height,
                width > 0,
        ;
        assert((y + 1) * width == y * width + width) by (nonlinear_arith);
        assert(pixels_adjacent(width, height, p, q));
    }
    if y > 0 && q == p - width {
        assert(q == (y - 1) * width + x) by (nonlinear_arith)
            requires
                q == p - width,
                p == y * width + x,
        ;
        lemma_fundamental_div_mod_converse(q, width, y - 1, x);
        assert(0 <= (y - 1) * width) by (nonlinear_arith)
            requires
                y > 0,
                width > 0,
        ;
        assert(pixels_adjacent(width, height, p, q));
    }
    if y + 1 < height && q == p + width {
        assert(q == (y + 1) * width + x) by (nonlinear_arith)
            requires
                q == p + width,
                p == y * width + x,
        ;
        lemma_fundamental_div_mod_converse(q, width, y + 1, x);
        assert((y + 2) * width <= width * height) by (nonlinear_arith)
            requires
                0 <= y + 1 < height,
                width > 0,
        ;
        assert((y + 2) * width == (y + 1) * width + width) by (nonlinear_arith);
        assert(pixels_adjacent(width, height, p, q));
    }
    if pixels_adjacent(width, height, p, q) {
        lemma_pixel_coordinates(width, height, q);
        let qx = q % width;
        let qy = q / width;
        if qy == y {
            assert(qy * width == y * width);
            if qx == x + 1 {
                assert(q == p + 1);
            } else {
                assert(q == p - 1);
            }
        }
        if qy == y + 1 {
            assert(q == p + width) by (nonlinear_arith)
                requires
                    q == qy * width + qx,
                    p == y * width + x,
                    qy == y + 1,
                    qx == x,
            ;
        }
        if y == qy + 1 {
            assert(q == p - width) by (nonlinear_arith)
                requires
                    q == qy * width + qx,
                    p == y * width + x,
                    y == qy + 1,
                    qx == x,
            ;
        }
    }
}


/// Facts that hold between components of the labelling scan: pixels before
/// `s` are labelled, the `c` components found so far are closed under links,
/// counted, numbered by their first pixel, and each pixel of one is reached
/// from that first pixel by a walk (`paths`).
spec fn scan_inv(
    img: Seq<u8>,
    width: int,
    height: int,
    labels: Seq<u32>,
    c: u32,
    s: int,
    starts: Seq<int>,
    paths: Seq<Seq<int>>,
    sizes: Seq<u32>,
) -> bool {
    let n = width * height;
    &&& labels.len() == n
    &&& paths.len() == n
    &&& 0 <= s <= n
    &&& c <= s
    &&& sizes.len() == c
    &&& starts.len() >= c
    &&& forall|p: int| 0 <= p < s ==> #[trigger] labels[p] < c
    &&& forall|p: int| 0 <= p < n ==> #[trigger] labels[p] == UNLABELED || labels[p] <= c
    &&& forall|k: int|
        0 <= k < c ==> #[trigger] sizes[k] == label_count(labels, k as u32) && sizes[k] >= 1
    &&& forall|k: int| 0 <= k < c ==> 0 <= #[trigger] starts[k] < s && labels[starts[k]] == k
    &&& forall|k: int| 0 < k < c ==> #[trigger] starts[k - 1] < starts[k]
    &&& forall|p: int|
        0 <= p < n && #[trigger] labels[p] != UNLABELED ==> {
            &&& labels[p] < starts.len()
            &&& starts[labels[p] as int] <= p
            &&& is_link_path(img, width, height, paths[p])
            &&& paths[p][0] == starts[labels[p] as int]
            &&& paths[p].last() == p
        }
    &&& forall|p: int, q: int|
        #[trigger] pixels_linked(img, width, height, p, q) && labels[p] < c ==> labels[q] == labels[p]
}

/// Facts that hold while component `c`, started at pixel `s`, is being
/// searched: those of [`scan_inv`] for the finished components, and the queue
/// holds exactly the pixels labelled `c` so far, each once.
spec fn search_inv(
    img: Seq<u8>,
    width: int,
    height: int,
    labels: Seq<u32>,
    queue: Seq<usize>,
    c: u32,
    s: int,
    starts: Seq<int>,
    paths: Seq<Seq<int>>,
    sizes: Seq<u32>,
) -> bool {
    let n = width * height;
    &&& scan_inv(img, width, height, labels, c, s, starts, paths, sizes)
    &&& s < n
    &&& starts.len() == c + 1
    &&& starts[c as int] == s
    &&& c == 0 || starts[c - 1] < s
    &&& labels[s] == c
    &&& queue.len() >= 1
    &&& queue.len() <= n
    &&& queue[0] == s
    &&& label_count(labels, c) == queue.len()
    &&& forall|i: int| 0 <= i < queue.len() ==> #[trigger] queue[i] < n && labels[queue[i] as int] == c
    &&& forall|p: int|
        0 <= p < n && #[trigger] labels[p] == c ==> exists|i: int|
            0 <= i < queue.len() && #[trigger] queue[i] == p
}

/// Puts neighbour `q` of the queued pixel `p` into component `c` when it has
/// no component yet and is close enough in colour.
fn visit_neighbour(
    rgba: &[u8],
    width: usize,
    height: usize,
    labels: &mut Vec<u32>,
    queue: &mut Vec<usize>,
    p: usize,
    q: usize,
    c: u32,
    Ghost(s): Ghost<int>,
    Ghost(starts): Ghost<Seq<int>>,
    Ghost(sizes): Ghost<Seq<u32>>,
    Ghost(paths): Ghost<Seq<Seq<int>>>,
) -> (new_paths: Ghost<Seq<Seq<int>>>)
    requires
        width > 0,
        height > 0,
        rgba@.len() == width * height * 4,
        width * height <= u32::MAX,
        search_inv(rgba@, width as int, height as int, old(labels)@, old(queue)@, c, s, starts, paths, sizes),
        p < width * height,
        old(labels)@[p as int] == c,
        pixels_adjacent(width as int, height as int, p as int, q as int),
    ensures
        search_inv(rgba@, width as int, height as int, final(labels)@, final(queue)@, c, s, starts, new_paths@, sizes),
        pixels_linked(rgba@, width as int, height as int, p as int, q as int) ==> final(labels)@[q as int] == c,
        forall|r: int|
            0 <= r < width * height && old(labels)@[r] != UNLABELED ==> #[trigger] final(labels)@[r]
                == old(labels)@[r],
        final(queue)@.len() >= old(queue)@.len(),
        forall|i: int| 0 <= i < old(queue)@.len() ==> #[trigger] final(queue)@[i] == old(queue)@[i],
{
    let ghost img = rgba@;
    let ghost w = width as int;
    let ghost h = height as int;
    let ghost n = w * h;
    if labels[q] != UNLABELED {
        proof {
            if pixels_linked(img, w, h, p as int, q as int) && labels@[q as int] < c {
                lemma_linked_symmetric(img, w, h, p as int, q as int);
                assert(labels@[p as int] == labels@[q as int]);
            }
        }
        return Ghost(paths);
    }
    let len = rgba.len();
    proof {
        assert(4 * q + 3 < len && 4 * p + 3 < len) by (nonlinear_arith)
            requires
                p < n,
                q < n,
                len == n * 4,
        ;
    }
    let d0 = rgba[4 * p] as i32 - rgba[4 * q] as i32;
    let d1 = rgba[4 * p + 1] as i32 - rgba[4 * q + 1] as i32;
    let d2 = rgba[4 * p + 2] as i32 - rgba[4 * q + 2] as i32;
    proof {
        assert(d0 * d0 <= 65025 && d1 * d1 <= 65025 && d2 * d2 <= 65025) by (nonlinear_arith)
            requires
                -255 <= d0 <= 255,
                -255 <= d1 <= 255,
                -255 <= d2 <= 255,
        ;
        assert(d0 * d0 >= 0 && d1 * d1 >= 0 && d2 * d2 >= 0) by (nonlinear_arith);
    }
    let distance_sq = d0 * d0 + d1 * d1 + d2 * d2;
    if distance_sq > COMPONENT_TOLERANCE_SQ as i32 {
        return Ghost(paths);
    }
    let ghost old_labels = labels@;
    let ghost old_queue = queue@;
    labels.set(q, c);
    queue.push(q);
    let ghost new_paths = paths.update(q as int, paths[p as int].push(q as int));
    proof {
        let qi = q as int;
        assert(pixels_linked(img, w, h, p as int, qi));
        lemma_extend_path(img, w, h, paths[p as int], qi);
        // `q` comes after every pixel of an earlier component.
        assert(qi >= s) by {
            if qi < s {
                assert(old_labels[qi] < c);
            }
        }
        assert forall|k: int| 0 <= k < c implies #[trigger] sizes[k] == label_count(labels@, k as u32) by {
            lemma_count_below_update(old_labels, qi, c, k as u32, n);
        }
        lemma_count_below_update(old_labels, qi, c, c, n);
        lemma_count_below_bound(labels@, c, n);
        assert forall|r: int| 0 <= r < n && #[trigger] labels@[r] == c implies exists|i: int|
            0 <= i < queue@.len() && #[trigger] queue@[i] == r by {
            if r == qi {
                assert(queue@[old_queue.len() as int] == r);
            } else {
                assert(old_labels[r] == c);
                let i = choose|i: int| 0 <= i < old_queue.len() && #[trigger] old_queue[i] == r;
                assert(queue@[i] == r);
            }
        }
        assert forall|a: int, b: int|
            #[trigger] pixels_linked(img, w, h, a, b) && labels@[a] < c implies labels@[b] == labels@[a] by {
            assert(a != qi);
            assert(old_labels[a] < c);
        }
        assert forall|r: int| 0 <= r < n && #[trigger] labels@[r] != UNLABELED implies {
            &&& labels@[r] < starts.len()
            &&& starts[labels@[r] as int] <= r
            &&& is_link_path(img, w, h, new_paths[r])
            &&& new_paths[r][0] == starts[labels@[r] as int]
            &&& new_paths[r].last() == r
        } by {
            if r != qi {
                assert(old_labels[r] != UNLABELED);
            }
        }
        assert(search_inv(img, w, h, labels@, queue@, c, s, starts, new_paths, sizes));
    }
    Ghost(new_paths)
}


/// The connected components of an image: each pixel's component number and
/// each component's pixel count.
#[derive(Debug, Clone)]
pub struct ComponentLabels {
    /// Component number of every pixel, in row-major pixel order.
    pub labels: Vec<u32>,
    /// Pixel count of every component, by component number.
    pub sizes: Vec<u32>,
}

/// Splits a `width x height` RGBA8 image into connected components: pixels
/// are linked when they are 4-neighbours whose RGB values differ by at most
/// [`COMPONENT_TOLERANCE_SQ`] in squared distance, and a component is a
/// maximal set of pixels joined by links. Components are numbered from `0` in
/// the row-major order of their first pixel, and each component is searched
/// breadth-first from that pixel.
pub fn label_connected_components(rgba: &[u8], width: u32, height: u32) -> (r: ComponentLabels)
    requires
        width * height <= u32::MAX,
        rgba@.len() == width * height * 4,
    ensures
        r.labels@.len() == width * height,
        forall|p: int|
            0 <= p < width * height ==> (#[trigger] r.labels@[p] as int) < r.sizes@.len(),
        forall|k: int|
            0 <= k < r.sizes@.len() ==> #[trigger] r.sizes@[k] == label_count(r.labels@, k as u32)
                && r.sizes@[k] >= 1,
        forall|p: int, q: int|
            #[trigger] pixels_linked(rgba@, width as int, height as int, p, q) ==> r.labels@[p]
                == r.labels@[q],
        forall|p: int, q: int|
            0 <= p < width * height && 0 <= q < width * height && #[trigger] r.labels@[p]
                == #[trigger] r.labels@[q] ==> pixels_connected(rgba@, width as int, height as int, p, q),
        forall|p: int|
            0 <= p < width * height && #[trigger] r.labels@[p] > 0 ==> exists|q: int|
                0 <= q < p && #[trigger] r.labels@[q] == r.labels@[p] - 1,
{
    let w = width as usize;
    let h = height as usize;
    let n = w * h;
    let ghost img = rgba@;
    let ghost wi = w as int;
    let ghost hi = h as int;
    let mut labels: Vec<u32> = Vec::new();
    let mut i: usize = 0;
    while i < n
        invariant
            i <= n,
            labels@.len() == i,
            forall|k: int| 0 <= k < i ==> #[trigger] labels@[k] == UNLABELED,
        decreases n - i,
    {
        labels.push(UNLABELED);
        i = i + 1;
    }
    let mut sizes: Vec<u32> = Vec::new();
    let mut c: u32 = 0;
    let ghost mut starts: Seq<int> = Seq::empty();
    let ghost mut paths: Seq<Seq<int>> = Seq::new(n as nat, |k: int| seq![k]);
    let mut s: usize = 0;
    while s < n
        invariant
            w == width,
            h == height,
            n == w * h,
            n <= u32::MAX,
            img == rgba@,
            wi == w,
            hi == h,
            img.len() == n * 4,
            scan_inv(img, wi, hi, labels@, c, s as int, starts, paths, sizes@),
            starts.len() == c,
            forall|p: int| 0 <= p < n ==> #[trigger] labels@[p] == UNLABELED || labels@[p] < c,
        decreases n - s,
    {
        if labels[s] != UNLABELED {
            s = s + 1;
            continue;
        }
        let ghost before = labels@;
        labels.set(s, c);
        let mut queue: Vec<usize> = Vec::new();
        queue.push(s);
        proof {
            let si = s as int;
            starts = starts.push(si);
            paths = paths.update(si, seq![si]);
            assert forall|k: int| 0 <= k < c implies #[trigger] sizes@[k] == label_count(labels@, k as u32) by {
                lemma_count_below_update(before, si, c, k as u32, n as int);
            }
            lemma_count_below_update(before, si, c, c, n as int);
            assert(label_count(before, c) == 0) by {
                assert forall|m: int| 0 <= m <= n implies count_below(before, c, m) == 0 by {
                    lemma_count_below_zero(before, c, m);
                }
            }
            assert forall|p: int| 0 <= p < n && #[trigger] labels@[p] == c implies exists|k: int|
                0 <= k < queue@.len() && #[trigger] queue@[k] == p by {
                assert(p == si);
                assert(queue@[0] == p);
            }
            assert forall|a: int, b: int|
                #[trigger] pixels_linked(img, wi, hi, a, b) && labels@[a] < c implies labels@[b] == labels@[a] by {
                assert(a != si);
                if b == si {
                    assert(before[b] == labels@[a]);
                }
            }
            assert forall|p: int| 0 <= p < n && #[trigger] labels@[p] != UNLABELED implies {
                &&& labels@[p] < starts.len()
                &&& starts[labels@[p] as int] <= p
                &&& is_link_path(img, wi, hi, paths[p])
                &&& paths[p][0] == starts[labels@[p] as int]
                &&& paths[p].last() == p
            } by {
                if p != si {
                    assert(before[p] != UNLABELED);
                }
            }
            if c > 0 {
                assert(starts[c - 1] < si);
            }
            assert(search_inv(img, wi, hi, labels@, queue@, c, si, starts, paths, sizes@));
        }
        let mut head: usize = 0;
        while head < queue.len()
            invariant
                w == width,
                h == height,
                n == w * h,
                n <= u32::MAX,
                img == rgba@,
                wi == w,
                hi == h,
                w > 0,
                h > 0,
                img.len() == n * 4,
                s < n,
                search_inv(img, wi, hi, labels@, queue@, c, s as int, starts, paths, sizes@),
                head <= queue@.len(),
                forall|i: int, q: int|
                    0 <= i < head && #[trigger] pixels_linked(img, wi, hi, queue@[i] as int, q)
                        ==> labels@[q] == c,
            decreases n - head,
        {
            let p = queue[head];
            let x = p % w;
            let y = p / w;
            let ghost head_queue = queue@;
            let ghost head_labels = labels@;
            proof {
                lemma_pixel_coordinates(wi, hi, p as int);
            }
            if x > 0 {
                proof {
                    lemma_neighbours(wi, hi, p as int, p - 1);
                }
                let Ghost(next) = visit_neighbour(rgba, w, h, &mut labels, &mut queue, p, p - 1, c,
                    Ghost(s as int), Ghost(starts), Ghost(sizes@), Ghost(paths));
                proof {
                    paths = next;
                }
            }
            let ghost after_left = labels@;
            if x + 1 < w {
                proof {
                    lemma_neighbours(wi, hi, p as int, p + 1);
                }
                let Ghost(next) = visit_neighbour(rgba, w, h, &mut labels, &mut queue, p, p + 1, c,
                    Ghost(s as int), Ghost(starts), Ghost(sizes@), Ghost(paths));
                proof {
                    paths = next;
                }
            }
            let ghost after_right = labels@;
            if y > 0 {
                proof {
                    lemma_neighbours(wi, hi, p as int, p - w);
                }
                let Ghost(next) = visit_neighbour(rgba, w, h, &mut labels, &mut queue, p, p - w, c,
                    Ghost(s as int), Ghost(starts), Ghost(sizes@), Ghost(paths));
                proof {
                    paths = next;
                }
            }
            let ghost after_up = labels@;
            if y + 1 < h {
                proof {
                    lemma_neighbours(wi, hi, p as int, p + w);
                }
                let Ghost(next) = visit_neighbour(rgba, w, h, &mut labels, &mut queue, p, p + w, c,
                    Ghost(s as int), Ghost(starts), Ghost(sizes@), Ghost(paths));
                proof {
                    paths = next;
                }
            }
            proof {
                let pi = p as int;
                assert forall|q: int| #[trigger] pixels_linked(img, wi, hi, pi, q) implies labels@[q] == c by {
                    lemma_neighbours(wi, hi, pi, q);
                    if q == pi - 1 && x > 0 {
                        assert(after_left[q] == c);
                    } else if q == pi + 1 && x + 1 < w {
                        assert(after_right[q] == c);
                    } else if q == pi - wi && y > 0 {
                        assert(after_up[q] == c);
                    }
                }
                assert forall|i: int, q: int|
                    0 <= i < head + 1 && #[trigger] pixels_linked(img, wi, hi, queue@[i] as int, q)
                        implies labels@[q] == c by {
                    assert(queue@[i] == head_queue[i]);
                    if i < head {
                        assert(head_labels[q] == c);
                    }
                }
            }
            head = head + 1;
        }
        proof {
            let si = s as int;
            lemma_count_below_bound(labels@, c, n as int);
            assert forall|a: int, b: int|
                #[trigger] pixels_linked(img, wi, hi, a, b) && labels@[a] < c + 1 implies labels@[b] == labels@[a] by {
                if labels@[a] == c {
                    let k = choose|k: int| 0 <= k < queue@.len() && #[trigger] queue@[k] == a;
                    assert(pixels_linked(img, wi, hi, queue@[k] as int, b));
                }
            }
        }
        let size = queue.len() as u32;
        let ghost old_sizes = sizes@;
        sizes.push(size);
        c = c + 1;
        s = s + 1;
        proof {
            assert forall|k: int| 0 <= k < c implies #[trigger] sizes@[k] == label_count(labels@, k as u32)
                && sizes@[k] >= 1 by {
                if k < c - 1 {
                    assert(sizes@[k] == old_sizes[k]);
                }
            }
            assert(scan_inv(img, wi, hi, labels@, c, s as int, starts, paths, sizes@));
        }
    }
    proof {
        assert forall|p: int, q: int|
            0 <= p < n && 0 <= q < n && #[trigger] labels@[p] == #[trigger] labels@[q] implies pixels_connected(img, wi, hi, p, q) by {
            lemma_join_paths(img, wi, hi, paths[p], paths[q]);
        }
        assert forall|p: int| 0 <= p < n && #[trigger] labels@[p] > 0 implies exists|q: int|
            0 <= q < p && #[trigger] labels@[q] == labels@[p] - 1 by {
            let k = labels@[p] as int;
            assert(starts[k - 1] < starts[k]);
            assert(labels@[starts[k - 1]] == k - 1);
        }
    }
    ComponentLabels { labels, sizes }
}

proof fn lemma_count_below_zero(labels: Seq<u32>, k: u32, m: int)
    requires
        0 <= m <= labels.len(),
        forall|i: int| 0 <= i < m ==> #[trigger] labels[i] != k,
    ensures
        count_below(labels, k, m) == 0,
    decreases m,
{
    if m > 0 {
        lemma_count_below_zero(labels, k, m - 1);
    }
}


/// The hue band each connected component is shifted by: components of at
/// least `min_area` pixels get the band their number and size hash to with
/// `seed`; smaller ones keep their colours (`None`).
pub fn component_recolor_bands(sizes: &[u32], min_area: usize, seed: u32) -> (r: Vec<Option<usize>>)
    ensures
        r@.len() == sizes@.len(),
        forall|k: int|
            0 <= k < sizes@.len() ==> #[trigger] r@[k] == if sizes@[k] as int >= min_area {
                Some(
                    (cell_hash((k as u32) as i32, (sizes@[k] as usize) as i32, seed) as int
                        % HUE_BAND_COUNT as int) as usize,
                )
            } else {
                None
            },
{
    let mut bands: Vec<Option<usize>> = Vec::new();
    let mut k: usize = 0;
    while k < sizes.len()
        invariant
            k <= sizes@.len(),
            bands@.len() == k,
            forall|j: int|
                0 <= j < k ==> #[trigger] bands@[j] == if sizes@[j] as int >= min_area {
                    Some(
                        (cell_hash((j as u32) as i32, (sizes@[j] as usize) as i32, seed) as int
                            % HUE_BAND_COUNT as int) as usize,
                    )
                } else {
                    None
                },
        decreases sizes@.len() - k,
    {
        let size = sizes[k] as usize;
        if size >= min_area {
            bands.push(Some(component_band(k as u32, size, seed)));
        } else {
            bands.push(None);
        }
        k = k + 1;
    }
    bands
}

} // verus!
