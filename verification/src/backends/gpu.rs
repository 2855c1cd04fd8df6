//! Sizes, layouts and bookkeeping of the GPU backend.
//!
//! The device calls themselves belong to the application; everything that
//! decides how large a buffer is, how a source image is cut into texture
//! tiles, how padded readback rows are unpacked and which frame slot a video
//! frame uses is decided here.
use vstd::arithmetic::div_mod::*;
use vstd::arithmetic::mul::*;
use vstd::prelude::*;

use std::collections::VecDeque;

use crate::backends::{copy_rows, in_row_block, row_block_source, rows_copied};

verus! {

/// Errors of the GPU backend's size and layout checks.
#[derive(Debug, Clone, Copy, PartialEq, Eq, Structural)]
pub enum GpuError {
    /// `width * height * 4` does not fit in `usize`.
    DimensionsOverflow,
    /// A value that must be non-zero was zero.
    ZeroValue,
    /// The source image has a zero dimension.
    ZeroSizedSource,
    /// The device reported a maximum texture dimension of zero.
    InvalidMaxTextureDimension,
    /// The number of source tiles does not fit in `u32`.
    TileCountOverflow,
    /// The source needs more texture array layers than the device supports.
    TooManyLayers { required: u32, supported: u32 },
    /// An output buffer does not hold exactly `width * height * 4` bytes.
    OutputLengthMismatch { got: usize, expected: usize },
    /// An output texture was asked for with a zero dimension.
    ZeroSizedOutput,
}

/// Number of bytes of a tightly packed RGBA8 image.
pub open spec fn rgba_bytes(width: u32, height: u32) -> int {
    width * height * 4
}

/// The byte length of a tightly packed RGBA8 image of `width x height`, or
/// `DimensionsOverflow` exactly when that length does not fit in `usize`.
pub fn expected_rgba_len(width: u32, height: u32) -> (r: Result<usize, GpuError>)
    ensures
        match r {
            Ok(len) => len == rgba_bytes(width, height),
            Err(e) => e == GpuError::DimensionsOverflow && rgba_bytes(width, height)
                > usize::MAX,
        },
{
    let w = width as usize;
    let h = height as usize;
    match w.checked_mul(h) {
        Some(pixels) => match pixels.checked_mul(4) {
            Some(len) => Ok(len),
            None => Err(GpuError::DimensionsOverflow),
        },
        None => {
            proof {
                lemma_mul_nonnegative(w * h, 4);
            }
            Err(GpuError::DimensionsOverflow)
        },
    }
}

/// The smallest multiple of `alignment` that is at least `value`.
pub open spec fn aligned_up(value: int, alignment: int) -> int {
    if value % alignment == 0 {
        value
    } else {
        value + (alignment - value % alignment)
    }
}

/// Rounds `value` up to the next multiple of `alignment`.
pub fn align_to(value: u32, alignment: u32) -> (r: u32)
    requires
        alignment > 0,
        aligned_up(value as int, alignment as int) <= u32::MAX,
    ensures
        r == aligned_up(value as int, alignment as int),
        r % alignment == 0,
        value <= r < value + alignment,
{
    let rem = value % alignment;
    proof {
        lemma_fundamental_div_mod(value as int, alignment as int);
        if rem != 0 {
            let q = value as int / alignment as int;
            assert(value + (alignment - rem) == (q + 1) * alignment) by (nonlinear_arith)
                requires
                    value == alignment * q + rem,
            ;
            lemma_mod_multiples_basic(q + 1, alignment as int);
        }
    }
    if rem == 0 {
        value
    } else {
        value + (alignment - rem)
    }
}


/// Checks that a size handed to the device is non-zero, giving it back when it
/// is. The caller wraps the checked value in `std::num::NonZeroU64`.
pub fn non_zero_u64(value: u64) -> (r: Result<u64, GpuError>)
    ensures
        match r {
            Ok(v) => v == value && value != 0,
            Err(e) => e == GpuError::ZeroValue && value == 0,
        },
{
    if value == 0 {
        Err(GpuError::ZeroValue)
    } else {
        Ok(value)
    }
}

/// Edge length of the square texture tiles a source image is cut into.
pub const DEFAULT_TILE_SIZE: u32 = 4096;

/// `a / b` rounded up.
pub open spec fn ceil_div(a: int, b: int) -> int {
    if a % b == 0 {
        a / b
    } else {
        a / b + 1
    }
}

/// Extent of tile `index` along an axis of length `extent` cut into tiles of
/// `tile_size`: a full tile, or the remainder at the far edge.
pub open spec fn tile_span(extent: int, tile_size: int, index: int) -> int {
    if extent - index * tile_size < tile_size {
        extent - index * tile_size
    } else {
        tile_size
    }
}

/// How a source image is laid out as a texture array of square tiles, one
/// array layer per tile, tiles numbered row by row.
#[derive(Debug, Clone, Copy, PartialEq, Eq, Structural)]
pub struct SourceTilePlan {
    pub width: u32,
    pub height: u32,
    pub tile_size: u32,
    pub tile_grid_width: u32,
    pub tile_grid_height: u32,
    pub layer_count: u32,
}

impl SourceTilePlan {
    /// The fields agree with each other: non-empty image, tiles of at most
    /// the default size, a grid that just covers the image, one layer per tile.
    pub open spec fn valid(self) -> bool {
        &&& self.width > 0
        &&& self.height > 0
        &&& 0 < self.tile_size <= DEFAULT_TILE_SIZE
        &&& self.tile_grid_width == ceil_div(self.width as int, self.tile_size as int)
        &&& self.tile_grid_height == ceil_div(self.height as int, self.tile_size as int)
        &&& self.layer_count == self.tile_grid_width * self.tile_grid_height
    }

    /// The array layer that holds tile `(tile_x, tile_y)`.
    pub open spec fn layer_of(self, tile_x: int, tile_y: int) -> int {
        tile_y * self.tile_grid_width + tile_x
    }

    /// Array layer of tile `(tile_x, tile_y)`; for a tile of the grid of a
    /// valid plan it is one of the plan's layers.
    pub fn tile_index(&self, tile_x: u32, tile_y: u32) -> (r: u32)
        requires
            self.layer_of(tile_x as int, tile_y as int) <= u32::MAX,
        ensures
            r == self.layer_of(tile_x as int, tile_y as int),
            self.valid() && tile_x < self.tile_grid_width && tile_y < self.tile_grid_height ==> r
                < self.layer_count,
    {
        proof {
            assert(0 <= tile_y * self.tile_grid_width) by (nonlinear_arith);
            if self.valid() && tile_x < self.tile_grid_width && tile_y < self.tile_grid_height {
                lemma_grid_index_bound(
                    tile_x as int,
                    tile_y as int,
                    self.tile_grid_width as int,
                    self.tile_grid_height as int,
                );
            }
        }
        tile_y * self.tile_grid_width + tile_x
    }
}

/// Distinct tiles of a valid plan go to distinct array layers, and every
/// layer holds a tile: the numbering is a bijection onto `0..layer_count`.
pub proof fn tile_layers_are_distinct(plan: SourceTilePlan, x1: int, y1: int, x2: int, y2: int, layer: int)
    requires
        plan.valid(),
        0 <= x1 < plan.tile_grid_width,
        0 <= y1 < plan.tile_grid_height,
        0 <= x2 < plan.tile_grid_width,
        0 <= y2 < plan.tile_grid_height,
        0 <= layer < plan.layer_count,
    ensures
        plan.layer_of(x1, y1) == plan.layer_of(x2, y2) ==> x1 == x2 && y1 == y2,
        0 <= layer % (plan.tile_grid_width as int) < plan.tile_grid_width,
        0 <= layer / (plan.tile_grid_width as int) < plan.tile_grid_height,
        plan.layer_of(layer % (plan.tile_grid_width as int), layer / (plan.tile_grid_width as int)) == layer,
{
    let gw = plan.tile_grid_width as int;
    let gh = plan.tile_grid_height as int;
    lemma_fundamental_div_mod_converse(plan.layer_of(x1, y1), gw, y1, x1);
    lemma_fundamental_div_mod_converse(plan.layer_of(x2, y2), gw, y2, x2);
    lemma_fundamental_div_mod(layer, gw);
    lemma_mod_pos_bound(layer, gw);
    lemma_div_pos_is_pos(layer, gw);
    lemma_multiply_divide_lt(layer, gw, gh);
    lemma_mul_is_commutative(layer / gw, gw);
}

/// Row-major numbering of a grid stays below the number of cells.
proof fn lemma_grid_index_bound(x: int, y: int, grid_w: int, grid_h: int)
    requires
        0 <= x < grid_w,
        0 <= y < grid_h,
    ensures
        0 <= y * grid_w + x < grid_w * grid_h,
{
    lemma_mul_inequality(y, grid_h - 1, grid_w);
    lemma_mul_nonnegative(y, grid_w);
    assert((grid_h - 1) * grid_w + grid_w == grid_w * grid_h) by (nonlinear_arith);
}

/// `a / b` rounded up, computed without overflow.
fn div_ceil_u32(a: u32, b: u32) -> (r: u32)
    requires
        b > 0,
    ensures
        r == ceil_div(a as int, b as int),
{
    proof {
        lemma_fundamental_div_mod(a as int, b as int);
        if a % b != 0 {
            assert(a / b < a) by (nonlinear_arith)
                requires
                    a == b * (a / b) + a % b,
                    a % b > 0,
                    b > 0,
            ;
        }
    }
    if a % b == 0 {
        a / b
    } else {
        a / b + 1
    }
}

/// Plans how a `width x height` source image is uploaded as a texture array on
/// a device with the given limits.
///
/// Fails, in this order of precedence: `ZeroSizedSource` for an empty image,
/// `InvalidMaxTextureDimension` when the device reports 0, `TileCountOverflow`
/// when the number of tiles overflows `u32`, `TooManyLayers` when the device
/// has fewer array layers than tiles.
pub fn plan_source_tiles(
    width: u32,
    height: u32,
    max_texture_dimension: u32,
    max_array_layers: u32,
) -> (r: Result<SourceTilePlan, GpuError>)
    ensures
        (width == 0 || height == 0) ==> r == Err::<SourceTilePlan, GpuError>(
            GpuError::ZeroSizedSource,
        ),
        width > 0 && height > 0 && max_texture_dimension == 0 ==> r == Err::<
            SourceTilePlan,
            GpuError,
        >(GpuError::InvalidMaxTextureDimension),
        width > 0 && height > 0 && max_texture_dimension > 0 ==> {
            let ts = if max_texture_dimension < DEFAULT_TILE_SIZE {
                max_texture_dimension
            } else {
                DEFAULT_TILE_SIZE
            };
            let gw = ceil_div(width as int, ts as int);
            let gh = ceil_div(height as int, ts as int);
            if gw * gh > u32::MAX {
                r == Err::<SourceTilePlan, GpuError>(GpuError::TileCountOverflow)
            } else if gw * gh > max_array_layers {
                r == Err::<SourceTilePlan, GpuError>(
                    GpuError::TooManyLayers {
                        required: (gw * gh) as u32,
                        supported: max_array_layers,
                    },
                )
            } else {
                r == Ok::<SourceTilePlan, GpuError>(
                    SourceTilePlan {
                        width,
                        height,
                        tile_size: ts,
                        tile_grid_width: gw as u32,
                        tile_grid_height: gh as u32,
                        layer_count: (gw * gh) as u32,
                    },
                )
            }
        },
        r matches Ok(plan) ==> plan.valid(),
{
    if width == 0 || height == 0 {
        return Err(GpuError::ZeroSizedSource);
    }
    let tile_size: u32 = if max_texture_dimension < DEFAULT_TILE_SIZE {
        max_texture_dimension
    } else {
        DEFAULT_TILE_SIZE
    };
    if tile_size == 0 {
        return Err(GpuError::InvalidMaxTextureDimension);
    }
    let tile_grid_width = div_ceil_u32(width, tile_size);
    let tile_grid_height = div_ceil_u32(height, tile_size);
    let layer_count = match tile_grid_width.checked_mul(tile_grid_height) {
        Some(n) => n,
        None => return Err(GpuError::TileCountOverflow),
    };
    if layer_count > max_array_layers {
        return Err(GpuError::TooManyLayers { required: layer_count, supported: max_array_layers });
    }
    Ok(
        SourceTilePlan {
            width,
            height,
            tile_size,
            tile_grid_width,
            tile_grid_height,
            layer_count,
        },
    )
}


/// A tile index below the grid size starts inside the axis.
proof fn lemma_tile_starts_inside(extent: int, tile_size: int, index: int)
    requires
        extent >= 0,
        tile_size > 0,
        0 <= index < ceil_div(extent, tile_size),
    ensures
        extent > 0,
        0 <= index * tile_size < extent,
        0 < tile_span(extent, tile_size, index) <= tile_size,
        index * tile_size + tile_span(extent, tile_size, index) <= extent,
{
    if extent == 0 {
        lemma_div_of0(tile_size);
        lemma_small_mod(0nat, tile_size as nat);
    }
    lemma_fundamental_div_mod(extent, tile_size);
    lemma_mod_pos_bound(extent, tile_size);
    lemma_mul_nonnegative(index, tile_size);
    let q = extent / tile_size;
    if extent % tile_size == 0 {
        lemma_mul_inequality(index, q - 1, tile_size);
        assert((q - 1) * tile_size == tile_size * q - tile_size) by (nonlinear_arith);
    } else {
        lemma_mul_inequality(index, q, tile_size);
        lemma_mul_is_commutative(q, tile_size);
    }
}

/// Tiles of an axis partition it: coordinate `x` lies in tile `x / tile_size`
/// and in no other tile.
pub proof fn tiles_partition_axis(extent: int, tile_size: int, x: int, index: int)
    requires
        extent > 0,
        tile_size > 0,
        0 <= x < extent,
    ensures
        0 <= x / tile_size < ceil_div(extent, tile_size),
        (x / tile_size) * tile_size <= x < (x / tile_size) * tile_size + tile_span(
            extent,
            tile_size,
            x / tile_size,
        ),
        0 <= index < ceil_div(extent, tile_size) && index * tile_size <= x < index * tile_size
            + tile_span(extent, tile_size, index) ==> index == x / tile_size,
{
    lemma_fundamental_div_mod(x, tile_size);
    lemma_mod_pos_bound(x, tile_size);
    lemma_div_pos_is_pos(x, tile_size);
    lemma_fundamental_div_mod(extent, tile_size);
    lemma_mod_pos_bound(extent, tile_size);
    let t = x / tile_size;
    lemma_div_is_ordered(x, extent, tile_size);
    assert(t * tile_size == tile_size * t) by (nonlinear_arith);
    if extent % tile_size == 0 {
        if t == extent / tile_size {
            assert(tile_size * t <= x);
            assert(tile_size * (extent / tile_size) == extent);
        }
    }
    lemma_tile_starts_inside(extent, tile_size, t);
    if 0 <= index < ceil_div(extent, tile_size) && index * tile_size <= x < index * tile_size
        + tile_span(extent, tile_size, index) {
        lemma_tile_starts_inside(extent, tile_size, index);
        lemma_fundamental_div_mod_converse(x, tile_size, index, x - index * tile_size);
    }
}

/// Tile `(tile_x, tile_y)` of a `width x height` image cut into squares of
/// `tile_size`, numbered from the top left.
pub open spec fn grid_tile(width: u32, height: u32, tile_size: u32, tile_x: int, tile_y: int) -> TileRegion {
    TileRegion {
        x: (tile_x * tile_size) as u32,
        y: (tile_y * tile_size) as u32,
        width: tile_span(width as int, tile_size as int, tile_x) as u32,
        height: tile_span(height as int, tile_size as int, tile_y) as u32,
    }
}

/// The rectangle a tile covers.
#[derive(Debug, Clone, Copy, PartialEq, Eq, Structural)]
pub struct TileRegion {
    pub x: u32,
    pub y: u32,
    pub width: u32,
    pub height: u32,
}

impl SourceTilePlan {
    /// The source rectangle of tile `(tile_x, tile_y)`.
    pub open spec fn region_of(self, tile_x: int, tile_y: int) -> TileRegion {
        grid_tile(self.width, self.height, self.tile_size, tile_x, tile_y)
    }

    /// The source rectangle that tile `(tile_x, tile_y)` covers; it lies inside
    /// the image.
    pub fn tile_region(&self, tile_x: u32, tile_y: u32) -> (r: TileRegion)
        requires
            self.valid(),
            tile_x < self.tile_grid_width,
            tile_y < self.tile_grid_height,
        ensures
            r == self.region_of(tile_x as int, tile_y as int),
            0 < r.width <= self.tile_size,
            0 < r.height <= self.tile_size,
            r.x + r.width <= self.width,
            r.y + r.height <= self.height,
    {
        proof {
            lemma_tile_starts_inside(self.width as int, self.tile_size as int, tile_x as int);
            lemma_tile_starts_inside(self.height as int, self.tile_size as int, tile_y as int);
        }
        let x = tile_x * self.tile_size;
        let y = tile_y * self.tile_size;
        let w = if self.width - x < self.tile_size {
            self.width - x
        } else {
            self.tile_size
        };
        let h = if self.height - y < self.tile_size {
            self.height - y
        } else {
            self.tile_size
        };
        TileRegion { x, y, width: w, height: h }
    }
}

/// The tile staging buffer for `region`: the region's rows of the source image
/// at the top left of a zeroed `tile_size x tile_size` RGBA8 tile.
pub open spec fn staged_tile(
    src: Seq<u8>,
    image_width: u32,
    tile_size: u32,
    region: TileRegion,
) -> Seq<u8> {
    rows_copied(
        Seq::new((tile_size * tile_size * 4) as nat, |i: int| 0u8),
        0,
        tile_size * 4,
        src,
        (region.y * image_width + region.x) * 4,
        image_width * 4,
        region.width * 4,
        region.height as int,
    )
}

/// Fills the staging buffer of one source tile: zeroes it, then copies the
/// tile's rectangle of the RGBA8 source image row by row into its top left.
pub fn fill_tile_staging(plan: &SourceTilePlan, src: &[u8], region: TileRegion, staging: &mut [u8])
    requires
        plan.valid(),
        src@.len() == rgba_bytes(plan.width, plan.height),
        old(staging)@.len() == plan.tile_size * plan.tile_size * 4,
        region.width <= plan.tile_size,
        region.height <= plan.tile_size,
        region.x + region.width <= plan.width,
        region.y + region.height <= plan.height,
    ensures
        final(staging)@ == staged_tile(src@, plan.width, plan.tile_size, region),
{
    let len = staging.len();
    let mut i: usize = 0;
    while i < len
        invariant
            len == staging@.len(),
            i <= len,
            forall|k: int| 0 <= k < i ==> staging@[k] == 0u8,
        decreases len - i,
    {
        staging[i] = 0;
        i = i + 1;
    }
    assert(staging@ =~= Seq::new((plan.tile_size * plan.tile_size * 4) as nat, |i: int| 0u8));
    let ts = plan.tile_size as usize;
    let w = plan.width as usize;
    let h = plan.height as usize;
    let rw = region.width as usize;
    let rh = region.height as usize;
    let rx = region.x as usize;
    let ry = region.y as usize;
    let src_len = src.len();
    if rh == 0 {
        assert(staging@ =~= staged_tile(src@, plan.width, plan.tile_size, region));
        return ;
    }
    proof {
        assert((rh - 1) * (ts * 4) + rw * 4 <= ts * ts * 4) by (nonlinear_arith)
            requires
                rh <= ts,
                rw <= ts,
                rh > 0,
        ;
        assert((ry * w + rx) * 4 + (rh - 1) * (w * 4) + rw * 4 <= w * h * 4)
            by (nonlinear_arith)
            requires
                ry + rh <= h,
                rx + rw <= w,
                rh > 0,
        ;
        assert(0 <= ry * w) by (nonlinear_arith);
        assert(w * 4 <= w * h * 4) by (nonlinear_arith)
            requires
                h >= 1,
        ;
    }
    copy_rows(staging, 0, ts * 4, src, (ry * w + rx) * 4, w * 4, rw * 4, rh);
}


/// Checks an output buffer for a `width x height` render: it must hold exactly
/// `width * height * 4` bytes. Gives that length back.
pub fn check_output_len(width: u32, height: u32, len: usize) -> (r: Result<usize, GpuError>)
    ensures
        rgba_bytes(width, height) > usize::MAX ==> r == Err::<usize, GpuError>(
            GpuError::DimensionsOverflow,
        ),
        rgba_bytes(width, height) <= usize::MAX ==> if len == rgba_bytes(width, height) {
            r == Ok::<usize, GpuError>(len)
        } else {
            r == Err::<usize, GpuError>(
                GpuError::OutputLengthMismatch {
                    got: len,
                    expected: rgba_bytes(width, height) as usize,
                },
            )
        },
{
    let expected = expected_rgba_len(width, height)?;
    if len != expected {
        return Err(GpuError::OutputLengthMismatch { got: len, expected });
    }
    Ok(expected)
}

/// Checks the size asked for an output texture: both dimensions non-zero.
pub fn check_output_size(width: u32, height: u32) -> (r: Result<(), GpuError>)
    ensures
        r is Ok <==> width > 0 && height > 0,
        r matches Err(e) ==> e == GpuError::ZeroSizedOutput,
{
    if width == 0 || height == 0 {
        Err(GpuError::ZeroSizedOutput)
    } else {
        Ok(())
    }
}

/// Cuts a `width x height` render target into tiles of at most
/// `tile_size x tile_size`, listed row by row from the top left, in the order
/// the renderer dispatches them.
pub fn plan_output_tiles(width: u32, height: u32, tile_size: u32) -> (tiles: Vec<TileRegion>)
    requires
        tile_size > 0,
    ensures
        tiles@.len() == ceil_div(width as int, tile_size as int) * ceil_div(
            height as int,
            tile_size as int,
        ),
        forall|tx: int, ty: int|
            0 <= tx < ceil_div(width as int, tile_size as int) && 0 <= ty < ceil_div(
                height as int,
                tile_size as int,
            ) ==> #[trigger] tiles@[ty * ceil_div(width as int, tile_size as int) + tx]
                == grid_tile(width, height, tile_size, tx, ty),
{
    let grid_w = div_ceil_u32(width, tile_size);
    let grid_h = div_ceil_u32(height, tile_size);
    let ghost gw = grid_w as int;
    let mut tiles: Vec<TileRegion> = Vec::new();
    let mut ty: u32 = 0;
    while ty < grid_h
        invariant
            tile_size > 0,
            grid_w == ceil_div(width as int, tile_size as int),
            grid_h == ceil_div(height as int, tile_size as int),
            gw == grid_w,
            ty <= grid_h,
            tiles@.len() == ty * gw,
            forall|a: int, b: int|
                0 <= b < gw && 0 <= a < ty ==> #[trigger] tiles@[a * gw + b] == grid_tile(
                    width,
                    height,
                    tile_size,
                    b,
                    a,
                ),
        decreases grid_h - ty,
    {
        proof {
            lemma_tile_starts_inside(height as int, tile_size as int, ty as int);
        }
        let y = ty * tile_size;
        let tile_h = if height - y < tile_size {
            height - y
        } else {
            tile_size
        };
        let mut tx: u32 = 0;
        while tx < grid_w
            invariant
                tile_size > 0,
                grid_w == ceil_div(width as int, tile_size as int),
                grid_h == ceil_div(height as int, tile_size as int),
                gw == grid_w,
                ty < grid_h,
                y == ty * tile_size,
                tile_h == tile_span(height as int, tile_size as int, ty as int),
                tx <= grid_w,
                tiles@.len() == ty * gw + tx,
                forall|a: int, b: int|
                    0 <= b < gw && 0 <= a < ty ==> #[trigger] tiles@[a * gw + b] == grid_tile(
                        width,
                        height,
                        tile_size,
                        b,
                        a,
                    ),
                forall|b: int|
                    0 <= b < tx ==> #[trigger] tiles@[ty * gw + b] == grid_tile(
                        width,
                        height,
                        tile_size,
                        b,
                        ty as int,
                    ),
            decreases grid_w - tx,
        {
            proof {
                lemma_tile_starts_inside(width as int, tile_size as int, tx as int);
            }
            let x = tx * tile_size;
            let tile_w = if width - x < tile_size {
                width - x
            } else {
                tile_size
            };
            let ghost before = tiles@;
            tiles.push(TileRegion { x, y, width: tile_w, height: tile_h });
            proof {
                assert forall|a: int, b: int|
                    0 <= b < gw && 0 <= a < ty implies #[trigger] tiles@[a * gw + b] == grid_tile(
                        width,
                        height,
                        tile_size,
                        b,
                        a,
                    ) by {
                    lemma_grid_index_bound(b, a, gw, ty as int);
                    assert(gw * ty == ty * gw) by (nonlinear_arith);
                    assert(before[a * gw + b] == grid_tile(width, height, tile_size, b, a));
                }
                assert forall|b: int| 0 <= b < tx + 1 implies #[trigger] tiles@[ty * gw + b]
                    == grid_tile(width, height, tile_size, b, ty as int) by {
                    if b < tx {
                        assert(before[ty * gw + b] == grid_tile(
                            width,
                            height,
                            tile_size,
                            b,
                            ty as int,
                        ));
                    }
                }
            }
            tx = tx + 1;
        }
        proof {
            assert((ty + 1) * gw == ty * gw + gw) by (nonlinear_arith);
            assert forall|a: int, b: int|
                0 <= b < gw && 0 <= a < ty + 1 implies #[trigger] tiles@[a * gw + b] == grid_tile(
                    width,
                    height,
                    tile_size,
                    b,
                    a,
                ) by {
                if a == ty {
                    assert(tiles@[ty * gw + b] == grid_tile(width, height, tile_size, b, ty as int));
                }
            }
        }
        ty = ty + 1;
    }
    proof {
        assert(grid_h * gw == gw * grid_h) by (nonlinear_arith);
    }
    tiles
}

/// Copies a rendered `region.width x region.height` RGBA8 tile into a full
/// `output_width x output_height` RGBA8 output at the region's position.
/// Bytes of the output outside the region are left as they were.
pub fn blit_tile(output: &mut [u8], output_width: u32, output_height: u32, tile: &[u8], region: TileRegion)
    requires
        old(output)@.len() == rgba_bytes(output_width, output_height),
        tile@.len() == rgba_bytes(region.width, region.height),
        region.x + region.width <= output_width,
        region.y + region.height <= output_height,
    ensures
        final(output)@ == rows_copied(
            old(output)@,
            (region.y * output_width + region.x) * 4,
            output_width * 4,
            tile@,
            0,
            region.width * 4,
            region.width * 4,
            region.height as int,
        ),
{
    let ow = output_width as usize;
    let oh = output_height as usize;
    let rx = region.x as usize;
    let ry = region.y as usize;
    let rw = region.width as usize;
    let rh = region.height as usize;
    let out_len = output.len();
    let tile_len = tile.len();
    if rh == 0 || rw == 0 {
        assert(output@ =~= rows_copied(
            output@,
            (region.y * output_width + region.x) * 4,
            output_width * 4,
            tile@,
            0,
            region.width * 4,
            region.width * 4,
            region.height as int,
        ));
        return ;
    }
    proof {
        assert((ry * ow + rx) * 4 + (rh - 1) * (ow * 4) + rw * 4 <= ow * oh * 4)
            by (nonlinear_arith)
            requires
                ry + rh <= oh,
                rx + rw <= ow,
                rh > 0,
        ;
        assert((rh - 1) * (rw * 4) + rw * 4 == rw * rh * 4) by (nonlinear_arith);
        assert(0 <= ry * ow) by (nonlinear_arith);
        assert(ow * 4 <= ow * oh * 4) by (nonlinear_arith)
            requires
                oh >= 1,
        ;
    }
    copy_rows(output, (ry * ow + rx) * 4, ow * 4, tile, 0, rw * 4, rw * 4, rh);
}

/// Unpacks a GPU readback buffer whose rows are padded to
/// `padded_bytes_per_row` into the tightly packed RGBA8 rows of `output`.
/// Bytes of `output` past `width * height * 4` are left as they were.
pub fn unpad_rows(mapped: &[u8], width: u32, height: u32, padded_bytes_per_row: u32, output: &mut [u8])
    requires
        width * 4 <= padded_bytes_per_row,
        height > 0 ==> (height - 1) * padded_bytes_per_row + width * 4 <= mapped@.len(),
        rgba_bytes(width, height) <= old(output)@.len(),
    ensures
        final(output)@ == rows_copied(
            old(output)@,
            0,
            width * 4,
            mapped@,
            0,
            padded_bytes_per_row as int,
            width * 4,
            height as int,
        ),
{
    let w = width as usize;
    let h = height as usize;
    let padded = padded_bytes_per_row as usize;
    let out_len = output.len();
    let mapped_len = mapped.len();
    if w == 0 || h == 0 {
        assert(output@ =~= rows_copied(
            output@,
            0,
            width * 4,
            mapped@,
            0,
            padded_bytes_per_row as int,
            width * 4,
            height as int,
        ));
        return ;
    }
    proof {
        assert((h - 1) * (w * 4) + w * 4 == w * h * 4) by (nonlinear_arith);
        assert(w * 4 <= w * h * 4) by (nonlinear_arith)
            requires
                h >= 1,
        ;
    }
    copy_rows(output, 0, w * 4, mapped, 0, padded, w * 4, h);
}


/// The pixels of `region` of an RGBA8 image `width` pixels wide, tightly
/// packed row by row: what the GPU reads back for that tile of the frame.
pub open spec fn region_pixels(img: Seq<u8>, width: int, region: TileRegion) -> Seq<u8> {
    Seq::new(
        (region.width * region.height * 4) as nat,
        |t: int|
            img[((region.y + t / (region.width * 4)) * width + region.x) * 4 + t % (region.width
                * 4)],
    )
}

/// `dst` after [`blit_tile`] has placed, one tile after another, the pixels
/// each tile of `tiles` holds of the image `img`.
pub open spec fn blit_tiles(dst: Seq<u8>, width: int, img: Seq<u8>, tiles: Seq<TileRegion>) -> Seq<u8>
    decreases tiles.len(),
{
    if tiles.len() == 0 {
        dst
    } else {
        let last = tiles.last();
        rows_copied(
            blit_tiles(dst, width, img, tiles.drop_last()),
            (last.y * width + last.x) * 4,
            width * 4,
            region_pixels(img, width, last),
            0,
            last.width * 4,
            last.width * 4,
            last.height as int,
        )
    }
}

/// Byte `i` of the output that a blit of `region` writes: the blit puts the
/// image's own byte there.
proof fn lemma_blit_writes_image_byte(img: Seq<u8>, width: int, height: int, region: TileRegion, i: int)
    requires
        width > 0,
        img.len() == width * height * 4,
        region.x + region.width <= width,
        region.y + region.height <= height,
        in_row_block(i, (region.y * width + region.x) * 4, width * 4, region.width * 4, region.height as int),
    ensures
        ({
            let t = row_block_source(i, (region.y * width + region.x) * 4, width * 4, 0, region.width * 4);
            0 <= t < region.width * region.height * 4 && region_pixels(img, width, region)[t] == img[i]
        }),
{
    let start = (region.y * width + region.x) * 4;
    let stride = width * 4;
    let rw4 = region.width * 4;
    let d = i - start;
    let r = d / stride;
    let col = d % stride;
    lemma_fundamental_div_mod(d, stride);
    lemma_mod_pos_bound(d, stride);
    lemma_div_pos_is_pos(d, stride);
    assert(d == r * stride + col) by (nonlinear_arith)
        requires
            d == stride * (d / stride) + d % stride,
            r == d / stride,
            col == d % stride,
    ;
    let t = r * rw4 + col;
    assert(0 <= r * rw4 && (r + 1) * rw4 <= region.height * rw4) by (nonlinear_arith)
        requires
            0 <= r < region.height,
            0 <= rw4,
    ;
    assert((r + 1) * rw4 == r * rw4 + rw4) by (nonlinear_arith);
    assert(region.height * rw4 == region.width * region.height * 4) by (nonlinear_arith)
        requires
            rw4 == region.width * 4,
    ;
    lemma_fundamental_div_mod_converse(t, rw4, r, col);
    assert(((region.y + r) * width + region.x) * 4 + col == i) by (nonlinear_arith)
        requires
            d == r * stride + col,
            stride == width * 4,
            d == i - start,
            start == (region.y * width + region.x) * 4,
    ;
}

/// Pixel `(px, py)` of a `width x height` image lies in a region's blit block
/// when it lies in the region.
proof fn lemma_pixel_in_blit_block(width: int, height: int, region: TileRegion, px: int, py: int, c: int)
    requires
        width > 0,
        region.x + region.width <= width,
        region.x <= px < region.x + region.width,
        region.y <= py < region.y + region.height,
        0 <= c < 4,
    ensures
        in_row_block((py * width + px) * 4 + c, (region.y * width + region.x) * 4, width * 4, region.width * 4, region.height as int),
{
    let i = (py * width + px) * 4 + c;
    let start = (region.y * width + region.x) * 4;
    let r = py - region.y;
    let col = (px - region.x) * 4 + c;
    assert(i - start == r * (width * 4) + col) by (nonlinear_arith)
        requires
            i == (py * width + px) * 4 + c,
            start == (region.y * width + region.x) * 4,
            r == py - region.y,
            col == (px - region.x) * 4 + c,
    ;
    lemma_fundamental_div_mod_converse(i - start, width * 4, r, col);
    assert(0 <= r * (width * 4)) by (nonlinear_arith)
        requires
            r >= 0,
            width > 0,
    ;
}

/// Blitting never changes the length of the output.
proof fn lemma_blit_tiles_len(dst: Seq<u8>, width: int, img: Seq<u8>, tiles: Seq<TileRegion>)
    ensures
        blit_tiles(dst, width, img, tiles).len() == dst.len(),
    decreases tiles.len(),
{
    if tiles.len() > 0 {
        lemma_blit_tiles_len(dst, width, img, tiles.drop_last());
    }
}

/// Once a tile has been blitted, its block holds the image's bytes, whatever
/// tiles follow.
proof fn lemma_blitted_block_holds_image(
    dst: Seq<u8>,
    width: int,
    height: int,
    img: Seq<u8>,
    tiles: Seq<TileRegion>,
    j: int,
    i: int,
)
    requires
        width > 0,
        img.len() == width * height * 4,
        dst.len() == img.len(),
        forall|k: int|
            0 <= k < tiles.len() ==> #[trigger] tiles[k].x + tiles[k].width <= width && tiles[k].y
                + tiles[k].height <= height,
        0 <= j < tiles.len(),
        0 <= i < dst.len(),
        in_row_block(i, (tiles[j].y * width + tiles[j].x) * 4, width * 4, tiles[j].width * 4, tiles[j].height as int),
    ensures
        blit_tiles(dst, width, img, tiles)[i] == img[i],
    decreases tiles.len(),
{
    let last = tiles.last();
    let prefix = tiles.drop_last();
    lemma_blit_tiles_len(dst, width, img, prefix);
    let before = blit_tiles(dst, width, img, prefix);
    if in_row_block(i, (last.y * width + last.x) * 4, width * 4, last.width * 4, last.height as int) {
        lemma_blit_writes_image_byte(img, width, height, last, i);
    } else {
        assert(j != tiles.len() - 1);
        assert(prefix[j] == tiles[j]);
        assert forall|k: int| 0 <= k < prefix.len() implies #[trigger] prefix[k].x + prefix[k].width
            <= width && prefix[k].y + prefix[k].height <= height by {
            assert(prefix[k] == tiles[k]);
        }
        lemma_blitted_block_holds_image(dst, width, height, img, prefix, j, i);
    }
}

/// The tiled render reassembles the frame: when every tile of the grid that
/// [`plan_output_tiles`] lays out holds the frame's pixels of its region,
/// blitting all of them into an output buffer of the frame's size, in that
/// order, leaves exactly the frame in it, whatever the buffer held before.
pub proof fn blitting_every_tile_rebuilds_the_frame(
    dst: Seq<u8>,
    img: Seq<u8>,
    width: u32,
    height: u32,
    tile_size: u32,
    tiles: Seq<TileRegion>,
)
    requires
        tile_size > 0,
        img.len() == rgba_bytes(width, height),
        dst.len() == rgba_bytes(width, height),
        tiles.len() == ceil_div(width as int, tile_size as int) * ceil_div(height as int, tile_size as int),
        forall|tx: int, ty: int|
            0 <= tx < ceil_div(width as int, tile_size as int) && 0 <= ty < ceil_div(
                height as int,
                tile_size as int,
            ) ==> #[trigger] tiles[ty * ceil_div(width as int, tile_size as int) + tx]
                == grid_tile(width, height, tile_size, tx, ty),
    ensures
        blit_tiles(dst, width as int, img, tiles) == img,
{
    let w = width as int;
    let h = height as int;
    let ts = tile_size as int;
    let gw = ceil_div(w, ts);
    let gh = ceil_div(h, ts);
    lemma_blit_tiles_len(dst, w, img, tiles);
    if w == 0 || h == 0 {
        assert(img.len() == 0) by (nonlinear_arith)
            requires
                img.len() == w * h * 4,
                w == 0 || h == 0,
        ;
        assert(blit_tiles(dst, w, img, tiles) =~= img);
        return;
    }
    lemma_div_pos_is_pos(w, ts);
    lemma_div_pos_is_pos(h, ts);
    assert forall|k: int| 0 <= k < tiles.len() implies #[trigger] tiles[k].x + tiles[k].width <= w
        && tiles[k].y + tiles[k].height <= h by {
        lemma_fundamental_div_mod(k, gw);
        lemma_mod_pos_bound(k, gw);
        lemma_div_pos_is_pos(k, gw);
        let tx = k % gw;
        let ty = k / gw;
        lemma_multiply_divide_lt(k, gw, gh);
        assert(k == ty * gw + tx) by (nonlinear_arith)
            requires
                k == gw * (k / gw) + k % gw,
                tx == k % gw,
                ty == k / gw,
        ;
        lemma_tile_starts_inside(w, ts, tx);
        lemma_tile_starts_inside(h, ts, ty);
    }
    assert forall|i: int| 0 <= i < img.len() implies #[trigger] blit_tiles(dst, w, img, tiles)[i] == img[i] by {
        let p = i / 4;
        let c = i % 4;
        lemma_fundamental_div_mod(i, 4);
        lemma_fundamental_div_mod(p, w);
        lemma_mod_pos_bound(p, w);
        lemma_div_pos_is_pos(p, w);
        let px = p % w;
        let py = p / w;
        assert(p < w * h) by (nonlinear_arith)
            requires
                i < w * h * 4,
                p == i / 4,
                i >= 0,
        ;
        lemma_multiply_divide_lt(p, w, h);
        tiles_partition_axis(w, ts, px, 0);
        tiles_partition_axis(h, ts, py, 0);
        let tx = px / ts;
        let ty = py / ts;
        let k = ty * gw + tx;
        assert(0 <= k < gw * gh) by (nonlinear_arith)
            requires
                0 <= tx < gw,
                0 <= ty < gh,
                k == ty * gw + tx,
        ;
        let region = grid_tile(width, height, tile_size, tx, ty);
        assert(tiles[k] == region);
        lemma_tile_starts_inside(w, ts, tx);
        lemma_tile_starts_inside(h, ts, ty);
        assert(i == (py * w + px) * 4 + c) by (nonlinear_arith)
            requires
                i == 4 * (i / 4) + i % 4,
                p == i / 4,
                c == i % 4,
                p == w * (p / w) + p % w,
                px == p % w,
                py == p / w,
        ;
        lemma_pixel_in_blit_block(w, h, region, px, py, c);
        lemma_blitted_block_holds_image(dst, w, h, img, tiles, k, i);
    }
    assert(blit_tiles(dst, w, img, tiles) =~= img);
}

/// What a staged source tile holds: texel `(lx, ly)` of the tile is source
/// pixel `(region.x + lx, region.y + ly)` inside the tile's region, and
/// transparent black outside it.
pub proof fn staged_tile_texel(
    src: Seq<u8>,
    image_width: u32,
    tile_size: u32,
    region: TileRegion,
    lx: int,
    ly: int,
    c: int,
)
    requires
        region.width <= tile_size,
        region.height <= tile_size,
        0 <= lx < tile_size,
        0 <= ly < tile_size,
        0 <= c < 4,
    ensures
        staged_tile(src, image_width, tile_size, region)[(ly * tile_size + lx) * 4 + c] == if lx
            < region.width && ly < region.height {
            src[((region.y + ly) * image_width + region.x + lx) * 4 + c]
        } else {
            0u8
        },
{
    let ts = tile_size as int;
    let i = (ly * ts + lx) * 4 + c;
    let stride = ts * 4;
    assert(0 <= i < ts * ts * 4) by (nonlinear_arith)
        requires
            0 <= lx < ts,
            0 <= ly < ts,
            0 <= c < 4,
            i == (ly * ts + lx) * 4 + c,
    ;
    assert(i == ly * stride + (lx * 4 + c)) by (nonlinear_arith)
        requires
            i == (ly * ts + lx) * 4 + c,
            stride == ts * 4,
    ;
    lemma_fundamental_div_mod_converse(i, stride, ly, lx * 4 + c);
    if lx < region.width && ly < region.height {
        assert((region.y * image_width + region.x) * 4 + ly * (image_width * 4) + (lx * 4 + c)
            == ((region.y + ly) * image_width + region.x + lx) * 4 + c) by (nonlinear_arith);
    }
}

/// Row pitch and size of the buffer a `width x height` RGBA8 output texture is
/// copied into for reading back: rows padded to the device's copy alignment.
#[derive(Debug, Clone, Copy, PartialEq, Eq, Structural)]
pub struct ReadbackLayout {
    pub width: u32,
    pub height: u32,
    pub padded_bytes_per_row: u32,
    pub readback_size: u64,
}

/// The readback layout of a `width x height` RGBA8 texture whose copied rows
/// must start at multiples of `row_alignment` bytes.
pub fn readback_layout(width: u32, height: u32, row_alignment: u32) -> (r: ReadbackLayout)
    requires
        row_alignment > 0,
        width * 4 <= u32::MAX,
        aligned_up(width * 4, row_alignment as int) <= u32::MAX,
    ensures
        r.width == width,
        r.height == height,
        r.padded_bytes_per_row == aligned_up(width * 4, row_alignment as int),
        r.readback_size == r.padded_bytes_per_row * height,
{
    let padded_bytes_per_row = align_to(width * 4, row_alignment);
    proof {
        assert(padded_bytes_per_row * height <= u32::MAX * u32::MAX) by (nonlinear_arith)
            requires
                padded_bytes_per_row <= u32::MAX,
                height <= u32::MAX,
        ;
    }
    let readback_size = padded_bytes_per_row as u64 * height as u64;
    ReadbackLayout { width, height, padded_bytes_per_row, readback_size }
}

/// A readback buffer laid out by [`readback_layout`] holds every row that
/// [`unpad_rows`] reads: rows are at least `width * 4` bytes apart, and the
/// last row ends inside the buffer.
pub proof fn readback_layout_fits_unpadding(width: u32, height: u32, row_alignment: u32)
    requires
        row_alignment > 0,
    ensures
        width * 4 <= aligned_up(width * 4, row_alignment as int),
        height > 0 ==> (height - 1) * aligned_up(width * 4, row_alignment as int) + width * 4
            <= aligned_up(width * 4, row_alignment as int) * height,
{
    let v = width * 4;
    let a = row_alignment as int;
    lemma_mod_pos_bound(v, a);
    let p = aligned_up(v, a);
    assert(v <= p);
    if height > 0 {
        assert((height - 1) * p + v <= p * height) by (nonlinear_arith)
            requires
                v <= p,
                height >= 1,
        ;
    }
}

/// Whether the output texture must be recreated for a `width x height`
/// render: when there is none yet, or it has another size.
pub fn output_needs_rebuild(existing: Option<(u32, u32)>, width: u32, height: u32) -> (r: bool)
    ensures
        r == match existing {
            Some((w, h)) => w != width || h != height,
            None => true,
        },
{
    match existing {
        Some((w, h)) => w != width || h != height,
        None => true,
    }
}

/// State of one frame slot of the pipelined video renderer.
#[derive(Debug, Clone, Copy, PartialEq, Eq, Structural)]
pub enum SlotState {
    /// Available for the next frame.
    Free,
    /// A frame was submitted to the GPU and not yet read back.
    Submitted,
    /// The frame was read back; its bytes may be read until the slot is released.
    Ready,
}

/// A frame in flight: its number, its slot, and the device's token for the
/// submission (carried through untouched).
pub struct PendingFrame<T> {
    pub frame_index: u32,
    pub slot_index: usize,
    pub submission: T,
}

/// A frame whose bytes have been read back into its slot.
#[derive(Debug, Clone, Copy, PartialEq, Eq, Structural)]
pub struct CompletedFrame {
    pub frame_index: u32,
    pub slot_index: usize,
}

/// Errors of the pipelined video renderer's bookkeeping.
#[derive(Debug, Clone, Copy, PartialEq, Eq, Structural)]
pub enum RendererError {
    /// The renderer was asked for a zero width or height.
    ZeroSize,
    /// The renderer was asked for zero frames in flight.
    ZeroInFlight,
    /// The output is larger than the device's maximum texture dimension.
    ExceedsMaxTextureDimension { width: u32, height: u32, max_dimension: u32 },
    /// A frame's output size differs from the renderer's.
    FrameSizeMismatch { width: u32, height: u32, expected_width: u32, expected_height: u32 },
    /// No slot was free and no frame was in flight to wait for.
    NoFreeSlot,
    /// No slot was free even after waiting for the oldest frame.
    NoFreeSlotAfterWaiting,
    /// A slot index past the last slot.
    InvalidSlot { slot_index: usize },
    /// A slot's bytes were asked for before its frame was read back.
    SlotNotReady { slot_index: usize },
    /// A slot was released while not holding a read-back frame.
    SlotNotReleasable { slot_index: usize },
    /// `width * height * 4` does not fit in `usize`.
    FrameSizeOverflow,
}

/// Byte length of one RGBA8 frame of the video renderer, or
/// `FrameSizeOverflow` exactly when it does not fit in `usize`.
pub fn rgba_len(width: u32, height: u32) -> (r: Result<usize, RendererError>)
    ensures
        match r {
            Ok(len) => len == rgba_bytes(width, height),
            Err(e) => e == RendererError::FrameSizeOverflow && rgba_bytes(width, height)
                > usize::MAX,
        },
{
    match expected_rgba_len(width, height) {
        Ok(len) => Ok(len),
        Err(_) => Err(RendererError::FrameSizeOverflow),
    }
}

/// Index of the first free slot at or after `from`, if any.
pub open spec fn first_free_from(states: Seq<SlotState>, from: int) -> Option<int>
    decreases states.len() - from,
{
    if from < 0 || from >= states.len() {
        None
    } else if states[from] == SlotState::Free {
        Some(from)
    } else {
        first_free_from(states, from + 1)
    }
}

/// Index of the first free slot, if any.
pub open spec fn first_free(states: Seq<SlotState>) -> Option<int> {
    first_free_from(states, 0)
}

/// The first free slot is free, and no slot before it is.
pub proof fn first_free_is_first(states: Seq<SlotState>, from: int)
    requires
        0 <= from,
    ensures
        first_free_from(states, from) matches Some(i) ==> from <= i < states.len()
            && states[i] == SlotState::Free && forall|j: int|
            from <= j < i ==> states[j] != SlotState::Free,
        first_free_from(states, from) is None ==> forall|j: int|
            from <= j < states.len() ==> states[j] != SlotState::Free,
    decreases states.len() - from,
{
    if from < states.len() && states[from] != SlotState::Free {
        first_free_is_first(states, from + 1);
    }
}

/// What a submission does before it can use a slot: how many of the oldest
/// frames in flight it waits for, and the slot it then uses or why it cannot.
#[derive(Debug, Clone, Copy)]
pub struct SubmissionPlan {
    pub waits: usize,
    pub slot: Result<usize, RendererError>,
}

/// Bookkeeping of the pipelined GPU video renderer: a fixed set of frame
/// slots and the queue of frames in flight, oldest first.
pub struct FrameScheduler<T> {
    width: u32,
    height: u32,
    slots: Vec<SlotState>,
    pending: VecDeque<PendingFrame<T>>,
    max_in_flight: usize,
}

impl<T> FrameScheduler<T> {
    /// Output width of every frame.
    pub closed spec fn frame_width(&self) -> u32 {
        self.width
    }

    /// Output height of every frame.
    pub closed spec fn frame_height(&self) -> u32 {
        self.height
    }

    /// States of the slots, by slot index.
    pub closed spec fn states(&self) -> Seq<SlotState> {
        self.slots@
    }

    /// Frames in flight, oldest first.
    pub closed spec fn in_flight(&self) -> Seq<PendingFrame<T>> {
        self.pending@
    }

    /// Maximum number of frames in flight, which is also the number of slots.
    pub closed spec fn capacity(&self) -> nat {
        self.max_in_flight as nat
    }

    /// The scheduler's invariant: one slot per frame that may be in flight, at
    /// most that many frames in flight, each in its own slot, which is marked
    /// submitted.
    pub closed spec fn wf(&self) -> bool {
        &&& self.slots@.len() == self.max_in_flight
        &&& self.max_in_flight > 0
        &&& self.pending@.len() <= self.max_in_flight
        &&& forall|i: int|
            0 <= i < self.pending@.len() ==> {
                let s = #[trigger] self.pending@[i].slot_index;
                s < self.slots@.len() && self.slots@[s as int] == SlotState::Submitted
            }
        &&& forall|i: int, j: int|
            0 <= i < self.pending@.len() && 0 <= j < self.pending@.len() && i != j
                ==> #[trigger] self.pending@[i].slot_index != #[trigger] self.pending@[j].slot_index
    }

    /// The renderer's set-up checks, then `max_in_flight` free slots and no
    /// frame in flight. Fails with `ZeroSize`, then `ZeroInFlight`, then
    /// `ExceedsMaxTextureDimension`, in that order of precedence.
    pub fn new(width: u32, height: u32, max_in_flight: usize, max_texture_dimension: u32) -> (r:
        Result<Self, RendererError>)
        ensures
            (width == 0 || height == 0) ==> r matches Err(RendererError::ZeroSize),
            width > 0 && height > 0 && max_in_flight == 0 ==> r matches Err(
                RendererError::ZeroInFlight,
            ),
            width > 0 && height > 0 && max_in_flight > 0 && (width > max_texture_dimension
                || height > max_texture_dimension) ==> (r matches Err(
                RendererError::ExceedsMaxTextureDimension { width: w, height: h, max_dimension: m },
            ) && w == width && h == height && m == max_texture_dimension),
            width > 0 && height > 0 && max_in_flight > 0 && width <= max_texture_dimension
                && height <= max_texture_dimension ==> r is Ok,
            r matches Ok(s) ==> {
                &&& s.wf()
                &&& s.frame_width() == width
                &&& s.frame_height() == height
                &&& s.capacity() == max_in_flight
                &&& s.states() == Seq::new(max_in_flight as nat, |i: int| SlotState::Free)
                &&& s.in_flight().len() == 0
            },
    {
        if width == 0 || height == 0 {
            return Err(RendererError::ZeroSize);
        }
        if max_in_flight == 0 {
            return Err(RendererError::ZeroInFlight);
        }
        if width > max_texture_dimension || height > max_texture_dimension {
            return Err(
                RendererError::ExceedsMaxTextureDimension {
                    width,
                    height,
                    max_dimension: max_texture_dimension,
                },
            );
        }
        let mut slots: Vec<SlotState> = Vec::new();
        let mut i: usize = 0;
        while i < max_in_flight
            invariant
                i <= max_in_flight,
                slots@ == Seq::new(i as nat, |k: int| SlotState::Free),
            decreases max_in_flight - i,
        {
            slots.push(SlotState::Free);
            i = i + 1;
            assert(slots@ =~= Seq::new(i as nat, |k: int| SlotState::Free));
        }
        Ok(FrameScheduler { width, height, slots, pending: VecDeque::new(), max_in_flight })
    }

    /// Checks that a frame has the renderer's output size.
    pub fn check_frame_size(&self, width: u32, height: u32) -> (r: Result<(), RendererError>)
        ensures
            r is Ok <==> width == self.frame_width() && height == self.frame_height(),
            r matches Err(e) ==> e == (RendererError::FrameSizeMismatch {
                width,
                height,
                expected_width: self.frame_width(),
                expected_height: self.frame_height(),
            }),
    {
        if width != self.width || height != self.height {
            return Err(
                RendererError::FrameSizeMismatch {
                    width,
                    height,
                    expected_width: self.width,
                    expected_height: self.height,
                },
            );
        }
        Ok(())
    }

    /// Number of frames in flight.
    pub fn pending_count(&self) -> (r: usize)
        ensures
            r == self.in_flight().len(),
    {
        self.pending.len()
    }

    /// How many frames may be in flight at once.
    pub fn max_in_flight(&self) -> (r: usize)
        ensures
            r == self.capacity(),
    {
        self.max_in_flight
    }

    /// The state of slot `slot_index`, if there is such a slot.
    pub fn slot_state(&self, slot_index: usize) -> (r: Option<SlotState>)
        ensures
            slot_index < self.states().len() ==> r == Some(self.states()[slot_index as int]),
            slot_index >= self.states().len() ==> r is None,
    {
        if slot_index < self.slots.len() {
            Some(self.slots[slot_index])
        } else {
            None
        }
    }

    /// The first free slot, if any.
    pub fn find_free_slot(&self) -> (r: Option<usize>)
        ensures
            match r {
                Some(i) => first_free(self.states()) == Some(i as int),
                None => first_free(self.states()) is None,
            },
    {
        let mut i: usize = 0;
        while i < self.slots.len()
            invariant
                i <= self.slots@.len(),
                first_free(self.slots@) == first_free_from(self.slots@, i as int),
            decreases self.slots@.len() - i,
        {
            if self.slots[i] == SlotState::Free {
                return Some(i);
            }
            i = i + 1;
        }
        None
    }

    /// Plans a submission the way the renderer makes it: while as many frames
    /// are in flight as there are slots, wait for the oldest; then use the
    /// first free slot. When none is free, a renderer with nothing in flight
    /// fails with `NoFreeSlot`; otherwise it waits once more and fails with
    /// `NoFreeSlotAfterWaiting`, since reading a frame back never frees a slot.
    pub fn plan_submission(&self) -> (r: SubmissionPlan)
        requires
            self.wf(),
        ensures
            ({
                let n = self.in_flight().len();
                let base = if n >= self.capacity() {
                    n - self.capacity() + 1
                } else {
                    0
                };
                match first_free(self.states()) {
                    Some(i) => r == SubmissionPlan { waits: base as usize, slot: Ok(i as usize) },
                    None => if n - base == 0 {
                        r == SubmissionPlan {
                            waits: base as usize,
                            slot: Err(RendererError::NoFreeSlot),
                        }
                    } else {
                        r == SubmissionPlan {
                            waits: (base + 1) as usize,
                            slot: Err(RendererError::NoFreeSlotAfterWaiting),
                        }
                    },
                }
            }),
            r.slot is Ok ==> r.waits <= self.in_flight().len() && self.in_flight().len() - r.waits
                < self.capacity(),
    {
        let n = self.pending.len();
        let base: usize = if n >= self.max_in_flight {
            n - self.max_in_flight + 1
        } else {
            0
        };
        match self.find_free_slot() {
            Some(i) => SubmissionPlan { waits: base, slot: Ok(i) },
            None => if n - base == 0 {
                SubmissionPlan { waits: base, slot: Err(RendererError::NoFreeSlot) }
            } else {
                SubmissionPlan { waits: base + 1, slot: Err(RendererError::NoFreeSlotAfterWaiting) }
            },
        }
    }

    /// Takes the oldest frame in flight off the queue, to be read back. Its
    /// slot stays submitted until `mark_ready`.
    pub fn take_oldest(&mut self) -> (r: Option<PendingFrame<T>>)
        requires
            old(self).wf(),
        ensures
            final(self).wf(),
            final(self).states() == old(self).states(),
            final(self).capacity() == old(self).capacity(),
            final(self).frame_width() == old(self).frame_width(),
            final(self).frame_height() == old(self).frame_height(),
            match r {
                Some(p) => {
                    &&& old(self).in_flight().len() > 0
                    &&& p == old(self).in_flight()[0]
                    &&& final(self).in_flight() == old(self).in_flight().drop_first()
                    &&& p.slot_index < final(self).states().len()
                    &&& final(self).states()[p.slot_index as int] == SlotState::Submitted
                    &&& forall|i: int|
                        0 <= i < final(self).in_flight().len() ==> (#[trigger] final(self).in_flight()[i]).slot_index != p.slot_index
                },
                None => old(self).in_flight().len() == 0 && final(self).in_flight() == old(self).in_flight(),
            },
    {
        let r = self.pending.pop_front();
        proof {
            if r is Some {
                assert(self.pending@ =~= old(self).pending@.drop_first());
                assert forall|i: int| 0 <= i < self.pending@.len() implies (
                #[trigger] self.pending@[i]).slot_index != old(self).pending@[0].slot_index by {
                    assert(self.pending@[i] == old(self).pending@[i + 1]);
                }
                assert forall|i: int, j: int|
                    0 <= i < self.pending@.len() && 0 <= j < self.pending@.len() && i != j
                        implies #[trigger] self.pending@[i].slot_index
                        != #[trigger] self.pending@[j].slot_index by {
                    assert(self.pending@[i] == old(self).pending@[i + 1]);
                    assert(self.pending@[j] == old(self).pending@[j + 1]);
                }
                assert forall|i: int| 0 <= i < self.pending@.len() implies {
                    let s = #[trigger] self.pending@[i].slot_index;
                    s < self.slots@.len() && self.slots@[s as int] == SlotState::Submitted
                } by {
                    assert(self.pending@[i] == old(self).pending@[i + 1]);
                }
            }
        }
        r
    }

    /// Marks a slot whose frame was taken off the queue and read back as
    /// ready. No other slot changes.
    pub fn mark_ready(&mut self, slot_index: usize)
        requires
            old(self).wf(),
            slot_index < old(self).states().len(),
            old(self).states()[slot_index as int] == SlotState::Submitted,
            forall|i: int|
                0 <= i < old(self).in_flight().len() ==> (#[trigger] old(self).in_flight()[i]).slot_index
                    != slot_index,
        ensures
            final(self).wf(),
            final(self).states() == old(self).states().update(slot_index as int, SlotState::Ready),
            final(self).in_flight() == old(self).in_flight(),
            final(self).capacity() == old(self).capacity(),
            final(self).frame_width() == old(self).frame_width(),
            final(self).frame_height() == old(self).frame_height(),
    {
        self.slots.set(slot_index, SlotState::Ready);
        proof {
            assert forall|i: int| 0 <= i < self.pending@.len() implies {
                let s = #[trigger] self.pending@[i].slot_index;
                s < self.slots@.len() && self.slots@[s as int] == SlotState::Submitted
            } by {
                assert(old(self).in_flight()[i].slot_index != slot_index);
            }
        }
    }

    /// Puts a frame in flight in a free slot, behind every frame already in
    /// flight.
    pub fn submit(&mut self, frame_index: u32, slot_index: usize, submission: T)
        requires
            old(self).wf(),
            slot_index < old(self).states().len(),
            old(self).states()[slot_index as int] == SlotState::Free,
            old(self).in_flight().len() < old(self).capacity(),
        ensures
            final(self).wf(),
            final(self).states() == old(self).states().update(
                slot_index as int,
                SlotState::Submitted,
            ),
            final(self).in_flight() == old(self).in_flight().push(
                PendingFrame { frame_index, slot_index, submission },
            ),
            final(self).capacity() == old(self).capacity(),
            final(self).frame_width() == old(self).frame_width(),
            final(self).frame_height() == old(self).frame_height(),
    {
        self.slots.set(slot_index, SlotState::Submitted);
        self.pending.push_back(PendingFrame { frame_index, slot_index, submission });
        proof {
            let n = old(self).pending@.len();
            assert forall|i: int| 0 <= i < self.pending@.len() implies {
                let s = #[trigger] self.pending@[i].slot_index;
                s < self.slots@.len() && self.slots@[s as int] == SlotState::Submitted
            } by {
                if i < n {
                    assert(self.pending@[i] == old(self).pending@[i]);
                }
            }
            assert forall|i: int, j: int|
                0 <= i < self.pending@.len() && 0 <= j < self.pending@.len() && i != j
                    implies #[trigger] self.pending@[i].slot_index
                    != #[trigger] self.pending@[j].slot_index by {
                if i < n {
                    assert(self.pending@[i] == old(self).pending@[i]);
                }
                if j < n {
                    assert(self.pending@[j] == old(self).pending@[j]);
                }
            }
        }
    }

    /// Checks that a slot's bytes may be read: the slot exists and holds a
    /// frame that was read back and not yet released.
    pub fn check_readable(&self, slot_index: usize) -> (r: Result<(), RendererError>)
        ensures
            slot_index >= self.states().len() ==> r == Err::<(), RendererError>(
                RendererError::InvalidSlot { slot_index },
            ),
            slot_index < self.states().len() ==> if self.states()[slot_index as int]
                == SlotState::Ready {
                r is Ok
            } else {
                r == Err::<(), RendererError>(RendererError::SlotNotReady { slot_index })
            },
    {
        if slot_index >= self.slots.len() {
            return Err(RendererError::InvalidSlot { slot_index });
        }
        if self.slots[slot_index] != SlotState::Ready {
            return Err(RendererError::SlotNotReady { slot_index });
        }
        Ok(())
    }

    /// Releases a ready slot for the next frame. Fails, changing nothing, for
    /// a slot index past the last slot or a slot not holding a read-back frame.
    pub fn release_slot(&mut self, slot_index: usize) -> (r: Result<(), RendererError>)
        requires
            old(self).wf(),
        ensures
            final(self).wf(),
            final(self).in_flight() == old(self).in_flight(),
            final(self).capacity() == old(self).capacity(),
            final(self).frame_width() == old(self).frame_width(),
            final(self).frame_height() == old(self).frame_height(),
            slot_index >= old(self).states().len() ==> r == Err::<(), RendererError>(
                RendererError::InvalidSlot { slot_index },
            ) && final(self).states() == old(self).states(),
            slot_index < old(self).states().len() ==> if old(self).states()[slot_index as int]
                == SlotState::Ready {
                r is Ok && final(self).states() == old(self).states().update(
                    slot_index as int,
                    SlotState::Free,
                )
            } else {
                r == Err::<(), RendererError>(RendererError::SlotNotReleasable { slot_index })
                    && final(self).states() == old(self).states()
            },
    {
        if slot_index >= self.slots.len() {
            return Err(RendererError::InvalidSlot { slot_index });
        }
        if self.slots[slot_index] != SlotState::Ready {
            return Err(RendererError::SlotNotReleasable { slot_index });
        }
        self.slots.set(slot_index, SlotState::Free);
        Ok(())
    }
}

/// Slot sequences that agree on which slots are free have the same first free
/// slot from any position.
proof fn lemma_first_free_same_free(a: Seq<SlotState>, b: Seq<SlotState>, from: int)
    requires
        a.len() == b.len(),
        forall|i: int| 0 <= i < a.len() ==> (a[i] == SlotState::Free <==> b[i] == SlotState::Free),
    ensures
        first_free_from(a, from) == first_free_from(b, from),
    decreases a.len() - from,
{
    if 0 <= from < a.len() {
        lemma_first_free_same_free(a, b, from + 1);
    }
}

/// Reading frames back never frees a slot: taking the oldest frame keeps every
/// slot's state, and marking it ready turns a submitted slot into a ready one.
/// So the first free slot after any number of waits is the one before them.
pub proof fn waiting_keeps_free_slots(before: Seq<SlotState>, slot_index: int)
    requires
        0 <= slot_index < before.len(),
        before[slot_index] == SlotState::Submitted,
    ensures
        first_free(before.update(slot_index, SlotState::Ready)) == first_free(before),
{
    lemma_first_free_same_free(before.update(slot_index, SlotState::Ready), before, 0);
}

} // verus!
