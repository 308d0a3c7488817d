//! Integer geometry of a Deep Zoom pyramid: how many levels an image has,
//! how large each level is, and which rectangle of a level each tile covers.
//!
//! Everything here is stated over mathematical integers and computed with
//! machine integers; no pixel data is involved.

use vstd::prelude::*;
use vstd::arithmetic::power2::{
    pow2, lemma_pow2_pos, lemma_pow2_unfold, lemma_pow2_strictly_increases, lemma2_to64,
};

verus! {

/// `n / d` rounded up, for a positive divisor.
pub open spec fn ceil_div(n: int, d: int) -> int {
    (n + d - 1) / d
}

/// `k` is the least exponent whose power of two reaches `n`.
pub open spec fn is_ceil_log2(n: nat, k: nat) -> bool {
    &&& pow2(k) >= n
    &&& k > 0 ==> pow2((k - 1) as nat) < n
}

/// Base-two logarithm of `n`, rounded up; zero for `n <= 1`.
pub open spec fn ceil_log2(n: nat) -> nat {
    choose|k: nat| is_ceil_log2(n, k)
}

/// `k` is the least number whose square reaches `n`.
pub open spec fn is_ceil_sqrt(n: nat, k: nat) -> bool {
    &&& k * k >= n
    &&& k > 0 ==> (k - 1) * (k - 1) < n
}

/// Square root of `n`, rounded up.
pub open spec fn ceil_sqrt(n: nat) -> nat {
    choose|k: nat| is_ceil_sqrt(n, k)
}

/// Level count of a full pyramid: the coarsest level is a single pixel.
pub open spec fn default_levels(width: nat, height: nat) -> nat {
    ceil_log2(if width >= height { width } else { height }) + 1
}

/// Level count of the truncated pyramid used for cube faces: one more than
/// the square root of the quotient `face_size / tile_size`, rounded up. The
/// root of the quotient and the root of the quotient rounded up to a whole
/// number round up to the same number, so it is taken of the latter.
pub open spec fn pipeline_levels(face_size: nat, tile_size: nat) -> nat {
    ceil_sqrt(ceil_div(face_size as int, tile_size as int) as nat) + 1
}

/// Side of level `level` of a pyramid of `levels` levels over an image side
/// `size`: the side times `2^(level - (levels - 1))`, rounded up.
pub open spec fn level_dimension(size: int, levels: int, level: int) -> int {
    ceil_div(size, pow2((levels - 1 - level) as nat) as int)
}

/// Number of tiles along an axis of length `dim`.
pub open spec fn tile_count(dim: int, tile_size: int) -> int {
    ceil_div(dim, tile_size)
}

/// Overlap taken on the leading side of tile `index`.
pub open spec fn tile_offset(index: int, overlap: int) -> int {
    if index == 0 {
        0
    } else {
        overlap
    }
}

/// First coordinate of tile `index` along an axis.
pub open spec fn tile_start(index: int, tile_size: int, overlap: int) -> int {
    index * tile_size - tile_offset(index, overlap)
}

/// Extent of tile `index` before clamping to the level.
pub open spec fn tile_raw_extent(index: int, tile_size: int, overlap: int) -> int {
    tile_size + (if index == 0 {
        1int
    } else {
        2int
    }) * overlap
}

/// Extent of tile `index` along an axis of length `dim`.
pub open spec fn tile_extent(index: int, tile_size: int, overlap: int, dim: int) -> int {
    let raw = tile_raw_extent(index, tile_size, overlap);
    let rest = dim - tile_start(index, tile_size, overlap);
    if raw <= rest {
        raw
    } else {
        rest
    }
}

/// One past the last coordinate of tile `index` along an axis.
pub open spec fn tile_end(index: int, tile_size: int, overlap: int, dim: int) -> int {
    tile_start(index, tile_size, overlap) + tile_extent(index, tile_size, overlap, dim)
}

/// Tile `index` belongs to the grid of an axis of length `dim` and its
/// rectangle does not start before the level does.
pub open spec fn tile_in_range(index: int, tile_size: int, overlap: int, dim: int) -> bool {
    &&& 0 <= index < tile_count(dim, tile_size)
    &&& tile_start(index, tile_size, overlap) >= 0
}

/// `ceil_div(n, d)` is the one quotient `q` with `(q - 1) * d < n <= q * d`.
pub proof fn lemma_ceil_div_is(n: int, d: int, q: int)
    requires
        d > 0,
        (q - 1) * d < n <= q * d,
    ensures
        ceil_div(n, d) == q,
{
    let m = n + d - 1;
    assert((q + 1) * d == q * d + d) by (nonlinear_arith);
    assert((q - 1) * d == q * d - d) by (nonlinear_arith);
    assert(m / d == q) by (nonlinear_arith)
        requires
            d > 0,
            q * d <= m < (q + 1) * d,
    ;
}

/// `ceil_div(n, d)` is the least `q` with `q * d >= n`.
pub proof fn lemma_ceil_div_bounds(n: int, d: int)
    requires
        d > 0,
    ensures
        (ceil_div(n, d) - 1) * d < n <= ceil_div(n, d) * d,
{
    let m = n + d - 1;
    let q = m / d;
    assert(q * d <= m < q * d + d) by (nonlinear_arith)
        requires
            d > 0,
            q == m / d,
    ;
    assert((q - 1) * d == q * d - d) by (nonlinear_arith);
}

/// A power of two reached at exponent `a` is reached at every larger one.
proof fn lemma_pow2_monotone(a: nat, b: nat)
    requires
        a <= b,
    ensures
        pow2(a) <= pow2(b),
{
    if a < b {
        lemma_pow2_strictly_increases(a, b);
    }
}

/// At most one exponent is the rounded-up logarithm of `n`.
pub proof fn lemma_ceil_log2_unique(n: nat, k: nat)
    requires
        is_ceil_log2(n, k),
    ensures
        ceil_log2(n) == k,
{
    let c = ceil_log2(n);
    assert(is_ceil_log2(n, c));
    if c < k {
        lemma_pow2_monotone(c, (k - 1) as nat);
    } else if k < c {
        lemma_pow2_monotone(k, (c - 1) as nat);
    }
}

/// Squares grow with their base.
proof fn lemma_square_monotone(a: nat, b: nat)
    requires
        a <= b,
    ensures
        a * a <= b * b,
{
    assert(a * a <= b * b) by (nonlinear_arith)
        requires
            0 <= a <= b,
    ;
}

/// At most one number is the rounded-up square root of `n`.
pub proof fn lemma_ceil_sqrt_unique(n: nat, k: nat)
    requires
        is_ceil_sqrt(n, k),
    ensures
        ceil_sqrt(n) == k,
{
    let c = ceil_sqrt(n);
    assert(is_ceil_sqrt(n, c));
    if c < k {
        lemma_square_monotone(c, (k - 1) as nat);
    } else if k < c {
        lemma_square_monotone(k, (c - 1) as nat);
    }
}

/// Rounded-up base-two logarithm of `n`.
pub fn ceil_log2_u32(n: u32) -> (k: u32)
    ensures
        k <= 32,
        is_ceil_log2(n as nat, k as nat),
        k == ceil_log2(n as nat),
{
    let mut k: u32 = 0;
    let mut p: u64 = 1;
    proof {
        lemma2_to64();
    }
    while p < n as u64
        invariant
            k <= 32,
            p == pow2(k as nat),
            k > 0 ==> pow2((k - 1) as nat) < n,
            k == 32 ==> p >= n,
        decreases 32 - k,
    {
        proof {
            lemma2_to64();
            lemma_pow2_unfold((k + 1) as nat);
            if k >= 31 {
                lemma_pow2_monotone(31, k as nat);
            }
        }
        p = p * 2;
        k = k + 1;
        proof {
            if k == 32 {
                lemma_pow2_monotone(32, k as nat);
            }
        }
    }
    proof {
        lemma_ceil_log2_unique(n as nat, k as nat);
    }
    k
}

/// Rounded-up square root of `n`.
pub fn ceil_sqrt_u32(n: u32) -> (k: u32)
    ensures
        k <= 65536,
        is_ceil_sqrt(n as nat, k as nat),
        k == ceil_sqrt(n as nat),
{
    let mut k: u32 = 0;
    let mut reached: bool = n == 0;
    while !reached
        invariant
            k <= 65536,
            reached <==> k * k >= n,
            k > 0 ==> (k - 1) * (k - 1) < n,
        decreases 65536 - k,
    {
        assert(k < 65536) by (nonlinear_arith)
            requires
                k * k < n,
                n <= 0xffff_ffff,
                k >= 0,
        ;
        k = k + 1;
        assert(k * k <= 0x1_0000_0000) by (nonlinear_arith)
            requires
                0 <= k <= 65536,
        ;
        let square: u64 = (k as u64) * (k as u64);
        reached = square >= n as u64;
    }
    proof {
        lemma_ceil_sqrt_unique(n as nat, k as nat);
    }
    k
}

/// Level count of a full pyramid over a `width` by `height` image.
pub fn default_level_count(width: u32, height: u32) -> (levels: u32)
    ensures
        1 <= levels <= 33,
        levels == default_levels(width as nat, height as nat),
{
    let longest: u32 = if width >= height {
        width
    } else {
        height
    };
    ceil_log2_u32(longest) + 1
}

/// Level count of the truncated pyramid over a cube face.
pub fn pipeline_level_count(face_size: u32, tile_size: u32) -> (levels: u32)
    requires
        tile_size >= 1,
    ensures
        1 <= levels <= 65537,
        levels == pipeline_levels(face_size as nat, tile_size as nat),
{
    let tiles: u32 = tile_count_u32(face_size, tile_size);
    ceil_sqrt_u32(tiles) + 1
}

/// Side of level `level` of a pyramid of `levels` levels over a side `size`.
pub fn scaled_dimension(size: u32, levels: u32, level: u32) -> (dim: u32)
    requires
        level < levels,
    ensures
        dim == level_dimension(size as int, levels as int, level as int),
        dim <= size,
        size > 0 ==> dim >= 1,
{
    let shift: u32 = levels - 1 - level;
    proof {
        lemma2_to64();
        lemma_pow2_pos(shift as nat);
        lemma_level_dimension_bounds(size as int, levels as int, level as int);
    }
    if shift >= 32 {
        proof {
            lemma_pow2_monotone(32, shift as nat);
            let p = pow2(shift as nat) as int;
            if size > 0 {
                assert((1 - 1) * p < size <= 1 * p) by (nonlinear_arith)
                    requires
                        0 < size <= p,
                ;
                lemma_ceil_div_is(size as int, p, 1);
            } else {
                assert((0 - 1) * p < 0 <= 0 * p) by (nonlinear_arith)
                    requires
                        p > 0,
                ;
                lemma_ceil_div_is(0, p, 0);
            }
        }
        if size > 0 {
            1
        } else {
            0
        }
    } else {
        let mut p: u64 = 1;
        let mut i: u32 = 0;
        while i < shift
            invariant
                i <= shift < 32,
                p == pow2(i as nat),
                p <= 0x8000_0000,
            decreases shift - i,
        {
            proof {
                lemma2_to64();
                lemma_pow2_unfold((i + 1) as nat);
                lemma_pow2_monotone((i + 1) as nat, 31);
            }
            p = p * 2;
            i = i + 1;
        }
        let q: u64 = (size as u64 + p - 1) / p;
        assert(q <= size) by (nonlinear_arith)
            requires
                q == (size + p - 1) / (p as int),
                p >= 1,
                size >= 0,
        ;
        q as u32
    }
}

/// Number of tiles along an axis of length `dim`.
pub fn tile_count_u32(dim: u32, tile_size: u32) -> (count: u32)
    requires
        tile_size >= 1,
    ensures
        count == tile_count(dim as int, tile_size as int),
        count <= dim,
{
    let q: u64 = (dim as u64 + tile_size as u64 - 1) / (tile_size as u64);
    assert(q <= dim) by (nonlinear_arith)
        requires
            q == (dim + tile_size - 1) / (tile_size as int),
            tile_size >= 1,
            dim >= 0,
    ;
    q as u32
}

/// The half-open interval `(start, end)` that tile `index` covers along an
/// axis of length `dim`, or `None` when the tile is outside the grid or
/// would start before the level does.
pub fn tile_span(index: u32, tile_size: u32, overlap: u32, dim: u32) -> (span: Option<(u32, u32)>)
    requires
        tile_size >= 1,
    ensures
        span is Some <==> tile_in_range(index as int, tile_size as int, overlap as int, dim as int),
        span matches Some((start, end)) ==> {
            &&& start == tile_start(index as int, tile_size as int, overlap as int)
            &&& end == tile_end(index as int, tile_size as int, overlap as int, dim as int)
            &&& start < end <= dim
        },
{
    proof {
        assert(0 <= index * tile_size <= 0xffff_ffff * 0xffff_ffff) by (nonlinear_arith)
            requires
                0 <= index <= 0xffff_ffff,
                0 <= tile_size <= 0xffff_ffff,
        ;
        lemma_index_in_grid(index as int, tile_size as int, dim as int);
    }
    let nominal: u64 = (index as u64) * (tile_size as u64);
    if nominal >= dim as u64 {
        return None;
    }
    let offset: u64 = if index == 0 {
        0
    } else {
        overlap as u64
    };
    if nominal < offset {
        return None;
    }
    let start: u64 = nominal - offset;
    let raw: u64 = tile_size as u64 + (if index == 0 {
        1u64
    } else {
        2u64
    }) * (overlap as u64);
    let rest: u64 = dim as u64 - start;
    let extent: u64 = if raw <= rest {
        raw
    } else {
        rest
    };
    Some((start as u32, (start + extent) as u32))
}

/// Tile `index` is in the grid exactly when its nominal cell starts inside
/// the axis.
pub proof fn lemma_index_in_grid(index: int, tile_size: int, dim: int)
    requires
        tile_size >= 1,
        index >= 0,
        dim >= 0,
    ensures
        index < tile_count(dim, tile_size) <==> index * tile_size < dim,
{
    lemma_ceil_div_bounds(dim, tile_size);
    let c = tile_count(dim, tile_size);
    if index < c {
        assert(index * tile_size <= (c - 1) * tile_size) by (nonlinear_arith)
            requires
                index <= c - 1,
                tile_size >= 1,
        ;
    } else {
        assert(index * tile_size >= c * tile_size) by (nonlinear_arith)
            requires
                index >= c,
                tile_size >= 1,
        ;
    }
}

/// A level is never larger than the image, and is empty only if the image is.
pub proof fn lemma_level_dimension_bounds(size: int, levels: int, level: int)
    requires
        size >= 0,
        0 <= level < levels,
    ensures
        0 <= level_dimension(size, levels, level) <= size,
        size > 0 ==> level_dimension(size, levels, level) >= 1,
{
    let p = pow2((levels - 1 - level) as nat) as int;
    lemma_pow2_pos((levels - 1 - level) as nat);
    lemma_ceil_div_bounds(size, p);
    let q = ceil_div(size, p);
    assert(q <= size) by (nonlinear_arith)
        requires
            (q - 1) * p < size,
            p >= 1,
            size >= 0,
    ;
    assert(q >= 0 && (size > 0 ==> q >= 1)) by (nonlinear_arith)
        requires
            size <= q * p,
            p >= 1,
            size >= 0,
    ;
}

/// The finest level has the size of the image itself.
pub proof fn lemma_finest_level_is_full_size(size: int, levels: int)
    requires
        levels >= 1,
    ensures
        level_dimension(size, levels, levels - 1) == size,
{
    lemma2_to64();
    assert((size - 1) * 1 < size <= size * 1);
    lemma_ceil_div_is(size, 1, size);
}

/// The coarsest level fits in one tile exactly when the image side is at
/// most the tile size times `2^(levels - 1)`.
pub proof fn lemma_coarsest_level_fits_tile(size: int, levels: int, tile_size: int)
    requires
        size >= 0,
        levels >= 1,
    ensures
        level_dimension(size, levels, 0) <= tile_size <==> size <= tile_size * pow2(
            (levels - 1) as nat,
        ),
{
    let p = pow2((levels - 1) as nat) as int;
    lemma_pow2_pos((levels - 1) as nat);
    lemma_ceil_div_bounds(size, p);
    let q = ceil_div(size, p);
    if q <= tile_size {
        assert(size <= tile_size * p) by (nonlinear_arith)
            requires
                size <= q * p,
                q <= tile_size,
                p >= 1,
        ;
    } else {
        assert(size > tile_size * p) by (nonlinear_arith)
            requires
                (q - 1) * p < size,
                q - 1 >= tile_size,
                p >= 1,
        ;
    }
}

/// With the level count of a full pyramid the coarsest level is at most one
/// pixel on each side, so it fits in any tile.
pub proof fn lemma_default_coarsest_level(width: nat, height: nat, tile_size: int)
    requires
        tile_size >= 1,
    ensures
        level_dimension(width as int, default_levels(width, height) as int, 0) <= tile_size,
        level_dimension(height as int, default_levels(width, height) as int, 0) <= tile_size,
{
    let longest = if width >= height {
        width
    } else {
        height
    };
    let k = ceil_log2(longest);
    lemma_ceil_log2_exists(longest);
    assert(is_ceil_log2(longest, k));
    let levels = default_levels(width, height) as int;
    assert((levels - 1) as nat == k);
    lemma_coarsest_level_fits_tile(width as int, levels, 1);
    lemma_coarsest_level_fits_tile(height as int, levels, 1);
}

/// Every number has a rounded-up base-two logarithm.
pub proof fn lemma_ceil_log2_exists(n: nat)
    ensures
        is_ceil_log2(n, ceil_log2(n)),
    decreases n,
{
    lemma2_to64();
    if n <= 1 {
        assert(is_ceil_log2(n, 0));
    } else {
        let half = ((n + 1) / 2) as nat;
        lemma_ceil_log2_exists(half);
        let k = ceil_log2(half);
        lemma_pow2_unfold(k + 1);
        if k > 0 {
            lemma_pow2_unfold(k);
        }
        assert(is_ceil_log2(n, k + 1));
    }
}

/// Every number has a rounded-up square root.
pub proof fn lemma_ceil_sqrt_exists(n: nat)
    ensures
        is_ceil_sqrt(n, ceil_sqrt(n)),
{
    lemma_ceil_sqrt_search(n, 0);
}

/// From any `k` whose predecessor is too small, a rounded-up square root is
/// reached by counting up.
proof fn lemma_ceil_sqrt_search(n: nat, k: nat)
    requires
        k > 0 ==> (k - 1) * (k - 1) < n,
    ensures
        exists|r: nat| is_ceil_sqrt(n, r),
    decreases n + 1 - k,
{
    if k * k >= n {
        assert(is_ceil_sqrt(n, k));
    } else {
        assert(k < n) by (nonlinear_arith)
            requires
                k * k < n,
                k >= 0,
        ;
        lemma_ceil_sqrt_search(n, k + 1);
    }
}

/// The level count of the truncated pyramid is the least number, from one
/// up, whose predecessor squared, times the tile size, reaches the face
/// side: one more than the rounded-up square root of the real quotient.
pub proof fn lemma_pipeline_levels(face_size: nat, tile_size: nat)
    requires
        tile_size >= 1,
    ensures
        ({
            let k = (pipeline_levels(face_size, tile_size) - 1) as nat;
            &&& pipeline_levels(face_size, tile_size) >= 1
            &&& k * k * tile_size >= face_size
            &&& k > 0 ==> (k - 1) * (k - 1) * tile_size < face_size
        }),
{
    let q = ceil_div(face_size as int, tile_size as int);
    lemma_ceil_div_bounds(face_size as int, tile_size as int);
    assert(q >= 0) by (nonlinear_arith)
        requires
            face_size <= q * tile_size,
            (q - 1) * tile_size < face_size,
            tile_size >= 1,
            face_size >= 0,
    ;
    lemma_ceil_sqrt_exists(q as nat);
    let k = ceil_sqrt(q as nat);
    assert(k * k * tile_size >= face_size) by (nonlinear_arith)
        requires
            k * k >= q,
            q * tile_size >= face_size,
            tile_size >= 1,
    ;
    if k > 0 {
        assert((k - 1) * (k - 1) * tile_size < face_size) by (nonlinear_arith)
            requires
                (k - 1) * (k - 1) <= q - 1,
                (q - 1) * tile_size < face_size,
                tile_size >= 1,
        ;
    }
}

/// With the level count of the truncated pyramid the coarsest level fits in
/// one tile for all face sides but those above eight and up to nine tile
/// sizes.
pub proof fn lemma_pipeline_coarsest_level(face_size: nat, tile_size: nat)
    requires
        tile_size >= 1,
    ensures
        level_dimension(
            face_size as int,
            pipeline_levels(face_size, tile_size) as int,
            0,
        ) <= tile_size <==> !(8 * tile_size < face_size <= 9 * tile_size),
{
    lemma_pipeline_levels(face_size, tile_size);
    let levels = pipeline_levels(face_size, tile_size) as int;
    let k = (levels - 1) as nat;
    lemma_square_below_pow2(k);
    lemma2_to64();
    lemma_coarsest_level_fits_tile(face_size as int, levels, tile_size as int);
    let p = pow2(k);
    assert(tile_size * p == p * tile_size) by (nonlinear_arith);
    if k == 3 {
        assert(k * k * tile_size == 9 * tile_size && (k - 1) * (k - 1) * tile_size == 4
            * tile_size) by (nonlinear_arith)
            requires
                k == 3,
        ;
        assert(p * tile_size == 8 * tile_size) by (nonlinear_arith)
            requires
                p == 8,
        ;
    } else {
        assert(face_size <= p * tile_size) by (nonlinear_arith)
            requires
                face_size <= k * k * tile_size,
                k * k <= p,
                tile_size >= 1,
        ;
        if 8 * tile_size < face_size <= 9 * tile_size {
            if k <= 2 {
                assert(k * k * tile_size <= 4 * tile_size) by (nonlinear_arith)
                    requires
                        0 <= k <= 2,
                        tile_size >= 1,
                ;
            } else {
                assert((k - 1) * (k - 1) * tile_size >= 9 * tile_size) by (nonlinear_arith)
                    requires
                        k >= 4,
                        tile_size >= 1,
                ;
            }
        }
    }
}

/// A square stays below the power of two of its base, except at three.
proof fn lemma_square_below_pow2(k: nat)
    ensures
        k != 3 ==> k * k <= pow2(k),
    decreases k,
{
    lemma2_to64();
    if k <= 4 {
    } else if k == 5 {
        assert(5 * 5 <= pow2(5));
    } else {
        lemma_square_below_pow2((k - 1) as nat);
        lemma_pow2_unfold(k);
        assert(k * k <= 2 * ((k - 1) * (k - 1))) by (nonlinear_arith)
            requires
                k >= 5,
        ;
    }
}

/// A tile of the grid lies inside the level: it is the nominal cell
/// `[index * tile_size, (index + 1) * tile_size)` widened by the overlap on
/// both sides and cut to `[0, dim)`.
pub proof fn lemma_tile_span(index: int, tile_size: int, overlap: int, dim: int)
    requires
        tile_size >= 1,
        overlap >= 0,
        dim >= 0,
        tile_in_range(index, tile_size, overlap, dim),
    ensures
        0 <= tile_start(index, tile_size, overlap) < tile_end(index, tile_size, overlap, dim)
            <= dim,
        tile_start(index, tile_size, overlap) == (if index * tile_size - overlap >= 0 {
            index * tile_size - overlap
        } else {
            0
        }),
        tile_end(index, tile_size, overlap, dim) == (if (index + 1) * tile_size + overlap <= dim {
            (index + 1) * tile_size + overlap
        } else {
            dim
        }),
{
    lemma_index_in_grid(index, tile_size, dim);
    assert((index + 1) * tile_size == index * tile_size + tile_size) by (nonlinear_arith);
    if index == 0 {
        assert(index * tile_size == 0);
    }
}

/// Every coordinate of the axis lies in the tile of its nominal cell,
/// provided that no tile of the grid starts before the level does.
pub proof fn lemma_tiles_cover(p: int, tile_size: int, overlap: int, dim: int)
    requires
        tile_size >= 1,
        overlap >= 0,
        0 <= p < dim,
        overlap <= tile_size || dim <= tile_size,
    ensures
        tile_in_range(p / tile_size, tile_size, overlap, dim),
        tile_start(p / tile_size, tile_size, overlap) <= p < tile_end(
            p / tile_size,
            tile_size,
            overlap,
            dim,
        ),
{
    let c = p / tile_size;
    assert(0 <= c && c * tile_size <= p < c * tile_size + tile_size) by (nonlinear_arith)
        requires
            c == p / tile_size,
            tile_size >= 1,
            p >= 0,
    ;
    lemma_index_in_grid(c, tile_size, dim);
    if c >= 1 {
        assert(c * tile_size >= tile_size) by (nonlinear_arith)
            requires
                c >= 1,
                tile_size >= 1,
        ;
    }
    assert(tile_in_range(c, tile_size, overlap, dim));
    lemma_tile_span(c, tile_size, overlap, dim);
    assert((c + 1) * tile_size == c * tile_size + tile_size) by (nonlinear_arith);
}

/// A coordinate lies in a tile of the grid exactly when it is within the
/// overlap of the tile's nominal cell.
pub proof fn lemma_tile_membership(p: int, index: int, tile_size: int, overlap: int, dim: int)
    requires
        tile_size >= 1,
        overlap >= 0,
        0 <= p < dim,
        tile_in_range(index, tile_size, overlap, dim),
    ensures
        (tile_start(index, tile_size, overlap) <= p < tile_end(index, tile_size, overlap, dim))
            <==> (index * tile_size - overlap <= p < (index + 1) * tile_size + overlap),
{
    lemma_tile_span(index, tile_size, overlap, dim);
}

/// Without overlap the tiles partition the axis: a coordinate lies in the
/// tile of its nominal cell and in no other.
pub proof fn lemma_tiles_partition(p: int, index: int, tile_size: int, dim: int)
    requires
        tile_size >= 1,
        0 <= p < dim,
        tile_in_range(index, tile_size, 0, dim),
    ensures
        (tile_start(index, tile_size, 0) <= p < tile_end(index, tile_size, 0, dim)) <==> index
            == p / tile_size,
{
    lemma_tile_membership(p, index, tile_size, 0, dim);
    let c = p / tile_size;
    assert(c * tile_size <= p < c * tile_size + tile_size) by (nonlinear_arith)
        requires
            c == p / tile_size,
            tile_size >= 1,
            p >= 0,
    ;
    assert((index + 1) * tile_size == index * tile_size + tile_size) by (nonlinear_arith);
    if index < c {
        assert((index + 1) * tile_size <= c * tile_size) by (nonlinear_arith)
            requires
                index + 1 <= c,
                tile_size >= 1,
        ;
    } else if index > c {
        assert(index * tile_size >= (c + 1) * tile_size) by (nonlinear_arith)
            requires
                index >= c + 1,
                tile_size >= 1,
        ;
        assert((c + 1) * tile_size == c * tile_size + tile_size) by (nonlinear_arith);
    }
}

} // verus!
