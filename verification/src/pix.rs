//! Spec-level vocabulary for row-major RGBA pixel grids: byte lengths,
//! pixel indices, and the bytes of a single pixel.

use vstd::prelude::*;

verus! {

/// Exact byte length of a `w x h` RGBA buffer (4 bytes per pixel).
pub open spec fn px_len(w: int, h: int) -> int {
    w * h * 4
}

/// Byte length as the executable constructors compute it: the exact
/// length, saturated at `usize::MAX` when the product does not fit.
pub open spec fn px_len_sat(w: int, h: int) -> int {
    if w * h > usize::MAX {
        usize::MAX as int
    } else if w * h * 4 > usize::MAX {
        usize::MAX as int
    } else {
        w * h * 4
    }
}

/// Pixel count of a `w x h` grid, saturated at `usize::MAX` when the
/// product does not fit.
pub open spec fn px_count_sat(w: int, h: int) -> int {
    if w * h > usize::MAX {
        usize::MAX as int
    } else {
        w * h
    }
}

/// Pixel index of coordinate `(x, y)` in a row-major grid `w` pixels wide.
pub open spec fn pix(w: int, x: int, y: int) -> int {
    y * w + x
}

/// First byte of pixel `(x, y)`.
pub open spec fn byte_at(w: int, x: int, y: int) -> int {
    pix(w, x, y) * 4
}

/// Whether `(x, y)` lies inside a `w x h` grid.
pub open spec fn in_grid(w: int, h: int, x: int, y: int) -> bool {
    0 <= x < w && 0 <= y < h
}

/// The four bytes `[r, g, b, a]` of pixel `(x, y)` of `data`.
pub open spec fn pixel_of(data: Seq<u8>, w: int, x: int, y: int) -> Seq<u8> {
    data.subrange(byte_at(w, x, y), byte_at(w, x, y) + 4)
}

/// The fully transparent black pixel.
pub open spec fn zero_pixel() -> Seq<u8> {
    seq![0u8, 0u8, 0u8, 0u8]
}

/// `data` with the four bytes of pixel `(x, y)` replaced by `c`.
pub open spec fn put_pixel(data: Seq<u8>, w: int, x: int, y: int, c: Seq<u8>) -> Seq<u8> {
    data.update(byte_at(w, x, y), c[0]).update(byte_at(w, x, y) + 1, c[1]).update(
        byte_at(w, x, y) + 2,
        c[2],
    ).update(byte_at(w, x, y) + 3, c[3])
}

/// An in-grid coordinate's pixel index lies below `w * h`, and its four
/// bytes lie below `px_len(w, h)`.
pub proof fn lemma_pix_bounds(w: int, h: int, x: int, y: int)
    requires
        in_grid(w, h, x, y),
    ensures
        0 <= pix(w, x, y) < w * h,
        0 <= byte_at(w, x, y),
        byte_at(w, x, y) + 4 <= px_len(w, h),
{
    assert(0 <= y * w + x < w * h && (y * w + x) * 4 + 4 <= w * h * 4) by (nonlinear_arith)
        requires
            0 <= x < w,
            0 <= y < h,
    ;
}

/// A pixel index decomposes back into its coordinates by division and
/// remainder.
pub proof fn lemma_pix_div_mod(w: int, x: int, y: int)
    requires
        0 <= x < w,
        0 <= y,
    ensures
        pix(w, x, y) % w == x,
        pix(w, x, y) / w == y,
{
    assert((y * w + x) % w == x && (y * w + x) / w == y) by (nonlinear_arith)
        requires
            0 <= x < w,
            0 <= y,
    ;
}

/// A byte offset `p * 4 + c` inside pixel `p` decomposes back into the
/// pixel index and the channel by division and remainder.
pub proof fn lemma_mul4_mod(p: int, c: int)
    requires
        0 <= p,
        0 <= c < 4,
    ensures
        (p * 4 + c) % 4 == c,
        (p * 4 + c) / 4 == p,
{
    assert((p * 4 + c) % 4 == c && (p * 4 + c) / 4 == p) by (nonlinear_arith)
        requires
            0 <= p,
            0 <= c < 4,
    ;
}

/// Any nonnegative byte offset splits uniquely into a pixel index and a
/// channel below 4.
pub proof fn lemma_byte_decompose(i: int)
    requires
        0 <= i,
    ensures
        i == (i / 4) * 4 + (i % 4),
        0 <= i % 4 < 4,
{
    assert(i == (i / 4) * 4 + (i % 4) && 0 <= i % 4 < 4) by (nonlinear_arith)
        requires
            0 <= i,
    ;
}

/// A pixel index strictly below `n / 4` addresses four bytes below `n`.
pub proof fn lemma_div4_bound(p: int, n: int)
    requires
        0 <= p < n / 4,
    ensures
        p * 4 + 4 <= n,
{
    assert(p * 4 + 4 <= n) by (nonlinear_arith)
        requires
            0 <= p < n / 4,
    ;
}

/// A byte offset decomposes into a channel below 4 and, in a grid `w`
/// pixels wide, a coordinate pair that recomposes to its pixel index.
pub proof fn lemma_coord_decompose(i: int, w: int)
    requires
        0 <= i,
        0 < w,
    ensures
        i == (i / 4) * 4 + i % 4,
        0 <= i % 4 < 4,
        0 <= (i / 4) % w < w,
        0 <= (i / 4) / w,
        i / 4 == ((i / 4) / w) * w + (i / 4) % w,
{
    lemma_byte_decompose(i);
    assert(0 <= (i / 4) % w < w && 0 <= (i / 4) / w && i / 4 == ((i / 4) / w) * w + (i / 4)
        % w) by (nonlinear_arith)
        requires
            0 <= i / 4,
            0 < w,
    ;
}

/// A byte offset inside a `w x h` buffer decomposes into an in-grid
/// coordinate pair and a channel below 4.
pub proof fn lemma_grid_coords(i: int, w: int, h: int)
    requires
        0 <= i < w * h * 4,
        0 < w,
    ensures
        i == (i / 4) * 4 + i % 4,
        0 <= i % 4 < 4,
        in_grid(w, h, (i / 4) % w, (i / 4) / w),
        i / 4 == ((i / 4) / w) * w + (i / 4) % w,
        byte_at(w, (i / 4) % w, (i / 4) / w) == (i / 4) * 4,
{
    lemma_coord_decompose(i, w);
    lemma_div4_lt(i, w * h);
    assert((i / 4) / w < h) by (nonlinear_arith)
        requires
            0 <= i / 4 < w * h,
            0 < w,
    ;
}

/// A byte offset below `m * 4` addresses a pixel below `m`.
pub proof fn lemma_div4_lt(i: int, m: int)
    requires
        0 <= i < m * 4,
    ensures
        0 <= i / 4 < m,
{
    assert(0 <= i / 4 < m) by (nonlinear_arith)
        requires
            0 <= i < m * 4,
    ;
}

} // verus!
