//! Mask-gated extraction and erasure: `slice_with_mask` copies the
//! selected pixels out into a mask-shaped array, `crop_with_mask` returns
//! the buffer with the selected pixels erased. Together they split an
//! image into two complementary halves.

use crate::base::{mask_is_valid, RgbaBuffer};
use crate::pix::{
    byte_at, in_grid, lemma_grid_coords, lemma_mul4_mod, lemma_pix_bounds, lemma_pix_div_mod, pix,
    pixel_of, px_len, zero_pixel,
};
use vstd::prelude::*;

verus! {

broadcast use vstd::std_specs::vec::axiom_spec_len, vstd::slice::axiom_spec_len;

/// Whether the mask placed at offset `(ox, oy)` selects buffer pixel
/// `(x, y)`.
pub open spec fn mask_covers(
    mask: Seq<u8>,
    mw: int,
    mh: int,
    ox: int,
    oy: int,
    x: int,
    y: int,
) -> bool {
    0 <= x - ox < mw && 0 <= y - oy < mh && mask[(y - oy) * mw + (x - ox)] != 0
}

/// Byte `i` of the mask-shaped array that `slice_with_mask` returns: the
/// source byte where the mask selects an in-bounds buffer pixel, 0
/// elsewhere.
pub open spec fn slice_masked_byte(
    data: Seq<u8>,
    w: int,
    h: int,
    mask: Seq<u8>,
    mw: int,
    ox: int,
    oy: int,
    i: int,
) -> u8 {
    let mx = (i / 4) % mw;
    let my = (i / 4) / mw;
    if mask[i / 4] != 0 && in_grid(w, h, ox + mx, oy + my) {
        data[byte_at(w, ox + mx, oy + my) + i % 4]
    } else {
        0u8
    }
}

/// The `mw x mh` flat array of the buffer pixels that the mask selects.
pub open spec fn slice_masked(
    data: Seq<u8>,
    w: int,
    h: int,
    mask: Seq<u8>,
    mw: int,
    mh: int,
    ox: int,
    oy: int,
) -> Seq<u8> {
    Seq::new((mw * mh * 4) as nat, |i: int| slice_masked_byte(data, w, h, mask, mw, ox, oy, i))
}

/// Byte `i` of the buffer copy that `crop_with_mask` returns: 0 where the
/// mask covers the pixel, the original byte elsewhere.
pub open spec fn crop_masked_byte(
    data: Seq<u8>,
    w: int,
    mask: Seq<u8>,
    mw: int,
    mh: int,
    ox: int,
    oy: int,
    i: int,
) -> u8 {
    let x = (i / 4) % w;
    let y = (i / 4) / w;
    if mask_covers(mask, mw, mh, ox, oy, x, y) {
        0u8
    } else {
        data[i]
    }
}

/// The buffer bytes with every mask-covered pixel erased to transparent
/// black.
pub open spec fn crop_masked(
    data: Seq<u8>,
    w: int,
    mask: Seq<u8>,
    mw: int,
    mh: int,
    ox: int,
    oy: int,
) -> Seq<u8> {
    Seq::new(data.len(), |i: int| crop_masked_byte(data, w, mask, mw, mh, ox, oy, i))
}

impl RgbaBuffer {
    /// Copies the buffer pixels that the mask (placed at the given
    /// offset) selects into a fresh `mask_width x mask_height` flat
    /// array; unselected entries and selections outside the buffer are
    /// transparent black. A mask with no pixels, a dimension above
    /// `i32::MAX`, or fewer bytes than pixels yields an empty array.
    pub fn slice_with_mask(
        &self,
        mask: &[u8],
        mask_width: u32,
        mask_height: u32,
        mask_offset_x: i32,
        mask_offset_y: i32,
    ) -> (r: Vec<u8>)
        requires
            self.wf(),
            px_len(mask_width as int, mask_height as int) <= usize::MAX,
        ensures
            if 0 < mask_width <= i32::MAX && 0 < mask_height <= i32::MAX && mask_width as int
                * mask_height as int <= mask@.len() {
                r@ == slice_masked(
                    self.data@,
                    self.width as int,
                    self.height as int,
                    mask@,
                    mask_width as int,
                    mask_height as int,
                    mask_offset_x as int,
                    mask_offset_y as int,
                )
            } else {
                r@.len() == 0
            },
    {
        if mask_width == 0 || mask_height == 0 || mask_width > i32::MAX as u32 || mask_height
            > i32::MAX as u32 || !mask_is_valid(mask_width, mask_height, mask) {
            return Vec::new();
        }
        let w = self.width;
        let h = self.height;
        let mw = mask_width as usize;
        let mh = mask_height as usize;
        let ghost out = slice_masked(
            self.data@,
            w as int,
            h as int,
            mask@,
            mw as int,
            mh as int,
            mask_offset_x as int,
            mask_offset_y as int,
        );
        let mut result: Vec<u8> = Vec::new();
        let mut my: usize = 0;
        while my < mh
            invariant
                self.wf(),
                w == self.width,
                h == self.height,
                0 < mw,
                0 < mh,
                mw <= i32::MAX as usize,
                mh <= i32::MAX as usize,
                mw as int * mh as int <= mask@.len(),
                mw as int * mh as int * 4 <= usize::MAX,
                out == slice_masked(
                    self.data@,
                    w as int,
                    h as int,
                    mask@,
                    mw as int,
                    mh as int,
                    mask_offset_x as int,
                    mask_offset_y as int,
                ),
                out.len() == mw as int * mh as int * 4,
                my <= mh,
                result@.len() == my as int * mw as int * 4,
                forall|i: int| 0 <= i < result@.len() ==> result@[i] == out[i],
            decreases mh - my,
        {
            let mut mx: usize = 0;
            while mx < mw
                invariant
                    self.wf(),
                    w == self.width,
                    h == self.height,
                    0 < mw,
                    0 < mh,
                    mw <= i32::MAX as usize,
                    mh <= i32::MAX as usize,
                    mw as int * mh as int <= mask@.len(),
                    mw as int * mh as int * 4 <= usize::MAX,
                    out == slice_masked(
                        self.data@,
                        w as int,
                        h as int,
                        mask@,
                        mw as int,
                        mh as int,
                        mask_offset_x as int,
                        mask_offset_y as int,
                    ),
                    out.len() == mw as int * mh as int * 4,
                    my < mh,
                    mx <= mw,
                    result@.len() == (my as int * mw as int + mx as int) * 4,
                    forall|i: int| 0 <= i < result@.len() ==> result@[i] == out[i],
                decreases mw - mx,
            {
                proof {
                    lemma_pix_bounds(mw as int, mh as int, mx as int, my as int);
                }
                let mi = my * mw + mx;
                let sx = mask_offset_x as i64 + mx as i64;
                let sy = mask_offset_y as i64 + my as i64;
                let ghost p = my as int * mw as int + mx as int;
                let selected = *vstd::slice::slice_index_get(mask, mi) != 0;
                if selected && 0 <= sx && sx < w as i64 && 0 <= sy && sy < h as i64 {
                    let pxl = self.get(sx as u32, sy as u32);
                    proof {
                        lemma_pix_bounds(w as int, h as int, sx as int, sy as int);
                        assert(pxl@[0] == self.data@[byte_at(w as int, sx as int, sy as int)]);
                    }
                    result.push(pxl[0]);
                    result.push(pxl[1]);
                    result.push(pxl[2]);
                    result.push(pxl[3]);
                } else {
                    result.push(0u8);
                    result.push(0u8);
                    result.push(0u8);
                    result.push(0u8);
                }
                proof {
                    lemma_pix_div_mod(mw as int, mx as int, my as int);
                    lemma_mul4_mod(p, 0);
                    lemma_mul4_mod(p, 1);
                    lemma_mul4_mod(p, 2);
                    lemma_mul4_mod(p, 3);
                    assert(result@.len() == (my as int * mw as int + mx as int + 1) * 4);
                    assert(result@[p * 4] == out[p * 4]);
                    assert(result@[p * 4 + 1] == out[p * 4 + 1]);
                    assert(result@[p * 4 + 2] == out[p * 4 + 2]);
                    assert(result@[p * 4 + 3] == out[p * 4 + 3]);
                    assert forall|i: int| 0 <= i < result@.len() implies result@[i] == out[i] by {
                        if i >= p * 4 {
                            assert(i == p * 4 || i == p * 4 + 1 || i == p * 4 + 2 || i == p * 4
                                + 3);
                        }
                    }
                }
                mx = mx + 1;
            }
            proof {
                assert((my as int + 1) * mw as int == my as int * mw as int
                    + mw as int) by (nonlinear_arith);
            }
            my = my + 1;
        }
        proof {
            assert(mh as int * mw as int == mw as int * mh as int) by (nonlinear_arith);
            assert(result@ =~= out);
        }
        result
    }

    /// Returns a copy of the buffer with every pixel that the mask
    /// (placed at the given offset) selects erased to transparent black.
    /// An empty buffer or one wider or taller than `i32::MAX` yields an
    /// empty array; a mask with fewer bytes than its declared pixels
    /// yields an empty array; a mask dimension above `i32::MAX` selects
    /// nothing, so the copy is unchanged.
    pub fn crop_with_mask(
        &self,
        mask: &[u8],
        mask_width: u32,
        mask_height: u32,
        mask_offset_x: i32,
        mask_offset_y: i32,
    ) -> (r: Vec<u8>)
        requires
            self.wf(),
        ensures
            if !(0 < self.width <= i32::MAX && 0 < self.height <= i32::MAX) {
                r@.len() == 0
            } else if mask_width as int * mask_height as int > mask@.len() {
                r@.len() == 0
            } else if mask_width > i32::MAX || mask_height > i32::MAX {
                r@ == self.data@
            } else {
                r@ == crop_masked(
                    self.data@,
                    self.width as int,
                    mask@,
                    mask_width as int,
                    mask_height as int,
                    mask_offset_x as int,
                    mask_offset_y as int,
                )
            },
    {
        if self.width == 0 || self.height == 0 || self.width > i32::MAX as u32 || self.height
            > i32::MAX as u32 {
            return Vec::new();
        }
        let mask_len = mask.len();
        let count = match (mask_width as usize).checked_mul(mask_height as usize) {
            Some(c) => c,
            None => {
                return Vec::new();
            },
        };
        if count > mask_len {
            return Vec::new();
        }
        if mask_width > i32::MAX as u32 || mask_height > i32::MAX as u32 {
            return vstd::slice::slice_to_vec(self.data.as_slice());
        }
        let w = self.width;
        let h = self.height;
        let mw = mask_width as usize;
        let mh = mask_height as usize;
        let ghost out = crop_masked(
            self.data@,
            w as int,
            mask@,
            mw as int,
            mh as int,
            mask_offset_x as int,
            mask_offset_y as int,
        );
        let mut result: Vec<u8> = Vec::new();
        let mut y: usize = 0;
        while y < h as usize
            invariant
                self.wf(),
                w == self.width,
                h == self.height,
                0 < w,
                0 < h,
                w <= i32::MAX as u32,
                h <= i32::MAX as u32,
                mw <= i32::MAX as usize,
                mh <= i32::MAX as usize,
                mw as int * mh as int <= mask@.len(),
                mask@.len() <= usize::MAX,
                out == crop_masked(
                    self.data@,
                    w as int,
                    mask@,
                    mw as int,
                    mh as int,
                    mask_offset_x as int,
                    mask_offset_y as int,
                ),
                out.len() == self.data@.len(),
                self.data@.len() == w as int * h as int * 4,
                y <= h as usize,
                result@.len() == y as int * w as int * 4,
                forall|i: int| 0 <= i < result@.len() ==> result@[i] == out[i],
            decreases h as usize - y,
        {
            let mut x: usize = 0;
            while x < w as usize
                invariant
                    self.wf(),
                    w == self.width,
                    h == self.height,
                    0 < w,
                    0 < h,
                    w <= i32::MAX as u32,
                    h <= i32::MAX as u32,
                    mw <= i32::MAX as usize,
                    mh <= i32::MAX as usize,
                    mw as int * mh as int <= mask@.len(),
                mask@.len() <= usize::MAX,
                    out == crop_masked(
                        self.data@,
                        w as int,
                        mask@,
                        mw as int,
                        mh as int,
                        mask_offset_x as int,
                        mask_offset_y as int,
                    ),
                    out.len() == self.data@.len(),
                    self.data@.len() == w as int * h as int * 4,
                    y < h as usize,
                    x <= w as usize,
                    result@.len() == (y as int * w as int + x as int) * 4,
                    forall|i: int| 0 <= i < result@.len() ==> result@[i] == out[i],
                decreases w as usize - x,
            {
                proof {
                    lemma_pix_bounds(w as int, h as int, x as int, y as int);
                }
                let mx = x as i64 - mask_offset_x as i64;
                let my = y as i64 - mask_offset_y as i64;
                let ghost p = y as int * w as int + x as int;
                let mut covered = false;
                if 0 <= mx && mx < mw as i64 && 0 <= my && my < mh as i64 {
                    proof {
                        lemma_pix_bounds(mw as int, mh as int, mx as int, my as int);
                    }
                    let midx = (my as usize) * mw + (mx as usize);
                    covered = *vstd::slice::slice_index_get(mask, midx) != 0;
                }
                proof {
                    assert(covered == mask_covers(
                        mask@,
                        mw as int,
                        mh as int,
                        mask_offset_x as int,
                        mask_offset_y as int,
                        x as int,
                        y as int,
                    ));
                }
                if covered {
                    result.push(0u8);
                    result.push(0u8);
                    result.push(0u8);
                    result.push(0u8);
                } else {
                    let pxl = self.get(x as u32, y as u32);
                    proof {
                        assert(pxl@[0] == self.data@[byte_at(w as int, x as int, y as int)]);
                    }
                    result.push(pxl[0]);
                    result.push(pxl[1]);
                    result.push(pxl[2]);
                    result.push(pxl[3]);
                }
                proof {
                    lemma_pix_div_mod(w as int, x as int, y as int);
                    lemma_mul4_mod(p, 0);
                    lemma_mul4_mod(p, 1);
                    lemma_mul4_mod(p, 2);
                    lemma_mul4_mod(p, 3);
                    assert(byte_at(w as int, x as int, y as int) == p * 4);
                    assert(result@.len() == (y as int * w as int + x as int + 1) * 4);
                    assert(result@[p * 4] == out[p * 4]);
                    assert(result@[p * 4 + 1] == out[p * 4 + 1]);
                    assert(result@[p * 4 + 2] == out[p * 4 + 2]);
                    assert(result@[p * 4 + 3] == out[p * 4 + 3]);
                    assert forall|i: int| 0 <= i < result@.len() implies result@[i] == out[i] by {
                        if i >= p * 4 {
                            assert(i == p * 4 || i == p * 4 + 1 || i == p * 4 + 2 || i == p * 4
                                + 3);
                        }
                    }
                }
                x = x + 1;
            }
            proof {
                assert((y as int + 1) * w as int == y as int * w as int
                    + w as int) by (nonlinear_arith);
            }
            y = y + 1;
        }
        proof {
            assert(h as int * w as int == w as int * h as int) by (nonlinear_arith);
            assert(result@ =~= out);
        }
        result
    }
}

/// Slicing and cropping with one mask and offset split the image into two
/// complementary halves: every buffer pixel the mask covers appears
/// unchanged in the slice (at its mask position) and erased in the crop,
/// and every other buffer pixel appears unchanged in the crop. Together
/// the two arrays reconstruct the original image at every pixel.
pub proof fn lemma_slice_crop_reconstruct(
    data: Seq<u8>,
    w: int,
    h: int,
    mask: Seq<u8>,
    mw: int,
    mh: int,
    ox: int,
    oy: int,
    x: int,
    y: int,
)
    requires
        data.len() == px_len(w, h),
        mw * mh <= mask.len(),
        0 < mw,
        0 < mh,
        in_grid(w, h, x, y),
    ensures
        mask_covers(mask, mw, mh, ox, oy, x, y) ==> pixel_of(
            slice_masked(data, w, h, mask, mw, mh, ox, oy),
            mw,
            x - ox,
            y - oy,
        ) == pixel_of(data, w, x, y),
        mask_covers(mask, mw, mh, ox, oy, x, y) ==> pixel_of(
            crop_masked(data, w, mask, mw, mh, ox, oy),
            w,
            x,
            y,
        ) == zero_pixel(),
        !mask_covers(mask, mw, mh, ox, oy, x, y) ==> pixel_of(
            crop_masked(data, w, mask, mw, mh, ox, oy),
            w,
            x,
            y,
        ) == pixel_of(data, w, x, y),
{
    lemma_pix_bounds(w, h, x, y);
    lemma_pix_div_mod(w, x, y);
    lemma_mul4_mod(pix(w, x, y), 0);
    lemma_mul4_mod(pix(w, x, y), 1);
    lemma_mul4_mod(pix(w, x, y), 2);
    lemma_mul4_mod(pix(w, x, y), 3);
    let crop = crop_masked(data, w, mask, mw, mh, ox, oy);
    if mask_covers(mask, mw, mh, ox, oy, x, y) {
        let mx = x - ox;
        let my = y - oy;
        lemma_pix_bounds(mw, mh, mx, my);
        lemma_pix_div_mod(mw, mx, my);
        lemma_mul4_mod(pix(mw, mx, my), 0);
        lemma_mul4_mod(pix(mw, mx, my), 1);
        lemma_mul4_mod(pix(mw, mx, my), 2);
        lemma_mul4_mod(pix(mw, mx, my), 3);
        let sl = slice_masked(data, w, h, mask, mw, mh, ox, oy);
        assert(pixel_of(sl, mw, mx, my) =~= pixel_of(data, w, x, y));
        assert(pixel_of(crop, w, x, y) =~= zero_pixel());
    } else {
        assert(pixel_of(crop, w, x, y) =~= pixel_of(data, w, x, y));
    }
}

} // verus!
