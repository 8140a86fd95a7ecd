//! Rectangle transfer between the buffer and external flat byte arrays,
//! and bulk pixel writes from parallel coordinate/color arrays. Rows and
//! columns outside the buffer are clipped silently, never erring.

use crate::base::{exact_pixel_byte_len, RgbaBuffer};
use crate::pix::{
    byte_at, in_grid, lemma_grid_coords, lemma_mul4_mod, lemma_pix_bounds, lemma_pix_div_mod, pix,
    put_pixel, px_len,
};
use vstd::prelude::*;

verus! {

broadcast use vstd::std_specs::vec::axiom_spec_len, vstd::slice::axiom_spec_len;

/// Byte `i` of the flat array that `read_rect` returns: the matching
/// source byte where the rectangle overlaps the buffer, 0 elsewhere.
pub open spec fn rect_read_byte(
    data: Seq<u8>,
    w: int,
    h: int,
    rx: int,
    ry: int,
    rw: int,
    i: int,
) -> u8 {
    let col = (i / 4) % rw;
    let row = (i / 4) / rw;
    if in_grid(w, h, rx + col, ry + row) {
        data[byte_at(w, rx + col, ry + row) + i % 4]
    } else {
        0u8
    }
}

/// The flat `rw x rh` byte array that reading the rectangle at
/// `(rx, ry)` out of a `w x h` buffer produces.
pub open spec fn rect_read(
    data: Seq<u8>,
    w: int,
    h: int,
    rx: int,
    ry: int,
    rw: int,
    rh: int,
) -> Seq<u8> {
    Seq::new((rw * rh * 4) as nat, |i: int| rect_read_byte(data, w, h, rx, ry, rw, i))
}

/// Byte `i` of the buffer after writing a `rw`-wide rectangle at
/// `(rx, ry)`, restricted to the part of the rectangle before the
/// exclusive scan position `(xlim, ylim)` in buffer coordinates: rows
/// above `ylim`, and on row `ylim` columns left of `xlim`.
pub open spec fn rect_write_byte(
    orig: Seq<u8>,
    w: int,
    rx: int,
    ry: int,
    rw: int,
    src: Seq<u8>,
    ylim: int,
    xlim: int,
    i: int,
) -> u8 {
    let x = (i / 4) % w;
    let y = (i / 4) / w;
    if rx <= x < rx + rw && ry <= y && (y < ylim || (y == ylim && x < xlim)) {
        src[byte_at(rw, x - rx, y - ry) + i % 4]
    } else {
        orig[i]
    }
}

/// The buffer bytes after writing the whole `rw x rh` rectangle of `src`
/// at `(rx, ry)`, clipped to the buffer.
pub open spec fn rect_write(
    orig: Seq<u8>,
    w: int,
    rx: int,
    ry: int,
    rw: int,
    rh: int,
    src: Seq<u8>,
) -> Seq<u8> {
    Seq::new(orig.len(), |i: int| rect_write_byte(orig, w, rx, ry, rw, src, ry + rh, rx, i))
}

/// The buffer bytes after writing the first `k` coordinate/color pairs,
/// in order; out-of-bounds coordinates are skipped.
pub open spec fn pixels_written(
    orig: Seq<u8>,
    w: int,
    h: int,
    coords: Seq<u32>,
    colors: Seq<u8>,
    k: int,
) -> Seq<u8>
    decreases k,
{
    if k <= 0 {
        orig
    } else {
        let prev = pixels_written(orig, w, h, coords, colors, k - 1);
        let x = coords[2 * (k - 1)] as int;
        let y = coords[2 * (k - 1) + 1] as int;
        if in_grid(w, h, x, y) {
            put_pixel(prev, w, x, y, colors.subrange(4 * (k - 1), 4 * (k - 1) + 4))
        } else {
            prev
        }
    }
}

impl RgbaBuffer {
    /// Copies the axis-aligned rectangle at `(rect_x, rect_y)` of the
    /// given size out of the buffer into a fresh flat array; parts of the
    /// rectangle outside the buffer read as transparent black. A
    /// rectangle with no pixels, or wider or taller than `i32::MAX`,
    /// yields an empty array.
    pub fn read_rect(&self, rect_x: i32, rect_y: i32, rect_width: u32, rect_height: u32) -> (r:
        Vec<u8>)
        requires
            self.wf(),
            px_len(rect_width as int, rect_height as int) <= usize::MAX,
        ensures
            if 0 < rect_width <= i32::MAX && 0 < rect_height <= i32::MAX {
                r@ == rect_read(
                    self.data@,
                    self.width as int,
                    self.height as int,
                    rect_x as int,
                    rect_y as int,
                    rect_width as int,
                    rect_height as int,
                )
            } else {
                r@.len() == 0
            },
    {
        if rect_width == 0 || rect_height == 0 || rect_width > i32::MAX as u32 || rect_height
            > i32::MAX as u32 {
            return Vec::new();
        }
        let w = self.width;
        let h = self.height;
        let rw = rect_width as usize;
        let rh = rect_height as usize;
        let ghost out = rect_read(
            self.data@,
            w as int,
            h as int,
            rect_x as int,
            rect_y as int,
            rw as int,
            rh as int,
        );
        proof {
            assert(out.len() == rw as int * rh as int * 4);
        }
        let mut result: Vec<u8> = Vec::new();
        let mut row: usize = 0;
        while row < rh
            invariant
                self.wf(),
                w == self.width,
                h == self.height,
                0 < rw,
                0 < rh,
                rw <= i32::MAX as usize,
                rh <= i32::MAX as usize,
                rw as int * rh as int * 4 <= usize::MAX,
                out == rect_read(
                    self.data@,
                    w as int,
                    h as int,
                    rect_x as int,
                    rect_y as int,
                    rw as int,
                    rh as int,
                ),
                out.len() == rw as int * rh as int * 4,
                row <= rh,
                result@.len() == row as int * rw as int * 4,
                forall|i: int| 0 <= i < result@.len() ==> result@[i] == out[i],
            decreases rh - row,
        {
            let mut col: usize = 0;
            while col < rw
                invariant
                    self.wf(),
                    w == self.width,
                    h == self.height,
                    0 < rw,
                    0 < rh,
                    rw <= i32::MAX as usize,
                    rh <= i32::MAX as usize,
                    rw as int * rh as int * 4 <= usize::MAX,
                    out == rect_read(
                        self.data@,
                        w as int,
                        h as int,
                        rect_x as int,
                        rect_y as int,
                        rw as int,
                        rh as int,
                    ),
                    out.len() == rw as int * rh as int * 4,
                    row < rh,
                    col <= rw,
                    result@.len() == (row as int * rw as int + col as int) * 4,
                    forall|i: int| 0 <= i < result@.len() ==> result@[i] == out[i],
                decreases rw - col,
            {
                proof {
                    lemma_pix_bounds(rw as int, rh as int, col as int, row as int);
                }
                let sx = rect_x as i64 + col as i64;
                let sy = rect_y as i64 + row as i64;
                let ghost p = row as int * rw as int + col as int;
                if 0 <= sx && sx < w as i64 && 0 <= sy && sy < h as i64 {
                    let pxl = self.get(sx as u32, sy as u32);
                    proof {
                        assert(in_grid(w as int, h as int, sx as int, sy as int));
                        lemma_pix_bounds(w as int, h as int, sx as int, sy as int);
                        assert(pxl@[0] == self.data@[byte_at(w as int, sx as int, sy as int)]);
                    }
                    result.push(pxl[0]);
                    result.push(pxl[1]);
                    result.push(pxl[2]);
                    result.push(pxl[3]);
                } else {
                    result.push(0u8);
                    result.push(0u8);
                    result.push(0u8);
                    result.push(0u8);
                }
                proof {
                    lemma_pix_div_mod(rw as int, col as int, row as int);
                    lemma_mul4_mod(p, 0);
                    lemma_mul4_mod(p, 1);
                    lemma_mul4_mod(p, 2);
                    lemma_mul4_mod(p, 3);
                    assert(result@.len() == (row as int * rw as int + col as int + 1) * 4);
                    assert(result@[p * 4] == out[p * 4]);
                    assert(result@[p * 4 + 1] == out[p * 4 + 1]);
                    assert(result@[p * 4 + 2] == out[p * 4 + 2]);
                    assert(result@[p * 4 + 3] == out[p * 4 + 3]);
                    assert forall|i: int| 0 <= i < result@.len() implies result@[i] == out[i] by {
                        if i >= p * 4 {
                            assert(i == p * 4 || i == p * 4 + 1 || i == p * 4 + 2 || i == p * 4
                                + 3);
                        }
                    }
                }
                col = col + 1;
            }
            proof {
                assert((row as int + 1) * rw as int == row as int * rw as int
                    + rw as int) by (nonlinear_arith);
            }
            row = row + 1;
        }
        proof {
            assert(rh as int * rw as int == rw as int * rh as int) by (nonlinear_arith);
            assert(result@ =~= out);
        }
        result
    }

    /// Writes a `rect_width x rect_height` flat byte array into the
    /// buffer at `(rect_x, rect_y)`, clipping to the buffer; fails (and
    /// leaves the buffer untouched) if and only if the rectangle has no
    /// pixels, a dimension above `i32::MAX`, or `data` does not hold
    /// exactly `rect_width * rect_height * 4` bytes.
    pub fn write_rect(
        &mut self,
        rect_x: i32,
        rect_y: i32,
        rect_width: u32,
        rect_height: u32,
        data: &[u8],
    ) -> (r: bool)
        requires
            old(self).wf(),
        ensures
            r == (0 < rect_width <= i32::MAX && 0 < rect_height <= i32::MAX && data@.len()
                == px_len(rect_width as int, rect_height as int)),
            final(self).width == old(self).width,
            final(self).height == old(self).height,
            final(self).wf(),
            r ==> final(self).data@ == rect_write(
                old(self).data@,
                old(self).width as int,
                rect_x as int,
                rect_y as int,
                rect_width as int,
                rect_height as int,
                data@,
            ),
            !r ==> final(self).data@ == old(self).data@,
    {
        if rect_width == 0 || rect_height == 0 || rect_width > i32::MAX as u32 || rect_height
            > i32::MAX as u32 {
            return false;
        }
        let n_src = data.len();
        let expected = match exact_pixel_byte_len(rect_width, rect_height) {
            Some(v) => v,
            None => {
                return false;
            },
        };
        if n_src != expected {
            return false;
        }
        let ghost orig = self.data@;
        let w = self.width;
        let h = self.height;
        let rw = rect_width as usize;
        let rh = rect_height as usize;
        let ghost rxi = rect_x as int;
        let ghost ryi = rect_y as int;
        let mut row: usize = 0;
        while row < rh
            invariant
                self.wf(),
                w == self.width,
                h == self.height,
                0 < rw,
                0 < rh,
                rw <= i32::MAX as usize,
                rh <= i32::MAX as usize,
                data@.len() <= usize::MAX,
                rw as int * rh as int * 4 == data@.len(),
                rxi == rect_x as int,
                ryi == rect_y as int,
                orig.len() == self.data@.len(),
                row <= rh,
                forall|i: int|
                    0 <= i < self.data@.len() ==> self.data@[i] == rect_write_byte(
                        orig,
                        w as int,
                        rxi,
                        ryi,
                        rw as int,
                        data@,
                        ryi + row,
                        rxi,
                        i,
                    ),
            decreases rh - row,
        {
            let mut col: usize = 0;
            while col < rw
                invariant
                    self.wf(),
                    w == self.width,
                    h == self.height,
                    0 < rw,
                    0 < rh,
                    rw <= i32::MAX as usize,
                    rh <= i32::MAX as usize,
                    data@.len() <= usize::MAX,
                    rw as int * rh as int * 4 == data@.len(),
                    rxi == rect_x as int,
                    ryi == rect_y as int,
                    orig.len() == self.data@.len(),
                    row < rh,
                    col <= rw,
                    forall|i: int|
                        0 <= i < self.data@.len() ==> self.data@[i] == rect_write_byte(
                            orig,
                            w as int,
                            rxi,
                            ryi,
                            rw as int,
                            data@,
                            ryi + row,
                            rxi + col,
                            i,
                        ),
                decreases rw - col,
            {
                proof {
                    lemma_pix_bounds(rw as int, rh as int, col as int, row as int);
                    lemma_pix_div_mod(rw as int, col as int, row as int);
                }
                let sbase = (row * rw + col) * 4;
                let sx = rect_x as i64 + col as i64;
                let sy = rect_y as i64 + row as i64;
                let ghost prev = self.data@;
                let ghost sxi = rxi + col as int;
                let ghost syi = ryi + row as int;
                if 0 <= sx && sx < w as i64 && 0 <= sy && sy < h as i64 {
                    proof {
                        assert(sxi == sx as int && syi == sy as int);
                        assert(in_grid(w as int, h as int, sxi, syi));
                    }
                    let cr = *vstd::slice::slice_index_get(data, sbase);
                    let cg = *vstd::slice::slice_index_get(data, sbase + 1);
                    let cb = *vstd::slice::slice_index_get(data, sbase + 2);
                    let ca = *vstd::slice::slice_index_get(data, sbase + 3);
                    let _ = self.set(sx as u32, sy as u32, cr, cg, cb, ca);
                    proof {
                        lemma_pix_bounds(w as int, h as int, sxi, syi);
                        lemma_pix_div_mod(w as int, sxi, syi);
                        lemma_mul4_mod(pix(w as int, sxi, syi), 0);
                        lemma_mul4_mod(pix(w as int, sxi, syi), 1);
                        lemma_mul4_mod(pix(w as int, sxi, syi), 2);
                        lemma_mul4_mod(pix(w as int, sxi, syi), 3);
                        assert(self.data@ == put_pixel(
                            prev,
                            w as int,
                            sxi,
                            syi,
                            seq![cr, cg, cb, ca],
                        ));
                        assert forall|i: int|
                            0 <= i < self.data@.len() implies self.data@[i] == rect_write_byte(
                            orig,
                            w as int,
                            rxi,
                            ryi,
                            rw as int,
                            data@,
                            ryi + row,
                            rxi + col + 1,
                            i,
                        ) by {
                            assert(self.data@.len() == w as int * h as int * 4);
                            assert(w as int > 0 && h as int > 0) by (nonlinear_arith)
                                requires
                                    w as int * h as int * 4 > i,
                                    i >= 0,
                                    w as int >= 0,
                                    h as int >= 0,
                            ;
                            lemma_grid_coords(i, w as int, h as int);
                            assert(prev[i] == rect_write_byte(
                                orig,
                                w as int,
                                rxi,
                                ryi,
                                rw as int,
                                data@,
                                ryi + row,
                                rxi + col,
                                i,
                            ));
                            let x = (i / 4) % (w as int);
                            let y = (i / 4) / (w as int);
                            if x == sxi && y == syi {
                                assert(i / 4 == pix(w as int, sxi, syi));
                                assert(byte_at(w as int, sxi, syi) <= i < byte_at(
                                    w as int,
                                    sxi,
                                    syi,
                                ) + 4);
                                assert(self.data@[i] == seq![cr, cg, cb, ca][i % 4]);
                                assert(sbase as int == byte_at(rw as int, col as int, row as int));
                                assert(seq![cr, cg, cb, ca][i % 4] == data@[sbase + i % 4]);
                            } else {
                                assert(!(byte_at(w as int, sxi, syi) <= i < byte_at(
                                    w as int,
                                    sxi,
                                    syi,
                                ) + 4));
                                assert(self.data@[i] == prev[i]);
                            }
                        }
                    }
                } else {
                    proof {
                        assert forall|i: int|
                            0 <= i < self.data@.len() implies self.data@[i] == rect_write_byte(
                            orig,
                            w as int,
                            rxi,
                            ryi,
                            rw as int,
                            data@,
                            ryi + row,
                            rxi + col + 1,
                            i,
                        ) by {
                            assert(self.data@.len() == w as int * h as int * 4);
                            assert(w as int > 0 && h as int > 0) by (nonlinear_arith)
                                requires
                                    w as int * h as int * 4 > i,
                                    i >= 0,
                                    w as int >= 0,
                                    h as int >= 0,
                            ;
                            lemma_grid_coords(i, w as int, h as int);
                        }
                    }
                }
                col = col + 1;
            }
            proof {
                assert forall|i: int|
                    0 <= i < self.data@.len() implies self.data@[i] == rect_write_byte(
                    orig,
                    w as int,
                    rxi,
                    ryi,
                    rw as int,
                    data@,
                    ryi + row + 1,
                    rxi,
                    i,
                ) by {
                    if 0 < w as int {
                        lemma_grid_coords(i, w as int, h as int);
                    }
                }
            }
            row = row + 1;
        }
        proof {
            assert(self.data@ =~= rect_write(
                orig,
                w as int,
                rxi,
                ryi,
                rw as int,
                rh as int,
                data@,
            ));
        }
        true
    }

    /// Writes one pixel per entry of two parallel arrays: `coords` holds
    /// `(x, y)` pairs, `colors` four bytes per pixel, applied in order;
    /// out-of-bounds coordinates are skipped. Fails (and writes nothing)
    /// if and only if the two arrays imply different pixel counts.
    pub fn write_pixels(&mut self, coords: &[u32], colors: &[u8]) -> (r: bool)
        requires
            old(self).wf(),
        ensures
            r == (coords@.len() % 2 == 0 && colors@.len() % 4 == 0 && coords@.len() / 2
                == colors@.len() / 4),
            final(self).width == old(self).width,
            final(self).height == old(self).height,
            final(self).wf(),
            r ==> final(self).data@ == pixels_written(
                old(self).data@,
                old(self).width as int,
                old(self).height as int,
                coords@,
                colors@,
                coords@.len() as int / 2,
            ),
            !r ==> final(self).data@ == old(self).data@,
    {
        if coords.len() % 2 != 0 || colors.len() % 4 != 0 {
            return false;
        }
        let pixels = coords.len() / 2;
        if colors.len() / 4 != pixels {
            return false;
        }
        let ghost orig = self.data@;
        let w = self.width;
        let h = self.height;
        let mut i: usize = 0;
        while i < pixels
            invariant
                self.wf(),
                w == self.width,
                h == self.height,
                i <= pixels,
                coords@.len() <= usize::MAX,
                colors@.len() <= usize::MAX,
                pixels == coords@.len() as int / 2,
                pixels == colors@.len() as int / 4,
                coords@.len() % 2 == 0,
                colors@.len() % 4 == 0,
                self.data@ == pixels_written(orig, w as int, h as int, coords@, colors@, i as int),
            decreases pixels - i,
        {
            proof {
                let cl = coords@.len() as int;
                let kl = colors@.len() as int;
                assert(2 * i as int + 1 < cl && 4 * i as int + 3 < kl) by (nonlinear_arith)
                    requires
                        (i as int) < cl / 2,
                        (i as int) < kl / 4,
                        cl % 2 == 0,
                        kl % 4 == 0,
                        0 <= i,
                ;
            }
            let x = *vstd::slice::slice_index_get(coords, i * 2);
            let y = *vstd::slice::slice_index_get(coords, i * 2 + 1);
            let cr = *vstd::slice::slice_index_get(colors, i * 4);
            let cg = *vstd::slice::slice_index_get(colors, i * 4 + 1);
            let cb = *vstd::slice::slice_index_get(colors, i * 4 + 2);
            let ca = *vstd::slice::slice_index_get(colors, i * 4 + 3);
            let _ = self.set(x, y, cr, cg, cb, ca);
            proof {
                assert(seq![cr, cg, cb, ca] =~= colors@.subrange(
                    4 * i as int,
                    4 * i as int + 4,
                ));
            }
            i = i + 1;
        }
        true
    }
}

} // verus!
