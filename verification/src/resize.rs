//! Buffer resize with origin remapping: old pixel `(sx, sy)` moves to new
//! pixel `(sx - src_origin + dest_origin)`; destination pixels with no
//! source are transparent black. A pure shrink with equal origins runs in
//! place; every other request reallocates. Both paths produce the bytes
//! of `resize_mapped`.

use crate::base::RgbaBuffer;
use crate::pix::{
    byte_at, in_grid, lemma_grid_coords, lemma_mul4_mod, lemma_pix_bounds, lemma_pix_div_mod, pix,
    px_len,
};
use vstd::prelude::*;

verus! {

broadcast use vstd::std_specs::vec::axiom_spec_len;

/// Byte `i` of the resized buffer: destination pixel `(dx, dy)` takes its
/// bytes from source pixel `(dx - dox + sox, dy - doy + soy)` when that
/// lies inside the old buffer, and is 0 otherwise.
pub open spec fn resize_byte(
    old_data: Seq<u8>,
    ow: int,
    oh: int,
    nw: int,
    sox: int,
    soy: int,
    dox: int,
    doy: int,
    i: int,
) -> u8 {
    let dx = (i / 4) % nw;
    let dy = (i / 4) / nw;
    let sx = dx - dox + sox;
    let sy = dy - doy + soy;
    if in_grid(ow, oh, sx, sy) {
        old_data[byte_at(ow, sx, sy) + i % 4]
    } else {
        0u8
    }
}

/// The full `nw x nh` byte array of the resized buffer.
pub open spec fn resize_mapped(
    old_data: Seq<u8>,
    ow: int,
    oh: int,
    nw: int,
    nh: int,
    sox: int,
    soy: int,
    dox: int,
    doy: int,
) -> Seq<u8> {
    Seq::new(
        (nw * nh * 4) as nat,
        |i: int| resize_byte(old_data, ow, oh, nw, sox, soy, dox, doy, i),
    )
}

impl RgbaBuffer {
    /// Resizes the buffer to `new_width x new_height` keeping pixel
    /// `(x, y)` at `(x, y)`; newly exposed pixels are transparent black.
    /// A zero dimension is a silent no-op.
    pub fn resize(&mut self, new_width: u32, new_height: u32)
        requires
            old(self).wf(),
            px_len(new_width as int, new_height as int) <= usize::MAX,
        ensures
            new_width == 0 || new_height == 0 ==> *final(self) == *old(self),
            new_width > 0 && new_height > 0 ==> final(self).width == new_width
                && final(self).height == new_height && final(self).wf() && final(self).data@
                == resize_mapped(
                old(self).data@,
                old(self).width as int,
                old(self).height as int,
                new_width as int,
                new_height as int,
                0,
                0,
                0,
                0,
            ),
    {
        self.resize_with_origins(new_width, new_height, 0, 0, 0, 0)
    }

    /// Resizes the buffer to `new_width x new_height`, mapping old pixel
    /// `(sx, sy)` to new pixel `(sx - src_origin + dest_origin)`; newly
    /// exposed pixels are transparent black. A zero dimension is a silent
    /// no-op.
    pub fn resize_with_origins(
        &mut self,
        new_width: u32,
        new_height: u32,
        src_origin_x: i32,
        src_origin_y: i32,
        dest_origin_x: i32,
        dest_origin_y: i32,
    )
        requires
            old(self).wf(),
            px_len(new_width as int, new_height as int) <= usize::MAX,
        ensures
            new_width == 0 || new_height == 0 ==> *final(self) == *old(self),
            new_width > 0 && new_height > 0 ==> final(self).width == new_width
                && final(self).height == new_height && final(self).wf() && final(self).data@
                == resize_mapped(
                old(self).data@,
                old(self).width as int,
                old(self).height as int,
                new_width as int,
                new_height as int,
                src_origin_x as int,
                src_origin_y as int,
                dest_origin_x as int,
                dest_origin_y as int,
            ),
    {
        if new_width == 0 || new_height == 0 {
            return ;
        }
        let ow = self.width;
        let oh = self.height;
        let nw = new_width as usize;
        let nh = new_height as usize;
        let ghost orig = self.data@;
        let ghost sox = src_origin_x as int;
        let ghost soy = src_origin_y as int;
        let ghost dox = dest_origin_x as int;
        let ghost doy = dest_origin_y as int;
        // The in-place path is safe only when every destination row starts
        // at or before its source row in memory; otherwise a row copy
        // could overwrite source rows that are still to be read.
        if src_origin_x == dest_origin_x && src_origin_y == dest_origin_y && new_width <= ow
            && new_height <= oh {
            let mut dy: usize = 0;
            while dy < nh
                invariant
                    self.width == ow,
                    self.height == oh,
                    self.data@.len() == ow as int * oh as int * 4,
                    orig.len() == self.data@.len(),
                    sox == dox,
                    soy == doy,
                    0 < nw <= ow as usize,
                    0 < nh <= oh as usize,
                    dy <= nh,
                    forall|j: int|
                        0 <= j < self.data@.len() && j < dy as int * nw as int * 4
                            ==> self.data@[j] == resize_byte(
                            orig,
                            ow as int,
                            oh as int,
                            nw as int,
                            sox,
                            soy,
                            dox,
                            doy,
                            j,
                        ),
                    forall|j: int|
                        dy as int * nw as int * 4 <= j < self.data@.len() ==> self.data@[j]
                            == orig[j],
                decreases nh - dy,
            {
                let mut dx: usize = 0;
                while dx < nw
                    invariant
                        self.width == ow,
                        self.height == oh,
                        self.data@.len() == ow as int * oh as int * 4,
                        orig.len() == self.data@.len(),
                        sox == dox,
                        soy == doy,
                        0 < nw <= ow as usize,
                        0 < nh <= oh as usize,
                        dy < nh,
                        dx <= nw,
                        forall|j: int|
                            0 <= j < self.data@.len() && j < (dy as int * nw as int + dx as int)
                                * 4 ==> self.data@[j] == resize_byte(
                                orig,
                                ow as int,
                                oh as int,
                                nw as int,
                                sox,
                                soy,
                                dox,
                                doy,
                                j,
                            ),
                        forall|j: int|
                            (dy as int * nw as int + dx as int) * 4 <= j < self.data@.len()
                                ==> self.data@[j] == orig[j],
                    decreases nw - dx,
                {
                    proof {
                        vstd::std_specs::vec::axiom_spec_len(&self.data);
                        lemma_pix_bounds(nw as int, nh as int, dx as int, dy as int);
                        lemma_pix_bounds(ow as int, oh as int, dx as int, dy as int);
                        assert(nw as int * nh as int * 4 <= ow as int * oh as int
                            * 4) by (nonlinear_arith)
                            requires
                                0 < nw as int <= ow as int,
                                0 < nh as int <= oh as int,
                        ;
                        assert(dy as int * nw as int <= dy as int * ow as int) by (nonlinear_arith)
                            requires
                                0 <= dy,
                                nw as int <= ow as int,
                        ;
                    }
                    let wp = (dy * nw + dx) * 4;
                    let rp = (dy * (ow as usize) + dx) * 4;
                    let ghost prev = self.data@;
                    let b0 = self.data[rp];
                    let b1 = self.data[rp + 1];
                    let b2 = self.data[rp + 2];
                    let b3 = self.data[rp + 3];
                    self.data[wp] = b0;
                    self.data[wp + 1] = b1;
                    self.data[wp + 2] = b2;
                    self.data[wp + 3] = b3;
                    proof {
                        let p = dy as int * nw as int + dx as int;
                        lemma_pix_div_mod(nw as int, dx as int, dy as int);
                        lemma_mul4_mod(p, 0);
                        lemma_mul4_mod(p, 1);
                        lemma_mul4_mod(p, 2);
                        lemma_mul4_mod(p, 3);
                        assert(rp as int == byte_at(ow as int, dx as int, dy as int));
                        assert forall|j: int|
                            0 <= j < self.data@.len() && j < (p + 1) * 4 implies self.data@[j]
                            == resize_byte(
                            orig,
                            ow as int,
                            oh as int,
                            nw as int,
                            sox,
                            soy,
                            dox,
                            doy,
                            j,
                        ) by {
                            if j >= p * 4 {
                                assert(j == p * 4 || j == p * 4 + 1 || j == p * 4 + 2 || j == p * 4
                                    + 3);
                                assert(prev[rp as int + (j - p * 4)] == orig[rp as int + (j - p
                                    * 4)]);
                            }
                        }
                        assert forall|j: int|
                            (p + 1) * 4 <= j < self.data@.len() implies self.data@[j]
                            == orig[j] by {}
                    }
                    dx = dx + 1;
                }
                proof {
                    assert((dy as int + 1) * nw as int == dy as int * nw as int
                        + nw as int) by (nonlinear_arith);
                }
                dy = dy + 1;
            }
            proof {
                vstd::std_specs::vec::axiom_spec_len(&self.data);
                assert(nw as int * nh as int * 4 <= ow as int * oh as int * 4) by (nonlinear_arith)
                    requires
                        0 < nw as int <= ow as int,
                        0 < nh as int <= oh as int,
                ;
            }
            let new_len = nw * nh * 4;
            self.data.truncate(new_len);
            self.width = new_width;
            self.height = new_height;
            proof {
                assert forall|j: int|
                    0 <= j < self.data@.len() implies self.data@[j] == resize_byte(
                    orig,
                    ow as int,
                    oh as int,
                    nw as int,
                    sox,
                    soy,
                    dox,
                    doy,
                    j,
                ) by {}
                assert(self.data@ =~= resize_mapped(
                    orig,
                    ow as int,
                    oh as int,
                    nw as int,
                    nh as int,
                    sox,
                    soy,
                    dox,
                    doy,
                ));
            }
            return ;
        }
        let ghost out = resize_mapped(
            orig,
            ow as int,
            oh as int,
            nw as int,
            nh as int,
            sox,
            soy,
            dox,
            doy,
        );
        let mut new_buf: Vec<u8> = Vec::new();
        let mut dy: usize = 0;
        while dy < nh
            invariant
                self.width == ow,
                self.height == oh,
                self.wf(),
                self.data@ == orig,
                0 < nw,
                0 < nh,
                nw <= u32::MAX as usize,
                nh <= u32::MAX as usize,
                nw as int * nh as int * 4 <= usize::MAX,
                out == resize_mapped(
                    orig,
                    ow as int,
                    oh as int,
                    nw as int,
                    nh as int,
                    sox,
                    soy,
                    dox,
                    doy,
                ),
                out.len() == nw as int * nh as int * 4,
                sox == src_origin_x as int,
                soy == src_origin_y as int,
                dox == dest_origin_x as int,
                doy == dest_origin_y as int,
                dy <= nh,
                new_buf@.len() == dy as int * nw as int * 4,
                forall|i: int| 0 <= i < new_buf@.len() ==> new_buf@[i] == out[i],
            decreases nh - dy,
        {
            let mut dx: usize = 0;
            while dx < nw
                invariant
                    self.width == ow,
                    self.height == oh,
                    self.wf(),
                    self.data@ == orig,
                    0 < nw,
                    0 < nh,
                    nw <= u32::MAX as usize,
                    nh <= u32::MAX as usize,
                    nw as int * nh as int * 4 <= usize::MAX,
                    out == resize_mapped(
                        orig,
                        ow as int,
                        oh as int,
                        nw as int,
                        nh as int,
                        sox,
                        soy,
                        dox,
                        doy,
                    ),
                    out.len() == nw as int * nh as int * 4,
                    sox == src_origin_x as int,
                    soy == src_origin_y as int,
                    dox == dest_origin_x as int,
                    doy == dest_origin_y as int,
                    dy < nh,
                    dx <= nw,
                    new_buf@.len() == (dy as int * nw as int + dx as int) * 4,
                    forall|i: int| 0 <= i < new_buf@.len() ==> new_buf@[i] == out[i],
                decreases nw - dx,
            {
                proof {
                    lemma_pix_bounds(nw as int, nh as int, dx as int, dy as int);
                }
                let sx = dx as i64 - dest_origin_x as i64 + src_origin_x as i64;
                let sy = dy as i64 - dest_origin_y as i64 + src_origin_y as i64;
                let ghost p = dy as int * nw as int + dx as int;
                if 0 <= sx && sx < ow as i64 && 0 <= sy && sy < oh as i64 {
                    let pxl = self.get(sx as u32, sy as u32);
                    proof {
                        lemma_pix_bounds(ow as int, oh as int, sx as int, sy as int);
                        assert(pxl@[0] == self.data@[byte_at(ow as int, sx as int, sy as int)]);
                    }
                    new_buf.push(pxl[0]);
                    new_buf.push(pxl[1]);
                    new_buf.push(pxl[2]);
                    new_buf.push(pxl[3]);
                } else {
                    new_buf.push(0u8);
                    new_buf.push(0u8);
                    new_buf.push(0u8);
                    new_buf.push(0u8);
                }
                proof {
                    lemma_pix_div_mod(nw as int, dx as int, dy as int);
                    lemma_mul4_mod(p, 0);
                    lemma_mul4_mod(p, 1);
                    lemma_mul4_mod(p, 2);
                    lemma_mul4_mod(p, 3);
                    assert(new_buf@.len() == (dy as int * nw as int + dx as int + 1) * 4);
                    assert(new_buf@[p * 4] == out[p * 4]);
                    assert(new_buf@[p * 4 + 1] == out[p * 4 + 1]);
                    assert(new_buf@[p * 4 + 2] == out[p * 4 + 2]);
                    assert(new_buf@[p * 4 + 3] == out[p * 4 + 3]);
                    assert forall|i: int| 0 <= i < new_buf@.len() implies new_buf@[i] == out[i] by {
                        if i >= p * 4 {
                            assert(i == p * 4 || i == p * 4 + 1 || i == p * 4 + 2 || i == p * 4
                                + 3);
                        }
                    }
                }
                dx = dx + 1;
            }
            proof {
                assert((dy as int + 1) * nw as int == dy as int * nw as int
                    + nw as int) by (nonlinear_arith);
            }
            dy = dy + 1;
        }
        self.data = new_buf;
        self.width = new_width;
        self.height = new_height;
        proof {
            assert(nh as int * nw as int == nw as int * nh as int) by (nonlinear_arith);
            assert(self.data@ =~= out);
        }
    }
}

/// Growing a buffer with zero origins and then shrinking it back to its
/// original dimensions, again with zero origins, restores the original
/// bytes exactly; and every pixel the grow step exposes beyond the
/// original bounds is transparent black.
pub proof fn lemma_resize_round_trip(data: Seq<u8>, w: int, h: int, gw: int, gh: int)
    requires
        data.len() == px_len(w, h),
        0 < w <= gw,
        0 < h <= gh,
    ensures
        resize_mapped(
            resize_mapped(data, w, h, gw, gh, 0, 0, 0, 0),
            gw,
            gh,
            w,
            h,
            0,
            0,
            0,
            0,
        ) == data,
        forall|i: int|
            0 <= i < gw * gh * 4 && !in_grid(w, h, (i / 4) % gw, (i / 4) / gw) ==> resize_mapped(
                data,
                w,
                h,
                gw,
                gh,
                0,
                0,
                0,
                0,
            )[i] == 0,
{
    let mid = resize_mapped(data, w, h, gw, gh, 0, 0, 0, 0);
    let back = resize_mapped(mid, gw, gh, w, h, 0, 0, 0, 0);
    assert(w * h * 4 <= gw * gh * 4) by (nonlinear_arith)
        requires
            0 < w <= gw,
            0 < h <= gh,
    ;
    assert forall|i: int| 0 <= i < back.len() implies back[i] == data[i] by {
        lemma_grid_coords(i, w, h);
        let dx = (i / 4) % w;
        let dy = (i / 4) / w;
        lemma_pix_bounds(gw, gh, dx, dy);
        lemma_pix_div_mod(gw, dx, dy);
        lemma_mul4_mod(pix(gw, dx, dy), i % 4);
        assert(back[i] == mid[byte_at(gw, dx, dy) + i % 4]);
        assert(mid[byte_at(gw, dx, dy) + i % 4] == data[byte_at(w, dx, dy) + i % 4]);
        assert(byte_at(w, dx, dy) + i % 4 == i);
    }
    assert(back =~= data);
}

} // verus!
