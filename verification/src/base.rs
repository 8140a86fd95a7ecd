//! The RGBA pixel buffer: a `(width, height, byte array)` triple with the
//! invariant `data.len() == width * height * 4`, plus bounds-checked pixel
//! access by coordinate and by flat byte index.

use crate::pix::{
    byte_at, in_grid, pix, pixel_of, px_count_sat, px_len, px_len_sat, put_pixel, zero_pixel,
};
use vstd::prelude::*;

verus! {

broadcast use vstd::std_specs::vec::axiom_spec_len;

/// Failure of a buffer constructor or importer.
#[derive(Clone, Copy, Debug, PartialEq, Eq, Structural)]
pub enum BufferError {
    /// The supplied byte length does not match `width * height * 4`.
    SizeMismatch,
}

/// A width/height-tagged RGBA byte buffer. Pixel `(x, y)` occupies bytes
/// `[(y * width + x) * 4 .. +4)` as `[R, G, B, A]`, unpremultiplied.
pub struct RgbaBuffer {
    pub width: u32,
    pub height: u32,
    pub data: Vec<u8>,
}

/// Byte length of a `width x height` RGBA buffer, saturated at
/// `usize::MAX` when the exact product does not fit.
pub fn pixel_byte_len(width: u32, height: u32) -> (r: usize)
    ensures
        r == px_len_sat(width as int, height as int),
{
    let px: usize = match (width as usize).checked_mul(height as usize) {
        Some(v) => v,
        None => usize::MAX,
    };
    match px.checked_mul(4) {
        Some(v) => v,
        None => usize::MAX,
    }
}

/// Exact byte length of a `width x height` RGBA buffer, or `None` when
/// it does not fit in `usize`.
pub fn exact_pixel_byte_len(width: u32, height: u32) -> (r: Option<usize>)
    ensures
        match r {
            Some(v) => v as int == px_len(width as int, height as int),
            None => px_len(width as int, height as int) > usize::MAX,
        },
{
    match (width as usize).checked_mul(height as usize) {
        Some(px) => match px.checked_mul(4) {
            Some(v) => Some(v),
            None => None,
        },
        None => {
            proof {
                assert(width as int * height as int * 4 > usize::MAX) by (nonlinear_arith)
                    requires
                        width as int * height as int > usize::MAX,
                ;
            }
            None
        },
    }
}

/// Number of pixels a `mask_width x mask_height` mask covers, saturated
/// at `usize::MAX`.
pub fn mask_pixel_count(mask_width: u32, mask_height: u32) -> (r: usize)
    ensures
        r == px_count_sat(mask_width as int, mask_height as int),
{
    match (mask_width as usize).checked_mul(mask_height as usize) {
        Some(v) => v,
        None => usize::MAX,
    }
}

/// Whether `mask` holds at least one byte per pixel of the declared
/// mask dimensions.
pub fn mask_is_valid(mask_width: u32, mask_height: u32, mask: &[u8]) -> (r: bool)
    ensures
        r == (px_count_sat(mask_width as int, mask_height as int) <= mask@.len()),
{
    mask_pixel_count(mask_width, mask_height) <= mask.len()
}

/// Whether a signed rectangle size encloses at least one pixel.
pub fn positive_area(width: i32, height: i32) -> (r: bool)
    ensures
        r == (width > 0 && height > 0),
{
    width > 0 && height > 0
}

impl RgbaBuffer {
    /// The buffer invariant: the byte array length matches the declared
    /// dimensions exactly.
    pub open spec fn wf(self) -> bool {
        self.data@.len() == px_len(self.width as int, self.height as int)
    }

    /// Zero-filled buffer of the given dimensions. For every `(width,
    /// height)` whose byte length fits in `usize`, the result is
    /// well formed with all bytes 0.
    pub fn new(width: u32, height: u32) -> (r: RgbaBuffer)
        ensures
            r.width == width,
            r.height == height,
            r.data@.len() == px_len_sat(width as int, height as int),
            forall|i: int| 0 <= i < r.data@.len() ==> r.data@[i] == 0,
            px_len(width as int, height as int) <= usize::MAX ==> r.wf(),
    {
        let size = pixel_byte_len(width, height);
        let data = vec![0u8; size];
        proof {
            assert forall|i: int| 0 <= i < data@.len() implies data@[i] == 0 by {
                assert(cloned(0u8, data@[i]));
            }
        }
        RgbaBuffer { width, height, data }
    }

    /// Takes ownership of `buf` as the pixel bytes of a `width x height`
    /// buffer; fails with `SizeMismatch` if and only if the length does
    /// not match.
    pub fn from_raw(width: u32, height: u32, buf: Vec<u8>) -> (r: Result<RgbaBuffer, BufferError>)
        ensures
            match r {
                Ok(b) => buf@.len() == px_len_sat(width as int, height as int) && b.width == width
                    && b.height == height && b.data@ == buf@ && (px_len(
                    width as int,
                    height as int,
                ) <= usize::MAX ==> b.wf()),
                Err(e) => e == BufferError::SizeMismatch && buf@.len() != px_len_sat(
                    width as int,
                    height as int,
                ),
            },
    {
        let expected = pixel_byte_len(width, height);
        if buf.len() != expected {
            return Err(BufferError::SizeMismatch);
        }
        proof {
            assert(buf@.len() <= usize::MAX);
        }
        Ok(RgbaBuffer { width, height, data: buf })
    }

    /// An independent copy of this buffer.
    pub fn slice(&self) -> (r: RgbaBuffer)
        ensures
            r.width == self.width,
            r.height == self.height,
            r.data@ == self.data@,
    {
        let data = vstd::slice::slice_to_vec(self.data.as_slice());
        RgbaBuffer { width: self.width, height: self.height, data }
    }

    pub fn width(&self) -> (r: u32)
        ensures
            r == self.width,
    {
        self.width
    }

    pub fn height(&self) -> (r: u32)
        ensures
            r == self.height,
    {
        self.height
    }

    pub fn len(&self) -> (r: usize)
        ensures
            r == self.data@.len(),
    {
        self.data.len()
    }

    pub fn is_empty(&self) -> (r: bool)
        ensures
            r == (self.data@.len() == 0),
    {
        self.data.is_empty()
    }

    /// Whether `(x, y)` lies inside this buffer.
    pub fn in_bounds(&self, x: u32, y: u32) -> (r: bool)
        ensures
            r == in_grid(self.width as int, self.height as int, x as int, y as int),
    {
        x < self.width && y < self.height
    }

    /// Replaces the whole buffer atomically; fails (and leaves the buffer
    /// untouched) if and only if `raw` does not match the new dimensions.
    pub fn overwrite_with(&mut self, raw: Vec<u8>, width: u32, height: u32) -> (r: bool)
        ensures
            r == (raw@.len() == px_len_sat(width as int, height as int)),
            r ==> final(self).width == width && final(self).height == height && final(self).data@
                == raw@,
            r && px_len(width as int, height as int) <= usize::MAX ==> final(self).wf(),
            !r ==> *final(self) == *old(self),
    {
        let expected = pixel_byte_len(width, height);
        if raw.len() != expected {
            return false;
        }
        self.width = width;
        self.height = height;
        self.data = raw;
        true
    }

    /// Replaces the whole buffer with a copy of `raw`; fails (and leaves
    /// the buffer untouched) if and only if `raw` does not match the new
    /// dimensions.
    pub fn import_raw(&mut self, raw: &[u8], width: u32, height: u32) -> (r: bool)
        ensures
            r == (raw@.len() == px_len_sat(width as int, height as int)),
            r ==> final(self).width == width && final(self).height == height && final(self).data@
                == raw@,
            r && px_len(width as int, height as int) <= usize::MAX ==> final(self).wf(),
            !r ==> *final(self) == *old(self),
    {
        let expected = pixel_byte_len(width, height);
        if raw.len() != expected {
            return false;
        }
        self.width = width;
        self.height = height;
        self.data = vstd::slice::slice_to_vec(raw);
        true
    }

    /// The pixel at `(x, y)`, or transparent black when `(x, y)` is out
    /// of bounds.
    pub fn get(&self, x: u32, y: u32) -> (r: [u8; 4])
        requires
            self.wf(),
        ensures
            r@ == if in_grid(self.width as int, self.height as int, x as int, y as int) {
                pixel_of(self.data@, self.width as int, x as int, y as int)
            } else {
                zero_pixel()
            },
    {
        if !self.in_bounds(x, y) {
            let r = [0u8, 0u8, 0u8, 0u8];
            proof {
                assert(r@ =~= zero_pixel());
            }
            return r;
        }
        proof {
            vstd::std_specs::vec::axiom_spec_len(&self.data);
            crate::pix::lemma_pix_bounds(
                self.width as int,
                self.height as int,
                x as int,
                y as int,
            );
        }
        let idx = (y as usize * self.width as usize + x as usize) * 4;
        let r = [self.data[idx], self.data[idx + 1], self.data[idx + 2], self.data[idx + 3]];
        proof {
            assert(r@ =~= pixel_of(self.data@, self.width as int, x as int, y as int));
        }
        r
    }

    /// Writes the pixel at `(x, y)`; out-of-bounds writes are no-ops.
    /// Returns whether the stored pixel changed.
    pub fn set(&mut self, x: u32, y: u32, r: u8, g: u8, b: u8, a: u8) -> (changed: bool)
        requires
            old(self).wf(),
        ensures
            final(self).width == old(self).width,
            final(self).height == old(self).height,
            final(self).wf(),
            if in_grid(old(self).width as int, old(self).height as int, x as int, y as int) {
                final(self).data@ == put_pixel(
                    old(self).data@,
                    old(self).width as int,
                    x as int,
                    y as int,
                    seq![r, g, b, a],
                ) && changed == (pixel_of(old(self).data@, old(self).width as int, x as int, y as int)
                    != seq![r, g, b, a])
            } else {
                final(self).data@ == old(self).data@ && !changed
            },
    {
        if !self.in_bounds(x, y) {
            return false;
        }
        proof {
            vstd::std_specs::vec::axiom_spec_len(&self.data);
            crate::pix::lemma_pix_bounds(
                self.width as int,
                self.height as int,
                x as int,
                y as int,
            );
        }
        let idx = (y as usize * self.width as usize + x as usize) * 4;
        let changed = self.data[idx] != r || self.data[idx + 1] != g || self.data[idx + 2] != b
            || self.data[idx + 3] != a;
        proof {
            assert(changed == (pixel_of(self.data@, self.width as int, x as int, y as int)
                != seq![r, g, b, a])) by {
                let p = pixel_of(self.data@, self.width as int, x as int, y as int);
                if !changed {
                    assert(p =~= seq![r, g, b, a]);
                }
            }
        }
        self.data[idx] = r;
        self.data[idx + 1] = g;
        self.data[idx + 2] = b;
        self.data[idx + 3] = a;
        changed
    }

    /// The four bytes starting at flat byte index `idx`, or transparent
    /// black when they do not all lie inside the buffer.
    pub fn index_get(&self, idx: u32) -> (r: [u8; 4])
        ensures
            r@ == if idx as int + 4 <= self.data@.len() {
                self.data@.subrange(idx as int, idx as int + 4)
            } else {
                zero_pixel()
            },
    {
        let start = idx as usize;
        if (start as u64) + 4 > (self.data.len() as u64) {
            let r = [0u8, 0u8, 0u8, 0u8];
            proof {
                assert(r@ =~= zero_pixel());
            }
            return r;
        }
        let r = [self.data[start], self.data[start + 1], self.data[start + 2], self.data[start
            + 3]];
        proof {
            assert(r@ =~= self.data@.subrange(idx as int, idx as int + 4));
        }
        r
    }

    /// Writes four bytes starting at flat byte index `idx`; a no-op when
    /// they do not all lie inside the buffer. Returns whether the stored
    /// bytes changed.
    pub fn index_set(&mut self, idx: u32, r: u8, g: u8, b: u8, a: u8) -> (changed: bool)
        ensures
            final(self).width == old(self).width,
            final(self).height == old(self).height,
            if idx as int + 4 <= old(self).data@.len() {
                final(self).data@ == old(self).data@.update(idx as int, r).update(
                    idx as int + 1,
                    g,
                ).update(idx as int + 2, b).update(idx as int + 3, a) && changed == (old(
                    self,
                ).data@.subrange(idx as int, idx as int + 4) != seq![r, g, b, a])
            } else {
                final(self).data@ == old(self).data@ && !changed
            },
    {
        let start = idx as usize;
        if (start as u64) + 4 > (self.data.len() as u64) {
            return false;
        }
        let changed = self.data[start] != r || self.data[start + 1] != g || self.data[start + 2]
            != b || self.data[start + 3] != a;
        proof {
            assert(changed == (self.data@.subrange(idx as int, idx as int + 4)
                != seq![r, g, b, a])) by {
                let p = self.data@.subrange(idx as int, idx as int + 4);
                if !changed {
                    assert(p =~= seq![r, g, b, a]);
                }
            }
        }
        self.data[start] = r;
        self.data[start + 1] = g;
        self.data[start + 2] = b;
        self.data[start + 3] = a;
        changed
    }
}

} // verus!
