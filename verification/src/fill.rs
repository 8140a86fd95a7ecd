//! Uniform fills: whole-buffer byte and pixel fills, and the mask-gated
//! area fill, together with the color-similarity predicate that the flood
//! fill spreads by.

use crate::base::RgbaBuffer;
use crate::pix::{lemma_byte_decompose, lemma_div4_bound, lemma_mul4_mod, px_len};
use vstd::prelude::*;

verus! {

broadcast use vstd::std_specs::vec::axiom_spec_len;

/// Color similarity between two `[r, g, b, a]` pixels: exact equality of
/// all four channels when `threshold` is 0, otherwise per-channel absolute
/// difference at most `threshold` on R, G and B only (alpha deliberately
/// excluded).
pub open spec fn color_close(c1: Seq<u8>, c2: Seq<u8>, threshold: u8) -> bool {
    if threshold == 0 {
        c1 == c2
    } else {
        -(threshold as int) <= c1[0] - c2[0] <= threshold as int && -(threshold as int) <= c1[1]
            - c2[1] <= threshold as int && -(threshold as int) <= c1[2] - c2[2] <= threshold as int
    }
}

/// Whether two pixels match under the fill threshold.
pub fn colors_match(color1: &[u8; 4], color2: &[u8; 4], threshold: u8) -> (r: bool)
    ensures
        r == color_close(color1@, color2@, threshold),
{
    if threshold == 0 {
        let eq = color1[0] == color2[0] && color1[1] == color2[1] && color1[2] == color2[2]
            && color1[3] == color2[3];
        proof {
            if eq {
                assert(color1@ =~= color2@);
            } else {
                assert(color1@ != color2@);
            }
        }
        eq
    } else {
        let t = threshold as i16;
        let diff_r = color1[0] as i16 - color2[0] as i16;
        let diff_g = color1[1] as i16 - color2[1] as i16;
        let diff_b = color1[2] as i16 - color2[2] as i16;
        let abs_r = if diff_r < 0 {
            -diff_r
        } else {
            diff_r
        };
        let abs_g = if diff_g < 0 {
            -diff_g
        } else {
            diff_g
        };
        let abs_b = if diff_b < 0 {
            -diff_b
        } else {
            diff_b
        };
        abs_r <= t && abs_g <= t && abs_b <= t
    }
}

/// `orig` with every pixel selected by `mask` replaced by `c`: pixel `p`
/// becomes `c` when `mask[p] != 0` and all four of its bytes lie inside
/// the buffer; mask entries beyond the buffer are ignored, buffer pixels
/// beyond the mask keep their bytes.
pub open spec fn mask_fill(orig: Seq<u8>, mask: Seq<u8>, c: Seq<u8>) -> Seq<u8> {
    Seq::new(
        orig.len(),
        |i: int|
            if i / 4 < mask.len() && i / 4 < orig.len() as int / 4 && mask[i / 4] != 0 {
                c[i % 4]
            } else {
                orig[i]
            },
    )
}

/// Overwrites with the fill color every pixel of `buffer` whose mask byte
/// is nonzero. The mask holds one byte per pixel; pixels past the end of
/// either the mask or the buffer are left alone rather than erring.
pub fn fill_mask_area(
    buffer: &mut Vec<u8>,
    mask: &[u8],
    fill_color_r: u8,
    fill_color_g: u8,
    fill_color_b: u8,
    fill_color_a: u8,
) -> (r: bool)
    ensures
        r,
        final(buffer)@ == mask_fill(
            old(buffer)@,
            mask@,
            seq![fill_color_r, fill_color_g, fill_color_b, fill_color_a],
        ),
{
    let ghost orig = buffer@;
    let ghost c = seq![fill_color_r, fill_color_g, fill_color_b, fill_color_a];
    let n = buffer.len();
    let px = n / 4;
    let count = if mask.len() < px {
        mask.len()
    } else {
        px
    };
    let mut mi: usize = 0;
    while mi < count
        invariant
            count <= mask@.len(),
            count <= n as int / 4,
            mi <= count,
            n == buffer@.len(),
            n == orig.len(),
            c == seq![fill_color_r, fill_color_g, fill_color_b, fill_color_a],
            forall|i: int|
                0 <= i < n && i / 4 < mi && mask@[i / 4] != 0 ==> buffer@[i] == c[i % 4],
            forall|i: int|
                0 <= i < n && (i / 4 >= mi || mask@[i / 4] == 0) ==> buffer@[i] == orig[i],
        decreases count - mi,
    {
        proof {
            lemma_div4_bound(mi as int, n as int);
        }
        if *vstd::slice::slice_index_get(mask, mi) != 0 {
            let base = mi * 4;
            let ghost prev = buffer@;
            buffer[base] = fill_color_r;
            buffer[base + 1] = fill_color_g;
            buffer[base + 2] = fill_color_b;
            buffer[base + 3] = fill_color_a;
            proof {
                assert forall|i: int|
                    0 <= i < n && i / 4 < mi + 1 && mask@[i / 4] != 0 implies buffer@[i] == c[i
                    % 4] by {
                    lemma_byte_decompose(i);
                }
                assert forall|i: int|
                    0 <= i < n && (i / 4 >= mi + 1 || mask@[i / 4] == 0) implies buffer@[i]
                    == orig[i] by {
                    lemma_byte_decompose(i);
                }
            }
        }
        mi = mi + 1;
    }
    proof {
        assert(buffer@ =~= mask_fill(orig, mask@, c));
    }
    true
}

impl RgbaBuffer {
    /// Sets every byte of the buffer to `fill_code`.
    pub fn fill_all_codes(&mut self, fill_code: u8) -> (r: bool)
        ensures
            r,
            final(self).width == old(self).width,
            final(self).height == old(self).height,
            final(self).data@ == Seq::new(old(self).data@.len(), |i: int| fill_code),
    {
        let ghost orig = *self;
        let n = self.data.len();
        let mut i: usize = 0;
        while i < n
            invariant
                i <= n,
                n == self.data@.len(),
                self.width == orig.width,
                self.height == orig.height,
                forall|j: int| 0 <= j < i ==> self.data@[j] == fill_code,
        decreases n - i,
        {
            self.data[i] = fill_code;
            i = i + 1;
        }
        proof {
            assert(self.data@ =~= Seq::new(orig.data@.len(), |j: int| fill_code));
        }
        true
    }

    /// Sets every pixel of the buffer to `[r, g, b, a]`.
    pub fn fill_all_pixels(&mut self, r: u8, g: u8, b: u8, a: u8) -> (res: bool)
        requires
            old(self).wf(),
        ensures
            res,
            final(self).width == old(self).width,
            final(self).height == old(self).height,
            final(self).wf(),
            final(self).data@ == Seq::new(
                old(self).data@.len(),
                |i: int| seq![r, g, b, a][i % 4],
            ),
    {
        let ghost orig = *self;
        let ghost c = seq![r, g, b, a];
        let n = self.data.len();
        proof {
            assert(px_len(orig.width as int, orig.height as int) % 4 == 0) by (nonlinear_arith);
        }
        let mut i: usize = 0;
        while i < n
            invariant
                i <= n,
                i % 4 == 0,
                n % 4 == 0,
                n == self.data@.len(),
                self.width == orig.width,
                self.height == orig.height,
                c == seq![r, g, b, a],
                forall|j: int| 0 <= j < i ==> self.data@[j] == c[j % 4],
        decreases n - i,
        {
            proof {
                assert(i + 4 <= n) by (nonlinear_arith)
                    requires
                        i % 4 == 0,
                        n % 4 == 0,
                        0 <= i < n,
                ;
                assert((i as int) % 4 == 0 && (i as int + 1) % 4 == 1 && (i as int + 2) % 4 == 2
                    && (i as int + 3) % 4 == 3) by (nonlinear_arith)
                    requires
                        i % 4 == 0,
                        0 <= i,
                ;
            }
            self.data[i] = r;
            self.data[i + 1] = g;
            self.data[i + 2] = b;
            self.data[i + 3] = a;
            i = i + 4;
        }
        proof {
            assert(self.data@ =~= Seq::new(orig.data@.len(), |j: int| c[j % 4]));
        }
        true
    }

    /// Overwrites with the fill color every pixel whose mask byte is
    /// nonzero; the mask holds one byte per pixel in the buffer's own
    /// row-major order.
    pub fn fill_mask_area(
        &mut self,
        mask: &[u8],
        fill_color_r: u8,
        fill_color_g: u8,
        fill_color_b: u8,
        fill_color_a: u8,
    ) -> (r: bool)
        ensures
            r,
            final(self).width == old(self).width,
            final(self).height == old(self).height,
            final(self).data@ == mask_fill(
                old(self).data@,
                mask@,
                seq![fill_color_r, fill_color_g, fill_color_b, fill_color_a],
            ),
    {
        fill_mask_area(&mut self.data, mask, fill_color_r, fill_color_g, fill_color_b, fill_color_a)
    }
}

} // verus!
