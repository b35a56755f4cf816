//! The pixel buffer: pixels are written by coordinate, never by arrival
//! order, so the image is invariant to how the render work was scheduled.
//! Encoding bytes to disk is left to the caller.

use vstd::prelude::*;

use vstd::pervasive::VecAdditionalExecFns;

use crate::material::{channel_byte, Color};

verus! {

/// A row-major byte image: three bytes per pixel.
pub struct PPM {
    file_name: String,
    height: usize,
    width: usize,
    data: Vec<u8>,
}

impl PPM {
    pub closed spec fn data_seq(&self) -> Seq<u8> {
        self.data@
    }

    pub closed spec fn width_spec(&self) -> int {
        self.width as int
    }

    pub closed spec fn height_spec(&self) -> int {
        self.height as int
    }

    pub closed spec fn file_name_spec(&self) -> Seq<char> {
        self.file_name@
    }

    pub open spec fn wf(&self) -> bool {
        self.data_seq().len() == 3 * self.height_spec() * self.width_spec()
    }

    pub fn new(file_name: &String, width: usize, height: usize) -> (r: PPM)
        requires
            3 * width <= usize::MAX,
            3 * width * height <= usize::MAX,
        ensures
            r.wf(),
            r.width_spec() == width,
            r.height_spec() == height,
            r.file_name_spec() == file_name@,
            forall|i: int| 0 <= i < r.data_seq().len() ==> r.data_seq()[i] == 0u8,
    {
        proof {
            assert(3 * (height as int) * (width as int) == 3 * (width as int) * (height as int))
                by (nonlinear_arith);
        }
        let total = 3usize * width * height;
        PPM {
            file_name: file_name.clone(),
            height,
            width,
            data: vec![0u8; total],
        }
    }

    pub fn width(&self) -> (r: usize)
        ensures
            r == self.width_spec(),
    {
        self.width
    }

    pub fn height(&self) -> (r: usize)
        ensures
            r == self.height_spec(),
    {
        self.height
    }

    pub fn file_name(&self) -> (r: &String)
        ensures
            r@ == self.file_name_spec(),
    {
        &self.file_name
    }

    pub fn bytes(&self) -> (r: &Vec<u8>)
        ensures
            r@ == self.data_seq(),
    {
        &self.data
    }

    /// Write one pixel's three bytes at its own coordinate; no other byte
    /// of the image moves.
    pub fn add_pixel(&mut self, x: usize, y: usize, color: Color)
        requires
            old(self).wf(),
            x < old(self).width_spec(),
            y < old(self).height_spec(),
        ensures
            final(self).wf(),
            final(self).width_spec() == old(self).width_spec(),
            final(self).height_spec() == old(self).height_spec(),
            final(self).file_name_spec() == old(self).file_name_spec(),
            ({
                let location = 3 * (y * old(self).width_spec() + x);
                &&& final(self).data_seq()[location] == channel_byte(color.r as int)
                &&& final(self).data_seq()[location + 1] == channel_byte(color.g as int)
                &&& final(self).data_seq()[location + 2] == channel_byte(color.b as int)
                &&& forall|i: int|
                    0 <= i < old(self).data_seq().len() && !(location <= i < location + 3)
                        ==> final(self).data_seq()[i] == old(self).data_seq()[i]
            }),
    {
        proof {
            vstd::std_specs::vec::axiom_spec_len(&self.data);
            lemma_pixel_location(
                x as int,
                y as int,
                self.width as int,
                self.height as int,
            );
        }
        let location = 3 * (y * self.width + x);
        self.data.set(location, color.r_byte());
        self.data.set(location + 1, color.g_byte());
        self.data.set(location + 2, color.b_byte());
    }
}

/// An in-range pixel's last byte is still inside the image.
proof fn lemma_pixel_location(x: int, y: int, w: int, h: int)
    requires
        0 <= x < w,
        0 <= y < h,
    ensures
        0 <= y * w,
        0 <= y * w + x < h * w,
        0 <= 3 * (y * w + x),
        3 * (y * w + x) + 3 <= 3 * h * w,
        h * w <= 3 * h * w,
{
    assert(0 <= y * w) by (nonlinear_arith)
        requires
            0 <= y,
            0 < w,
    ;
    assert(h * w <= 3 * h * w) by (nonlinear_arith)
        requires
            0 < w,
            0 < h,
    ;
    assert(y * w + x < h * w) by (nonlinear_arith)
        requires
            0 <= x < w,
            0 <= y < h,
    ;
    assert(y * w + x >= 0) by (nonlinear_arith)
        requires
            0 <= x,
            0 <= y,
            0 < w,
    ;
    assert(3 * (y * w + x) + 3 <= 3 * h * w) by (nonlinear_arith)
        requires
            y * w + x < h * w,
    ;
}

/// The componentwise sum of the first `k` sampled colors.
pub open spec fn sum_colors(samples: Seq<Color>, k: int) -> Color
    decreases k,
{
    if k <= 0 {
        Color { r: 0i64, g: 0i64, b: 0i64 }
    } else {
        let rest = sum_colors(samples, k - 1);
        Color {
            r: (rest.r + samples[k - 1].r) as i64,
            g: (rest.g + samples[k - 1].g) as i64,
            b: (rest.b + samples[k - 1].b) as i64,
        }
    }
}

/// The average of a pixel's sub-pixel samples: the componentwise sum
/// divided by the sample count.
pub fn average_color(samples: &Vec<Color>) -> (r: Color)
    requires
        0 < samples@.len() <= 0x10_0000,
        forall|i: int|
            0 <= i < samples@.len() ==> crate::material::color_in_range(
                #[trigger] samples@[i],
                0,
                0x100_0000_0000,
            ),
    ensures
        ({
            let s = sum_colors(samples@, samples@.len() as int);
            let n = samples@.len() as int;
            r.r == (s.r as int) / n && r.g == (s.g as int) / n && r.b == (s.b as int) / n
        }),
{
    let n = samples.len();
    let mut sr: i64 = 0;
    let mut sg: i64 = 0;
    let mut sb: i64 = 0;
    let mut i: usize = 0;
    while i < n
        invariant
            0 <= i <= n,
            n == samples@.len(),
            n <= 0x10_0000,
            forall|k: int|
                0 <= k < samples@.len() ==> crate::material::color_in_range(
                    #[trigger] samples@[k],
                    0,
                    0x100_0000_0000,
                ),
            ({
                let s = sum_colors(samples@, i as int);
                sr == s.r && sg == s.g && sb == s.b
            }),
            0 <= sr <= i * 0x100_0000_0000,
            0 <= sg <= i * 0x100_0000_0000,
            0 <= sb <= i * 0x100_0000_0000,
        decreases n - i,
    {
        let c = *vstd::std_specs::vec::vec_index(samples, i);
        proof {
            assert((i + 1) * 0x100_0000_0000 == i * 0x100_0000_0000 + 0x100_0000_0000)
                by (nonlinear_arith);
            assert((i + 1) * 0x100_0000_0000 <= 0x10_0000 * 0x100_0000_0000)
                by (nonlinear_arith)
                requires
                    i + 1 <= 0x10_0000,
            ;
        }
        sr = sr + c.r;
        sg = sg + c.g;
        sb = sb + c.b;
        i = i + 1;
    }
    let nn = n as i64;
    proof {
        assert((sr as int) / (nn as int) >= 0 && (sr as int) / (nn as int) <= sr)
            by (nonlinear_arith)
            requires
                sr >= 0,
                nn > 0,
        ;
        assert((sg as int) / (nn as int) >= 0 && (sg as int) / (nn as int) <= sg)
            by (nonlinear_arith)
            requires
                sg >= 0,
                nn > 0,
        ;
        assert((sb as int) / (nn as int) >= 0 && (sb as int) / (nn as int) <= sb)
            by (nonlinear_arith)
            requires
                sb >= 0,
                nn > 0,
        ;
    }
    Color { r: sr / nn, g: sg / nn, b: sb / nn }
}

} // verus!
