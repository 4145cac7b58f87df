//! A decoded image held as plain bytes, row-major, 8 bits per channel.
use vstd::prelude::*;
use crate::color::{code_spec, reduce_spec, convert_color, Color};

verus! {

/// A decoded raster: `channels` bytes per pixel (3 for RGB, 4 for RGBA).
#[derive(Clone, Debug)]
pub struct Raster {
    pub width: usize,
    pub height: usize,
    pub channels: usize,
    pub data: Vec<u8>,
}

impl Raster {
    /// The buffer holds exactly one sample per channel of every pixel.
    pub open spec fn wf(&self) -> bool {
        self.data@.len() == self.width * self.height * self.channels
    }

    /// The raster is 8-bit RGB or 8-bit RGBA.
    pub open spec fn supported(&self) -> bool {
        self.channels == 3 || self.channels == 4
    }

    pub open spec fn num_pixels(&self) -> nat {
        (self.width * self.height) as nat
    }

    /// Channel `k` of the pixel at row-major position `p`.
    pub open spec fn sample(&self, p: int, k: int) -> u8 {
        self.data@[p * self.channels + k]
    }

    /// The reduced color code of the pixel at row-major position `p`.
    pub open spec fn code_at(&self, p: int) -> u8 {
        code_spec(
            reduce_spec(self.sample(p, 0)),
            reduce_spec(self.sample(p, 1)),
            reduce_spec(self.sample(p, 2)),
        )
    }

    /// The reduced alpha of the pixel at row-major position `p`.
    pub open spec fn alpha_at(&self, p: int) -> u8 {
        reduce_spec(self.sample(p, 3))
    }

    /// Reduced color codes of all pixels, in row-major order.
    pub open spec fn codes(&self) -> Seq<u8> {
        Seq::new(self.num_pixels(), |p: int| self.code_at(p))
    }

    pub proof fn lemma_sample_in_bounds(&self, p: int, k: int)
        requires
            self.wf(),
            self.supported(),
            0 <= p < self.num_pixels(),
            0 <= k < self.channels,
        ensures
            0 <= p * self.channels + k < self.data@.len(),
    {
        let c = self.channels as int;
        let n = self.num_pixels() as int;
        assert(0 <= p * c + k < n * c) by (nonlinear_arith)
            requires
                0 <= p < n, 0 <= k < c,
        ;
    }

    /// The reduced color of the pixel at row-major position `p`.
    pub fn reduced_at(&self, p: usize) -> (c: Color)
        requires
            self.wf(),
            self.supported(),
            p < self.num_pixels(),
        ensures
            c.is_reduced(),
            c.code_view() == self.code_at(p as int),
            c.r == reduce_spec(self.sample(p as int, 0)),
            c.g == reduce_spec(self.sample(p as int, 1)),
            c.b == reduce_spec(self.sample(p as int, 2)),
    {
        proof {
            self.lemma_sample_in_bounds(p as int, 0);
            self.lemma_sample_in_bounds(p as int, 2);
        }
        let _len = self.data.len();
        let base = p * self.channels;
        Color {
            r: convert_color(self.data[base]),
            g: convert_color(self.data[base + 1]),
            b: convert_color(self.data[base + 2]),
        }
    }

    /// The reduced alpha of the pixel at row-major position `p` of an RGBA raster.
    pub fn reduced_alpha(&self, p: usize) -> (a: u8)
        requires
            self.wf(),
            self.channels == 4,
            p < self.num_pixels(),
        ensures
            a == self.alpha_at(p as int),
            a < 4,
    {
        proof {
            self.lemma_sample_in_bounds(p as int, 3);
        }
        let _len = self.data.len();
        convert_color(self.data[p * self.channels + 3])
    }
}

} // verus!
