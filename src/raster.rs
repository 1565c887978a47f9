//! A decoded raster image held as plain values.

use vstd::prelude::*;

verus! {

/// How the samples of a pixel are laid out.
#[derive(Clone, Copy, Debug, PartialEq, Eq, Structural)]
pub enum Layout {
    /// One intensity sample per pixel.
    Gray,
    /// Three samples per pixel: red, green, blue.
    Rgb,
}

impl Layout {
    pub open spec fn spec_channels(self) -> nat {
        match self {
            Layout::Gray => 1,
            Layout::Rgb => 3,
        }
    }

    /// Number of samples per pixel.
    pub fn channels(self) -> (r: usize)
        ensures
            r == self.spec_channels(),
    {
        match self {
            Layout::Gray => 1,
            Layout::Rgb => 3,
        }
    }
}

/// A raster image: `width * height` pixels stored row by row, each pixel
/// `layout.channels()` samples in `[0, 255]`.
#[derive(Clone, Debug)]
pub struct Raster {
    pub layout: Layout,
    pub width: u32,
    pub height: u32,
    pub samples: Vec<u8>,
}

/// Number of samples an image of these dimensions holds.
pub open spec fn sample_count(layout: Layout, width: nat, height: nat) -> nat {
    width * height * layout.spec_channels()
}

impl Raster {
    /// The sample buffer matches the dimensions exactly.
    pub open spec fn wf(&self) -> bool {
        self.samples@.len() == sample_count(self.layout, self.width as nat, self.height as nat)
    }

    /// Two images can be compared pixel by pixel.
    pub open spec fn same_shape(&self, other: &Raster) -> bool {
        &&& self.layout == other.layout
        &&& self.width == other.width
        &&& self.height == other.height
    }

    /// Builds an image from its samples; `None` when the buffer length does
    /// not match the dimensions.
    pub fn new(layout: Layout, width: u32, height: u32, samples: Vec<u8>) -> (r: Option<Raster>)
        ensures
            r is Some <==> samples@.len() == sample_count(layout, width as nat, height as nat),
            r matches Some(img) ==> img.wf() && img.layout == layout && img.width == width
                && img.height == height && img.samples@ == samples@,
    {
        let c = layout.channels() as u128;
        assert((width as int) * (height as int) <= 0xffff_ffff * 0xffff_ffff) by (nonlinear_arith)
            requires
                width <= 0xffff_ffff,
                height <= 0xffff_ffff,
        ;
        let pixels = width as u128 * height as u128;
        assert(pixels * c <= 0xffff_ffff * 0xffff_ffff * 3) by (nonlinear_arith)
            requires
                pixels <= 0xffff_ffff * 0xffff_ffff,
                c <= 3,
        ;
        let need = pixels * c;
        if need == samples.len() as u128 {
            Some(Raster { layout, width, height, samples })
        } else {
            None
        }
    }
}

} // verus!
