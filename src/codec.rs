//! Calls into the `image` crate: PNG encoding, image decoding and
//! nearest-neighbour resampling, on plain sample buffers.

use vstd::prelude::*;
use image::ImageEncoder;
use crate::raster::{Layout, Raster};

verus! {

/// The image that `image` decodes from these bytes, as width, height and
/// 8-bit RGB samples; `None` when the bytes are no image it can read.
pub uninterp spec fn rgb_decoding(bytes: Seq<u8>) -> Option<(nat, nat, Seq<u8>)>;

/// The PNG file that `image` writes for these samples.
pub uninterp spec fn png_encoding(samples: Seq<u8>, width: nat, height: nat, channels: nat) -> Seq<u8>;

/// The gray samples that `image` produces when resampling a `width` x
/// `height` gray image to `new_width` x `new_height` by nearest neighbour.
pub uninterp spec fn nearest_resize(
    samples: Seq<u8>,
    width: nat,
    height: nat,
    new_width: nat,
    new_height: nat,
) -> Seq<u8>;

/// Relies on `image::load_from_memory` (format guessed from the bytes) and
/// `DynamicImage::to_rgb8`: the decoded image converted to 8-bit RGB, or an
/// error. The result depends on the bytes alone.
#[verifier::external_body]
pub(crate) fn decode_rgb(bytes: &Vec<u8>) -> (r: Option<(u32, u32, Vec<u8>)>)
    ensures
        r is Some <==> rgb_decoding(bytes@) is Some,
        r matches Some((w, h, s)) ==> rgb_decoding(bytes@) == Some((w as nat, h as nat, s@)),
{
    match image::load_from_memory(bytes.as_slice()) {
        Ok(decoded) => {
            let rgb = decoded.to_rgb8();
            let (w, h) = rgb.dimensions();
            Some((w, h, rgb.into_raw()))
        },
        Err(_) => None,
    }
}

/// Relies on `image::codecs::png::PngEncoder::write_image` with 8-bit gray
/// or RGB samples, which panics unless the buffer length matches the
/// dimensions: the PNG bytes, or an error. Written into a `Vec`, the png
/// writer fails on a zero width or a zero height only.
#[verifier::external_body]
pub(crate) fn encode_png(img: &Raster) -> (r: Option<Vec<u8>>)
    requires
        img.wf(),
    ensures
        img.width > 0 && img.height > 0 ==> r is Some,
        r matches Some(b) ==> b@ == png_encoding(
            img.samples@,
            img.width as nat,
            img.height as nat,
            img.layout.spec_channels(),
        ),
{
    let color = match img.layout {
        Layout::Gray => image::ExtendedColorType::L8,
        Layout::Rgb => image::ExtendedColorType::Rgb8,
    };
    let mut out: Vec<u8> = Vec::new();
    let encoder = image::codecs::png::PngEncoder::new(&mut out);
    match encoder.write_image(img.samples.as_slice(), img.width, img.height, color) {
        Ok(()) => Some(out),
        Err(_) => None,
    }
}

/// Relies on `image::imageops::resize` with `FilterType::Nearest` on a gray
/// image: a `new_width` x `new_height` image, a plain copy when the
/// dimensions are unchanged. Its intermediate buffers hold four samples per
/// pixel and it panics when their length overflows `usize`.
#[verifier::external_body]
pub(crate) fn resize_gray(img: &Raster, new_width: u32, new_height: u32) -> (r: Vec<u8>)
    requires
        img.wf(),
        img.layout == Layout::Gray,
        4 * (new_width as int) * (new_height as int) <= usize::MAX,
        4 * (img.width as int) * (new_height as int) <= usize::MAX,
    ensures
        r@ == nearest_resize(
            img.samples@,
            img.width as nat,
            img.height as nat,
            new_width as nat,
            new_height as nat,
        ),
        r@.len() == new_width * new_height,
        new_width == img.width && new_height == img.height ==> r@ == img.samples@,
{
    let buf = image::GrayImage::from_raw(img.width, img.height, img.samples.clone()).unwrap();
    image::imageops::resize(&buf, new_width, new_height, image::imageops::FilterType::Nearest).into_raw()
}

} // verus!
