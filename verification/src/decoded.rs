//! Decoded images: raw pixels that the rendering backend has not seen yet.

use vstd::prelude::*;

verus! {

/// The picture shown for an image that is not there yet: a small PNG file,
/// held in the library so that it can never be missing.
pub const BROKEN_IMAGE_PNG: [u8; 108] = [
    0x89, 0x50, 0x4e, 0x47, 0x0d, 0x0a, 0x1a, 0x0a, 0x00, 0x00, 0x00, 0x0d,
    0x49, 0x48, 0x44, 0x52, 0x00, 0x00, 0x00, 0x08, 0x00, 0x00, 0x00, 0x08,
    0x08, 0x06, 0x00, 0x00, 0x00, 0xc4, 0x0f, 0xbe, 0x8b, 0x00, 0x00, 0x00,
    0x33, 0x49, 0x44, 0x41, 0x54, 0x78, 0xda, 0x63, 0x48, 0x48, 0x48, 0xf8,
    0x8f, 0x0f, 0x33, 0x80, 0x88, 0x0b, 0x0a, 0x0a, 0xff, 0x1f, 0x3c, 0x78,
    0x80, 0x82, 0x41, 0x62, 0x70, 0x05, 0x30, 0x01, 0x64, 0x49, 0x10, 0x8d,
    0xa2, 0x00, 0x26, 0x81, 0xac, 0x90, 0x34, 0x05, 0x78, 0xad, 0x20, 0xe8,
    0x48, 0x7c, 0x18, 0x00, 0x10, 0x70, 0xab, 0x01, 0x0a, 0xad, 0x86, 0x29,
    0x00, 0x00, 0x00, 0x00, 0x49, 0x45, 0x4e, 0x44, 0xae, 0x42, 0x60, 0x82,
];

/// What a decoded image is: its size in pixels and its pixels, row by row,
/// four bytes each (red, green, blue, alpha).
pub struct Pixels {
    pub width: u32,
    pub height: u32,
    pub rgba: Seq<u8>,
}

/// What decoding a PNG file gives: the size and the pixels as 8-bit RGBA, or
/// nothing where the bytes are no PNG file that the decoder takes.
pub uninterp spec fn png_pixels(bytes: Seq<u8>) -> Option<(u32, u32, Seq<u8>)>;

/// Decodes a PNG file with `image::load_from_memory_with_format` and hands
/// its pixels out as 8-bit RGBA (`DynamicImage::to_rgba8`). Nothing is
/// claimed of the decoder but that the same bytes always decode alike: the
/// result is `png_pixels` of the bytes.
#[verifier::external_body]
fn decode_png(bytes: &[u8]) -> (r: Option<(u32, u32, Vec<u8>)>)
    ensures
        match r {
            Some((w, h, p)) => png_pixels(bytes@) == Some((w, h, p@)),
            None => png_pixels(bytes@) is None,
        },
{
    match image::load_from_memory_with_format(bytes, image::ImageFormat::Png) {
        Ok(img) => {
            let rgba = img.to_rgba8();
            Some((rgba.width(), rgba.height(), rgba.into_raw()))
        },
        Err(_) => None,
    }
}

/// Whether `len` bytes are exactly the pixels of an image of this size.
pub open spec fn fills(width: u32, height: u32, len: nat) -> bool {
    len == 4 * width * height
}

/// The image that a PNG file holds, where the decoder takes the file and
/// hands out as many bytes as the size calls for.
pub open spec fn decoded_png(bytes: Seq<u8>) -> Option<Pixels> {
    match png_pixels(bytes) {
        Some((width, height, rgba)) => if fills(width, height, rgba.len()) {
            Some(Pixels { width, height, rgba })
        } else {
            None
        },
        None => None,
    }
}

/// A decoded image. Its pixel buffer always fills its size.
pub struct DecodedImage {
    width: u32,
    height: u32,
    pixels: Vec<u8>,
}

impl View for DecodedImage {
    type V = Pixels;

    closed spec fn view(&self) -> Pixels {
        Pixels { width: self.width, height: self.height, rgba: self.pixels@ }
    }
}

impl DecodedImage {
    #[verifier::type_invariant]
    spec fn well_formed(self) -> bool {
        fills(self.width, self.height, self.pixels@.len())
    }

    /// An image of the given size over the given RGBA bytes, where they fill
    /// it.
    pub fn new(width: u32, height: u32, pixels: Vec<u8>) -> (r: Option<DecodedImage>)
        ensures
            r is Some <==> fills(width, height, pixels@.len()),
            r matches Some(img) ==> img@ == (Pixels { width, height, rgba: pixels@ }),
    {
        assert(0 <= width * height <= 0xffff_fffe_0000_0001) by (nonlinear_arith)
            requires
                0 <= width <= 0xffff_ffff,
                0 <= height <= 0xffff_ffff,
        ;
        let area: u128 = (width as u128) * (height as u128);
        let wanted: u128 = 4 * area;
        assert(wanted == 4 * width * height) by (nonlinear_arith)
            requires
                wanted == 4 * area,
                area == width * height,
        ;
        if pixels.len() as u128 == wanted {
            Some(DecodedImage { width, height, pixels })
        } else {
            None
        }
    }

    /// Decodes a PNG file.
    pub fn from_png(bytes: &[u8]) -> (r: Option<DecodedImage>)
        ensures
            match decoded_png(bytes@) {
                Some(pixels) => r matches Some(img) && img@ == pixels,
                None => r is None,
            },
    {
        match decode_png(bytes) {
            Some((width, height, pixels)) => DecodedImage::new(width, height, pixels),
            None => None,
        }
    }

    /// The placeholder picture, decoded.
    pub fn broken_image() -> (r: Option<DecodedImage>)
        ensures
            match decoded_png(BROKEN_IMAGE_PNG@) {
                Some(pixels) => r matches Some(img) && img@ == pixels,
                None => r is None,
            },
    {
        DecodedImage::from_png(BROKEN_IMAGE_PNG.as_slice())
    }

    /// The width in pixels.
    pub fn width(&self) -> (w: u32)
        ensures
            w == self@.width,
    {
        self.width
    }

    /// The height in pixels.
    pub fn height(&self) -> (h: u32)
        ensures
            h == self@.height,
    {
        self.height
    }

    /// The width and height in pixels.
    pub fn dimensions(&self) -> (d: (u32, u32))
        ensures
            d == (self@.width, self@.height),
    {
        (self.width, self.height)
    }

    /// The pixels, row by row, as RGBA bytes.
    pub fn pixels(&self) -> (p: &Vec<u8>)
        ensures
            p@ == self@.rgba,
            fills(self@.width, self@.height, p@.len()),
    {
        proof {
            use_type_invariant(self);
        }
        &self.pixels
    }
}

impl Clone for DecodedImage {
    fn clone(&self) -> (res: DecodedImage)
        ensures
            res@ == self@,
    {
        proof {
            use_type_invariant(self);
        }
        DecodedImage { width: self.width, height: self.height, pixels: self.pixels.clone() }
    }
}

} // verus!
