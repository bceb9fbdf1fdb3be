//! Server-side rendering output: the rasterised frame as canonical pixels
//! and as a PNG file.

use vstd::prelude::*;
use crate::pixel::rgba_bytes;
use crate::strings::joined;

verus! {

/// Why a server-side render failed, with the underlying message.
#[derive(Debug, Clone)]
pub enum SsrError {
    Mount(String),
    Render(String),
    Encode(String),
}

impl SsrError {
    /// The text the error displays.
    pub fn message(&self) -> (s: String)
        ensures
            self matches SsrError::Mount(e) ==> s@ == "SSR mount error: "@ + e@,
            self matches SsrError::Render(e) ==> s@ == "SSR render error: "@ + e@,
            self matches SsrError::Encode(e) ==> s@ == "SSR PNG encode error: "@ + e@,
    {
        match self {
            SsrError::Mount(e) => joined("SSR mount error: ", e.as_str()),
            SsrError::Render(e) => joined("SSR render error: ", e.as_str()),
            SsrError::Encode(e) => joined("SSR PNG encode error: ", e.as_str()),
        }
    }
}

/// A rendered frame: its size, its canonical pixels (premultiplied RGBA
/// read as little-endian `u32`) and the same frame encoded as PNG.
pub struct SsrOutput {
    pub width: u32,
    pub height: u32,
    pub rgba: Vec<u32>,
    pub png: Vec<u8>,
}

/// What the `image` crate's PNG encoder writes for an 8-bit RGBA image of
/// the given bytes and size, or the text of its error.
pub uninterp spec fn png_rgba8(bytes: Seq<u8>, width: u32, height: u32) -> Result<Seq<u8>, Seq<char>>;

/// Encodes `bytes` (R, G, B, A per pixel, row-major) as a `width` by
/// `height` PNG with `image::codecs::png::PngEncoder::write_image` into a
/// fresh buffer; the file, or the error's `to_string()`, is named by
/// `png_rgba8` of the arguments. The encoder asserts that the buffer holds
/// exactly `width * height` pixels, which `requires` demands.
#[verifier::external_body]
fn png_encode_rgba8(bytes: &[u8], width: u32, height: u32) -> (r: Result<Vec<u8>, String>)
    requires
        bytes@.len() == width * height * 4,
    ensures
        match r {
            Ok(v) => png_rgba8(bytes@, width, height) == Ok::<Seq<u8>, Seq<char>>(v@),
            Err(e) => png_rgba8(bytes@, width, height) == Err::<Seq<u8>, Seq<char>>(e@),
        },
{
    let mut out = std::io::Cursor::new(Vec::new());
    let encoder = image::codecs::png::PngEncoder::new(&mut out);
    match image::ImageEncoder::write_image(encoder, bytes, width, height, image::ExtendedColorType::Rgba8) {
        Ok(()) => Ok(out.into_inner()),
        Err(e) => Err(e.to_string()),
    }
}

/// Encode a frame of canonical pixels as PNG: each pixel becomes its
/// `R, G, B, A` bytes, which the PNG encoder writes as an RGBA8 image.
pub fn encode_png(rgba: &[u32], width: u32, height: u32) -> (r: Result<Vec<u8>, String>)
    requires
        rgba@.len() == width * height,
        rgba@.len() * 4 <= usize::MAX,
    ensures
        match r {
            Ok(v) => png_rgba8(rgba_bytes(rgba@), width, height) == Ok::<Seq<u8>, Seq<char>>(v@),
            Err(e) => png_rgba8(rgba_bytes(rgba@), width, height) == Err::<Seq<u8>, Seq<char>>(e@),
        },
{
    let buf = crate::pixel::pixels_to_rgba_bytes(rgba);
    png_encode_rgba8(buf.as_slice(), width, height)
}

/// Assemble the output of a render from its pixels and the outcome of
/// encoding them: the PNG bytes, or an `Encode` error carrying the
/// encoder's message.
pub fn ssr_output(rgba: Vec<u32>, width: u32, height: u32, encoded: Result<Vec<u8>, String>) -> (r:
    Result<SsrOutput, SsrError>)
    ensures
        match encoded {
            Ok(png) => r matches Ok(o) && o.width == width && o.height == height && o.rgba@
                == rgba@ && o.png@ == png@,
            Err(e) => r matches Err(SsrError::Encode(m)) && m@ == e@,
        },
{
    match encoded {
        Ok(png) => Ok(SsrOutput { width, height, rgba, png }),
        Err(e) => Err(SsrError::Encode(e)),
    }
}

/// The last step of a server-side render: encode the rasterised frame and
/// package it, or report the encoder's error.
pub fn finish_render(rgba: Vec<u32>, width: u32, height: u32) -> (r: Result<SsrOutput, SsrError>)
    requires
        rgba@.len() == width * height,
        rgba@.len() * 4 <= usize::MAX,
    ensures
        match png_rgba8(rgba_bytes(rgba@), width, height) {
            Ok(png) => r matches Ok(o) && o.width == width && o.height == height && o.rgba@
                == rgba@ && o.png@ == png,
            Err(e) => r matches Err(SsrError::Encode(m)) && m@ == e,
        },
{
    let encoded = encode_png(rgba.as_slice(), width, height);
    ssr_output(rgba, width, height, encoded)
}

} // verus!
