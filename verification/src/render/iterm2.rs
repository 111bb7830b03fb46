//! iTerm2 inline-image encoder: the OSC 1337 `File=` sequence carrying a
//! base64 image file sized in cells, and the RGBA-to-PNG step that makes the
//! file.

use vstd::prelude::*;

use crate::render::b64::{b64, encode};
use crate::text::{append_bytes, ascii, decimal, push_ascii, push_decimal};

verus! {

/// `ESC ] 1337 ; File=inline=1;size=<n>;width=<cols>;height=<rows>;
/// preserveAspectRatio=0 : <base64> BEL`, where `n` is the file's length in
/// bytes.
pub open spec fn inline_image(image: Seq<u8>, cols: u16, rows: u16) -> Seq<u8> {
    ascii("\x1b]1337;File=inline=1"@) + ascii(";size="@) + decimal(image.len()) + ascii(";width="@)
        + decimal(cols as nat) + ascii(";height="@) + decimal(rows as nat) + ascii(";preserveAspectRatio=0:"@)
        + b64(image) + seq![0x07u8]
}

/// Build the inline-image sequence showing the image file `image_bytes` on
/// a `cols × rows` cell rectangle.
pub fn encode_inline(image_bytes: &[u8], cols: u16, rows: u16) -> (out: Vec<u8>)
    ensures
        out@ == inline_image(image_bytes@, cols, rows),
{
    proof {
        reveal_strlit("\x1b]1337;File=inline=1");
        reveal_strlit(";size=");
        reveal_strlit(";width=");
        reveal_strlit(";height=");
        reveal_strlit(";preserveAspectRatio=0:");
    }
    let payload = encode(image_bytes);
    let mut out: Vec<u8> = Vec::new();
    push_ascii(&mut out, "\x1b]1337;File=inline=1");
    push_ascii(&mut out, ";size=");
    push_decimal(&mut out, image_bytes.len() as u64);
    push_ascii(&mut out, ";width=");
    push_decimal(&mut out, cols as u64);
    push_ascii(&mut out, ";height=");
    push_decimal(&mut out, rows as u64);
    push_ascii(&mut out, ";preserveAspectRatio=0:");
    append_bytes(&mut out, payload.as_slice());
    out.push(0x07);
    assert(out@ =~= inline_image(image_bytes@, cols, rows));
    out
}

/// Why RGBA pixels could not be turned into a PNG file.
#[derive(Debug, Clone, Copy, PartialEq, Eq)]
pub enum PngError {
    /// The buffer holds fewer bytes than `width × height` RGBA pixels need.
    WrongSize { width: u32, height: u32 },
    /// The PNG encoder refused the image.
    Encode,
}

/// The PNG file the encoder writes for `width × height` RGBA8 pixels, or
/// nothing when it refuses them.
pub uninterp spec fn png_encoding(width: u32, height: u32, rgba: Seq<u8>) -> Option<Seq<u8>>;

/// `image::RgbaImage::from_raw` on the pixels, then
/// `DynamicImage::write_to(.., ImageFormat::Png)` into memory: the PNG file,
/// or nothing when the encoder reports an error.
#[verifier::external_body]
fn encode_png(width: u32, height: u32, rgba: &[u8]) -> (r: Option<Vec<u8>>)
    requires
        rgba@.len() == 4 * width * height,
    ensures
        match r {
            Some(v) => png_encoding(width, height, rgba@) == Some(v@),
            None => png_encoding(width, height, rgba@) is None,
        },
{
    let buf = image::RgbaImage::from_raw(width, height, rgba.to_vec())?;
    let mut out = std::io::Cursor::new(Vec::new());
    image::DynamicImage::ImageRgba8(buf).write_to(&mut out, image::ImageFormat::Png).ok()?;
    Some(out.into_inner())
}

/// Re-encode tightly packed RGBA8 (`width × height`) as a PNG file. A buffer
/// shorter than the pixels need is refused.
pub fn rgba_to_png(width: u32, height: u32, rgba: &[u8]) -> (r: Result<Vec<u8>, PngError>)
    requires
        4 * width * height <= usize::MAX ==> rgba@.len() <= 4 * width * height,
    ensures
        rgba@.len() != 4 * width * height ==> r == Err::<Vec<u8>, PngError>(PngError::WrongSize { width, height }),
        rgba@.len() == 4 * width * height ==> match png_encoding(width, height, rgba@) {
            Some(p) => r matches Ok(v) && v@ == p,
            None => r == Err::<Vec<u8>, PngError>(PngError::Encode),
        },
{
    let w = width as u128;
    let h = height as u128;
    assert(w * h <= 0xffff_ffff * 0xffff_ffff) by (nonlinear_arith)
        requires
            w <= 0xffff_ffff,
            h <= 0xffff_ffff,
    ;
    let needed: u128 = 4 * (w * h);
    assert(needed == 4 * width * height) by (nonlinear_arith)
        requires
            needed == 4 * (w * h),
            w == width,
            h == height,
    ;
    if needed != rgba.len() as u128 {
        return Err(PngError::WrongSize { width, height });
    }
    match encode_png(width, height, rgba) {
        Some(v) => Ok(v),
        None => Err(PngError::Encode),
    }
}

} // verus!
