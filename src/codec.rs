//! Plate images in and trap images out, through the `image` crate: decoded
//! plates become binary masks, trap masks become PNG bytes.

use crate::error::TrapError;
use crate::mask::{alpha_to_bit, mask_of_rgba};
use image::ImageEncoder;
use vstd::prelude::*;

verus! {

#[verifier::external_type_specification]
#[verifier::external_body]
pub struct ExImageError(image::ImageError);

/// The image that the PNG data `bytes` encode, as width, height and 8-bit RGBA samples,
/// or `None` where they encode none.
pub uninterp spec fn decoded_rgba(bytes: Seq<u8>) -> Option<(u32, u32, Seq<u8>)>;

/// The PNG encoding of a `w` by `h` image with 8-bit RGBA samples `rgba`.
pub uninterp spec fn png_of(w: u32, h: u32, rgba: Seq<u8>) -> Seq<u8>;

/// Relies on image::load_from_memory_with_format with the built-in PNG
/// decoder, then DynamicImage::to_rgba8: decodes `bytes` as PNG, with no
/// format guessing and no registered hooks consulted; the RGBA buffer holds
/// at least four samples per pixel (ImageBuffer::from_raw refuses a shorter
/// one).
#[verifier::external_body]
fn decode_rgba(bytes: &[u8]) -> (r: Result<(u32, u32, Vec<u8>), image::ImageError>)
    ensures
        match r {
            Ok((w, h, px)) => decoded_rgba(bytes@) == Some((w, h, px@)) && px@.len() >= 4 * w * h,
            Err(_) => decoded_rgba(bytes@) is None,
        },
{
    let img = image::load_from_memory_with_format(bytes, image::ImageFormat::Png)?.to_rgba8();
    let (w, h) = img.dimensions();
    Ok((w, h, img.into_raw()))
}

/// Relies on image::codecs::png::PngEncoder::write_image: encodes a `w` by
/// `h` RGBA8 buffer as PNG; it panics unless the buffer holds exactly four
/// samples per pixel. Written to a `Vec`, the encoder fails only on a zero
/// width or a zero height (png's Writer::init).
#[verifier::external_body]
fn encode_png(w: u32, h: u32, rgba: &[u8]) -> (r: Result<Vec<u8>, image::ImageError>)
    requires
        rgba@.len() == 4 * w * h,
    ensures
        r matches Ok(b) ==> b@ == png_of(w, h, rgba@),
        w > 0 && h > 0 ==> r is Ok,
{
    let mut out: Vec<u8> = Vec::new();
    image::codecs::png::PngEncoder::new(&mut out).write_image(rgba, w, h, image::ExtendedColorType::Rgba8)?;
    Ok(out)
}

/// The plate mask of a decoded image of size `mw` by `mh`, for a job of
/// size `w` by `h`.
pub open spec fn plate_result(w: u32, h: u32, mw: u32, mh: u32, rgba: Seq<u8>) -> Result<Seq<u8>, TrapError> {
    if mw != w || mh != h {
        Err(TrapError::SizeMismatch)
    } else {
        Ok(mask_of_rgba(rgba, w * h))
    }
}

/// Checks a decoded `mw` by `mh` RGBA image against the job's size `w` by
/// `h` and reads its alpha channel into a plate mask.
pub fn plate_from_rgba(w: u32, h: u32, mw: u32, mh: u32, rgba: &[u8]) -> (r: Result<Vec<u8>, TrapError>)
    requires
        4 * (mw as int) * (mh as int) <= rgba@.len(),
    ensures
        match (r, plate_result(w, h, mw, mh, rgba@)) {
            (Ok(m), Ok(s)) => m@ == s,
            (Err(e), Err(f)) => e == f,
            _ => false,
        },
{
    if mw != w || mh != h {
        return Err(TrapError::SizeMismatch);
    }
    Ok(alpha_to_bit(w, h, rgba))
}

/// Decodes a plate image and turns it into the plate mask of a `w` by `h`
/// job: `DecodeError` where the bytes hold no image, `SizeMismatch` where
/// the image has another size.
pub fn load_plate(w: u32, h: u32, bytes: &[u8]) -> (r: Result<Vec<u8>, TrapError>)
    ensures
        match decoded_rgba(bytes@) {
            None => r == Err::<Vec<u8>, TrapError>(TrapError::DecodeError),
            Some((mw, mh, rgba)) => match (r, plate_result(w, h, mw, mh, rgba)) {
                (Ok(m), Ok(s)) => m@ == s,
                (Err(e), Err(f)) => e == f,
                _ => false,
            },
        },
{
    match decode_rgba(bytes) {
        Err(_) => Err(TrapError::DecodeError),
        Ok((mw, mh, rgba)) => plate_from_rgba(w, h, mw, mh, rgba.as_slice()),
    }
}

/// Pixel `p` of the RGBA samples `r` is white, with alpha 255 where `m`
/// is set and 0 elsewhere.
pub open spec fn trap_pixel_ok(m: Seq<u8>, r: Seq<u8>, p: int) -> bool {
    &&& r[4 * p] == 255
    &&& r[4 * p + 1] == 255
    &&& r[4 * p + 2] == 255
    &&& r[4 * p + 3] == if m[p] != 0 { 255u8 } else { 0u8 }
}

/// The RGBA samples of a trap image: white everywhere, opaque where the
/// mask is set and transparent elsewhere.
pub open spec fn is_trap_rgba(m: Seq<u8>, r: Seq<u8>) -> bool {
    &&& r.len() == 4 * m.len()
    &&& forall|p: int| 0 <= p < m.len() ==> #[trigger] trap_pixel_ok(m, r, p)
}

/// Renders a trap mask as RGBA samples: opaque white where it is set,
/// transparent white elsewhere.
pub fn trap_rgba(mask: &[u8]) -> (r: Vec<u8>)
    requires
        4 * mask@.len() <= usize::MAX,
    ensures
        is_trap_rgba(mask@, r@),
{
    let mut r: Vec<u8> = Vec::new();
    let mut i: usize = 0;
    while i < mask.len()
        invariant
            4 * mask@.len() <= usize::MAX,
            i <= mask@.len(),
            r@.len() == 4 * i,
            forall|p: int|
                0 <= p < i ==> #[trigger] trap_pixel_ok(mask@, r@, p),
        decreases mask@.len() - i,
    {
        let a: u8 = if mask[i] != 0 { 255 } else { 0 };
        let ghost before = r@;
        r.push(255);
        r.push(255);
        r.push(255);
        r.push(a);
        proof {
            assert(r@ == before + seq![255u8, 255u8, 255u8, a]);
            assert forall|p: int| 0 <= p < i + 1 implies #[trigger] trap_pixel_ok(mask@, r@, p) by {
                if p < i {
                    assert(trap_pixel_ok(mask@, before, p));
                    assert(r@[4 * p] == before[4 * p]);
                    assert(r@[4 * p + 1] == before[4 * p + 1]);
                    assert(r@[4 * p + 2] == before[4 * p + 2]);
                    assert(r@[4 * p + 3] == before[4 * p + 3]);
                }
            }
        }
        i += 1;
    }
    r
}

/// The PNG bytes of the trap image of a `w` by `h` trap mask.
pub fn trap_png(w: u32, h: u32, mask: &[u8]) -> (r: Result<Vec<u8>, TrapError>)
    requires
        mask@.len() == w * h,
        4 * mask@.len() <= usize::MAX,
    ensures
        match r {
            Ok(b) => exists|px: Seq<u8>| is_trap_rgba(mask@, px) && b@ == png_of(w, h, px),
            Err(e) => e == TrapError::EncodeError,
        },
        w > 0 && h > 0 ==> r is Ok,
{
    let rgba = trap_rgba(mask);
    assert(4 * (w as int) * (h as int) == 4 * ((w as int) * (h as int))) by (nonlinear_arith);
    match encode_png(w, h, rgba.as_slice()) {
        Ok(b) => Ok(b),
        Err(_) => Err(TrapError::EncodeError),
    }
}

} // verus!
