//! Video thumbnails: decoded with the `image` crate and scaled down to at
//! most 360 pixels wide for the list of downloads.

use vstd::prelude::*;

verus! {

#[verifier::external_type_specification]
#[verifier::external_body]
pub struct ExDynamicImage(image::DynamicImage);

/// A decoded image together with its size in pixels, the bytes it was
/// decoded from and the size it was scaled to, if any. Only the functions
/// below build one, each from the image it holds, so the size is the
/// image's own.
pub struct Picture {
    width: u32,
    height: u32,
    image: image::DynamicImage,
    source: Ghost<Seq<u8>>,
    scaled_to: Ghost<Option<(u32, u32)>>,
}

impl Picture {
    pub closed spec fn size(&self) -> (u32, u32) {
        (self.width, self.height)
    }

    /// The encoded bytes the image was decoded from.
    pub closed spec fn source(&self) -> Seq<u8> {
        self.source@
    }

    /// The size the decoded image was asked to fit, when it was scaled.
    pub closed spec fn scaled_to(&self) -> Option<(u32, u32)> {
        self.scaled_to@
    }
}

/// A thumbnail ready to draw: RGBA pixels, row by row.
pub struct ThumbImage {
    pub width: usize,
    pub height: usize,
    pub rgba: Vec<u8>,
}

/// Widest thumbnail kept, in pixels.
pub open spec fn thumb_max_width() -> nat {
    360
}

/// The size of the image that the `image` crate decodes from `bytes` (its
/// format guessed from the data), or `None` when it decodes none.
pub uninterp spec fn decoded_size(bytes: Seq<u8>) -> Option<(u32, u32)>;

/// The size that `DynamicImage::resize` gives an image of `width` by
/// `height` pixels asked to fit `new_width` by `new_height`: the largest
/// that fits and keeps the aspect ratio, computed in floating point.
pub uninterp spec fn resized_size(width: u32, height: u32, new_width: u32, new_height: u32) -> (
    u32,
    u32,
);

/// The RGBA bytes (`to_rgba8`, row by row) of the image that the `image`
/// crate decodes from `bytes`.
pub uninterp spec fn decoded_rgba(bytes: Seq<u8>) -> Seq<u8>;

/// The RGBA bytes of the image decoded from `bytes` once `resize` with the
/// triangle filter has scaled it to fit `new_width` by `new_height`.
pub uninterp spec fn resized_rgba(bytes: Seq<u8>, new_width: u32, new_height: u32) -> Seq<u8>;

/// `image::load_from_memory`: guesses the format from the data and decodes
/// it. The contract names the size and the pixels of what comes out, both
/// functions of the bytes alone.
#[verifier::external_body]
fn decode_image(bytes: &[u8]) -> (r: Option<Picture>)
    ensures
        r is Some <==> decoded_size(bytes@) is Some,
        r matches Some(p) ==> decoded_size(bytes@) == Some(p.size()) && p.source() == bytes@
            && p.scaled_to() is None,
{
    match image::load_from_memory(bytes) {
        Ok(image) => Some(
            Picture {
                width: image.width(),
                height: image.height(),
                image,
                source: Ghost(bytes@),
                scaled_to: Ghost(None),
            },
        ),
        Err(_) => None,
    }
}

/// `DynamicImage::resize` with the triangle filter, on a decoded image. The
/// contract names the size and the pixels of the result; as the crate
/// documents, the result fits within `new_width` by `new_height`, and each
/// side is at least one pixel.
#[verifier::external_body]
fn resize_image(p: &Picture, new_width: u32, new_height: u32) -> (r: Picture)
    requires
        p.scaled_to() is None,
    ensures
        r.size() == resized_size(p.size().0, p.size().1, new_width, new_height),
        r.source() == p.source(),
        r.scaled_to() == Some((new_width, new_height)),
        new_width >= 1 && new_height >= 1 ==> 1 <= r.size().0 <= new_width && 1 <= r.size().1
            <= new_height,
{
    let image = p.image.resize(new_width, new_height, image::imageops::FilterType::Triangle);
    Picture {
        width: image.width(),
        height: image.height(),
        image,
        source: Ghost(p.source@),
        scaled_to: Ghost(Some((new_width, new_height))),
    }
}

/// `DynamicImage::to_rgba8` unpacked into its width, height and raw bytes:
/// the same size, four bytes per pixel, the picture's pixels.
#[verifier::external_body]
fn rgba_parts(p: &Picture) -> (r: (u32, u32, Vec<u8>))
    ensures
        r.0 == p.size().0,
        r.1 == p.size().1,
        r.2@.len() == r.0 * r.1 * 4,
        r.2@ == match p.scaled_to() {
            None => decoded_rgba(p.source()),
            Some((w, h)) => resized_rgba(p.source(), w, h),
        },
{
    let rgba = p.image.to_rgba8();
    let (w, h) = rgba.dimensions();
    (w, h, rgba.into_raw())
}

/// The size to scale an image of `width` by `height` pixels to: `None` when
/// it is at most 360 pixels wide, else 360 pixels wide and as high as keeps
/// the aspect ratio (rounded down, at least 1).
pub open spec fn thumb_target(width: nat, height: nat) -> Option<(nat, nat)> {
    if width <= thumb_max_width() {
        None
    } else {
        let h = height * 360 / width;
        Some((360nat, if h >= 1 { h } else { 1nat }))
    }
}

/// `thumb_target` on machine integers; the height times 360 must fit in a
/// `u32` (else the multiplication overflows).
pub fn thumbnail_target(width: u32, height: u32) -> (r: Option<(u32, u32)>)
    requires
        width > 360 ==> height * 360 <= u32::MAX,
    ensures
        r matches Some(p) ==> thumb_target(width as nat, height as nat) == Some(
            (p.0 as nat, p.1 as nat),
        ),
        r is None ==> thumb_target(width as nat, height as nat) is None,
{
    if width > 360 {
        let h = height * 360 / width;
        Some((360, if h >= 1 { h } else { 1 }))
    } else {
        None
    }
}

/// The image is too tall for the scaling arithmetic in `u32`.
pub open spec fn too_tall(width: u32, height: u32) -> bool {
    width > 360 && height > u32::MAX / 360
}

/// The size of the thumbnail of an image of `width` by `height` pixels.
pub open spec fn thumb_size(width: u32, height: u32) -> (u32, u32) {
    match thumb_target(width as nat, height as nat) {
        Some((tw, th)) => resized_size(width, height, tw as u32, th as u32),
        None => (width, height),
    }
}

/// The pixels of the thumbnail of the image decoded from `bytes`, of
/// `width` by `height` pixels.
pub open spec fn thumb_pixels(bytes: Seq<u8>, width: u32, height: u32) -> Seq<u8> {
    match thumb_target(width as nat, height as nat) {
        Some((tw, th)) => resized_rgba(bytes, tw as u32, th as u32),
        None => decoded_rgba(bytes),
    }
}

/// A thumbnail of `tw` by `th` pixels of an image of `width` by `height`:
/// the image itself when it is at most 360 pixels wide, else at most 360
/// wide and at most the target height, each side at least one pixel.
pub open spec fn thumb_fits(width: u32, height: u32, tw: usize, th: usize) -> bool {
    match thumb_target(width as nat, height as nat) {
        None => tw == width && th == height,
        Some((_, target_h)) => 1 <= tw <= thumb_max_width() && 1 <= th <= target_h,
    }
}

/// Decodes a downloaded image and scales it down to at most 360 pixels
/// wide. `None` when the bytes are not an image, and when the image is so
/// tall that the scaling arithmetic overflows a `u32`.
pub fn thumbnail_from_bytes(bytes: &[u8]) -> (r: Option<ThumbImage>)
    ensures
        r is None <==> match decoded_size(bytes@) {
            None => true,
            Some((w, h)) => too_tall(w, h),
        },
        r matches Some(t) ==> decoded_size(bytes@) matches Some((w, h)) && (t.width as u32,
        t.height as u32) == thumb_size(w, h) && t.rgba@.len() == t.width * t.height * 4
            && t.rgba@ == thumb_pixels(bytes@, w, h) && thumb_fits(w, h, t.width, t.height),
{
    let picture = match decode_image(bytes) {
        Some(p) => p,
        None => return None,
    };
    let w = picture.width;
    let h = picture.height;
    if w > 360 && h > u32::MAX / 360 {
        return None;
    }
    let scaled = match thumbnail_target(w, h) {
        Some((tw, th)) => resize_image(&picture, tw, th),
        None => picture,
    };
    let (rw, rh, rgba) = rgba_parts(&scaled);
    Some(ThumbImage { width: rw as usize, height: rh as usize, rgba })
}

} // verus!
