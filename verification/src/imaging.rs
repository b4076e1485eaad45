//! The image pipeline: decode, orient, resize, encode as JPEG.
//!
//! Decoding and pixel work are the image and exif crates'.  The library
//! keeps the decoded picture opaque and works with its dimensions, which
//! the trusted wrappers read off the real image; the orientation rule and
//! the thumbnail ladder are verified logic.

use vstd::prelude::*;

use crate::VaultError;

verus! {

#[verifier::external_type_specification]
#[verifier::external_body]
pub struct ExDynamicImage(image::DynamicImage);

/// What decoding a byte string under a mimetype yields: the pixel
/// `(height, width)` of the picture, or nothing when the mimetype is not
/// a known format, the bytes do not decode, or a side would be zero.
/// The outcome depends on the bytes and the mimetype alone, so it only
/// carries a name here.
pub uninterp spec fn decoded_dims(bytes: Seq<u8>, mimetype: Seq<char>) -> Option<(u32, u32)>;

/// The `(height, width)` of the aspect-preserving fit of an
/// `height x width` picture into a `long_edge` square box, as the image
/// crate computes it.  A function of the three sizes alone.
pub uninterp spec fn fit_dims(height: u32, width: u32, long_edge: u32) -> (u32, u32);

/// A decoded raster image with its pixel dimensions.  The fields are set
/// only by `decode_image`, which reads them off the decoded picture.
pub struct DecodedImage {
    img: image::DynamicImage,
    height: u32,
    width: u32,
}

impl DecodedImage {
    pub closed spec fn spec_height(&self) -> u32 {
        self.height
    }

    pub closed spec fn spec_width(&self) -> u32 {
        self.width
    }

    /// Pixel rows.
    pub fn height(&self) -> (r: u32)
        ensures
            r == self.spec_height(),
    {
        self.height
    }

    /// Pixel columns.
    pub fn width(&self) -> (r: u32)
        ensures
            r == self.spec_width(),
    {
        self.width
    }
}

/// Relies on `image::ImageFormat::from_mime_type` and
/// `image::load_from_memory_with_format`: decodes `bytes` as `mimetype`,
/// and on `DynamicImage::height` / `width`: the recorded dimensions are
/// the decoded picture's own.  Lookup, decode and the dimension reads
/// are all functions of the buffer and mimetype, so the outcome is
/// exactly `decoded_dims(bytes, mimetype)`.
#[verifier::external_body]
pub(crate) fn decode_image(bytes: &Vec<u8>, mimetype: &str) -> (r: Result<
    DecodedImage,
    VaultError,
>)
    ensures
        r is Ok <==> decoded_dims(bytes@, mimetype@) is Some,
        r matches Ok(d) ==> decoded_dims(bytes@, mimetype@) == Some(
            (d.spec_height(), d.spec_width()),
        ) && d.spec_height() >= 1 && d.spec_width() >= 1,
        r matches Err(e) ==> e == VaultError::BadInput || e == VaultError::Internal,
{
    let format = match image::ImageFormat::from_mime_type(mimetype) {
        Some(f) => f,
        None => return Err(VaultError::BadInput),
    };
    match image::load_from_memory_with_format(bytes.as_slice(), format) {
        Ok(img) if img.height() >= 1 && img.width() >= 1 => {
            Ok(DecodedImage { height: img.height(), width: img.width(), img })
        },
        Ok(_) => Err(VaultError::Internal),
        Err(_) => Err(VaultError::Internal),
    }
}

/// Relies on `exif::Reader::read_from_container`, `Exif::get_field` with
/// the Orientation tag on the primary image, and `Value::get_uint`: the
/// EXIF orientation of the container, if it has one.  A parse failure is
/// no orientation.
#[verifier::external_body]
pub(crate) fn exif_orientation(bytes: &Vec<u8>) -> Option<u32> {
    let mut cursor = std::io::Cursor::new(bytes.as_slice());
    let exif = match exif::Reader::new().read_from_container(&mut cursor) {
        Ok(e) => e,
        Err(_) => {
            return None;
        },
    };
    match exif.get_field(exif::Tag::Orientation, exif::In::PRIMARY) {
        Some(field) => field.value.get_uint(0),
        None => None,
    }
}

/// How a thumbnail is turned upright before it is written.
#[derive(Clone, Copy, PartialEq, Eq, Structural, Debug)]
pub enum Rotation {
    /// Leave as decoded.
    Identity,
    /// Half turn.
    Half,
    /// Quarter turn clockwise.
    QuarterCw,
    /// Three quarters clockwise.
    ThreeQuartersCw,
}

/// The rotation an EXIF orientation value calls for: `1` is the identity,
/// `3` a half turn, `6` a quarter turn clockwise, `8` three quarters
/// clockwise; every other value is treated as the identity.
pub fn rotation_for_orientation(orientation: Option<u32>) -> (r: Rotation)
    ensures
        orientation == Some(3u32) ==> r == Rotation::Half,
        orientation == Some(6u32) ==> r == Rotation::QuarterCw,
        orientation == Some(8u32) ==> r == Rotation::ThreeQuartersCw,
        !(orientation == Some(3u32) || orientation == Some(6u32) || orientation == Some(8u32))
            ==> r == Rotation::Identity,
{
    match orientation {
        Some(3) => Rotation::Half,
        Some(6) => Rotation::QuarterCw,
        Some(8) => Rotation::ThreeQuartersCw,
        _ => Rotation::Identity,
    }
}

/// Relies on `DynamicImage::thumbnail` (the aspect-preserving fit
/// `fit_dims`, whose bounding side comes out exactly `long_edge` and
/// which keeps the orientation: scaling both sides by one ratio and
/// rounding preserves their order), `rotate90` / `rotate180` /
/// `rotate270` (quarter turns transpose the dimensions, a half turn
/// keeps them), `into_rgba8` and `write_to` with the JPEG format, whose
/// only failure is a side above 65535.  The returned height and width
/// are read off the written picture.
#[verifier::external_body]
pub(crate) fn render_thumbnail(src: &DecodedImage, long_edge: u32, rot: Rotation) -> (r: Result<
    (Vec<u8>, u32, u32),
    VaultError,
>)
    requires
        1 <= long_edge,
        long_edge <= vstd::math::max(src.spec_height() as int, src.spec_width() as int),
    ensures
        long_edge <= 65535 ==> r is Ok,
        r matches Ok(t) ==> ({
            let fit = fit_dims(src.spec_height(), src.spec_width(), long_edge);
            &&& (rot == Rotation::QuarterCw || rot == Rotation::ThreeQuartersCw) ==> (t.1, t.2)
                == (fit.1, fit.0)
            &&& (rot == Rotation::Identity || rot == Rotation::Half) ==> (t.1, t.2) == fit
            &&& (src.spec_height() <= src.spec_width() ==> fit.0 <= fit.1)
            &&& (src.spec_width() <= src.spec_height() ==> fit.1 <= fit.0)
            &&& vstd::math::max(t.1 as int, t.2 as int) == long_edge
            &&& t.1 >= 1
            &&& t.2 >= 1
        }),
{
    let resized = src.img.thumbnail(long_edge, long_edge);
    let turned = match rot {
        Rotation::Identity => resized,
        Rotation::Half => resized.rotate180(),
        Rotation::QuarterCw => resized.rotate90(),
        Rotation::ThreeQuartersCw => resized.rotate270(),
    };
    let upright = image::DynamicImage::ImageRgba8(turned.into_rgba8());
    let mut cursor = std::io::Cursor::new(Vec::new());
    match upright.write_to(&mut cursor, image::ImageFormat::Jpeg) {
        Ok(()) => Ok((cursor.into_inner(), upright.height(), upright.width())),
        Err(_) => Err(VaultError::Internal),
    }
}

/// What clamping a picture into a bounding box gives: the dimensions
/// unchanged when they fit, else scaled so the larger side meets its
/// clamp, preserving aspect ratio.
pub open spec fn spec_clamp_dimensions(w: int, h: int, wc: int, hc: int) -> (int, int) {
    if w <= wc && h <= hc {
        (w, h)
    } else if h > w {
        (hc * w / h, hc)
    } else if h < w {
        (wc, wc * h / w)
    } else {
        (wc, hc)
    }
}

/// Fit pixel dimensions into a display box.
pub fn clamp_dimensions(width: i32, height: i32, width_clamp: i32, height_clamp: i32) -> (r: (
    i32,
    i32,
))
    requires
        0 < width,
        0 < height,
        0 < width_clamp,
        0 < height_clamp,
    ensures
        (r.0 as int, r.1 as int) == spec_clamp_dimensions(
            width as int,
            height as int,
            width_clamp as int,
            height_clamp as int,
        ),
{
    if width <= width_clamp && height <= height_clamp {
        return (width, height);
    }
    if height > width {
        proof {
            assert((height_clamp as int) * (width as int) <= 0x7fffffff * 0x7fffffff)
                by (nonlinear_arith)
                requires
                    0 < height_clamp <= 0x7fffffff,
                    0 < width <= 0x7fffffff,
            ;
        }
        let scaled = (height_clamp as i64) * (width as i64) / (height as i64);
        proof {
            assert(height_clamp as int * width as int / height as int <= height_clamp as int)
                by (nonlinear_arith)
                requires
                    0 < height_clamp,
                    0 < width < height,
            ;
            assert(height_clamp as int * width as int / height as int >= 0) by (nonlinear_arith)
                requires
                    0 < height_clamp,
                    0 < width,
                    0 < height,
            ;
        }
        (scaled as i32, height_clamp)
    } else if height < width {
        proof {
            assert((width_clamp as int) * (height as int) <= 0x7fffffff * 0x7fffffff)
                by (nonlinear_arith)
                requires
                    0 < width_clamp <= 0x7fffffff,
                    0 < height <= 0x7fffffff,
            ;
        }
        let scaled = (width_clamp as i64) * (height as i64) / (width as i64);
        proof {
            assert(width_clamp as int * height as int / width as int <= width_clamp as int)
                by (nonlinear_arith)
                requires
                    0 < width_clamp,
                    0 < height < width,
            ;
            assert(width_clamp as int * height as int / width as int >= 0) by (nonlinear_arith)
                requires
                    0 < width_clamp,
                    0 < height,
                    0 < width,
            ;
        }
        (width_clamp, scaled as i32)
    } else {
        (width_clamp, height_clamp)
    }
}

/// The thumbnail ladder: the long-edge sizes that are pre-rendered.
pub open spec fn spec_ladder() -> Seq<u32> {
    seq![320u32, 640u32, 960u32, 1280u32, 1920u32]
}

/// The ladder as a value.
pub fn ladder() -> (r: Vec<u32>)
    ensures
        r@ == spec_ladder(),
{
    let mut out: Vec<u32> = Vec::new();
    out.push(320);
    out.push(640);
    out.push(960);
    out.push(1280);
    out.push(1920);
    proof {
        assert(out@ =~= spec_ladder());
    }
    out
}

} // verus!
