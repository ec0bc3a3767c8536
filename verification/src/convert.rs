//! Image conversion: decode an encoded image, scale it down into a box
//! where one is given, and encode it again as PNG, JPEG or WebP.
//!
//! Decoding, scaling and encoding are the work of the `image` and `webp`
//! crates. What this module decides is which format a name stands for,
//! which quality an encoder is handed, and whether an image has to be
//! scaled and into which box.

use image::codecs::jpeg::JpegEncoder;
use image::codecs::png::{CompressionType, FilterType, PngEncoder};
use image::imageops::FilterType as ResizeFilter;
use image::{ExtendedColorType, GenericImageView, ImageEncoder};
use vstd::prelude::*;
use vstd::string::StringExecFns;

verus! {

/// A decoded image of the `image` crate. Its pixels are opaque here.
#[verifier::external_type_specification]
#[verifier::external_body]
pub struct ExDynamicImage(image::DynamicImage);

/// The error type of the `image` crate.
#[verifier::external_type_specification]
#[verifier::external_body]
pub struct ExImageError(image::ImageError);

/// The error type of the WebP encoder.
#[verifier::external_type_specification]
#[verifier::external_body]
pub struct ExWebPEncodingError(webp::WebPEncodingError);

/// Width and height of a decoded image, in pixels.
pub uninterp spec fn image_dimensions(image: image::DynamicImage) -> (u32, u32);

/// The lowercase form of a text, as `str::to_lowercase` computes it.
pub uninterp spec fn lowercase_of(text: Seq<char>) -> Seq<char>;

/// The message of an error of the `image` crate, as `to_string` gives it.
pub uninterp spec fn error_text(error: image::ImageError) -> Seq<char>;

/// The name of an error of the WebP encoder, as its `Debug` form gives it.
pub uninterp spec fn webp_error_text(error: webp::WebPEncodingError) -> Seq<char>;

/// The samples of an image as 8-bit RGBA, as `DynamicImage::to_rgba8` gives
/// them.
pub uninterp spec fn rgba_samples(image: image::DynamicImage) -> Seq<u8>;

/// The samples of an image as 8-bit RGB, as `DynamicImage::to_rgb8` gives
/// them.
pub uninterp spec fn rgb_samples(image: image::DynamicImage) -> Seq<u8>;

/// The width and height to which `DynamicImage::resize` scales an image of
/// `width` by `height` pixels for a box of `box_width` by `box_height`.
pub uninterp spec fn resized_dimensions(
    width: u32,
    height: u32,
    box_width: u32,
    box_height: u32,
) -> (u32, u32);

/// What the PNG encoder makes of RGBA samples at best compression with the
/// adaptive filter: the file, or the message of its error.
pub uninterp spec fn png_encoding(width: u32, height: u32, samples: Seq<u8>) -> Result<
    Seq<u8>,
    Seq<char>,
>;

/// What the JPEG encoder makes of RGB samples at a quality: the file, or
/// the message of its error.
pub uninterp spec fn jpeg_encoding(width: u32, height: u32, samples: Seq<u8>, quality: u8) -> Result<
    Seq<u8>,
    Seq<char>,
>;

/// What the WebP encoder makes of RGBA samples, lossless or at a quality:
/// the file, or the name of its error.
pub uninterp spec fn webp_encoding(
    width: u32,
    height: u32,
    samples: Seq<u8>,
    lossless: bool,
    quality: u8,
) -> Result<Seq<u8>, Seq<char>>;

/// The formats an image can be encoded in.
#[derive(Clone, Copy, Debug, PartialEq, Eq, Structural)]
pub enum Format {
    Png,
    Jpeg,
    Webp,
}

/// Interleaved 8-bit samples of an image, row by row.
#[derive(Debug)]
pub struct Raster {
    pub width: u32,
    pub height: u32,
    pub data: Vec<u8>,
}

/// Quality handed to the encoders by `convert_image`.
pub const DEFAULT_QUALITY: u8 = 78;

/// Quality at which JPEG is written when a lossless result is asked for.
pub const JPEG_BEST_QUALITY: u8 = 100;

/// Effort at which the WebP encoder works in its lossless mode.
pub const WEBP_LOSSLESS_EFFORT: u8 = 75;

/// The longest side, in pixels, that a WebP image can have.
pub const WEBP_MAX_SIDE: u32 = 16383;

/// The format that a lowercase name stands for.
pub open spec fn format_named(name: Seq<char>) -> Option<Format> {
    if name == "png"@ {
        Some(Format::Png)
    } else if name == "jpg"@ || name == "jpeg"@ {
        Some(Format::Jpeg)
    } else if name == "webp"@ {
        Some(Format::Webp)
    } else {
        None
    }
}

/// `quality` brought into the range from 1 to 100.
pub open spec fn clamped(quality: u8) -> u8 {
    if quality < 1 {
        1
    } else if quality > 100 {
        100
    } else {
        quality
    }
}

/// The quality that the encoder of `format` is handed.
pub open spec fn encoder_quality(format: Format, quality: u8, lossless: bool) -> u8 {
    match format {
        Format::Png => clamped(quality),
        Format::Jpeg => if lossless {
            JPEG_BEST_QUALITY
        } else {
            clamped(quality)
        },
        Format::Webp => if lossless {
            WEBP_LOSSLESS_EFFORT
        } else {
            clamped(quality)
        },
    }
}

/// The box into which an image of `width` by `height` pixels has to be
/// scaled, or `None` when it is left as it is. A limit of zero means no
/// limit on that side; an image that already fits is not scaled.
pub open spec fn resize_target(width: u32, height: u32, max_width: u32, max_height: u32) -> Option<
    (u32, u32),
> {
    if max_width == 0 && max_height == 0 {
        None
    } else {
        let target_width = if max_width == 0 {
            width
        } else {
            max_width
        };
        let target_height = if max_height == 0 {
            height
        } else {
            max_height
        };
        if width <= target_width && height <= target_height {
            None
        } else {
            Some((target_width, target_height))
        }
    }
}

/// The message for a format name that stands for no format.
pub open spec fn unsupported_text(target_format: Seq<char>) -> Seq<char> {
    "Unsupported target format: "@ + target_format
}

/// The message for an image that WebP cannot hold.
pub open spec fn oversized_text() -> Seq<char> {
    "Image is too large for WebP: a side is longer than 16383 pixels"@
}

/// A result of this module by its views: the bytes, or the message.
pub open spec fn outcome(result: Result<Vec<u8>, String>) -> Result<Seq<u8>, Seq<char>> {
    match result {
        Ok(bytes) => Ok(bytes@),
        Err(message) => Err(message@),
    }
}

/// What encoding `image` under the name `target_format` gives.
///
/// A name that stands for no format gives the message that repeats it. PNG
/// is made of the image's RGBA samples, four for each pixel. JPEG is made
/// of its RGB samples, three for each pixel, at the quality that
/// `encoder_quality` chooses. WebP is made of its RGBA samples, lossless or
/// at the quality that `encoder_quality` chooses, unless a side is longer
/// than WebP can hold. Where an encoder fails, its message is the result.
pub open spec fn encoded(
    image: image::DynamicImage,
    target_format: Seq<char>,
    quality: u8,
    lossless: bool,
) -> Result<Seq<u8>, Seq<char>> {
    let (width, height) = image_dimensions(image);
    match format_named(lowercase_of(target_format)) {
        None => Err(unsupported_text(target_format)),
        Some(Format::Png) => png_encoding(
            width,
            height,
            rgba_samples(image).take(4 * width * height),
        ),
        Some(Format::Jpeg) => jpeg_encoding(
            width,
            height,
            rgb_samples(image).take(3 * width * height),
            encoder_quality(Format::Jpeg, quality, lossless),
        ),
        Some(Format::Webp) => if width > WEBP_MAX_SIDE || height > WEBP_MAX_SIDE {
            Err(oversized_text())
        } else {
            webp_encoding(
                width,
                height,
                rgba_samples(image),
                lossless,
                encoder_quality(Format::Webp, quality, lossless),
            )
        },
    }
}

/// Whether `scaled` is what scaling `image` into the box of `max_width` by
/// `max_height` may give: the image itself where it needs no scaling, else
/// an image of the dimensions to which the box scales it, with at least one
/// pixel on each side and within the box on every side on which the box
/// has a pixel. The pixels of a scaled image are computed in floating point
/// and are not fixed here.
pub open spec fn scaled_from(
    image: image::DynamicImage,
    scaled: image::DynamicImage,
    max_width: u32,
    max_height: u32,
) -> bool {
    let (width, height) = image_dimensions(image);
    match resize_target(width, height, max_width, max_height) {
        None => scaled == image,
        Some((box_width, box_height)) => {
            &&& image_dimensions(scaled) == resized_dimensions(width, height, box_width, box_height)
            &&& 1 <= image_dimensions(scaled).0
            &&& 1 <= image_dimensions(scaled).1
            &&& box_width >= 1 ==> image_dimensions(scaled).0 <= box_width
            &&& box_height >= 1 ==> image_dimensions(scaled).1 <= box_height
        },
    }
}

/// Whether `out` is what a conversion gives once the decoder has answered
/// `decoded`: the decoder's message where it failed, else the encoding of
/// the image scaled into the box.
pub open spec fn conversion(
    decoded: Result<image::DynamicImage, image::ImageError>,
    target_format: Seq<char>,
    quality: u8,
    max_width: u32,
    max_height: u32,
    lossless: bool,
    out: Result<Seq<u8>, Seq<char>>,
) -> bool {
    match decoded {
        Err(error) => out == Err::<Seq<u8>, Seq<char>>(error_text(error)),
        Ok(image) => exists|scaled: image::DynamicImage|
            scaled_from(image, scaled, max_width, max_height) && out == #[trigger] encoded(
                scaled,
                target_format,
                quality,
                lossless,
            ),
    }
}

/// Calls `image::load_from_memory`, which guesses the format of `input`
/// and decodes it. The guess first asks the format hooks that the process
/// has registered with the `image` crate, so the outcome is no function of
/// the bytes alone, and nothing is claimed of it.
#[verifier::external_body]
fn decode(input: &[u8]) -> (decoded: Result<image::DynamicImage, image::ImageError>) {
    image::load_from_memory(input)
}

/// Calls `to_string` on an error of the `image` crate.
#[verifier::external_body]
fn describe(error: &image::ImageError) -> (text: String)
    ensures
        text@ == error_text(*error),
{
    error.to_string()
}

/// Formats an error of the WebP encoder with its `Debug` form, the only one
/// it has.
#[verifier::external_body]
fn describe_webp(error: &webp::WebPEncodingError) -> (text: String)
    ensures
        text@ == webp_error_text(*error),
{
    format!("{error:?}")
}

/// Calls `GenericImageView::dimensions`, which returns the width and height
/// stored in the image.
#[verifier::external_body]
fn dimensions(image: &image::DynamicImage) -> (size: (u32, u32))
    ensures
        size == image_dimensions(*image),
{
    image.dimensions()
}

/// Calls `DynamicImage::resize` with the Lanczos filter of window 3, which
/// scales the image into the box, keeping its aspect ratio. It is only
/// called to scale down, so that the result is no larger than the image
/// itself. The dimensions of the result are those that the crate computes
/// from the image's dimensions and the box. As the method's documentation
/// says, the result fits within the bounds it is given; it has at least one
/// pixel on each side, so that this holds of every side on which the box
/// has one. Nothing is claimed of the pixels, which are computed in
/// floating point.
#[verifier::external_body]
fn resize(image: &image::DynamicImage, width: u32, height: u32) -> (resized: image::DynamicImage)
    requires
        width < image_dimensions(*image).0 || height < image_dimensions(*image).1,
    ensures
        image_dimensions(resized) == resized_dimensions(
            image_dimensions(*image).0,
            image_dimensions(*image).1,
            width,
            height,
        ),
        1 <= image_dimensions(resized).0,
        1 <= image_dimensions(resized).1,
        width >= 1 ==> image_dimensions(resized).0 <= width,
        height >= 1 ==> image_dimensions(resized).1 <= height,
{
    image.resize(width, height, ResizeFilter::Lanczos3)
}

/// Calls `DynamicImage::to_rgba8` and moves width, height and samples out
/// of the buffer it returns. The buffer has the image's dimensions and
/// holds at least four samples for each pixel.
#[verifier::external_body]
fn rgba8(image: &image::DynamicImage) -> (raster: Raster)
    ensures
        (raster.width, raster.height) == image_dimensions(*image),
        raster.data@ == rgba_samples(*image),
        raster.data@.len() >= 4 * raster.width * raster.height,
{
    let buffer = image.to_rgba8();
    Raster { width: buffer.width(), height: buffer.height(), data: buffer.into_raw() }
}

/// Calls `DynamicImage::to_rgb8` and moves width, height and samples out
/// of the buffer it returns. The buffer has the image's dimensions and
/// holds at least three samples for each pixel.
#[verifier::external_body]
fn rgb8(image: &image::DynamicImage) -> (raster: Raster)
    ensures
        (raster.width, raster.height) == image_dimensions(*image),
        raster.data@ == rgb_samples(*image),
        raster.data@.len() >= 3 * raster.width * raster.height,
{
    let buffer = image.to_rgb8();
    Raster { width: buffer.width(), height: buffer.height(), data: buffer.into_raw() }
}

/// Writes RGBA samples as PNG with `PngEncoder::new_with_quality`, best
/// compression and adaptive filter, and `write_image`. The encoder refuses
/// a buffer of any other length than four samples for each pixel, so that
/// length is required. The outcome is the encoder's: its file, or its
/// error.
#[verifier::external_body]
fn png(raster: &Raster) -> (encoded: Result<Vec<u8>, image::ImageError>)
    requires
        raster.data@.len() == 4 * raster.width * raster.height,
    ensures
        png_encoding(raster.width, raster.height, raster.data@) == match encoded {
            Ok(bytes) => Ok::<Seq<u8>, Seq<char>>(bytes@),
            Err(error) => Err::<Seq<u8>, Seq<char>>(error_text(error)),
        },
{
    let mut output = Vec::new();
    let encoder = PngEncoder::new_with_quality(
        std::io::Cursor::new(&mut output),
        CompressionType::Best,
        FilterType::Adaptive,
    );
    match encoder.write_image(&raster.data, raster.width, raster.height, ExtendedColorType::Rgba8) {
        Ok(()) => Ok(output),
        Err(error) => Err(error),
    }
}

/// Writes RGB samples as JPEG with `JpegEncoder::new_with_quality` and
/// `encode`. The encoder refuses a buffer of any other length than three
/// samples for each pixel, so that length is required. The outcome is the
/// encoder's: its file, or its error.
#[verifier::external_body]
fn jpeg(raster: &Raster, quality: u8) -> (encoded: Result<Vec<u8>, image::ImageError>)
    requires
        raster.data@.len() == 3 * raster.width * raster.height,
    ensures
        jpeg_encoding(raster.width, raster.height, raster.data@, quality) == match encoded {
            Ok(bytes) => Ok::<Seq<u8>, Seq<char>>(bytes@),
            Err(error) => Err::<Seq<u8>, Seq<char>>(error_text(error)),
        },
{
    let mut output = Vec::new();
    let mut encoder = JpegEncoder::new_with_quality(std::io::Cursor::new(&mut output), quality);
    match encoder.encode(&raster.data, raster.width, raster.height, ExtendedColorType::Rgb8) {
        Ok(()) => Ok(output),
        Err(error) => Err(error),
    }
}

/// Writes RGBA samples as WebP with `webp::Encoder::from_rgba` and
/// `encode_simple`, lossless or at the given quality. The encoder refuses a
/// buffer with fewer than four samples for each pixel and computes the
/// length of a row in 32 bits, so both are required to fit. The outcome is
/// the encoder's: its file, or its error.
#[verifier::external_body]
fn webp(raster: &Raster, lossless: bool, quality: u8) -> (encoded: Result<
    Vec<u8>,
    webp::WebPEncodingError,
>)
    requires
        raster.data@.len() >= 4 * raster.width * raster.height,
        raster.width <= WEBP_MAX_SIDE,
        raster.height <= WEBP_MAX_SIDE,
    ensures
        webp_encoding(raster.width, raster.height, raster.data@, lossless, quality)
            == match encoded {
            Ok(bytes) => Ok::<Seq<u8>, Seq<char>>(bytes@),
            Err(error) => Err::<Seq<u8>, Seq<char>>(webp_error_text(error)),
        },
{
    let encoder = webp::Encoder::from_rgba(&raster.data, raster.width, raster.height);
    match encoder.encode_simple(lossless, quality.into()) {
        Ok(memory) => Ok(memory.to_vec()),
        Err(error) => Err(error),
    }
}

/// Calls `str::to_lowercase`.
#[verifier::external_body]
fn lowercase(text: &str) -> (lowered: String)
    ensures
        lowered@ == lowercase_of(text@),
{
    text.to_lowercase()
}

/// Builds the message for a format name that stands for no format.
fn unsupported_format_message(target_format: &str) -> (message: String)
    ensures
        message@ == unsupported_text(target_format@),
{
    "Unsupported target format: ".to_owned().concat(target_format)
}

/// Finds the format that a lowercase name stands for: `png`, `jpg` or
/// `jpeg`, `webp`.
pub fn parse_format(name: &str) -> (format: Option<Format>)
    ensures
        format == format_named(name@),
{
    let name = name.to_owned();
    if name == "png".to_owned() {
        Some(Format::Png)
    } else if name == "jpg".to_owned() || name == "jpeg".to_owned() {
        Some(Format::Jpeg)
    } else if name == "webp".to_owned() {
        Some(Format::Webp)
    } else {
        None
    }
}

/// Brings `quality` into the range from 1 to 100.
pub fn clamp_quality(quality: u8) -> (result: u8)
    ensures
        result == clamped(quality),
        1 <= result <= 100,
{
    if quality < 1 {
        1
    } else if quality > 100 {
        100
    } else {
        quality
    }
}

/// Chooses the quality that the encoder of `format` is handed: the
/// clamped quality, but for a lossless result the best quality for JPEG
/// and the encoder's own effort for WebP. The PNG encoder takes no quality;
/// for it the clamped quality is returned all the same.
pub fn quality_for(format: Format, quality: u8, lossless: bool) -> (result: u8)
    ensures
        result == encoder_quality(format, quality, lossless),
        1 <= result <= 100,
{
    let clamped_quality = clamp_quality(quality);
    match format {
        Format::Png => clamped_quality,
        Format::Jpeg => if lossless {
            JPEG_BEST_QUALITY
        } else {
            clamped_quality
        },
        Format::Webp => if lossless {
            WEBP_LOSSLESS_EFFORT
        } else {
            clamped_quality
        },
    }
}

/// Decides whether an image of `width` by `height` pixels has to be scaled
/// and into which box.
pub fn resize_box(width: u32, height: u32, max_width: u32, max_height: u32) -> (target: Option<
    (u32, u32),
>)
    ensures
        target == resize_target(width, height, max_width, max_height),
        target matches Some((target_width, target_height)) ==> target_width < width
            || target_height < height,
{
    if max_width == 0 && max_height == 0 {
        return None;
    }
    let target_width = if max_width == 0 {
        width
    } else {
        max_width
    };
    let target_height = if max_height == 0 {
        height
    } else {
        max_height
    };
    if width <= target_width && height <= target_height {
        return None;
    }
    Some((target_width, target_height))
}

/// Cuts the samples of `raster` down to `channels` samples for each pixel.
/// A raster that holds fewer samples than that is returned as it is.
pub fn trimmed(raster: Raster, channels: usize) -> (exact: Raster)
    ensures
        exact.width == raster.width,
        exact.height == raster.height,
        exact.data@ == if channels * raster.width * raster.height <= raster.data@.len() {
            raster.data@.take(channels * raster.width * raster.height)
        } else {
            raster.data@
        },
{
    let width = raster.width as usize;
    let height = raster.height as usize;
    let available = raster.data.len();
    let mut data = raster.data;
    proof {
        assert(channels * raster.width * raster.height == (width * height) * channels)
            by (nonlinear_arith)
            requires
                width == raster.width,
                height == raster.height,
        ;
        assert(width * height > usize::MAX && channels >= 1 ==> (width * height) * channels
            > usize::MAX) by (nonlinear_arith);
    }
    if channels == 0 {
        data.truncate(0);
        return Raster { width: raster.width, height: raster.height, data };
    }
    match width.checked_mul(height) {
        Some(pixels) => match pixels.checked_mul(channels) {
            Some(needed) => {
                if needed <= available {
                    data.truncate(needed);
                }
            },
            None => {},
        },
        None => {},
    }
    Raster { width: raster.width, height: raster.height, data }
}

/// Scales `image` down into the box that `max_width` and `max_height` give,
/// keeping its aspect ratio. A limit of zero means no limit on that side.
/// An image that already fits the box is returned as it is; any other comes
/// back scaled, no wider than `max_width` and no higher than `max_height`
/// where these are limits.
pub fn resize_if_needed(image: image::DynamicImage, max_width: u32, max_height: u32) -> (result:
    image::DynamicImage)
    ensures
        resize_target(
            image_dimensions(image).0,
            image_dimensions(image).1,
            max_width,
            max_height,
        ) is None ==> result == image,
        scaled_from(image, result, max_width, max_height),
        max_width != 0 ==> image_dimensions(result).0 <= max_width,
        max_height != 0 ==> image_dimensions(result).1 <= max_height,
{
    if max_width == 0 && max_height == 0 {
        return image;
    }
    let (width, height) = dimensions(&image);
    match resize_box(width, height, max_width, max_height) {
        Some((target_width, target_height)) => resize(&image, target_width, target_height),
        None => image,
    }
}

/// Encodes `image` in the format that `target_format` names, in any mix of
/// upper and lower case: `png`, `jpg` or `jpeg`, `webp`.
///
/// Any other name is refused with a message that repeats it. PNG ignores
/// `quality` and `lossless`. JPEG is written at the clamped quality, or at
/// the best quality when `lossless` is set. WebP is written lossless or at
/// the clamped quality; an image with a side longer than WebP can hold is
/// refused. Where an encoder fails, its own message is returned.
pub fn encode_image(image: image::DynamicImage, target_format: &str, quality: u8, lossless: bool) -> (result:
    Result<Vec<u8>, String>)
    ensures
        outcome(result) == encoded(image, target_format@, quality, lossless),
        format_named(lowercase_of(target_format@)) is None ==> (result matches Err(message)
            && message@ == unsupported_text(target_format@)),
        result is Ok ==> format_named(lowercase_of(target_format@)) is Some,
        format_named(lowercase_of(target_format@)) == Some(Format::Webp) && (image_dimensions(
            image,
        ).0 > WEBP_MAX_SIDE || image_dimensions(image).1 > WEBP_MAX_SIDE) ==> (result matches Err(
            message,
        ) && message@ == oversized_text()),
{
    let target = lowercase(target_format);
    match parse_format(target.as_str()) {
        Some(Format::Png) => {
            let rgba = trimmed(rgba8(&image), 4);
            match png(&rgba) {
                Ok(bytes) => Ok(bytes),
                Err(error) => Err(describe(&error)),
            }
        },
        Some(Format::Jpeg) => {
            let rgb = trimmed(rgb8(&image), 3);
            match jpeg(&rgb, quality_for(Format::Jpeg, quality, lossless)) {
                Ok(bytes) => Ok(bytes),
                Err(error) => Err(describe(&error)),
            }
        },
        Some(Format::Webp) => {
            let rgba = rgba8(&image);
            if rgba.width > WEBP_MAX_SIDE || rgba.height > WEBP_MAX_SIDE {
                return Err("Image is too large for WebP: a side is longer than 16383 pixels".to_owned());
            }
            match webp(&rgba, lossless, quality_for(Format::Webp, quality, lossless)) {
                Ok(bytes) => Ok(bytes),
                Err(error) => Err(describe_webp(&error)),
            }
        },
        None => Err(unsupported_format_message(target_format)),
    }
}

/// Decodes `input` and encodes it again in the format that `target_format`
/// names, at the default quality and not lossless.
///
/// Fails with the decoder's message when `input` cannot be decoded, and as
/// `encode_image` does otherwise: whatever the decoder answers, the result
/// is the conversion of that answer at quality 78, without a box.
pub fn convert_image(input: &[u8], target_format: &str) -> (result: Result<Vec<u8>, String>)
    ensures
        exists|decoded: Result<image::DynamicImage, image::ImageError>| #[trigger]
            conversion(decoded, target_format@, DEFAULT_QUALITY, 0, 0, false, outcome(result)),
        result is Ok ==> format_named(lowercase_of(target_format@)) is Some,
{
    let decoded = decode(input);
    let ghost answer = decoded;
    let result = convert_decoded(decoded, target_format, DEFAULT_QUALITY, 0, 0, false);
    proof {
        assert(conversion(answer, target_format@, DEFAULT_QUALITY, 0, 0, false, outcome(result)));
    }
    result
}

/// Decodes `input`, scales it down into the box that `max_width` and
/// `max_height` give where it does not fit, and encodes it in the format
/// that `target_format` names at the given quality.
///
/// Fails with the decoder's message when `input` cannot be decoded, and as
/// `encode_image` does otherwise: whatever the decoder answers, the result
/// is the conversion of that answer.
pub fn convert_image_with_options(
    input: &[u8],
    target_format: &str,
    quality: u8,
    max_width: u32,
    max_height: u32,
    lossless: bool,
) -> (result: Result<Vec<u8>, String>)
    ensures
        exists|decoded: Result<image::DynamicImage, image::ImageError>| #[trigger]
            conversion(
                decoded,
                target_format@,
                quality,
                max_width,
                max_height,
                lossless,
                outcome(result),
            ),
        result is Ok ==> format_named(lowercase_of(target_format@)) is Some,
{
    let decoded = decode(input);
    let ghost answer = decoded;
    let result = convert_decoded(
        decoded,
        target_format,
        quality,
        max_width,
        max_height,
        lossless,
    );
    proof {
        assert(conversion(
            answer,
            target_format@,
            quality,
            max_width,
            max_height,
            lossless,
            outcome(result),
        ));
    }
    result
}

/// Finishes a conversion once the decoder has answered.
///
/// Where the decoder failed, the conversion fails with the decoder's
/// message, whatever the format name is. Where it gave an image, the image
/// is scaled down into the box that `max_width` and `max_height` give and
/// the result is the encoding of the scaled image.
pub fn convert_decoded(
    decoded: Result<image::DynamicImage, image::ImageError>,
    target_format: &str,
    quality: u8,
    max_width: u32,
    max_height: u32,
    lossless: bool,
) -> (result: Result<Vec<u8>, String>)
    ensures
        conversion(
            decoded,
            target_format@,
            quality,
            max_width,
            max_height,
            lossless,
            outcome(result),
        ),
        decoded matches Err(error) ==> (result matches Err(message) && message@ == error_text(
            error,
        )),
        decoded matches Ok(image) ==> (resize_target(
            image_dimensions(image).0,
            image_dimensions(image).1,
            max_width,
            max_height,
        ) is None ==> outcome(result) == encoded(image, target_format@, quality, lossless)),
        result is Ok ==> decoded is Ok && format_named(lowercase_of(target_format@)) is Some,
        decoded is Ok && format_named(lowercase_of(target_format@)) is None ==> (
        result matches Err(message) && message@ == unsupported_text(target_format@)),
{
    match decoded {
        Ok(image) => {
            let resized = resize_if_needed(image, max_width, max_height);
            let ghost scaled = resized;
            let result = encode_image(resized, target_format, quality, lossless);
            proof {
                assert(scaled_from(image, scaled, max_width, max_height));
                assert(outcome(result) == encoded(scaled, target_format@, quality, lossless));
            }
            result
        },
        Err(error) => Err(describe(&error)),
    }
}

} // verus!
