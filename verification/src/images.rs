//! Image operations of the file tools service: metadata, grayscale and
//! resize, over the image crate's decoder, filters and encoders.

use vstd::prelude::*;
use image::DynamicImage;
use crate::query::{parse_unsigned, query_param, query_param_spec, query_param_u32};
use crate::tools::{format_content_type, format_spec, image_format_from_param, OutputFormat, ToolError};

verus! {

/// A decoded image.
#[verifier::external_type_specification]
#[verifier::external_body]
pub struct ExDynamicImage(image::DynamicImage);

/// Whether `image::load_from_memory` decodes the bytes.
pub uninterp spec fn decodes(bytes: Seq<u8>) -> bool;

/// The width of the image that `image::load_from_memory` decodes from the bytes.
pub uninterp spec fn decoded_width(bytes: Seq<u8>) -> u32;

/// The height of the image that `image::load_from_memory` decodes from the bytes.
pub uninterp spec fn decoded_height(bytes: Seq<u8>) -> u32;

/// The `Debug` text of the color type (such as `Rgba8`) of the image that
/// `image::load_from_memory` decodes from the bytes.
pub uninterp spec fn decoded_color(bytes: Seq<u8>) -> Seq<char>;

/// A decoded image, with the bytes it was decoded from.
pub struct Picture {
    img: DynamicImage,
    source: Ghost<Seq<u8>>,
}

/// `image::load_from_memory`: the decoded image, or the decoder's error
/// text. Whether it succeeds is named; the image itself is opaque, and what
/// it was decoded from is kept beside it.
#[verifier::external_body]
fn load_image(bytes: &[u8]) -> (r: Result<Picture, String>)
    ensures
        r is Ok <==> decodes(bytes@),
        r matches Ok(p) ==> p.source@ == bytes@,
{
    match image::load_from_memory(bytes) {
        Ok(img) => Ok(Picture { img, source: Ghost(bytes@) }),
        Err(e) => Err(e.to_string()),
    }
}

/// `DynamicImage::width`: the width of the decoded image.
#[verifier::external_body]
fn image_width(p: &Picture) -> (r: u32)
    ensures
        r == decoded_width(p.source@),
{
    p.img.width()
}

/// `DynamicImage::height`: the height of the decoded image.
#[verifier::external_body]
fn image_height(p: &Picture) -> (r: u32)
    ensures
        r == decoded_height(p.source@),
{
    p.img.height()
}

/// `DynamicImage::color`, written as its `Debug` text (such as `Rgba8`): the
/// color type of the decoded image.
#[verifier::external_body]
fn image_color(p: &Picture) -> (r: String)
    ensures
        r@ == decoded_color(p.source@),
{
    format!("{:?}", p.img.color())
}

/// An image made from a decoded one, with the bytes that were decoded and
/// the size it was resized to (`None` for a grayscale copy).
pub struct Made {
    img: DynamicImage,
    source: Ghost<Seq<u8>>,
    resized: Ghost<Option<(u32, u32)>>,
}

/// What `DynamicImage::write_to` gives, as PNG or (where `jpeg`) as JPEG,
/// for the image that `bytes` decode to, turned grayscale (where `resize`
/// is false, with `width` and `height` 0) or resized with the triangle
/// filter to `width` by `height`: the encoded bytes, or `None` where the
/// encoder refuses the image.
pub uninterp spec fn encoded(bytes: Seq<u8>, resize: bool, width: u32, height: u32, jpeg: bool) -> Option<Seq<u8>>;

/// `DynamicImage::grayscale`: a grayscale copy of the decoded image.
#[verifier::external_body]
fn image_grayscale(p: &Picture) -> (r: Made)
    ensures
        r.source@ == p.source@,
        r.resized@ is None,
{
    Made { img: p.img.grayscale(), source: Ghost(p.source@), resized: Ghost(None) }
}

/// `DynamicImage::resize_exact` with the triangle filter: a copy of the
/// given size. The image crate resamples through a buffer of 16-byte
/// pixels as wide as the source and as high as the result, then into the
/// result (at most 16 bytes a pixel); it panics where such a buffer would
/// not fit in a `Vec`, so both are bounded.
#[verifier::external_body]
fn image_resize(p: &Picture, width: u32, height: u32) -> (r: Made)
    requires
        16 * ((width as int) * (height as int)) <= isize::MAX,
        16 * ((decoded_width(p.source@) as int) * (height as int)) <= isize::MAX,
    ensures
        r.source@ == p.source@,
        r.resized@ == Some((width, height)),
{
    Made {
        img: p.img.resize_exact(width, height, image::imageops::FilterType::Triangle),
        source: Ghost(p.source@),
        resized: Ghost(Some((width, height))),
    }
}

/// `DynamicImage::write_to` an in-memory buffer: the encoded bytes, or the
/// encoder's error text where it refuses the image. Encoding depends on the
/// image and the format alone.
#[verifier::external_body]
fn image_encode(m: &Made, format: OutputFormat) -> (r: Result<Vec<u8>, String>)
    ensures
        m.resized@ matches Some((w, h)) ==> (r is Ok <==> encoded(m.source@, true, w, h, format == OutputFormat::Jpeg)
            is Some) && (r matches Ok(b) ==> Some(b@) == encoded(m.source@, true, w, h, format == OutputFormat::Jpeg)),
        m.resized@ is None ==> (r is Ok <==> encoded(m.source@, false, 0, 0, format == OutputFormat::Jpeg) is Some)
            && (r matches Ok(b) ==> Some(b@) == encoded(m.source@, false, 0, 0, format == OutputFormat::Jpeg)),
{
    let fmt = match format {
        OutputFormat::Png => image::ImageFormat::Png,
        OutputFormat::Jpeg => image::ImageFormat::Jpeg,
    };
    let mut cursor = std::io::Cursor::new(Vec::new());
    match m.img.write_to(&mut cursor, fmt) {
        Ok(()) => Ok(cursor.into_inner()),
        Err(e) => Err(e.to_string()),
    }
}

/// The size and color type of an image.
#[derive(Debug)]
pub struct ImageInfo {
    pub width: u32,
    pub height: u32,
    pub color: String,
}

/// The size and color type of an image; a `400 invalid_image` error when
/// the bytes do not decode.
pub fn image_metadata(body: &[u8]) -> (r: Result<ImageInfo, ToolError>)
    ensures
        r is Ok <==> decodes(body@),
        r matches Ok(info) ==> info.width == decoded_width(body@) && info.height == decoded_height(body@)
            && info.color@ == decoded_color(body@),
        r matches Err(e) ==> e.status == 400 && e.code@ == "invalid_image"@,
{
    match load_image(body) {
        Ok(img) => Ok(ImageInfo { width: image_width(&img), height: image_height(&img), color: image_color(&img) }),
        Err(msg) => Err(ToolError::new(400, "invalid_image", msg.as_str())),
    }
}

/// An image operation.
#[derive(Clone, Copy, Debug, PartialEq, Eq, Structural)]
pub enum ImageOp {
    Grayscale,
    Resize,
}

/// Resizing the image that `bytes` decode to into `width` by `height`
/// keeps the resampling buffers within what a `Vec` holds (where the image
/// crate would panic otherwise).
pub open spec fn resize_fits(bytes: Seq<u8>, width: Option<u32>, height: Option<u32>) -> bool {
    decodes(bytes) ==> (positive(width) matches Some(w) ==> (positive(height) matches Some(h) ==> 16 * (w * h)
        <= isize::MAX && 16 * ((decoded_width(bytes) as int) * h) <= isize::MAX))
}

/// The `u32` that the query parameter `name` reads as, if it does.
pub open spec fn u32_param(query: Seq<char>, name: Seq<char>) -> Option<u32> {
    match query_param_spec(query, name) {
        Some(s) => match parse_unsigned(s, u32::MAX as int) {
            Some(v) => Some(v as u32),
            None => None,
        },
        None => None,
    }
}

/// Whether a resize of the image in `bytes` to `width` by `height` keeps
/// the resampling buffers within what a `Vec` holds.
fn resize_fits_exec(bytes: &[u8], width: Option<u32>, height: Option<u32>) -> (r: bool)
    ensures
        r == resize_fits(bytes@, width, height),
{
    match (width, height) {
        (Some(w), Some(h)) => {
            if w == 0 || h == 0 {
                return true;
            }
            match load_image(bytes) {
                Ok(p) => {
                    let sw = image_width(&p);
                    let wide: u128 = w as u128;
                    let high: u128 = h as u128;
                    let src: u128 = sw as u128;
                    assert(wide * high <= 0xffff_ffff_ffff_ffff_ffff_ffff_ffff) by (nonlinear_arith)
                        requires
                            wide <= 0xffff_ffff,
                            high <= 0xffff_ffff,
                    ;
                    assert(src * high <= 0xffff_ffff_ffff_ffff_ffff_ffff_ffff) by (nonlinear_arith)
                        requires
                            src <= 0xffff_ffff,
                            high <= 0xffff_ffff,
                    ;
                    let limit: u128 = isize::MAX as u128;
                    let a: u128 = 16 * (wide * high);
                    let b: u128 = 16 * (src * high);
                    a <= limit && b <= limit
                },
                Err(_) => true,
            }
        },
        _ => true,
    }
}

/// The positive value of a size, if it is one.
pub open spec fn positive(v: Option<u32>) -> Option<int> {
    match v {
        Some(x) => if x > 0 {
            Some(x as int)
        } else {
            None
        },
        None => None,
    }
}

/// The output format: the one asked for, PNG when none or an unknown one is.
pub open spec fn format_or_png(format: Option<Seq<char>>) -> OutputFormat {
    match format_spec(format) {
        Some(f) => f,
        None => OutputFormat::Png,
    }
}

/// The view of an optional text.
pub open spec fn opt_view(v: Option<&str>) -> Option<Seq<char>> {
    match v {
        Some(s) => Some(s@),
        None => None,
    }
}

/// What an image operation with its parameters answers:
/// `400 invalid_image` when the body does not decode, `400 missing_width` /
/// `missing_height` when a resize lacks a positive size, `500
/// image_encode_error` when the encoder refuses the image, and otherwise
/// the image of the body turned grayscale or resized to the size asked for,
/// encoded in the output format (PNG by default or for an unknown format),
/// with that format's content type.
pub open spec fn transform_params_result(
    body: Seq<u8>,
    format: Option<Seq<char>>,
    width: Option<u32>,
    height: Option<u32>,
    op: ImageOp,
    r: Result<(Vec<u8>, &'static str), ToolError>,
) -> bool {
    &&& !decodes(body) ==> (r matches Err(e) && e.status == 400 && e.code@ == "invalid_image"@)
    &&& decodes(body) && op == ImageOp::Resize && positive(width) is None ==> (r matches Err(e) && e.status == 400
        && e.code@ == "missing_width"@ && e.message@ == "query parameter 'width' must be a positive integer"@)
    &&& decodes(body) && op == ImageOp::Resize && positive(width) is Some && positive(height) is None ==> (r matches Err(
        e,
    ) && e.status == 400 && e.code@ == "missing_height"@ && e.message@
        == "query parameter 'height' must be a positive integer"@)
    &&& r matches Ok((_, ct)) ==> decodes(body) && (format_or_png(format) == OutputFormat::Jpeg ==> ct@
        == "image/jpeg"@) && (format_or_png(format) == OutputFormat::Png ==> ct@ == "image/png"@)
    &&& r matches Err(e) ==> (e.status == 400 && (e.code@ == "invalid_image"@ || e.code@ == "missing_width"@
        || e.code@ == "missing_height"@)) || (e.status == 500 && e.code@ == "image_encode_error"@)
    &&& decodes(body) && (op == ImageOp::Grayscale || (positive(width) is Some && positive(height) is Some)) ==> {
        let out = transform_output(body, format, width, height, op);
        &&& r is Ok <==> out is Some
        &&& r matches Ok((b, _)) ==> Some(b@) == out
        &&& r matches Err(e) ==> e.status == 500 && e.code@ == "image_encode_error"@
    }
}

/// The bytes that an image operation encodes: the image of `body` turned
/// grayscale, or resized to `width` by `height`, in the output format.
pub open spec fn transform_output(
    body: Seq<u8>,
    format: Option<Seq<char>>,
    width: Option<u32>,
    height: Option<u32>,
    op: ImageOp,
) -> Option<Seq<u8>> {
    let jpeg = format_or_png(format) == OutputFormat::Jpeg;
    if op == ImageOp::Resize {
        encoded(body, true, width->0, height->0, jpeg)
    } else {
        encoded(body, false, 0, 0, jpeg)
    }
}

/// What an image operation with its parameters in the query string
/// answers: as `transform_params_result`, with the `format`, `width` and
/// `height` parameters of the query.
pub open spec fn transform_query_result(
    body: Seq<u8>,
    query: Seq<char>,
    op: ImageOp,
    r: Result<(Vec<u8>, &'static str), ToolError>,
) -> bool {
    transform_params_result(
        body,
        query_param_spec(query, "format"@),
        u32_param(query, "width"@),
        u32_param(query, "height"@),
        op,
        r,
    )
}

/// Turns an image grayscale, or resizes it to `width` by `height`, and
/// encodes it in `format` (PNG by default or for an unknown format).
/// Errors: `400 invalid_image` when the body does not decode,
/// `400 missing_width` / `missing_height` when a resize lacks a positive
/// size, `500 image_encode_error` when encoding fails. On success, the bytes
/// and their content type.
pub fn image_transform_params(
    body: &[u8],
    format: Option<&str>,
    width: Option<u32>,
    height: Option<u32>,
    op: ImageOp,
) -> (r: Result<(Vec<u8>, &'static str), ToolError>)
    requires
        op == ImageOp::Resize ==> resize_fits(body@, width, height),
    ensures
        transform_params_result(body@, opt_view(format), width, height, op, r),
{
    let img = match load_image(body) {
        Ok(img) => img,
        Err(msg) => {
            return Err(ToolError::new(400, "invalid_image", msg.as_str()));
        },
    };
    let out_format = match image_format_from_param(format) {
        Some(f) => f,
        None => OutputFormat::Png,
    };
    let transformed = match op {
        ImageOp::Grayscale => image_grayscale(&img),
        ImageOp::Resize => {
            let w = match width {
                Some(v) if v > 0 => v,
                _ => {
                    return Err(
                        ToolError::new(400, "missing_width", "query parameter 'width' must be a positive integer"),
                    );
                },
            };
            let h = match height {
                Some(v) if v > 0 => v,
                _ => {
                    return Err(
                        ToolError::new(
                            400,
                            "missing_height",
                            "query parameter 'height' must be a positive integer",
                        ),
                    );
                },
            };
            image_resize(&img, w, h)
        },
    };
    match image_encode(&transformed, out_format) {
        Ok(bytes) => Ok((bytes, format_content_type(out_format))),
        Err(msg) => Err(ToolError::new(500, "image_encode_error", msg.as_str())),
    }
}

/// Turns an image grayscale or resizes it to the `width` and `height` query
/// parameters, and encodes it in the format the query's `format` parameter
/// asks for (PNG by default), with the errors of `image_transform_params`.
pub fn image_transform(body: &[u8], query: &str, op: ImageOp) -> (r: Result<(Vec<u8>, &'static str), ToolError>)
    requires
        op == ImageOp::Resize ==> resize_fits(body@, u32_param(query@, "width"@), u32_param(query@, "height"@)),
    ensures
        transform_query_result(body@, query@, op, r),
{
    let format = query_param(query, "format");
    let width = query_param_u32(query, "width");
    let height = query_param_u32(query, "height");
    let f: Option<&str> = match &format {
        Some(s) => Some(s.as_str()),
        None => None,
    };
    proof {
        assert(opt_view(f) == query_param_spec(query@, "format"@));
        assert(width == u32_param(query@, "width"@));
        assert(height == u32_param(query@, "height"@));
    }
    image_transform_params(body, f, width, height, op)
}

/// `image_transform_params` where the resize fits in memory; `None` where the
/// resampling buffers would not fit in a `Vec` (and the image crate would
/// panic).
pub fn try_image_transform_params(
    body: &[u8],
    format: Option<&str>,
    width: Option<u32>,
    height: Option<u32>,
    op: ImageOp,
) -> (r: Option<Result<(Vec<u8>, &'static str), ToolError>>)
    ensures
        r is None <==> (op == ImageOp::Resize && !resize_fits(body@, width, height)),
        r matches Some(res) ==> transform_params_result(body@, opt_view(format), width, height, op, res),
{
    if op == ImageOp::Resize && !resize_fits_exec(body, width, height) {
        return None;
    }
    Some(image_transform_params(body, format, width, height, op))
}

/// `image_transform` where the resize fits in memory; `None` where the
/// resampling buffers would not fit in a `Vec` (and the image crate would
/// panic).
pub fn try_image_transform(body: &[u8], query: &str, op: ImageOp) -> (r: Option<
    Result<(Vec<u8>, &'static str), ToolError>,
>)
    ensures
        r is None <==> (op == ImageOp::Resize && !resize_fits(
            body@,
            u32_param(query@, "width"@),
            u32_param(query@, "height"@),
        )),
        r matches Some(res) ==> transform_query_result(body@, query@, op, res),
{
    if op == ImageOp::Resize {
        let width = query_param_u32(query, "width");
        let height = query_param_u32(query, "height");
        if !resize_fits_exec(body, width, height) {
            return None;
        }
    }
    Some(image_transform(body, query, op))
}

} // verus!
