//! The file tools service's decisions: error answers, and the image output
//! format asked for.

use vstd::prelude::*;
use crate::query::{query_param, query_param_spec};
use crate::text::chars_of;

verus! {

/// An error answer of the file tools service.
#[derive(Debug)]
pub struct ToolError {
    pub status: u16,
    pub code: &'static str,
    pub message: String,
}

impl ToolError {
    /// An error with the given status, code and message.
    pub fn new(status: u16, code: &'static str, message: &str) -> (r: ToolError)
        ensures
            r.status == status,
            r.code == code,
            r.message@ == message@,
    {
        ToolError { status, code, message: message.to_owned() }
    }
}

/// An image file format the service writes.
#[derive(Clone, Copy, Debug, PartialEq, Eq, Structural)]
pub enum OutputFormat {
    Png,
    Jpeg,
}

/// The output format a `format` value asks for: `jpg` or `jpeg` for JPEG,
/// `png` or no value for PNG, nothing for any other value.
pub open spec fn format_spec(value: Option<Seq<char>>) -> Option<OutputFormat> {
    match value {
        None => Some(OutputFormat::Png),
        Some(v) => if v == "jpg"@ || v == "jpeg"@ {
            Some(OutputFormat::Jpeg)
        } else if v == "png"@ {
            Some(OutputFormat::Png)
        } else {
            None
        },
    }
}

/// The output format the query's `format` parameter asks for.
pub fn image_format_from_query(query: &str) -> (r: Option<OutputFormat>)
    ensures
        r == format_spec(query_param_spec(query@, "format"@)),
{
    match query_param(query, "format") {
        None => Some(OutputFormat::Png),
        Some(v) => image_format_from_param(Some(v.as_str())),
    }
}

/// The output format a `format` value asks for.
pub fn image_format_from_param(format: Option<&str>) -> (r: Option<OutputFormat>)
    ensures
        r == format_spec(
            match format {
                Some(f) => Some(f@),
                None => None,
            },
        ),
{
    match format {
        None => Some(OutputFormat::Png),
        Some(v) => {
            let c = chars_of(v);
            let jpg = chars_of("jpg");
            let jpeg = chars_of("jpeg");
            let png = chars_of("png");
            if crate::order::chars_equal(c.as_slice(), jpg.as_slice()) || crate::order::chars_equal(
                c.as_slice(),
                jpeg.as_slice(),
            ) {
                Some(OutputFormat::Jpeg)
            } else if crate::order::chars_equal(c.as_slice(), png.as_slice()) {
                Some(OutputFormat::Png)
            } else {
                None
            }
        },
    }
}

/// The content type of an output format.
pub fn format_content_type(format: OutputFormat) -> (r: &'static str)
    ensures
        format == OutputFormat::Jpeg ==> r@ == "image/jpeg"@,
        format == OutputFormat::Png ==> r@ == "image/png"@,
{
    match format {
        OutputFormat::Jpeg => "image/jpeg",
        OutputFormat::Png => "image/png",
    }
}

} // verus!
