//! Human-readable names of container field values.
use vstd::prelude::*;

verus! {

/// The name of a TIFF compression code.
pub open spec fn compression_name(compression: u32) -> Seq<char> {
    if compression == 1 {
        "None"@
    } else if compression == 2 {
        "CCITT Group 3"@
    } else if compression == 3 {
        "CCITT T4"@
    } else if compression == 4 {
        "CCITT T6"@
    } else if compression == 5 {
        "LZW"@
    } else if compression == 6 {
        "JPEG (old)"@
    } else if compression == 7 {
        "JPEG"@
    } else if compression == 8 {
        "Adobe Deflate"@
    } else if compression == 9 {
        "JBIG B&W"@
    } else if compression == 10 {
        "JBIG Color"@
    } else if compression == 32773 {
        "PackBits"@
    } else {
        "Unknown"@
    }
}

/// The name of a TIFF sample format code.
pub open spec fn sample_format_name(format: u32) -> Seq<char> {
    if format == 1 {
        "Unsigned integer"@
    } else if format == 2 {
        "Signed integer"@
    } else if format == 3 {
        "IEEE floating point"@
    } else if format == 4 {
        "Undefined"@
    } else {
        "Unknown"@
    }
}

/// Names a TIFF compression code.
pub fn compression_to_string(compression: u32) -> (r: &'static str)
    ensures
        r@ == compression_name(compression),
{
    match compression {
        1 => "None",
        2 => "CCITT Group 3",
        3 => "CCITT T4",
        4 => "CCITT T6",
        5 => "LZW",
        6 => "JPEG (old)",
        7 => "JPEG",
        8 => "Adobe Deflate",
        9 => "JBIG B&W",
        10 => "JBIG Color",
        32773 => "PackBits",
        _ => "Unknown",
    }
}

/// Names a TIFF sample format code.
pub fn sample_format_to_string(format: u32) -> (r: &'static str)
    ensures
        r@ == sample_format_name(format),
{
    match format {
        1 => "Unsigned integer",
        2 => "Signed integer",
        3 => "IEEE floating point",
        4 => "Undefined",
        _ => "Unknown",
    }
}

} // verus!
