//! Error types for the tracing library.

use vstd::prelude::*;
use vstd::string::*;

verus! {

/// The main error type for all tracing operations.
#[derive(Debug)]
pub enum VectizeError {
    /// An I/O error occurred while reading or writing a file.
    Io(String),
    /// The image could not be decoded.
    ImageDecode(String),
    /// The provided configuration is invalid.
    InvalidConfig(String),
    /// An error occurred during the vectorization pipeline.
    Pipeline(String),
    /// The input format is not supported.
    UnsupportedFormat(String),
    /// The output file exists and may not be replaced.
    OutputExists(String),
}

/// The text an error is displayed with.
pub open spec fn error_message(e: VectizeError) -> Seq<char> {
    match e {
        VectizeError::Io(m) => "I/O error: "@ + m@,
        VectizeError::ImageDecode(m) => "Image decoding error: "@ + m@,
        VectizeError::InvalidConfig(m) => "Invalid configuration: "@ + m@,
        VectizeError::Pipeline(m) => "Pipeline error: "@ + m@,
        VectizeError::UnsupportedFormat(m) => "Unsupported format: "@ + m@,
        VectizeError::OutputExists(m) => "Output file already exists: "@ + m@,
    }
}

fn prefixed(prefix: &str, m: &String) -> (r: String)
    ensures
        r@ == prefix@ + m@,
{
    let mut s = String::from_str(prefix);
    s.append(m.as_str());
    s
}

impl VectizeError {
    /// The text the error is displayed with.
    pub fn message(&self) -> (r: String)
        ensures
            r@ == error_message(*self),
    {
        match self {
            VectizeError::Io(m) => prefixed("I/O error: ", m),
            VectizeError::ImageDecode(m) => prefixed("Image decoding error: ", m),
            VectizeError::InvalidConfig(m) => prefixed("Invalid configuration: ", m),
            VectizeError::Pipeline(m) => prefixed("Pipeline error: ", m),
            VectizeError::UnsupportedFormat(m) => prefixed("Unsupported format: ", m),
            VectizeError::OutputExists(m) => prefixed("Output file already exists: ", m),
        }
    }
}

} // verus!
