//! From the bytes of a source file to the text that the renderer decodes.
//!
//! A source that the renderer cannot read as it stands may be the same text
//! compressed with gzip. This module inflates it and names what can go wrong.

use std::io::Read;
use vstd::prelude::*;

verus! {

/// Why a source could not be turned into an animation.
#[derive(Debug, Clone, Copy, PartialEq, Eq, Structural)]
pub enum DecodeError {
    /// The source could not be read.
    NotFound,
    /// The source is neither an animation nor a compressed animation.
    Unsupported,
}

impl DecodeError {
    /// The error in words.
    pub fn message(&self) -> (text: &'static str)
        ensures
            text@ == match *self {
                DecodeError::NotFound => "file not found"@,
                DecodeError::Unsupported => "unsupported file type"@,
            },
    {
        match self {
            DecodeError::NotFound => "file not found",
            DecodeError::Unsupported => "unsupported file type",
        }
    }
}

/// The text that the first gzip member of `data` inflates to, if `data`
/// starts with a sound gzip member whose content is UTF-8.
pub uninterp spec fn gunzip_text(data: Seq<u8>) -> Option<Seq<char>>;

/// Inflates `data` as gzip and reads the result as UTF-8 text.
///
/// Calls `GzDecoder::new` of flate2's `bufread` module on the bytes, then
/// `read_to_string` on the decoder. The decoder reads one gzip member; any
/// error of it, and content that is not UTF-8, gives `None`. What is claimed:
/// the outcome is a function of the bytes alone.
#[verifier::external_body]
fn gunzip_to_string(data: &[u8]) -> (text: Option<String>)
    ensures
        match text {
            Some(inflated) => gunzip_text(data@) == Some(inflated@),
            None => gunzip_text(data@).is_none(),
        },
{
    let mut text = String::new();
    let mut decoder = flate2::bufread::GzDecoder::new(data);
    match decoder.read_to_string(&mut text) {
        Ok(_) => Some(text),
        Err(_) => None,
    }
}

/// What inflating made of a source: the text, or the error for a source
/// that is no compressed text.
pub fn source_from_inflated(inflated: Option<String>) -> (source: Result<String, DecodeError>)
    ensures
        source == match inflated {
            Some(text) => Ok::<String, DecodeError>(text),
            None => Err::<String, DecodeError>(DecodeError::Unsupported),
        },
{
    match inflated {
        Some(text) => Ok(text),
        None => Err(DecodeError::Unsupported),
    }
}

/// The text of a compressed source. `contents` is what reading the source
/// gave: its bytes, or nothing if it could not be read.
pub fn read_source(contents: Option<Vec<u8>>) -> (source: Result<String, DecodeError>)
    ensures
        match contents {
            None => source == Err::<String, DecodeError>(DecodeError::NotFound),
            Some(data) => match gunzip_text(data@) {
                Some(text) => source.is_ok() && source.unwrap()@ == text,
                None => source == Err::<String, DecodeError>(DecodeError::Unsupported),
            },
        },
{
    match contents {
        None => Err(DecodeError::NotFound),
        Some(data) => source_from_inflated(gunzip_to_string(data.as_slice())),
    }
}

} // verus!
