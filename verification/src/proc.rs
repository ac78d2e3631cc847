//! Captured process output and its decoding to text.

use vstd::prelude::*;

verus! {

/// What a finished process left behind, still as raw bytes: its standard
/// output on success, its standard error otherwise.
pub enum RawOutputMessage {
    Success(Vec<u8>),
    Error(Vec<u8>),
}

/// The same output decoded to text.
#[derive(Debug)]
pub enum OutputMessage {
    Success(String),
    Error(String),
}

/// The text that UTF-8 decoding with replacement yields on the given
/// bytes.
pub uninterp spec fn utf8_string_of(bytes: Seq<u8>) -> Seq<char>;

/// Relies on `String::from_utf8`, falling back to `String::from_utf8_lossy`
/// on invalid input: the decoded text depends on the bytes alone; empty
/// input stays empty, and ASCII bytes decode to themselves.
#[verifier::external_body]
fn vec_to_string(bytes: Vec<u8>) -> (r: String)
    ensures
        r@ == utf8_string_of(bytes@),
        bytes@.len() == 0 ==> r@.len() == 0,
        (forall|k: int| 0 <= k < bytes@.len() ==> bytes@[k] < 128) ==> r@ == bytes@.map_values(
            |b: u8| b as char,
        ),
{
    match String::from_utf8(bytes) {
        Ok(s) => s,
        Err(v) => String::from_utf8_lossy(v.as_bytes()).to_string(),
    }
}

impl RawOutputMessage {
    /// Decode the captured bytes to text.  Both raw variants decode into
    /// `OutputMessage::Success`; callers that care which stream the bytes
    /// came from must branch before converting.
    pub fn into(self) -> (r: OutputMessage)
        ensures
            (match self {
                RawOutputMessage::Success(msg) => r matches OutputMessage::Success(s) && s@
                    == utf8_string_of(msg@),
                RawOutputMessage::Error(msg) => r matches OutputMessage::Success(s) && s@
                    == utf8_string_of(msg@),
            }),
    {
        match self {
            RawOutputMessage::Success(msg) => OutputMessage::Success(vec_to_string(msg)),
            RawOutputMessage::Error(msg) => OutputMessage::Success(vec_to_string(msg)),
        }
    }
}

impl OutputMessage {
    /// The decoded text, whichever variant holds it.
    pub fn text(&self) -> (r: &str)
        ensures
            (match self {
                OutputMessage::Success(s) => r@ == s@,
                OutputMessage::Error(s) => r@ == s@,
            }),
    {
        match self {
            OutputMessage::Success(s) => s.as_str(),
            OutputMessage::Error(s) => s.as_str(),
        }
    }
}

} // verus!
