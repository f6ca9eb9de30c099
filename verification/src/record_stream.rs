//! The messages for a result that could not be written as a stream of record
//! batches.
use crate::text::{append_str, chars_of, string_of};
use vstd::prelude::*;

verus! {

/// The message for a failure to write the header or a batch, with the text of its
/// cause.
pub open spec fn write_error_text(cause: Seq<char>) -> Seq<char> {
    "write error: "@ + cause
}

/// The message for a failure to end the stream, with the text of its cause.
pub open spec fn finish_error_text(cause: Seq<char>) -> Seq<char> {
    "finish error: "@ + cause
}

/// Builds the message for a failure to write the header or a batch.
pub fn write_error(cause: &str) -> (message: String)
    ensures
        message@ == write_error_text(cause@),
{
    let mut out: Vec<char> = chars_of("write error: ");
    append_str(&mut out, cause);
    string_of(&out)
}

/// Builds the message for a failure to end the stream.
pub fn finish_error(cause: &str) -> (message: String)
    ensures
        message@ == finish_error_text(cause@),
{
    let mut out: Vec<char> = chars_of("finish error: ");
    append_str(&mut out, cause);
    string_of(&out)
}

} // verus!
