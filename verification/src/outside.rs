//! The calls into other crates that the library makes: LZ4 frames and JSON.
//!
//! What these functions return takes a format's whole definition to say, so it is named here and not
//! spelled out. What is named is a function of its arguments alone.
use crate::text::views;
use lz4_flex::frame::{FrameDecoder, FrameEncoder};
use serde_json::Value;
use std::io::{Read, Write};
use vstd::prelude::*;

verus! {

/// The bytes that the decoder takes out of an LZ4 frame, or what it says of bytes that are not one.
/// Where there are no bytes at all, it takes none out.
pub uninterp spec fn lz4_content(frame: Seq<u8>) -> Result<Seq<u8>, Seq<char>>;

/// The members of a JSON object that go by two names, each if it is a string, or what the parser says
/// of text that is not JSON. A value other than an object has no members.
pub uninterp spec fn json_members(
    text: Seq<char>,
    first: Seq<char>,
    second: Seq<char>,
) -> Result<(Option<Seq<char>>, Option<Seq<char>>), Seq<char>>;

/// The strings of a JSON array of strings, or what the parser says of other text.
pub uninterp spec fn json_strings(text: Seq<char>) -> Result<Seq<Seq<char>>, Seq<char>>;

/// The view of bytes, or of a complaint.
pub open spec fn bytes_view(r: Result<Vec<u8>, String>) -> Result<Seq<u8>, Seq<char>> {
    match r {
        Ok(bytes) => Ok(bytes@),
        Err(why) => Err(why@),
    }
}

/// The view of an optional string.
pub open spec fn string_view(text: Option<String>) -> Option<Seq<char>> {
    match text {
        Some(text) => Some(text@),
        None => None,
    }
}

/// The view of two optional strings, or of a complaint.
pub open spec fn members_view(r: Result<(Option<String>, Option<String>), String>) -> Result<
    (Option<Seq<char>>, Option<Seq<char>>),
    Seq<char>,
> {
    match r {
        Ok((first, second)) => Ok((string_view(first), string_view(second))),
        Err(why) => Err(why@),
    }
}

/// The view of some strings, or of a complaint.
pub open spec fn strings_view(r: Result<Vec<String>, String>) -> Result<Seq<Seq<char>>, Seq<char>> {
    match r {
        Ok(list) => Ok(views(list@)),
        Err(why) => Err(why@),
    }
}

/// Reads an LZ4 frame with `lz4_flex::frame::FrameDecoder`, to where the decoder has nothing more to
/// give: the end mark of the frame, or the end of the bytes. The result is the one named
/// `lz4_content`.
#[verifier::external_body]
pub(crate) fn lz4_decode(frame: &[u8]) -> (r: Result<Vec<u8>, String>)
    ensures
        bytes_view(r) == lz4_content(frame@),
{
    let mut content = Vec::new();
    match FrameDecoder::new(frame).read_to_end(&mut content) {
        Ok(_) => Ok(content),
        Err(error) => Err(error.to_string()),
    }
}

/// Writes an LZ4 frame with `lz4_flex::frame::FrameEncoder` in its default settings, and closes it.
/// It succeeds, since nothing that it writes to refuses anything, and the frame reads back as what was
/// written into it. Which of the frames that do comes out is left open: the encoder looks for matches
/// in another way on another machine.
#[verifier::external_body]
pub(crate) fn lz4_encode(content: &[u8]) -> (r: Result<Vec<u8>, String>)
    ensures
        r is Ok,
        r is Ok ==> lz4_content(r->Ok_0@) is Ok && lz4_content(r->Ok_0@)->Ok_0 == content@,
{
    let mut encoder = FrameEncoder::new(Vec::new());
    match encoder.write_all(content) {
        Ok(()) => encoder.finish().map_err(|error| error.to_string()),
        Err(error) => Err(error.to_string()),
    }
}

/// Parses text with `serde_json::from_str` into a `Value` and looks two members of it up by name,
/// taking those that are strings. The result is the one named `json_members`.
#[verifier::external_body]
pub(crate) fn json_two_members(text: &str, first: &str, second: &str) -> (r: Result<
    (Option<String>, Option<String>),
    String,
>)
    ensures
        members_view(r) == json_members(text@, first@, second@),
{
    match serde_json::from_str::<Value>(text) {
        Ok(value) => Ok(
            (value[first].as_str().map(str::to_string), value[second].as_str().map(str::to_string)),
        ),
        Err(error) => Err(error.to_string()),
    }
}

/// Parses text with `serde_json::from_str` into a list of strings. The result is the one named
/// `json_strings`.
#[verifier::external_body]
pub(crate) fn json_string_list(text: &str) -> (r: Result<Vec<String>, String>)
    ensures
        strings_view(r) == json_strings(text@),
{
    match serde_json::from_str::<Vec<String>>(text) {
        Ok(list) => Ok(list),
        Err(error) => Err(error.to_string()),
    }
}

} // verus!
