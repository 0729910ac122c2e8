use crate::http::message::{Reply, Response, STATUS_OK};
use crate::pipeline::link::Failure;
use vstd::prelude::*;
use vstd::string::{to_string_from_display_ensures, StrSliceExecFns};
use vstd::utf8::encode_utf8;

verus! {

/// `serde_json::Error`, carried from the reader or the writer to where its
/// text is taken; nothing else of it is read here.
#[verifier::external_type_specification]
#[verifier::external_body]
pub struct ExJsonError(serde_json::Error);

/// `serde_json::from_slice`: reads a `T` from JSON text. Whether it succeeds
/// and what it gives depend on `T`'s own reading code, so nothing is claimed
/// of the result.
#[verifier::external_body]
fn from_slice<T: serde::de::DeserializeOwned>(bytes: &[u8]) -> Result<T, serde_json::Error> {
    serde_json::from_slice::<T>(bytes)
}

/// `serde_json::to_string`: writes `value` as JSON text. Whether it succeeds
/// and what it gives depend on `T`'s own writing code, so nothing is claimed
/// of the result.
#[verifier::external_body]
fn to_string<T: serde::Serialize>(value: &T) -> Result<String, serde_json::Error> {
    serde_json::to_string(value)
}

/// `text` is what `err` displays: the reader's or the writer's own text for
/// its error, with nothing round it.
pub open spec fn displays(err: serde_json::Error, text: String) -> bool {
    to_string_from_display_ensures::<serde_json::Error>(&err, text)
}

/// `e` is what a JSON failure is to a pipeline: a decode error whose text is
/// what an error of the reader or the writer displays.
pub open spec fn json_failure(e: Failure) -> bool {
    e matches Failure::Decode(text) && exists|err: serde_json::Error| #[trigger] displays(err, text)
}

/// What a pipeline makes of a payload that was read as JSON: the value, or a
/// decode error with the reader's own text.
pub fn parsed<T>(outcome: Result<T, serde_json::Error>) -> (r: Result<T, Failure>)
    ensures
        match outcome {
            Ok(value) => r == Ok::<T, Failure>(value),
            Err(err) => r matches Err(Failure::Decode(text)) && displays(err, text),
        },
{
    match outcome {
        Ok(value) => Ok(value),
        Err(err) => Err(Failure::Decode(err.to_string())),
    }
}

/// What a pipeline makes of a value that was written as JSON: the reply with
/// the text as its body, or a decode error with the writer's own text.
pub fn written(outcome: Result<String, serde_json::Error>) -> (r: Result<Response, Failure>)
    ensures
        match outcome {
            Ok(text) => r matches Ok(response) && response@ == (Reply {
                status: STATUS_OK,
                body: encode_utf8(text@),
            }),
            Err(err) => r matches Err(Failure::Decode(text)) && displays(err, text),
        },
{
    match outcome {
        Ok(text) => Ok(Response::text(STATUS_OK, text.as_str())),
        Err(err) => Err(Failure::Decode(err.to_string())),
    }
}

/// Whether `r` can be what `decode` gives: any value, or a decode error
/// with the reader's own text.
pub open spec fn decodes<T>(r: Result<T, Failure>) -> bool {
    r matches Err(e) ==> json_failure(e)
}

/// Whether `r` can be what `encode` gives: a reply of status OK whose body
/// is text, or a decode error with the writer's own text.
pub open spec fn encodes(r: Result<Response, Failure>) -> bool {
    match r {
        Ok(response) => response.status == STATUS_OK && exists|text: Seq<char>|
            response.body@ == #[trigger] encode_utf8(text),
        Err(e) => json_failure(e),
    }
}

/// Reads a `T` from the JSON text `bytes`.
pub fn decode<T: serde::de::DeserializeOwned>(bytes: &Vec<u8>) -> (r: Result<T, Failure>)
    ensures
        decodes(r),
{
    parsed(from_slice::<T>(bytes.as_slice()))
}

/// Writes `value` as JSON text, into the body of a reply.
pub fn encode<T: serde::Serialize>(value: &T) -> (r: Result<Response, Failure>)
    ensures
        encodes(r),
{
    written(to_string(value))
}

} // verus!
