use vstd::prelude::*;
use crate::json::JsonValue;

verus! {

/// `serde_json::Error`, carried through as it is: the description of why the
/// input is not valid JSON.
#[verifier::external_type_specification]
#[verifier::external_body]
pub struct ExJsonError(serde_json::Error);

/// `serde_json::Value`, the decoder's own value, which only the decoding
/// wrappers handle.
#[verifier::external_type_specification]
#[verifier::external_body]
pub struct ExSerdeValue(serde_json::Value);

/// What the front of a stream of JSON documents holds.
pub enum Pulled {
    /// Nothing but whitespace is left.
    End,
    /// The next document is malformed or cut short.
    Failed,
    /// A document, and the number of bytes up to its end.
    Item(JsonValue, usize),
}

/// The value that the whole of `input` decodes to as one JSON document, if
/// it is one.
pub uninterp spec fn document_of(input: Seq<u8>) -> Option<JsonValue>;

/// The first of the JSON documents that `input` holds one after another.
pub uninterp spec fn first_document_of(input: Seq<u8>) -> Pulled;

/// Relies on `serde_json::from_slice`: it decodes the whole input as one
/// JSON value, and fails on malformed JSON, on an empty input and on
/// anything but whitespace after the value.
#[verifier::external_body]
pub(crate) fn decode_single(input: &[u8]) -> (r: Result<JsonValue, serde_json::Error>)
    ensures
        match document_of(input@) {
            Some(v) => r == Ok::<JsonValue, serde_json::Error>(v),
            None => r is Err,
        },
{
    serde_json::from_slice::<serde_json::Value>(input).map(from_serde)
}

/// Relies on `serde_json::StreamDeserializer::next` and `byte_offset`, on
/// the input from `start` on: `next` skips whitespace, yields nothing at the
/// end, and otherwise decodes one value or fails; after a value, the offset
/// is the number of bytes up to its end, so at least one. The decoder starts
/// afresh at `start`, so the line and column in an error count from there.
#[verifier::external_body]
pub(crate) fn decode_next(input: &[u8], start: usize) -> (r: Option<
    Result<(JsonValue, usize), serde_json::Error>,
>)
    requires
        start <= input@.len(),
    ensures
        match first_document_of(input@.subrange(start as int, input@.len() as int)) {
            Pulled::End => r is None,
            Pulled::Failed => r matches Some(Err(_)),
            Pulled::Item(v, n) => r == Some(Ok::<(JsonValue, usize), serde_json::Error>((v, n))),
        },
        r matches Some(Ok((_, n))) ==> 0 < n <= input@.len() - start,
{
    let mut stream = serde_json::Deserializer::from_slice(&input[start..]).into_iter::<serde_json::Value>();
    match stream.next() {
        None => None,
        Some(Ok(v)) => Some(Ok((from_serde(v), stream.byte_offset()))),
        Some(Err(e)) => Some(Err(e)),
    }
}

/// Moves a `serde_json::Value` into the library's own value, variant for
/// variant; a number keeps the text that `serde_json::Number`'s `Display`
/// gives it, and an object its members in the map's order.
#[verifier::external_body]
fn from_serde(v: serde_json::Value) -> JsonValue {
    match v {
        serde_json::Value::Null => JsonValue::Null,
        serde_json::Value::Bool(b) => JsonValue::Bool(b),
        serde_json::Value::Number(n) => JsonValue::Number(n.to_string()),
        serde_json::Value::String(s) => JsonValue::Str(s),
        serde_json::Value::Array(a) => JsonValue::Array(a.into_iter().map(from_serde).collect()),
        serde_json::Value::Object(m) => JsonValue::Object(
            m.into_iter().map(|(k, x)| (k, from_serde(x))).collect(),
        ),
    }
}

} // verus!
