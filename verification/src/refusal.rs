//! What an unsuccessful response says: its status, and the message in its body.

use vstd::prelude::*;

use crate::error::{Failure, StreamError};
use crate::text::decimal;

verus! {

/// A parsed JSON value of the `serde_json` crate.
#[verifier::external_type_specification]
#[verifier::external_body]
pub struct ExValue(serde_json::Value);

/// The strings inside a JSON value, each under the path to it: the keys that
/// lead to it from object to object. A value that is itself a string has it
/// under the empty path.
pub uninterp spec fn strings_in(value: serde_json::Value) -> Map<Seq<Seq<char>>, Seq<char>>;

/// What `serde_json::from_slice` makes of bytes: the strings inside the value
/// that it parses, or the text of its error.
pub uninterp spec fn parsed_strings(json: Seq<u8>) -> Result<
    Map<Seq<Seq<char>>, Seq<char>>,
    Seq<char>,
>;

/// How `reqwest::StatusCode` prints a status code.
pub uninterp spec fn status_line(code: u16) -> Seq<char>;

/// Those of `strings` that lie behind `key`, under the rest of their paths.
pub open spec fn behind(strings: Map<Seq<Seq<char>>, Seq<char>>, key: Seq<char>) -> Map<
    Seq<Seq<char>>,
    Seq<char>,
> {
    Map::new(
        |path: Seq<Seq<char>>| strings.contains_key(seq![key] + path),
        |path: Seq<Seq<char>>| strings[seq![key] + path],
    )
}

/// `serde_json::from_slice`, into a `serde_json::Value`. The claim is that its
/// outcome depends on the bytes alone.
#[verifier::external_body]
fn parse(json: &[u8]) -> (r: Result<serde_json::Value, String>)
    ensures
        parsed_strings(json@) == match r {
            Ok(value) => Ok::<_, Seq<char>>(strings_in(value)),
            Err(e) => Err(e@),
        },
{
    serde_json::from_slice(json).map_err(|e| e.to_string())
}

/// `value[key]` of `serde_json::Value`, with a string for its key. The claim is
/// that of an object it gives the member of that name, and of any other value,
/// or where there is no such member, one without strings.
#[verifier::external_body]
fn member<'a>(value: &'a serde_json::Value, key: &str) -> (m: &'a serde_json::Value)
    ensures
        strings_in(*m) == behind(strings_in(*value), key@),
{
    &value[key]
}

/// `serde_json::Value::as_str`. The claim is that it gives the string that the
/// value is, and nothing for a value that is no string.
#[verifier::external_body]
fn as_text(value: &serde_json::Value) -> (t: Option<&str>)
    ensures
        match t {
            Some(s) => strings_in(*value).contains_key(seq![]) && strings_in(*value)[seq![]] == s@,
            None => !strings_in(*value).contains_key(seq![]),
        },
{
    value.as_str()
}

/// The text of a `reqwest::StatusCode`. The claim is that it depends on the
/// code alone, and that it starts with the code in base ten and a space.
#[verifier::external_body]
fn status_text(code: u16) -> (s: String)
    requires
        100 <= code <= 999,
    ensures
        s@ == status_line(code),
        (decimal(code as nat) + seq![' ']).is_prefix_of(s@),
{
    reqwest::StatusCode::from_u16(code).unwrap().to_string()
}

/// Whether a status code tells of success.
pub open spec fn successful(code: u16) -> bool {
    200 <= code < 300
}

/// What the string under `error` and in it under `message` is, if there is one.
pub open spec fn message_of(
    parsed: Result<Map<Seq<Seq<char>>, Seq<char>>, Seq<char>>,
) -> Result<Option<Seq<char>>, Seq<char>> {
    match parsed {
        Ok(strings) => if strings.contains_key(seq!["error"@, "message"@]) {
            Ok(Some(strings[seq!["error"@, "message"@]]))
        } else {
            Ok(None)
        },
        Err(detail) => Err(detail),
    }
}

/// The failure that a refused request ends in, from its status as text and from
/// what its body says.
pub open spec fn refusal(
    status: Seq<char>,
    message: Result<Option<Seq<char>>, Seq<char>>,
) -> Failure {
    match message {
        Ok(Some(m)) => Failure::Refused("API "@ + status + ": "@ + m),
        Ok(None) => Failure::Refused("API "@ + status + ": "@ + "unknown API error"@),
        Err(detail) => Failure::BadErrorBody(Some(detail)),
    }
}

/// The characters of what the body of an unsuccessful response says.
pub open spec fn message_view(message: Result<Option<String>, String>) -> Result<
    Option<Seq<char>>,
    Seq<char>,
> {
    match message {
        Ok(Some(m)) => Ok(Some(m@)),
        Ok(None) => Ok(None),
        Err(detail) => Err(detail@),
    }
}

/// Whether a status code tells of success.
pub fn is_success(code: u16) -> (b: bool)
    ensures
        b == successful(code),
{
    200 <= code && code < 300
}

/// The message in the body of an unsuccessful response, or the parser's
/// complaint about that body.
pub fn error_message(body: &[u8]) -> (message: Result<Option<String>, String>)
    ensures
        message_view(message) == message_of(parsed_strings(body@)),
{
    match parse(body) {
        Ok(value) => {
            let error = member(&value, "error");
            let message = member(error, "message");
            proof {
                let path = seq!["error"@] + (seq!["message"@] + Seq::<Seq<char>>::empty());
                assert(path == seq!["error"@, "message"@]);
                assert(strings_in(*error).contains_key(
                    seq!["message"@] + Seq::<Seq<char>>::empty(),
                ) == strings_in(value).contains_key(path));
            }
            match as_text(message) {
                Some(t) => Ok(Some(t.to_string())),
                None => Ok(None),
            }
        },
        Err(detail) => Err(detail),
    }
}

/// The error that a refused request ends in, from its status as text and from
/// what its body says.
pub fn api_error(status: &str, message: Result<Option<String>, String>) -> (e: StreamError)
    ensures
        e@ == refusal(status@, message_view(message)),
{
    let mut text = "API ".to_string();
    text.append(status);
    text.append(": ");
    match message {
        Ok(Some(m)) => {
            text.append(m.as_str());
            StreamError::Refused(text)
        },
        Ok(None) => {
            text.append("unknown API error");
            StreamError::Refused(text)
        },
        Err(detail) => StreamError::BadErrorBody(Some(detail)),
    }
}

/// The error that a request ends in which the API answered with `status` and
/// `body`. Unless the body is no JSON, the error names the status code.
pub fn refused(status: u16, body: &[u8]) -> (e: StreamError)
    requires
        100 <= status <= 999,
    ensures
        e@ == refusal(status_line(status), message_of(parsed_strings(body@))),
        parsed_strings(body@) is Ok ==> ("API "@ + decimal(status as nat) + seq![' ']).is_prefix_of(
            e@.message(),
        ),
{
    let line = status_text(status);
    let message = error_message(body);
    let e = api_error(line.as_str(), message);
    proof {
        let start = decimal(status as nat) + seq![' '];
        let text = e@.message();
        if parsed_strings(body@) is Ok {
            assert(line@.subrange(0, start.len() as int) == start);
            assert(("API "@ + start) =~= "API "@ + decimal(status as nat) + seq![' ']);
            assert(text.subrange(0, ("API "@ + start).len() as int) =~= "API "@ + start);
        }
    }
    e
}

/// Success is told by the status codes of three digits that start with a two.
pub proof fn law_success_starts_with_two(code: u16)
    ensures
        successful(code) <==> code / 100 == 2,
{
}

/// What the API says of a refusal is repeated whole, behind the status: the text
/// starts with the status, ends with the message, and holds nothing else but the
/// words between them. Without a message the words for that stand in its place,
/// and the parser's complaint is handed on as it is.
pub proof fn law_refusal_repeats_the_message(
    status: Seq<char>,
    m: Seq<char>,
    detail: Seq<char>,
)
    ensures
        ({
            let text = refusal(status, Ok(Some(m))).message();
            &&& ("API "@ + status + ": "@).is_prefix_of(text)
            &&& m.is_suffix_of(text)
            &&& text.len() == 4 + status.len() + 2 + m.len()
        }),
        refusal(status, Ok(None)) == refusal(status, Ok(Some("unknown API error"@))),
        refusal(status, Err(detail)) == Failure::BadErrorBody(Some(detail)),
{
    reveal_strlit("API ");
    reveal_strlit(": ");
    let text = refusal(status, Ok(Some(m))).message();
    let start = "API "@ + status + ": "@;
    assert(text.subrange(0, start.len() as int) =~= start);
    assert(text.subrange(text.len() - m.len(), text.len() as int) =~= m);
}

/// The message of an error body is the string under `error` and there under
/// `message`, whatever else the body holds, and there is none without it.
pub proof fn law_message_is_found_under_its_keys(
    strings: Map<Seq<Seq<char>>, Seq<char>>,
    m: Seq<char>,
    detail: Seq<char>,
)
    ensures
        message_of(Ok(strings.insert(seq!["error"@, "message"@], m))) == Ok::<_, Seq<char>>(
            Some(m),
        ),
        message_of(Ok(strings.remove(seq!["error"@, "message"@]))) == Ok::<
            Option<Seq<char>>,
            Seq<char>,
        >(None),
        message_of(Err(detail)) == Err::<Option<Seq<char>>, _>(detail),
{
}

} // verus!
