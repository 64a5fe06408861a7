//! The handshake: marking a response as an event stream.

use http_types::Error as HttpError;
use http_types::Headers;
use vstd::prelude::*;
use vstd::utf8::is_ascii_chars;

verus! {

/// The header collection of `http_types`.
#[verifier::external_type_specification]
#[verifier::external_body]
pub struct ExHeaders(Headers);

/// The error of `http_types`.
#[verifier::external_type_specification]
#[verifier::external_body]
pub struct ExHttpError(HttpError);

/// What a header collection holds: for each header name, which is kept in
/// lower case, the values of the header.
pub uninterp spec fn header_map(headers: Headers) -> Map<Seq<char>, Seq<Seq<char>>>;

/// `c` in lower case, where it is an ASCII capital.
pub open spec fn ascii_lower(c: char) -> char {
    if 'A' <= c <= 'Z' {
        ((c as u8 + 32) as u8) as char
    } else {
        c
    }
}

/// `s` with its ASCII capitals in lower case.
pub open spec fn lower(s: Seq<char>) -> Seq<char> {
    s.map_values(|c: char| ascii_lower(c))
}

/// The headers after one of them got a single value in place of the values
/// it had.
pub open spec fn with_header(
    headers: Map<Seq<char>, Seq<Seq<char>>>,
    name: Seq<char>,
    value: Seq<char>,
) -> Map<Seq<char>, Seq<Seq<char>>> {
    headers.insert(lower(name), seq![value])
}

/// `Headers::insert`, with the name and one value as text: the header of
/// that name, in lower case, gets that value in place of the values it had.
/// A name or a value that is not ASCII is refused with an error, and
/// nothing changes.
#[verifier::external_body]
fn insert(headers: &mut Headers, name: &str, value: &str) -> (refused: Option<HttpError>)
    ensures
        refused is None <==> (is_ascii_chars(name@) && is_ascii_chars(value@)),
        refused is None ==> header_map(*final(headers)) == with_header(
            header_map(*old(headers)),
            name@,
            value@,
        ),
        refused is Some ==> header_map(*final(headers)) == header_map(*old(headers)),
{
    match headers.insert(name, value) {
        Ok(_) => None,
        Err(e) => Some(e),
    }
}

/// The headers after the handshake.
pub open spec fn upgraded(headers: Map<Seq<char>, Seq<Seq<char>>>) -> Map<
    Seq<char>,
    Seq<Seq<char>>,
> {
    with_header(
        with_header(headers, "Cache-Control"@, "no-cache"@),
        "Content-Type"@,
        "text/event-stream"@,
    )
}

/// Upgrade an HTTP connection into an SSE session: the response is not to
/// be cached, and its content is an event stream.
pub fn upgrade(headers: &mut Headers) -> (done: Result<(), HttpError>)
    ensures
        done is Ok,
        header_map(*final(headers)) == upgraded(header_map(*old(headers))),
{
    proof {
        reveal_strlit("Cache-Control");
        reveal_strlit("no-cache");
        reveal_strlit("Content-Type");
        reveal_strlit("text/event-stream");
    }
    match insert(headers, "Cache-Control", "no-cache") {
        Some(e) => Err(e),
        None => match insert(headers, "Content-Type", "text/event-stream") {
            Some(e) => Err(e),
            None => Ok(()),
        },
    }
}

} // verus!
