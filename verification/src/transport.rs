//! What the exporter has from the `http` crate: the address of the agent's
//! intake and the request that carries a payload to it. The contracts of
//! the two calls are taken on trust.

use vstd::prelude::*;

verus! {

/// `http::Uri`, an address. It is carried from the parser to the request
/// as it is; nothing is read from it.
#[verifier::external_type_specification]
#[verifier::external_body]
pub struct ExUri(http::Uri);

/// `http::uri::InvalidUri`, the error of the parser of addresses.
#[verifier::external_type_specification]
#[verifier::external_body]
pub struct ExInvalidUri(http::uri::InvalidUri);

/// `http::Request`, a request with its body. It is handed to the client
/// as the builder made it.
#[verifier::external_type_specification]
#[verifier::external_body]
#[verifier::reject_recursive_types(T)]
pub struct ExRequest<T>(http::Request<T>);

/// `http::Error`, the error of the builder of requests.
#[verifier::external_type_specification]
#[verifier::external_body]
pub struct ExHttpError(http::Error);

/// What `http::Uri`'s parser makes of a text: the address, or nothing where
/// it refuses the text.
pub uninterp spec fn parsed_uri(text: Seq<char>) -> Option<http::Uri>;

/// The request that `http`'s builder makes for the method `method` and
/// the address `url`, with one header, `header` with the value `value`, and
/// with `body`.
pub uninterp spec fn built_request(
    method: Seq<char>,
    url: http::Uri,
    header: Seq<char>,
    value: Seq<char>,
    body: Seq<u8>,
) -> http::Request<Vec<u8>>;

/// Whether `http` takes the character in the value of a header: no control
/// character but the tab.
pub open spec fn header_char(c: char) -> bool {
    (c as u32 >= 32 && c as u32 != 127) || c as u32 == 9
}

/// Whether `http` takes the text as the value of a header.
pub open spec fn header_value_valid(s: Seq<char>) -> bool {
    forall|i: int| 0 <= i < s.len() ==> header_char(#[trigger] s[i])
}

/// Calls the parser of `http::Uri` (its `FromStr`). Taken on trust: the
/// outcome depends on the text alone.
#[verifier::external_body]
pub(crate) fn parse_uri(text: &str) -> (r: Result<http::Uri, http::uri::InvalidUri>)
    ensures
        match r {
            Ok(url) => parsed_uri(text@) == Some(url),
            Err(_) => parsed_uri(text@) is None,
        },
{
    text.parse::<http::Uri>()
}

/// Calls `http::Request::builder` with `method`, `uri`, `header` and
/// `body`. Taken on trust: the builder refuses a value of the header that
/// holds a control character other than the tab; it takes the method `POST`
/// and the header name `content-type`, which `http` knows by name; and what
/// it builds depends on the five arguments alone.
#[verifier::external_body]
pub(crate) fn build_request(method: &str, url: &http::Uri, header: &str, value: &str, body: Vec<u8>) -> (r:
    Result<http::Request<Vec<u8>>, http::Error>)
    ensures
        r is Ok ==> header_value_valid(value@),
        method@ == "POST"@ && header@ == "content-type"@ && header_value_valid(value@) ==> r is Ok,
        r matches Ok(request) ==> request == built_request(method@, *url, header@, value@, body@),
{
    http::Request::builder().method(method).uri(url.clone()).header(header, value).body(body)
}

} // verus!
