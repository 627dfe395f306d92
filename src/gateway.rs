//! The decisions of the resolution gateway. A request for a resource is
//! answered in two steps: the address is parsed and the resource's MIME
//! type looked up, which either ends the request or asks for the
//! resource's bytes; once the bytes are in hand, the response is built.
use vstd::prelude::*;
use vstd::string::*;
use crate::document::mime_of;
use crate::library::Library;
use crate::transform::{is_html_mime, is_html_type, transform, transformed};

verus! {

/// The status of a response that carries the resource.
pub const STATUS_OK: u16 = 200;

/// The status of a response for a book or resource that is not there.
pub const STATUS_NOT_FOUND: u16 = 404;

/// A parsed inbound address: the book and the internal path within it.
pub struct ResolvedAddress {
    pub book_id: String,
    pub internal_path: String,
}

/// A response to a resource request.
pub struct Response {
    pub status: u16,
    pub content_type: Option<String>,
    pub body: Vec<u8>,
}

/// What the gateway does next with a request.
pub enum Step {
    /// The request is answered with this response.
    Respond(Response),
    /// The bytes of `path` in book `book_id` are to be read; the response is
    /// then built from them with `finish_request`.
    Fetch { book_id: String, path: String, mime: String },
}

/// `p` without one leading `/`.
pub open spec fn strip_separator(p: Seq<char>) -> Seq<char> {
    if p.len() > 0 && p[0] == '/' {
        p.drop_first()
    } else {
        p
    }
}

/// The not-found response: no content type and an empty body.
pub open spec fn is_not_found(r: Response) -> bool {
    r.status == STATUS_NOT_FOUND && r.content_type is None && r.body@.len() == 0
}

/// Splits an inbound address into the book, taken from the address's
/// authority, and the internal path, taken from its path with the leading
/// separator removed. An address without an authority does not resolve.
pub fn parse_address(host: Option<&str>, path: &str) -> (r: Option<ResolvedAddress>)
    ensures
        match host {
            None => r is None,
            Some(h) => r matches Some(a) && a.book_id@ == h@ && a.internal_path@
                == strip_separator(path@),
        },
{
    match host {
        None => None,
        Some(h) => {
            let n = path.unicode_len();
            let internal = if n > 0 && path.get_char(0) == '/' {
                String::from_str(path.substring_char(1, n))
            } else {
                String::from_str(path)
            };
            proof {
                if n > 0 && path@[0] == '/' {
                    assert(path@.subrange(1, n as int) =~= path@.drop_first());
                }
            }
            Some(ResolvedAddress { book_id: String::from_str(h), internal_path: internal })
        },
    }
}

/// The not-found response.
pub fn not_found() -> (r: Response)
    ensures
        is_not_found(r),
{
    Response { status: STATUS_NOT_FOUND, content_type: None, body: Vec::new() }
}

/// The first step of a request: parse the address and look up the MIME type
/// of the resource. An address without a book or without a path, an unknown
/// book or an unknown path ends the request with the not-found response; otherwise the
/// resource's bytes are asked for.
pub fn begin_request(library: &Library, host: Option<&str>, path: &str) -> (r: Step)
    ensures
        match host {
            None => r matches Step::Respond(resp) && is_not_found(resp),
            Some(h) => if strip_separator(path@).len() == 0 {
                r matches Step::Respond(resp) && is_not_found(resp)
            } else {
                match library.book(h@) {
                    None => r matches Step::Respond(resp) && is_not_found(resp),
                    Some(d) => match mime_of(d, strip_separator(path@)) {
                        None => r matches Step::Respond(resp) && is_not_found(resp),
                        Some(m) => r matches Step::Fetch { book_id, path: p, mime } && book_id@
                            == h@ && p@ == strip_separator(path@) && mime@ == m,
                    },
                }
            },
        },
{
    match parse_address(host, path) {
        None => Step::Respond(not_found()),
        Some(address) => if address.internal_path.as_str().unicode_len() == 0 {
            Step::Respond(not_found())
        } else {
            match library.resource_mime(
            address.book_id.as_str(),
            address.internal_path.as_str(),
        ) {
            None => Step::Respond(not_found()),
                Some(mime) => Step::Fetch {
                    book_id: address.book_id,
                    path: address.internal_path,
                    mime,
                },
            }
        },
    }
}

/// The second step of a request: with the resource's bytes, the response
/// carries the MIME type and the body, transformed where the type is HTML;
/// without them, the response is not-found.
pub fn finish_request(mime: String, body: Option<Vec<u8>>) -> (r: Response)
    ensures
        match body {
            None => is_not_found(r),
            Some(b) => {
                &&& r.status == STATUS_OK
                &&& (r.content_type matches Some(c) && c@ == mime@)
                &&& r.body@ == if is_html_type(mime@) {
                    transformed(b@)
                } else {
                    b@
                }
            },
        },
{
    match body {
        None => not_found(),
        Some(b) => {
            let out = if is_html_mime(mime.as_str()) {
                transform(b)
            } else {
                b
            };
            Response { status: STATUS_OK, content_type: Some(mime), body: out }
        },
    }
}

} // verus!
