//! What to answer to a request: the decision that the transport carries
//! out. The listener itself, and the conversion of an answer into the
//! transport's response, are not part of this library.

use crate::site::{resolved, Site};
use vstd::prelude::*;
use vstd::string::*;

verus! {

/// The media type that the `mime_guess` crate guesses from the extension of
/// a path, written out as text, or `None` where it has no guess. The crate
/// takes the extension as `std::path::Path` does, so on a platform that
/// reads a backslash as a separator a path that holds one can guess
/// differently.
pub uninterp spec fn guessed_mime(path: Seq<char>) -> Option<Seq<char>>;

/// `mime_guess::guess_mime_type_opt`: looks the extension of `path` up in
/// the crate's table of media types. No file is touched.
#[verifier::external_body]
#[allow(deprecated)]
pub(crate) fn guess_mime(path: &str) -> (guess: Option<String>)
    ensures
        match guess {
            Some(mime) => guessed_mime(path@) == Some(mime@),
            None => guessed_mime(path@) is None,
        },
{
    mime_guess::guess_mime_type_opt(path).map(|mime| mime.to_string())
}

/// What the contracts see of an answer.
pub struct ResponseView {
    pub status: int,
    pub content_encoding: Option<Seq<char>>,
    pub content_disposition: Option<Seq<char>>,
    pub content_type: Option<Seq<char>>,
    pub body: Seq<u8>,
}

/// The answer to one request: the status code, the headers to set, and the
/// body. The body of a page is the stored payload, still compressed, which
/// is why `Content-Encoding` is set.
pub struct Response<'a> {
    pub status: u16,
    pub content_encoding: Option<&'static str>,
    pub content_disposition: Option<&'static str>,
    pub content_type: Option<String>,
    pub body: &'a [u8],
}

impl<'a> View for Response<'a> {
    type V = ResponseView;

    open spec fn view(&self) -> ResponseView {
        ResponseView {
            status: self.status as int,
            content_encoding: match self.content_encoding {
                Some(text) => Some(text@),
                None => None,
            },
            content_disposition: match self.content_disposition {
                Some(text) => Some(text@),
                None => None,
            },
            content_type: match self.content_type {
                Some(text) => Some(text@),
                None => None,
            },
            body: self.body@,
        }
    }
}

/// The request path of a URI path: the URI path without its first
/// character, the slash.
pub open spec fn request_path(uri_path: Seq<char>) -> Seq<char> {
    if uri_path.len() == 0 {
        uri_path
    } else {
        uri_path.drop_first()
    }
}

/// The answer that carries a page: status 200, the page as body, and the
/// guessed media type, or `text/html` where there is no guess.
pub open spec fn page_response(page: Seq<u8>, guess: Option<Seq<char>>) -> ResponseView {
    ResponseView {
        status: 200,
        content_encoding: Some("gzip"@),
        content_disposition: Some("inline"@),
        content_type: Some(
            match guess {
                Some(mime) => mime,
                None => "text/html"@,
            },
        ),
        body: page,
    }
}

/// The answer where nothing was found: status 404, no header, and a body
/// that says so.
pub open spec fn not_found_response() -> ResponseView {
    ResponseView {
        status: 404,
        content_encoding: None,
        content_disposition: None,
        content_type: None,
        body: "Not found".spec_bytes(),
    }
}

/// The answer for what a lookup gave.
pub open spec fn response_for(page: Option<Seq<u8>>, guess: Option<Seq<char>>) -> ResponseView {
    match page {
        Some(bytes) => page_response(bytes, guess),
        None => not_found_response(),
    }
}

impl<'a> Response<'a> {
    /// The answer that carries `body` as a page, with the media type that
    /// was guessed for the request path.
    pub fn page(body: &'a [u8], guess: Option<String>) -> (response: Response<'a>)
        ensures
            response@ == page_response(
                body@,
                match guess {
                    Some(mime) => Some(mime@),
                    None => None,
                },
            ),
    {
        let content_type = match guess {
            Some(mime) => mime,
            None => "text/html".to_owned(),
        };
        Response {
            status: 200,
            content_encoding: Some("gzip"),
            content_disposition: Some("inline"),
            content_type: Some(content_type),
            body,
        }
    }

    /// The answer where nothing was found.
    pub fn not_found() -> (response: Response<'a>)
        ensures
            response@ == not_found_response(),
    {
        Response {
            status: 404,
            content_encoding: None,
            content_disposition: None,
            content_type: None,
            body: "Not found".as_bytes(),
        }
    }
}

/// Answers one request. The path of the request URI, without its leading
/// slash, is looked up in the site; a hit is answered with the payload and
/// a media type guessed from the path, a miss with status 404.
pub fn serve<'a>(site: &Site<'a>, uri_path: &str) -> (response: Response<'a>)
    requires
        site.wf(),
    ensures
        response@ == response_for(
            resolved(site.entries(), site.blob(), vstd::utf8::encode_utf8(request_path(uri_path@))),
            guessed_mime(request_path(uri_path@)),
        ),
{
    let length = uri_path.unicode_len();
    let path = if length == 0 {
        uri_path
    } else {
        uri_path.substring_char(1, length)
    };
    assert(path@ =~= request_path(uri_path@));
    match site.get(path) {
        Some(body) => Response::page(body, guess_mime(path)),
        None => Response::not_found(),
    }
}

} // verus!
