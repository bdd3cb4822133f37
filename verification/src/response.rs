//! The HTTP response model.

use crate::error::{ModelError, ModelErrorView, ModelResult};
use crate::request::{header_insert, header_lookup};
use crate::text::{dec_digits, u64_to_string, usize_to_string};
use vstd::prelude::*;
use vstd::string::StringExecFns;

verus! {

/// Spec-level shape of a `Response`.
pub ghost struct ResponseView {
    pub status: u16,
    pub headers: Seq<(Seq<char>, Seq<char>)>,
    pub body: Seq<char>,
    pub response_time_ms: u64,
}

/// An HTTP response: status code, headers, body, and the time the
/// exchange took, in milliseconds.
#[derive(Debug)]
pub struct Response {
    /// HTTP status code (e.g., 200, 404, 500).
    pub status: u16,
    /// Response headers as key-value pairs.
    pub headers: Vec<(String, String)>,
    /// Response body as a string.
    pub body: String,
    /// Time taken to receive the response, in milliseconds.
    pub response_time_ms: u64,
}

impl View for Response {
    type V = ResponseView;

    open spec fn view(&self) -> ResponseView {
        ResponseView {
            status: self.status,
            headers: self.headers@.map_values(|p: (String, String)| (p.0@, p.1@)),
            body: self.body@,
            response_time_ms: self.response_time_ms,
        }
    }
}

/// The exact outcome of validating a response.
pub open spec fn spec_validate_response(r: ResponseView) -> Result<(), ModelErrorView> {
    if 100 <= r.status < 600 {
        Ok(())
    } else {
        Err(ModelErrorView::InvalidStatusCode(r.status))
    }
}

impl Response {
    /// Creates a new response.
    pub fn new(status: u16, body: &str, response_time_ms: u64) -> (r: Self)
        ensures
            r@.status == status,
            r@.body == body@,
            r@.response_time_ms == response_time_ms,
            r@.headers == Seq::<(Seq<char>, Seq<char>)>::empty(),
    {
        let r = Response { status, headers: Vec::new(), body: body.to_owned(), response_time_ms };
        proof {
            assert(r@.headers =~= Seq::<(Seq<char>, Seq<char>)>::empty());
        }
        r
    }

    /// Stores a header on the response, replacing any existing value for
    /// the same key.
    pub fn with_header(self, key: &str, value: &str) -> (r: Self)
        ensures
            r@ == (ResponseView { headers: header_insert(self@.headers, key@, value@), ..self@ }),
    {
        let Response { status, headers, body, response_time_ms } = self;
        let headers = crate::request::headers_store(headers, key, value);
        Response { status, headers, body, response_time_ms }
    }

    /// Looks up the value stored for a header key.
    pub fn header(&self, key: &str) -> (r: Option<&String>)
        ensures
            match r {
                Option::Some(v) => header_lookup(self@.headers, key@) == Some(v@),
                Option::None => header_lookup(self@.headers, key@) is None,
            },
    {
        crate::request::headers_find(&self.headers, key)
    }

    /// Number of headers stored on the response.
    pub fn header_count(&self) -> (r: usize)
        ensures
            r == self@.headers.len(),
    {
        self.headers.len()
    }

    /// Whether the status is a success (2xx).
    pub fn is_success(&self) -> (r: bool)
        ensures
            r == (200 <= self@.status < 300),
    {
        200 <= self.status && self.status < 300
    }

    /// Whether the status is a client error (4xx).
    pub fn is_client_error(&self) -> (r: bool)
        ensures
            r == (400 <= self@.status < 500),
    {
        400 <= self.status && self.status < 500
    }

    /// Whether the status is a server error (5xx).
    pub fn is_server_error(&self) -> (r: bool)
        ensures
            r == (500 <= self@.status < 600),
    {
        500 <= self.status && self.status < 600
    }

    /// Validates the response: the status code must lie in 100..=599.
    pub fn validate(&self) -> (r: ModelResult<()>)
        ensures
            match r {
                Result::Ok(u) => spec_validate_response(self@) is Ok,
                Result::Err(e) => spec_validate_response(self@) == Result::<
                    (),
                    ModelErrorView,
                >::Err(e@),
            },
    {
        if 100 <= self.status && self.status < 600 {
            Ok(())
        } else {
            Err(ModelError::InvalidStatusCode(self.status))
        }
    }

    /// One-line description of the response: status, timing, then header
    /// and body notes.
    pub fn display_string(&self) -> (r: String)
        ensures
            r@ == response_display(self@),
    {
        let mut m = String::new();
        m.append("HTTP ");
        let d = usize_to_string(self.status as usize);
        m.append(d.as_str());
        m.append(" (");
        let t = u64_to_string(self.response_time_ms);
        m.append(t.as_str());
        m.append(" ms)");
        if self.headers.len() > 0 {
            m.append(" with ");
            let h = usize_to_string(self.headers.len());
            m.append(h.as_str());
            m.append(" header(s)");
        }
        let body_chars = crate::text::chars_of(self.body.as_str());
        if body_chars.len() > 0 {
            m.append(", ");
            let b = usize_to_string(body_chars.len());
            m.append(b.as_str());
            m.append(" bytes");
        }
        proof {
            assert(m@ =~= response_display(self@));
        }
        m
    }
}

/// The one-line rendering of a response.  The body note counts the
/// characters of the body.
pub open spec fn response_display(r: ResponseView) -> Seq<char> {
    let blen = r.body.len();
    "HTTP "@ + dec_digits(r.status as nat) + " ("@ + dec_digits(r.response_time_ms as nat)
        + " ms)"@ + (if r.headers.len() > 0 {
        " with "@ + dec_digits(r.headers.len() as nat) + " header(s)"@
    } else {
        Seq::empty()
    }) + (if blen > 0 {
        ", "@ + dec_digits(blen as nat) + " bytes"@
    } else {
        Seq::empty()
    })
}

} // verus!
