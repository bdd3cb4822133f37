//! The HTTP request model and its validation rules.

use crate::error::{ModelError, ModelErrorView, ModelResult};
use crate::text::{
    chars_have_prefix, chars_of, dec_digits, has_prefix, is_blank, is_blank_seq, str_eq,
    usize_to_string,
};
use vstd::prelude::*;
use vstd::string::StringExecFns;

verus! {

/// HTTP methods supported by the request model.
#[derive(Debug, Clone, Copy, PartialEq, Eq, Structural)]
pub enum HttpMethod {
    Get,
    Post,
    Put,
    Patch,
    Delete,
    Head,
    Options,
}

impl Default for HttpMethod {
    fn default() -> (r: Self)
        ensures
            r == HttpMethod::Get,
    {
        HttpMethod::Get
    }
}

/// The upper-case wire name of a method.
pub open spec fn method_name(m: HttpMethod) -> Seq<char> {
    match m {
        HttpMethod::Get => "GET"@,
        HttpMethod::Post => "POST"@,
        HttpMethod::Put => "PUT"@,
        HttpMethod::Patch => "PATCH"@,
        HttpMethod::Delete => "DELETE"@,
        HttpMethod::Head => "HEAD"@,
        HttpMethod::Options => "OPTIONS"@,
    }
}

impl HttpMethod {
    /// The upper-case name of this method, as it is displayed and stored.
    pub fn display_string(&self) -> (r: String)
        ensures
            r@ == method_name(*self),
    {
        let s: &str = match self {
            HttpMethod::Get => "GET",
            HttpMethod::Post => "POST",
            HttpMethod::Put => "PUT",
            HttpMethod::Patch => "PATCH",
            HttpMethod::Delete => "DELETE",
            HttpMethod::Head => "HEAD",
            HttpMethod::Options => "OPTIONS",
        };
        s.to_owned()
    }
}

/// Spec-level shape of a `Request`.
pub ghost struct RequestView {
    pub method: HttpMethod,
    pub url: Seq<char>,
    pub headers: Seq<(Seq<char>, Seq<char>)>,
    pub body: Option<Seq<char>>,
    pub name: Seq<char>,
}

/// An HTTP request definition.
///
/// Headers are kept as ordered key/value pairs; a key occurs at most once
/// when the list is built through `with_header`.
#[derive(Debug)]
pub struct Request {
    /// HTTP method (GET, POST, PUT, ...).
    pub method: HttpMethod,
    /// Request URL.
    pub url: String,
    /// Request headers as key-value pairs.
    pub headers: Vec<(String, String)>,
    /// Optional request body.
    pub body: Option<String>,
    /// Request name for identification.
    pub name: String,
}

impl View for Request {
    type V = RequestView;

    open spec fn view(&self) -> RequestView {
        RequestView {
            method: self.method,
            url: self.url@,
            headers: self.headers@.map_values(|p: (String, String)| (p.0@, p.1@)),
            body: match self.body {
                Option::Some(b) => Some(b@),
                Option::None => None,
            },
            name: self.name@,
        }
    }
}

/// Index of the first header pair with the given key, or the length of
/// the list when the key is absent.
pub open spec fn header_key_index(hs: Seq<(Seq<char>, Seq<char>)>, key: Seq<char>) -> int
    decreases hs.len(),
{
    if hs.len() == 0 {
        0
    } else if hs[0].0 == key {
        0
    } else {
        1 + header_key_index(hs.drop_first(), key)
    }
}

/// What storing a header means: replace the value of the first pair with
/// this key, or append a new pair.
pub open spec fn header_insert(
    hs: Seq<(Seq<char>, Seq<char>)>,
    key: Seq<char>,
    value: Seq<char>,
) -> Seq<(Seq<char>, Seq<char>)> {
    let i = header_key_index(hs, key);
    if i < hs.len() {
        hs.update(i, (key, value))
    } else {
        hs.push((key, value))
    }
}

/// Value of the first header pair with the given key.
pub open spec fn header_lookup(hs: Seq<(Seq<char>, Seq<char>)>, key: Seq<char>) -> Option<
    Seq<char>,
> {
    let i = header_key_index(hs, key);
    if i < hs.len() {
        Some(hs[i].1)
    } else {
        None
    }
}

pub proof fn lemma_header_key_index_bounds(hs: Seq<(Seq<char>, Seq<char>)>, key: Seq<char>)
    ensures
        0 <= header_key_index(hs, key) <= hs.len(),
        header_key_index(hs, key) < hs.len() ==> hs[header_key_index(hs, key)].0 == key,
        forall|j: int| 0 <= j < header_key_index(hs, key) ==> (#[trigger] hs[j]).0 != key,
    decreases hs.len(),
{
    if hs.len() > 0 && hs[0].0 != key {
        lemma_header_key_index_bounds(hs.drop_first(), key);
        assert(forall|j: int| 1 <= j < hs.len() ==> #[trigger] hs[j] == hs.drop_first()[j - 1]);
    }
}

/// Store a header pair in a list of pairs: replace the value of the
/// first pair with this key, or append a new pair.
pub fn headers_store(
    headers: Vec<(String, String)>,
    key: &str,
    value: &str,
) -> (r: Vec<(String, String)>)
    ensures
        r@.map_values(|p: (String, String)| (p.0@, p.1@)) == header_insert(
            headers@.map_values(|p: (String, String)| (p.0@, p.1@)),
            key@,
            value@,
        ),
{
    let ghost hsv = headers@.map_values(|p: (String, String)| (p.0@, p.1@));
    let mut out: Vec<(String, String)> = Vec::new();
    let mut i: usize = 0;
    let mut replaced = false;
    proof {
        lemma_header_key_index_bounds(hsv, key@);
    }
    while i < headers.len()
        invariant
            i <= headers.len(),
            hsv == headers@.map_values(|p: (String, String)| (p.0@, p.1@)),
            out@.len() == i,
            replaced == (header_key_index(hsv, key@) < i),
            0 <= header_key_index(hsv, key@) <= hsv.len(),
            header_key_index(hsv, key@) < hsv.len() ==> hsv[header_key_index(hsv, key@)].0 == key@,
            forall|j: int| 0 <= j < header_key_index(hsv, key@) ==> (#[trigger] hsv[j]).0 != key@,
            forall|j: int|
                0 <= j < i ==> (#[trigger] out@[j]).0@ == (if j == header_key_index(hsv, key@) {
                    key@
                } else {
                    hsv[j].0
                }),
            forall|j: int|
                0 <= j < i ==> (#[trigger] out@[j]).1@ == (if j == header_key_index(hsv, key@) {
                    value@
                } else {
                    hsv[j].1
                }),
        decreases headers.len() - i,
    {
        let hk = &headers[i].0;
        proof {
            assert(hsv[i as int] == (headers@[i as int].0@, headers@[i as int].1@));
        }
        if !replaced && str_eq(hk.as_str(), key) {
            out.push((key.to_owned(), value.to_owned()));
            replaced = true;
            proof {
                assert(header_key_index(hsv, key@) == i) by {
                    if header_key_index(hsv, key@) > i {
                        assert(hsv[i as int].0 != key@);
                    }
                }
            }
        } else {
            let k2 = headers[i].0.clone();
            let v2 = headers[i].1.clone();
            out.push((k2, v2));
            proof {
                if !replaced && header_key_index(hsv, key@) == i {
                    assert(hsv[i as int].0 == key@);
                    assert(false);
                }
            }
        }
        i = i + 1;
    }
    if !replaced {
        out.push((key.to_owned(), value.to_owned()));
    }
    proof {
        let newv = out@.map_values(|p: (String, String)| (p.0@, p.1@));
        let want = header_insert(hsv, key@, value@);
        assert(newv =~= want);
    }
    out
}

/// Look up the value of the first pair with the given key.
pub fn headers_find<'a>(headers: &'a Vec<(String, String)>, key: &str) -> (r: Option<&'a String>)
    ensures
        ({
            let hsv = headers@.map_values(|p: (String, String)| (p.0@, p.1@));
            match r {
                Option::Some(v) => header_lookup(hsv, key@) == Some(v@),
                Option::None => header_lookup(hsv, key@) is None,
            }
        }),
{
    let ghost hsv = headers@.map_values(|p: (String, String)| (p.0@, p.1@));
    proof {
        lemma_header_key_index_bounds(hsv, key@);
    }
    let mut i: usize = 0;
    while i < headers.len()
        invariant
            i <= headers.len(),
            hsv == headers@.map_values(|p: (String, String)| (p.0@, p.1@)),
            0 <= header_key_index(hsv, key@) <= hsv.len(),
            header_key_index(hsv, key@) < hsv.len() ==> hsv[header_key_index(hsv, key@)].0 == key@,
            forall|j: int| 0 <= j < header_key_index(hsv, key@) ==> (#[trigger] hsv[j]).0 != key@,
            header_key_index(hsv, key@) >= i,
        decreases headers.len() - i,
    {
        proof {
            assert(hsv[i as int] == (headers@[i as int].0@, headers@[i as int].1@));
        }
        if str_eq(headers[i].0.as_str(), key) {
            proof {
                assert(header_key_index(hsv, key@) == i) by {
                    if header_key_index(hsv, key@) > i {
                        assert(hsv[i as int].0 != key@);
                    }
                }
            }
            return Some(&headers[i].1);
        }
        proof {
            if header_key_index(hsv, key@) == i {
                assert(hsv[i as int].0 == key@);
                assert(false);
            }
        }
        i = i + 1;
    }
    None
}

/// Clone a list of header pairs.
pub fn headers_clone(headers: &Vec<(String, String)>) -> (r: Vec<(String, String)>)
    ensures
        r@.map_values(|p: (String, String)| (p.0@, p.1@)) == headers@.map_values(
            |p: (String, String)| (p.0@, p.1@),
        ),
{
    let mut out: Vec<(String, String)> = Vec::new();
    let mut i: usize = 0;
    while i < headers.len()
        invariant
            i <= headers.len(),
            out@.len() == i,
            forall|j: int|
                0 <= j < i ==> (#[trigger] out@[j]).0@ == headers@[j].0@ && out@[j].1@
                    == headers@[j].1@,
        decreases headers.len() - i,
    {
        let k2 = headers[i].0.clone();
        let v2 = headers[i].1.clone();
        out.push((k2, v2));
        i = i + 1;
    }
    proof {
        assert(out@.map_values(|p: (String, String)| (p.0@, p.1@)) =~= headers@.map_values(
            |p: (String, String)| (p.0@, p.1@),
        ));
    }
    out
}

impl Request {
    /// Creates a new request with the given name and URL.
    pub fn new(name: &str, url: &str) -> (r: Self)
        ensures
            r@.name == name@,
            r@.url == url@,
            r@.method == HttpMethod::Get,
            r@.headers == Seq::<(Seq<char>, Seq<char>)>::empty(),
            r@.body is None,
    {
        let r = Request {
            method: HttpMethod::Get,
            url: url.to_owned(),
            headers: Vec::new(),
            body: None,
            name: name.to_owned(),
        };
        proof {
            assert(r@.headers =~= Seq::<(Seq<char>, Seq<char>)>::empty());
        }
        r
    }

    /// Sets the HTTP method.
    pub fn with_method(self, method: HttpMethod) -> (r: Self)
        ensures
            r@ == (RequestView { method, ..self@ }),
    {
        Request { method, ..self }
    }

    /// Stores a header on the request, replacing any existing value for
    /// the same key.
    pub fn with_header(self, key: &str, value: &str) -> (r: Self)
        ensures
            r@ == (RequestView { headers: header_insert(self@.headers, key@, value@), ..self@ }),
    {
        let Request { method, url, headers, body, name } = self;
        let headers = headers_store(headers, key, value);
        Request { method, url, headers, body, name }
    }

    /// Sets the request body.
    pub fn with_body(self, body: &str) -> (r: Self)
        ensures
            r@ == (RequestView { body: Some(body@), ..self@ }),
    {
        Request { body: Some(body.to_owned()), ..self }
    }

    /// Looks up the value stored for a header key.
    pub fn header(&self, key: &str) -> (r: Option<&String>)
        ensures
            match r {
                Option::Some(v) => header_lookup(self@.headers, key@) == Some(v@),
                Option::None => header_lookup(self@.headers, key@) is None,
            },
    {
        headers_find(&self.headers, key)
    }

    /// Number of headers stored on the request.
    pub fn header_count(&self) -> (r: usize)
        ensures
            r == self@.headers.len(),
    {
        self.headers.len()
    }
}

impl Clone for Request {
    /// A clone carries exactly the same data.
    fn clone(&self) -> (r: Self)
        ensures
            r@ == self@,
    {
        Request {
            method: self.method,
            url: self.url.clone(),
            headers: headers_clone(&self.headers),
            body: match &self.body {
                Option::Some(b) => Some(b.clone()),
                Option::None => None,
            },
            name: self.name.clone(),
        }
    }
}

// ---------------------------------------------------------------------------
// Validation
// ---------------------------------------------------------------------------

/// Length of the URL scheme prefix the validator recognises.
pub open spec fn scheme_len(url: Seq<char>) -> int {
    if has_prefix(url, "http://"@) {
        7
    } else if has_prefix(url, "https://"@) {
        8
    } else {
        0
    }
}

pub open spec fn has_url_scheme(url: Seq<char>) -> bool {
    has_prefix(url, "http://"@) || has_prefix(url, "https://"@)
}

/// The authority part after the scheme is missing when nothing follows
/// the scheme, or only a single slash does.
pub open spec fn missing_authority(url: Seq<char>) -> bool {
    let rest = url.skip(scheme_len(url));
    rest.len() == 0 || (rest.len() == 1 && rest[0] == '/')
}

/// The exact outcome of validating a request: the first failing check
/// decides the error.
pub open spec fn spec_validate_request(r: RequestView) -> Result<(), ModelErrorView> {
    if is_blank_seq(r.name) {
        Err(ModelErrorView::EmptyField("name"@))
    } else if is_blank_seq(r.url) {
        Err(ModelErrorView::EmptyField("url"@))
    } else if !has_url_scheme(r.url) {
        Err(
            ModelErrorView::InvalidUrl("URL must start with http:// or https://: "@ + r.url),
        )
    } else if missing_authority(r.url) {
        Err(ModelErrorView::InvalidUrl("URL must contain a domain: "@ + r.url))
    } else {
        Ok(())
    }
}

/// A request that passes every validation check.
pub open spec fn valid_request(r: RequestView) -> bool {
    spec_validate_request(r) is Ok
}

impl Request {
    /// Validates the request: the name must not be blank, and the URL
    /// must be non-blank, carry an `http://` or `https://` scheme, and
    /// have a non-empty authority.
    pub fn validate(&self) -> (r: ModelResult<()>)
        ensures
            match r {
                Result::Ok(u) => spec_validate_request(self@) is Ok,
                Result::Err(e) => spec_validate_request(self@) == Result::<
                    (),
                    ModelErrorView,
                >::Err(e@),
            },
    {
        if is_blank(self.name.as_str()) {
            return Err(ModelError::EmptyField("name".to_owned()));
        }
        if is_blank(self.url.as_str()) {
            return Err(ModelError::EmptyField("url".to_owned()));
        }
        let url_chars = chars_of(self.url.as_str());
        let http_pref = chars_of("http://");
        let https_pref = chars_of("https://");
        let is_http = chars_have_prefix(&url_chars, &http_pref);
        let is_https = chars_have_prefix(&url_chars, &https_pref);
        if !is_http && !is_https {
            let mut m = String::new();
            m.append("URL must start with http:// or https://: ");
            m.append(self.url.as_str());
            return Err(ModelError::InvalidUrl(m));
        }
        let plen: usize = if is_http {
            7
        } else {
            8
        };
        proof {
            reveal_strlit("http://");
            reveal_strlit("https://");
            assert(plen as int == scheme_len(self@.url));
            assert(url_chars@.len() >= plen);
        }
        let rest_len = url_chars.len() - plen;
        let bad = rest_len == 0 || (rest_len == 1 && url_chars[plen] == '/');
        proof {
            let rest = self@.url.skip(scheme_len(self@.url));
            assert(rest.len() == rest_len);
            if rest.len() >= 1 {
                assert(rest[0] == self@.url[plen as int]);
            }
            assert(bad == missing_authority(self@.url));
        }
        if bad {
            let mut m = String::new();
            m.append("URL must contain a domain: ");
            m.append(self.url.as_str());
            return Err(ModelError::InvalidUrl(m));
        }
        Ok(())
    }

    /// One-line description of the request: method, URL and name,
    /// followed by header and body notes.
    pub fn display_string(&self) -> (r: String)
        ensures
            r@ == request_display(self@),
    {
        let mut m = self.method.display_string();
        m.append(" ");
        m.append(self.url.as_str());
        m.append(" (");
        m.append(self.name.as_str());
        m.append(")");
        if self.headers.len() > 0 {
            m.append(" with ");
            let d = usize_to_string(self.headers.len());
            m.append(d.as_str());
            m.append(" header(s)");
        }
        if self.body.is_some() {
            m.append(" with body");
        }
        m
    }
}

/// The one-line rendering of a request.
pub open spec fn request_display(r: RequestView) -> Seq<char> {
    method_name(r.method) + " "@ + r.url + " ("@ + r.name + ")"@ + (if r.headers.len() > 0 {
        " with "@ + dec_digits(r.headers.len() as nat) + " header(s)"@
    } else {
        Seq::empty()
    }) + (if r.body is Some {
        " with body"@
    } else {
        Seq::empty()
    })
}

} // verus!
