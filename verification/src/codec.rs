//! The document format: collections and requests as human-readable,
//! line-oriented text.  Every scalar sits on one line of its own, with
//! backslash escapes for backslashes and newlines; optional fields are
//! `~` when absent and `|<value>` when present; lists are introduced by
//! a count.  Writing and reading are exact inverses, which is proved in
//! `lemma_collection_roundtrip`.

use crate::collection::{CollectionView, MetadataView};
use crate::request::{method_name, HttpMethod, RequestView};
use crate::text::{
    dec_digits, esc, has_prefix, join_lines, line_has_no_newline, spec_parse_dec, split_lines,
    unesc,
};
use vstd::prelude::*;

verus! {

// ---------------------------------------------------------------------------
// Writing: the lines of a document
// ---------------------------------------------------------------------------

/// An optional scalar on a line: `~` when absent, `|` and the escaped
/// value when present.
pub open spec fn opt_enc(o: Option<Seq<char>>) -> Seq<char> {
    match o {
        Option::None => "~"@,
        Option::Some(s) => "|"@ + esc(s),
    }
}

/// The two lines a header pair occupies.
pub open spec fn header_lines(p: (Seq<char>, Seq<char>)) -> Seq<Seq<char>> {
    seq!["  - "@ + esc(p.0), "    "@ + esc(p.1)]
}

pub open spec fn headers_lines(hs: Seq<(Seq<char>, Seq<char>)>) -> Seq<Seq<char>>
    decreases hs.len(),
{
    if hs.len() == 0 {
        Seq::empty()
    } else {
        header_lines(hs[0]) + headers_lines(hs.drop_first())
    }
}

/// The lines a request occupies: name, method, URL, body, header count,
/// then the header pairs.
pub open spec fn request_lines(q: RequestView) -> Seq<Seq<char>> {
    seq![
        "- name: "@ + esc(q.name),
        "  method: "@ + method_name(q.method),
        "  url: "@ + esc(q.url),
        "  body: "@ + opt_enc(q.body),
        "  headers: "@ + dec_digits(q.headers.len() as nat),
    ] + headers_lines(q.headers)
}

pub open spec fn requests_lines(rs: Seq<RequestView>) -> Seq<Seq<char>>
    decreases rs.len(),
{
    if rs.len() == 0 {
        Seq::empty()
    } else {
        request_lines(rs[0]) + requests_lines(rs.drop_first())
    }
}

/// The lines of a collection document: name, description, the four
/// metadata fields, the request count, then the requests.
pub open spec fn collection_lines(c: CollectionView) -> Seq<Seq<char>> {
    seq![
        "name: "@ + esc(c.name),
        "description: "@ + opt_enc(c.description),
        "version: "@ + opt_enc(c.metadata.version),
        "author: "@ + opt_enc(c.metadata.author),
        "created: "@ + opt_enc(c.metadata.created_at),
        "updated: "@ + opt_enc(c.metadata.updated_at),
        "requests: "@ + dec_digits(c.requests.len() as nat),
    ] + requests_lines(c.requests)
}

/// The text of a collection document.
pub open spec fn encode_collection_text(c: CollectionView) -> Seq<char> {
    join_lines(collection_lines(c))
}

/// The text of a request document: a single request block.
pub open spec fn encode_request_text(q: RequestView) -> Seq<char> {
    join_lines(request_lines(q))
}

// ---------------------------------------------------------------------------
// Reading
// ---------------------------------------------------------------------------

/// The payload of a line that starts with the given prefix.
pub open spec fn strip_pref(l: Seq<char>, p: Seq<char>) -> Option<Seq<char>> {
    if has_prefix(l, p) {
        Some(l.skip(p.len() as int))
    } else {
        None
    }
}

/// Inverse of `opt_enc`.
pub open spec fn opt_dec(l: Seq<char>) -> Option<Option<Seq<char>>> {
    if l == "~"@ {
        Some(None)
    } else if l.len() >= 1 && l[0] == '|' {
        match unesc(l.skip(1)) {
            Option::Some(s) => Some(Some(s)),
            Option::None => None,
        }
    } else {
        None
    }
}

/// Inverse of `method_name`.
pub open spec fn parse_method(l: Seq<char>) -> Option<HttpMethod> {
    if l == "GET"@ {
        Some(HttpMethod::Get)
    } else if l == "POST"@ {
        Some(HttpMethod::Post)
    } else if l == "PUT"@ {
        Some(HttpMethod::Put)
    } else if l == "PATCH"@ {
        Some(HttpMethod::Patch)
    } else if l == "DELETE"@ {
        Some(HttpMethod::Delete)
    } else if l == "HEAD"@ {
        Some(HttpMethod::Head)
    } else if l == "OPTIONS"@ {
        Some(HttpMethod::Options)
    } else {
        None
    }
}

/// A count line's value, rejected when it does not fit the machine.
pub open spec fn parse_count(l: Seq<char>) -> Option<nat> {
    match spec_parse_dec(l) {
        Option::Some(n) => if n <= usize::MAX {
            Some(n)
        } else {
            None
        },
        Option::None => None,
    }
}

/// Reads `h` header pairs from the front of `lines`; yields the pairs
/// and the remaining lines.
pub open spec fn parse_headers(lines: Seq<Seq<char>>, h: nat) -> Option<
    (Seq<(Seq<char>, Seq<char>)>, Seq<Seq<char>>),
>
    decreases h,
{
    if h == 0 {
        Some((Seq::empty(), lines))
    } else if lines.len() < 2 {
        None
    } else {
        match (strip_pref(lines[0], "  - "@), strip_pref(lines[1], "    "@)) {
            (Option::Some(ke), Option::Some(ve)) => match (unesc(ke), unesc(ve)) {
                (Option::Some(k), Option::Some(v)) => match parse_headers(
                    lines.skip(2),
                    (h - 1) as nat,
                ) {
                    Option::Some(p) => Some((seq![(k, v)] + p.0, p.1)),
                    Option::None => None,
                },
                _ => None,
            },
            _ => None,
        }
    }
}

/// Reads one request block from the front of `lines`.
pub open spec fn parse_request_block(lines: Seq<Seq<char>>) -> Option<
    (RequestView, Seq<Seq<char>>),
> {
    if lines.len() < 5 {
        None
    } else {
        match (
            strip_pref(lines[0], "- name: "@),
            strip_pref(lines[1], "  method: "@),
            strip_pref(lines[2], "  url: "@),
            strip_pref(lines[3], "  body: "@),
            strip_pref(lines[4], "  headers: "@),
        ) {
            (
                Option::Some(ne),
                Option::Some(me),
                Option::Some(ue),
                Option::Some(be),
                Option::Some(ce),
            ) => match (unesc(ne), parse_method(me), unesc(ue), opt_dec(be), parse_count(ce)) {
                (
                    Option::Some(name),
                    Option::Some(method),
                    Option::Some(url),
                    Option::Some(body),
                    Option::Some(h),
                ) => match parse_headers(lines.skip(5), h) {
                    Option::Some(p) => Some(
                        (RequestView { method, url, headers: p.0, body, name }, p.1),
                    ),
                    Option::None => None,
                },
                _ => None,
            },
            _ => None,
        }
    }
}

/// Reads `n` request blocks from the front of `lines`.
pub open spec fn parse_requests(lines: Seq<Seq<char>>, n: nat) -> Option<
    (Seq<RequestView>, Seq<Seq<char>>),
>
    decreases n,
{
    if n == 0 {
        Some((Seq::empty(), lines))
    } else {
        match parse_request_block(lines) {
            Option::Some(p) => match parse_requests(p.1, (n - 1) as nat) {
                Option::Some(p2) => Some((seq![p.0] + p2.0, p2.1)),
                Option::None => None,
            },
            Option::None => None,
        }
    }
}

/// Reads a whole collection document; every line must be consumed.
pub open spec fn parse_collection_lines(lines: Seq<Seq<char>>) -> Option<CollectionView> {
    if lines.len() < 7 {
        None
    } else {
        match (
            strip_pref(lines[0], "name: "@),
            strip_pref(lines[1], "description: "@),
            strip_pref(lines[2], "version: "@),
            strip_pref(lines[3], "author: "@),
            strip_pref(lines[4], "created: "@),
            strip_pref(lines[5], "updated: "@),
            strip_pref(lines[6], "requests: "@),
        ) {
            (
                Option::Some(ne),
                Option::Some(de),
                Option::Some(ve),
                Option::Some(ae),
                Option::Some(ce),
                Option::Some(ue),
                Option::Some(re),
            ) => match (
                unesc(ne),
                opt_dec(de),
                opt_dec(ve),
                opt_dec(ae),
                opt_dec(ce),
                opt_dec(ue),
                parse_count(re),
            ) {
                (
                    Option::Some(name),
                    Option::Some(description),
                    Option::Some(version),
                    Option::Some(author),
                    Option::Some(created_at),
                    Option::Some(updated_at),
                    Option::Some(n),
                ) => match parse_requests(lines.skip(7), n) {
                    Option::Some(p) => if p.1.len() == 0 {
                        Some(
                            CollectionView {
                                name,
                                requests: p.0,
                                description,
                                metadata: MetadataView {
                                    version,
                                    author,
                                    created_at,
                                    updated_at,
                                },
                            },
                        )
                    } else {
                        None
                    },
                    Option::None => None,
                },
                _ => None,
            },
            _ => None,
        }
    }
}

/// Reads a whole request document; every line must be consumed.
pub open spec fn parse_request_doc_lines(lines: Seq<Seq<char>>) -> Option<RequestView> {
    match parse_request_block(lines) {
        Option::Some(p) => if p.1.len() == 0 {
            Some(p.0)
        } else {
            None
        },
        Option::None => None,
    }
}

/// What parsing a collection document text yields.
pub open spec fn spec_parse_collection(text: Seq<char>) -> Option<CollectionView> {
    parse_collection_lines(split_lines(text))
}

/// What parsing a request document text yields.
pub open spec fn spec_parse_request(text: Seq<char>) -> Option<RequestView> {
    parse_request_doc_lines(split_lines(text))
}

// ---------------------------------------------------------------------------
// Round trip: reading back what was written
// ---------------------------------------------------------------------------

pub proof fn lemma_concat_no_newline(a: Seq<char>, b: Seq<char>)
    requires
        line_has_no_newline(a),
        line_has_no_newline(b),
    ensures
        line_has_no_newline(a + b),
{
    assert(forall|i: int|
        0 <= i < (a + b).len() ==> (#[trigger] (a + b)[i]) == (if i < a.len() {
            a[i]
        } else {
            b[i - a.len()]
        }));
}

/// Every literal the document format uses sits on one line.
pub proof fn lemma_literals_no_newline()
    ensures
        line_has_no_newline("name: "@),
        line_has_no_newline("description: "@),
        line_has_no_newline("version: "@),
        line_has_no_newline("author: "@),
        line_has_no_newline("created: "@),
        line_has_no_newline("updated: "@),
        line_has_no_newline("requests: "@),
        line_has_no_newline("- name: "@),
        line_has_no_newline("  method: "@),
        line_has_no_newline("  url: "@),
        line_has_no_newline("  body: "@),
        line_has_no_newline("  headers: "@),
        line_has_no_newline("  - "@),
        line_has_no_newline("    "@),
        line_has_no_newline("~"@),
        line_has_no_newline("|"@),
{
    assert forall|i: int| 0 <= i < "name: "@.len() implies #[trigger] "name: "@[i] != '\n' by {
        reveal_strlit("name: ");
    }
    assert forall|i: int| 0 <= i < "description: "@.len() implies #[trigger] "description: "@[i]
        != '\n' by {
        reveal_strlit("description: ");
    }
    assert forall|i: int| 0 <= i < "version: "@.len() implies #[trigger] "version: "@[i]
        != '\n' by {
        reveal_strlit("version: ");
    }
    assert forall|i: int| 0 <= i < "author: "@.len() implies #[trigger] "author: "@[i] != '\n' by {
        reveal_strlit("author: ");
    }
    assert forall|i: int| 0 <= i < "created: "@.len() implies #[trigger] "created: "@[i]
        != '\n' by {
        reveal_strlit("created: ");
    }
    assert forall|i: int| 0 <= i < "updated: "@.len() implies #[trigger] "updated: "@[i]
        != '\n' by {
        reveal_strlit("updated: ");
    }
    assert forall|i: int| 0 <= i < "requests: "@.len() implies #[trigger] "requests: "@[i]
        != '\n' by {
        reveal_strlit("requests: ");
    }
    assert forall|i: int| 0 <= i < "- name: "@.len() implies #[trigger] "- name: "@[i] != '\n' by {
        reveal_strlit("- name: ");
    }
    assert forall|i: int| 0 <= i < "  method: "@.len() implies #[trigger] "  method: "@[i]
        != '\n' by {
        reveal_strlit("  method: ");
    }
    assert forall|i: int| 0 <= i < "  url: "@.len() implies #[trigger] "  url: "@[i] != '\n' by {
        reveal_strlit("  url: ");
    }
    assert forall|i: int| 0 <= i < "  body: "@.len() implies #[trigger] "  body: "@[i] != '\n' by {
        reveal_strlit("  body: ");
    }
    assert forall|i: int| 0 <= i < "  headers: "@.len() implies #[trigger] "  headers: "@[i]
        != '\n' by {
        reveal_strlit("  headers: ");
    }
    assert forall|i: int| 0 <= i < "  - "@.len() implies #[trigger] "  - "@[i] != '\n' by {
        reveal_strlit("  - ");
    }
    assert forall|i: int| 0 <= i < "    "@.len() implies #[trigger] "    "@[i] != '\n' by {
        reveal_strlit("    ");
    }
    assert forall|i: int| 0 <= i < "~"@.len() implies #[trigger] "~"@[i] != '\n' by {
        reveal_strlit("~");
    }
    assert forall|i: int| 0 <= i < "|"@.len() implies #[trigger] "|"@[i] != '\n' by {
        reveal_strlit("|");
    }
}

pub proof fn lemma_digits_no_newline(n: nat)
    ensures
        line_has_no_newline(dec_digits(n)),
{
    crate::text::lemma_dec_digits_canonical(n);
    assert(forall|i: int|
        0 <= i < dec_digits(n).len() ==> crate::text::is_digit_char(#[trigger] dec_digits(n)[i]));
}

pub proof fn lemma_method_name_no_newline(m: HttpMethod)
    ensures
        line_has_no_newline(method_name(m)),
{
    assert forall|i: int| 0 <= i < "GET"@.len() implies #[trigger] "GET"@[i] != '\n' by {
        reveal_strlit("GET");
    }
    assert forall|i: int| 0 <= i < "POST"@.len() implies #[trigger] "POST"@[i] != '\n' by {
        reveal_strlit("POST");
    }
    assert forall|i: int| 0 <= i < "PUT"@.len() implies #[trigger] "PUT"@[i] != '\n' by {
        reveal_strlit("PUT");
    }
    assert forall|i: int| 0 <= i < "PATCH"@.len() implies #[trigger] "PATCH"@[i] != '\n' by {
        reveal_strlit("PATCH");
    }
    assert forall|i: int| 0 <= i < "DELETE"@.len() implies #[trigger] "DELETE"@[i] != '\n' by {
        reveal_strlit("DELETE");
    }
    assert forall|i: int| 0 <= i < "HEAD"@.len() implies #[trigger] "HEAD"@[i] != '\n' by {
        reveal_strlit("HEAD");
    }
    assert forall|i: int| 0 <= i < "OPTIONS"@.len() implies #[trigger] "OPTIONS"@[i] != '\n' by {
        reveal_strlit("OPTIONS");
    }
}

pub proof fn lemma_opt_enc_no_newline(o: Option<Seq<char>>)
    ensures
        line_has_no_newline(opt_enc(o)),
{
    lemma_literals_no_newline();
    match o {
        Option::None => {},
        Option::Some(s) => {
            crate::text::lemma_esc_no_newline(s);
            lemma_concat_no_newline("|"@, esc(s));
        },
    }
}

/// No line of a request block contains a newline.
pub proof fn lemma_request_lines_no_newline(q: RequestView)
    ensures
        forall|i: int|
            0 <= i < request_lines(q).len() ==> line_has_no_newline(
                #[trigger] request_lines(q)[i],
            ),
    decreases q.headers.len(),
{
    lemma_literals_no_newline();
    crate::text::lemma_esc_no_newline(q.name);
    crate::text::lemma_esc_no_newline(q.url);
    lemma_method_name_no_newline(q.method);
    lemma_opt_enc_no_newline(q.body);
    lemma_digits_no_newline(q.headers.len() as nat);
    lemma_concat_no_newline("- name: "@, esc(q.name));
    lemma_concat_no_newline("  method: "@, method_name(q.method));
    lemma_concat_no_newline("  url: "@, esc(q.url));
    lemma_concat_no_newline("  body: "@, opt_enc(q.body));
    lemma_concat_no_newline("  headers: "@, dec_digits(q.headers.len() as nat));
    lemma_headers_lines_no_newline(q.headers);
    let ls = request_lines(q);
    let head = seq![
        "- name: "@ + esc(q.name),
        "  method: "@ + method_name(q.method),
        "  url: "@ + esc(q.url),
        "  body: "@ + opt_enc(q.body),
        "  headers: "@ + dec_digits(q.headers.len() as nat),
    ];
    assert(forall|i: int|
        0 <= i < ls.len() ==> (#[trigger] ls[i]) == (if i < 5 {
            head[i]
        } else {
            headers_lines(q.headers)[i - 5]
        }));
}

pub proof fn lemma_headers_lines_no_newline(hs: Seq<(Seq<char>, Seq<char>)>)
    ensures
        headers_lines(hs).len() == 2 * hs.len(),
        forall|i: int|
            0 <= i < headers_lines(hs).len() ==> line_has_no_newline(
                #[trigger] headers_lines(hs)[i],
            ),
    decreases hs.len(),
{
    lemma_literals_no_newline();
    if hs.len() > 0 {
        lemma_headers_lines_no_newline(hs.drop_first());
        crate::text::lemma_esc_no_newline(hs[0].0);
        crate::text::lemma_esc_no_newline(hs[0].1);
        lemma_concat_no_newline("  - "@, esc(hs[0].0));
        lemma_concat_no_newline("    "@, esc(hs[0].1));
        let ls = headers_lines(hs);
        let head = header_lines(hs[0]);
        assert(forall|i: int|
            0 <= i < ls.len() ==> (#[trigger] ls[i]) == (if i < 2 {
                head[i]
            } else {
                headers_lines(hs.drop_first())[i - 2]
            }));
    }
}

pub proof fn lemma_requests_lines_no_newline(rs: Seq<RequestView>)
    ensures
        forall|i: int|
            0 <= i < requests_lines(rs).len() ==> line_has_no_newline(
                #[trigger] requests_lines(rs)[i],
            ),
    decreases rs.len(),
{
    if rs.len() > 0 {
        lemma_request_lines_no_newline(rs[0]);
        lemma_requests_lines_no_newline(rs.drop_first());
        let ls = requests_lines(rs);
        let head = request_lines(rs[0]);
        assert(forall|i: int|
            0 <= i < ls.len() ==> (#[trigger] ls[i]) == (if i < head.len() {
                head[i]
            } else {
                requests_lines(rs.drop_first())[i - head.len()]
            }));
    }
}

pub proof fn lemma_collection_lines_no_newline(c: CollectionView)
    ensures
        forall|i: int|
            0 <= i < collection_lines(c).len() ==> line_has_no_newline(
                #[trigger] collection_lines(c)[i],
            ),
{
    lemma_literals_no_newline();
    crate::text::lemma_esc_no_newline(c.name);
    lemma_opt_enc_no_newline(c.description);
    lemma_opt_enc_no_newline(c.metadata.version);
    lemma_opt_enc_no_newline(c.metadata.author);
    lemma_opt_enc_no_newline(c.metadata.created_at);
    lemma_opt_enc_no_newline(c.metadata.updated_at);
    lemma_digits_no_newline(c.requests.len() as nat);
    lemma_concat_no_newline("name: "@, esc(c.name));
    lemma_concat_no_newline("description: "@, opt_enc(c.description));
    lemma_concat_no_newline("version: "@, opt_enc(c.metadata.version));
    lemma_concat_no_newline("author: "@, opt_enc(c.metadata.author));
    lemma_concat_no_newline("created: "@, opt_enc(c.metadata.created_at));
    lemma_concat_no_newline("updated: "@, opt_enc(c.metadata.updated_at));
    lemma_concat_no_newline("requests: "@, dec_digits(c.requests.len() as nat));
    lemma_requests_lines_no_newline(c.requests);
    let ls = collection_lines(c);
    let head = seq![
        "name: "@ + esc(c.name),
        "description: "@ + opt_enc(c.description),
        "version: "@ + opt_enc(c.metadata.version),
        "author: "@ + opt_enc(c.metadata.author),
        "created: "@ + opt_enc(c.metadata.created_at),
        "updated: "@ + opt_enc(c.metadata.updated_at),
        "requests: "@ + dec_digits(c.requests.len() as nat),
    ];
    assert(forall|i: int|
        0 <= i < ls.len() ==> (#[trigger] ls[i]) == (if i < 7 {
            head[i]
        } else {
            requests_lines(c.requests)[i - 7]
        }));
}

/// A line built as prefix plus payload strips back to the payload.
pub proof fn lemma_strip_pref(p: Seq<char>, payload: Seq<char>)
    ensures
        strip_pref(p + payload, p) == Some(payload),
{
    assert((p + payload).subrange(0, p.len() as int) =~= p);
    assert((p + payload).skip(p.len() as int) =~= payload);
}

pub proof fn lemma_opt_roundtrip(o: Option<Seq<char>>)
    ensures
        opt_dec(opt_enc(o)) == Some(o),
{
    reveal_strlit("~");
    reveal_strlit("|");
    match o {
        Option::None => {},
        Option::Some(s) => {
            let l = "|"@ + esc(s);
            assert(l[0] == '|');
            assert(l != "~"@) by {
                assert(l[0] != '~');
            }
            assert(l.skip(1) =~= esc(s));
            crate::text::lemma_unesc_esc(s);
        },
    }
}

pub proof fn lemma_method_roundtrip(m: HttpMethod)
    ensures
        parse_method(method_name(m)) == Some(m),
{
    reveal_strlit("GET");
    reveal_strlit("POST");
    reveal_strlit("PUT");
    reveal_strlit("PATCH");
    reveal_strlit("DELETE");
    reveal_strlit("HEAD");
    reveal_strlit("OPTIONS");
    assert("GET"@.len() == 3 && "POST"@.len() == 4 && "PUT"@.len() == 3 && "PATCH"@.len() == 5
        && "DELETE"@.len() == 6 && "HEAD"@.len() == 4 && "OPTIONS"@.len() == 7);
    assert("PUT"@ != "GET"@) by {
        assert("PUT"@[0] == 'P' && "GET"@[0] == 'G');
    }
    assert("HEAD"@ != "POST"@) by {
        assert("HEAD"@[0] == 'H' && "POST"@[0] == 'P');
    }
}

pub proof fn lemma_headers_roundtrip(hs: Seq<(Seq<char>, Seq<char>)>, tail: Seq<Seq<char>>)
    ensures
        parse_headers(headers_lines(hs) + tail, hs.len() as nat) == Some((hs, tail)),
    decreases hs.len(),
{
    reveal_strlit("  - ");
    reveal_strlit("    ");
    let lines = headers_lines(hs) + tail;
    if hs.len() == 0 {
        assert(lines =~= tail);
        let r = parse_headers(lines, 0);
        assert(r is Some);
        assert(r->Some_0.0 =~= hs);
        assert(r->Some_0.1 == tail);
    } else {
        let head = header_lines(hs[0]);
        let rest = headers_lines(hs.drop_first());
        assert(headers_lines(hs) =~= head + rest);
        assert(lines.len() >= 2);
        assert(lines[0] == "  - "@ + esc(hs[0].0));
        assert(lines[1] == "    "@ + esc(hs[0].1));
        lemma_strip_pref("  - "@, esc(hs[0].0));
        lemma_strip_pref("    "@, esc(hs[0].1));
        crate::text::lemma_unesc_esc(hs[0].0);
        crate::text::lemma_unesc_esc(hs[0].1);
        assert(lines.skip(2) =~= rest + tail);
        lemma_headers_roundtrip(hs.drop_first(), tail);
        let r = parse_headers(lines, hs.len() as nat);
        assert(r is Some);
        assert(r->Some_0.0 =~= seq![(hs[0].0, hs[0].1)] + hs.drop_first());
        assert(seq![(hs[0].0, hs[0].1)] + hs.drop_first() =~= hs);
        assert(r->Some_0.1 == tail);
    }
}

pub proof fn lemma_request_roundtrip(q: RequestView, tail: Seq<Seq<char>>)
    requires
        q.headers.len() <= usize::MAX,
    ensures
        parse_request_block(request_lines(q) + tail) == Some((q, tail)),
{
    let lines = request_lines(q) + tail;
    let head = seq![
        "- name: "@ + esc(q.name),
        "  method: "@ + method_name(q.method),
        "  url: "@ + esc(q.url),
        "  body: "@ + opt_enc(q.body),
        "  headers: "@ + dec_digits(q.headers.len() as nat),
    ];
    let hlines = headers_lines(q.headers);
    assert(request_lines(q) =~= head + hlines);
    assert(lines.len() >= 5);
    assert(lines[0] == head[0]);
    assert(lines[1] == head[1]);
    assert(lines[2] == head[2]);
    assert(lines[3] == head[3]);
    assert(lines[4] == head[4]);
    lemma_strip_pref("- name: "@, esc(q.name));
    lemma_strip_pref("  method: "@, method_name(q.method));
    lemma_strip_pref("  url: "@, esc(q.url));
    lemma_strip_pref("  body: "@, opt_enc(q.body));
    lemma_strip_pref("  headers: "@, dec_digits(q.headers.len() as nat));
    crate::text::lemma_unesc_esc(q.name);
    crate::text::lemma_unesc_esc(q.url);
    lemma_method_roundtrip(q.method);
    lemma_opt_roundtrip(q.body);
    crate::text::lemma_dec_digits_canonical(q.headers.len() as nat);
    assert(parse_count(dec_digits(q.headers.len() as nat)) == Some(q.headers.len() as nat));
    assert(lines.skip(5) =~= hlines + tail);
    lemma_headers_roundtrip(q.headers, tail);
    let r = parse_request_block(lines);
    assert(r is Some);
    assert(r->Some_0.0 == q);
    assert(r->Some_0.1 == tail);
}

pub proof fn lemma_requests_roundtrip(rs: Seq<RequestView>, tail: Seq<Seq<char>>)
    requires
        forall|k: int| 0 <= k < rs.len() ==> (#[trigger] rs[k]).headers.len() <= usize::MAX,
    ensures
        parse_requests(requests_lines(rs) + tail, rs.len() as nat) == Some((rs, tail)),
    decreases rs.len(),
{
    let lines = requests_lines(rs) + tail;
    if rs.len() == 0 {
        assert(lines =~= tail);
        let r = parse_requests(lines, 0);
        assert(r is Some);
        assert(r->Some_0.0 =~= rs);
        assert(r->Some_0.1 == tail);
    } else {
        let head = request_lines(rs[0]);
        let rest = requests_lines(rs.drop_first());
        assert(requests_lines(rs) =~= head + rest);
        assert(lines =~= head + (rest + tail));
        lemma_request_roundtrip(rs[0], rest + tail);
        assert(forall|k: int|
            0 <= k < rs.drop_first().len() ==> (#[trigger] rs.drop_first()[k]).headers.len()
                <= usize::MAX) by {
            assert(forall|k: int|
                0 <= k < rs.drop_first().len() ==> rs.drop_first()[k] == rs[k + 1]);
        }
        lemma_requests_roundtrip(rs.drop_first(), tail);
        let r = parse_requests(lines, rs.len() as nat);
        assert(r is Some);
        assert(r->Some_0.0 =~= seq![rs[0]] + rs.drop_first());
        assert(seq![rs[0]] + rs.drop_first() =~= rs);
        assert(r->Some_0.1 == tail);
    }
}

/// Law: a collection written as a document and read back comes back
/// whole — name, requests, description and metadata all intact.
pub proof fn lemma_collection_roundtrip(c: CollectionView)
    requires
        c.requests.len() <= usize::MAX,
        forall|k: int| 0 <= k < c.requests.len() ==> (#[trigger] c.requests[k]).headers.len()
            <= usize::MAX,
    ensures
        spec_parse_collection(encode_collection_text(c)) == Some(c),
{
    let ls = collection_lines(c);
    lemma_collection_lines_no_newline(c);
    crate::text::lemma_split_join(ls);
    assert(split_lines(encode_collection_text(c)) == ls);
    let head = seq![
        "name: "@ + esc(c.name),
        "description: "@ + opt_enc(c.description),
        "version: "@ + opt_enc(c.metadata.version),
        "author: "@ + opt_enc(c.metadata.author),
        "created: "@ + opt_enc(c.metadata.created_at),
        "updated: "@ + opt_enc(c.metadata.updated_at),
        "requests: "@ + dec_digits(c.requests.len() as nat),
    ];
    let rlines = requests_lines(c.requests);
    assert(ls =~= head + rlines);
    assert(ls.len() >= 7);
    assert(ls[0] == head[0]);
    assert(ls[1] == head[1]);
    assert(ls[2] == head[2]);
    assert(ls[3] == head[3]);
    assert(ls[4] == head[4]);
    assert(ls[5] == head[5]);
    assert(ls[6] == head[6]);
    lemma_strip_pref("name: "@, esc(c.name));
    lemma_strip_pref("description: "@, opt_enc(c.description));
    lemma_strip_pref("version: "@, opt_enc(c.metadata.version));
    lemma_strip_pref("author: "@, opt_enc(c.metadata.author));
    lemma_strip_pref("created: "@, opt_enc(c.metadata.created_at));
    lemma_strip_pref("updated: "@, opt_enc(c.metadata.updated_at));
    lemma_strip_pref("requests: "@, dec_digits(c.requests.len() as nat));
    crate::text::lemma_unesc_esc(c.name);
    lemma_opt_roundtrip(c.description);
    lemma_opt_roundtrip(c.metadata.version);
    lemma_opt_roundtrip(c.metadata.author);
    lemma_opt_roundtrip(c.metadata.created_at);
    lemma_opt_roundtrip(c.metadata.updated_at);
    crate::text::lemma_dec_digits_canonical(c.requests.len() as nat);
    assert(ls.skip(7) =~= rlines + Seq::<Seq<char>>::empty());
    lemma_requests_roundtrip(c.requests, Seq::empty());
    let r = parse_collection_lines(ls);
    assert(r is Some);
    assert(r->Some_0.metadata == c.metadata);
    assert(r->Some_0 == c);
}

/// Law: a request written as a document and read back comes back whole.
pub proof fn lemma_request_doc_roundtrip(q: RequestView)
    requires
        q.headers.len() <= usize::MAX,
    ensures
        spec_parse_request(encode_request_text(q)) == Some(q),
{
    let ls = request_lines(q);
    lemma_request_lines_no_newline(q);
    crate::text::lemma_split_join(ls);
    assert(split_lines(encode_request_text(q)) == ls);
    assert(ls =~= ls + Seq::<Seq<char>>::empty());
    lemma_request_roundtrip(q, Seq::empty());
    assert(parse_request_block(ls) == Some((q, Seq::<Seq<char>>::empty())));
}

// ---------------------------------------------------------------------------
// Writing, executable
// ---------------------------------------------------------------------------

pub proof fn lemma_join_lines_concat(a: Seq<Seq<char>>, b: Seq<Seq<char>>)
    ensures
        join_lines(a + b) == join_lines(a) + join_lines(b),
    decreases a.len(),
{
    if a.len() == 0 {
        assert(a + b =~= b);
        assert(join_lines(a) + join_lines(b) =~= join_lines(b));
    } else {
        lemma_join_lines_concat(a.drop_first(), b);
        assert((a + b).drop_first() =~= a.drop_first() + b);
        assert((a + b)[0] == a[0]);
        assert(join_lines(a + b) =~= a[0] + seq!['\n'] + (join_lines(a.drop_first()) + join_lines(
            b,
        )));
        assert(a[0] + seq!['\n'] + (join_lines(a.drop_first()) + join_lines(b)) =~= (a[0]
            + seq!['\n'] + join_lines(a.drop_first())) + join_lines(b));
    }
}

/// A line made of a fixed prefix and an escaped payload.
fn line_esc(prefix: &str, payload: &str) -> (r: Vec<char>)
    ensures
        r@ == prefix@ + esc(payload@),
{
    let mut l = crate::text::chars_of(prefix);
    let p = crate::text::chars_of(payload);
    crate::text::esc_append(&mut l, &p);
    l
}

/// A line made of a fixed prefix and an optional escaped payload.
fn line_opt(prefix: &str, o: &Option<String>) -> (r: Vec<char>)
    ensures
        r@ == prefix@ + opt_enc(crate::collection::view_opt(*o)),
{
    let mut l = crate::text::chars_of(prefix);
    match o {
        Option::None => {
            let mut t = crate::text::chars_of("~");
            l.append(&mut t);
        },
        Option::Some(s) => {
            let mut t = crate::text::chars_of("|");
            l.append(&mut t);
            let p = crate::text::chars_of(s.as_str());
            crate::text::esc_append(&mut l, &p);
            proof {
                assert(l@ =~= prefix@ + ("|"@ + esc(s@)));
            }
        },
    }
    l
}

/// A line made of a fixed prefix and a decimal count.
fn line_count(prefix: &str, n: usize) -> (r: Vec<char>)
    ensures
        r@ == prefix@ + dec_digits(n as nat),
{
    let mut l = crate::text::chars_of(prefix);
    let mut t = crate::text::usize_to_chars(n);
    l.append(&mut t);
    l
}

/// The lines of one request block, appended to `out`.
fn push_request_lines(out: &mut Vec<Vec<char>>, q: &crate::request::Request)
    ensures
        final(out)@.len() == old(out)@.len() + request_lines(q@).len(),
        final(out)@.map_values(|v: Vec<char>| v@) == old(out)@.map_values(|v: Vec<char>| v@)
            + request_lines(q@),
{
    let ghost base = out@.map_values(|v: Vec<char>| v@);
    out.push(line_esc("- name: ", q.name.as_str()));
    let mname = q.method.display_string();
    let mut mline = crate::text::chars_of("  method: ");
    let mut mtail = crate::text::chars_of(mname.as_str());
    mline.append(&mut mtail);
    out.push(mline);
    out.push(line_esc("  url: ", q.url.as_str()));
    out.push(line_opt("  body: ", &q.body));
    out.push(line_count("  headers: ", q.headers.len()));
    let ghost hsv = q@.headers;
    let mut i: usize = 0;
    proof {
        assert(out@.map_values(|v: Vec<char>| v@) =~= base + seq![
            "- name: "@ + esc(q@.name),
            "  method: "@ + method_name(q@.method),
            "  url: "@ + esc(q@.url),
            "  body: "@ + opt_enc(q@.body),
            "  headers: "@ + dec_digits(q@.headers.len() as nat),
        ] + headers_lines(hsv.take(0)));
    }
    while i < q.headers.len()
        invariant
            i <= q.headers.len(),
            hsv == q.headers@.map_values(|p: (String, String)| (p.0@, p.1@)),
            hsv == q@.headers,
            out@.map_values(|v: Vec<char>| v@) == base + seq![
                "- name: "@ + esc(q@.name),
                "  method: "@ + method_name(q@.method),
                "  url: "@ + esc(q@.url),
                "  body: "@ + opt_enc(q@.body),
                "  headers: "@ + dec_digits(q@.headers.len() as nat),
            ] + headers_lines(hsv.take(i as int)),
        decreases q.headers.len() - i,
    {
        proof {
            assert(hsv[i as int] == (q.headers@[i as int].0@, q.headers@[i as int].1@));
        }
        let ghost m0 = out@.map_values(|v: Vec<char>| v@);
        let lk = line_esc("  - ", q.headers[i].0.as_str());
        let ghost lkv = lk@;
        out.push(lk);
        proof {
            assert(out@.map_values(|v: Vec<char>| v@) =~= m0.push(lkv));
        }
        let ghost m1 = out@.map_values(|v: Vec<char>| v@);
        let lw = line_esc("    ", q.headers[i].1.as_str());
        let ghost lwv = lw@;
        out.push(lw);
        proof {
            assert(out@.map_values(|v: Vec<char>| v@) =~= m1.push(lwv));
            assert(m1.push(lwv) =~= m0 + header_lines(hsv[i as int]));
            lemma_headers_lines_concat(hsv.take(i as int), seq![hsv[i as int]]);
            assert(hsv.take(i + 1) =~= hsv.take(i as int) + seq![hsv[i as int]]);
            assert(seq![hsv[i as int]].drop_first() =~= Seq::<(Seq<char>, Seq<char>)>::empty());
            assert(headers_lines(Seq::<(Seq<char>, Seq<char>)>::empty()) =~= Seq::<
                Seq<char>,
            >::empty());
            assert(seq![hsv[i as int]][0] == hsv[i as int]);
            assert(headers_lines(seq![hsv[i as int]]) == header_lines(seq![hsv[i as int]][0])
                + headers_lines(seq![hsv[i as int]].drop_first()));
            assert(headers_lines(seq![hsv[i as int]]) =~= header_lines(hsv[i as int]));
            assert(out@.map_values(|v: Vec<char>| v@) =~= base + seq![
                "- name: "@ + esc(q@.name),
                "  method: "@ + method_name(q@.method),
                "  url: "@ + esc(q@.url),
                "  body: "@ + opt_enc(q@.body),
                "  headers: "@ + dec_digits(q@.headers.len() as nat),
            ] + headers_lines(hsv.take(i + 1)));
        }
        i = i + 1;
    }
    proof {
        assert(hsv.take(hsv.len() as int) =~= hsv);
        assert(out@.map_values(|v: Vec<char>| v@) =~= base + request_lines(q@));
    }
}

pub proof fn lemma_headers_lines_concat(a: Seq<(Seq<char>, Seq<char>)>, b: Seq<
    (Seq<char>, Seq<char>),
>)
    ensures
        headers_lines(a + b) == headers_lines(a) + headers_lines(b),
    decreases a.len(),
{
    if a.len() == 0 {
        assert(a + b =~= b);
        assert(headers_lines(a) + headers_lines(b) =~= headers_lines(b));
    } else {
        lemma_headers_lines_concat(a.drop_first(), b);
        assert((a + b).drop_first() =~= a.drop_first() + b);
        assert((a + b)[0] == a[0]);
        assert(headers_lines(a + b) =~= header_lines(a[0]) + (headers_lines(a.drop_first())
            + headers_lines(b)));
        assert(header_lines(a[0]) + (headers_lines(a.drop_first()) + headers_lines(b)) =~= (
        header_lines(a[0]) + headers_lines(a.drop_first())) + headers_lines(b));
    }
}

pub proof fn lemma_requests_lines_concat(a: Seq<RequestView>, b: Seq<RequestView>)
    ensures
        requests_lines(a + b) == requests_lines(a) + requests_lines(b),
    decreases a.len(),
{
    if a.len() == 0 {
        assert(a + b =~= b);
        assert(requests_lines(a) + requests_lines(b) =~= requests_lines(b));
    } else {
        lemma_requests_lines_concat(a.drop_first(), b);
        assert((a + b).drop_first() =~= a.drop_first() + b);
        assert((a + b)[0] == a[0]);
        assert(requests_lines(a + b) =~= request_lines(a[0]) + (requests_lines(a.drop_first())
            + requests_lines(b)));
        assert(request_lines(a[0]) + (requests_lines(a.drop_first()) + requests_lines(b)) =~= (
        request_lines(a[0]) + requests_lines(a.drop_first())) + requests_lines(b));
    }
}

/// Joins lines into one text, each line followed by a newline.
fn join_lines_exec(lines: &Vec<Vec<char>>) -> (r: Vec<char>)
    ensures
        r@ == join_lines(lines@.map_values(|v: Vec<char>| v@)),
{
    let ghost lv = lines@.map_values(|v: Vec<char>| v@);
    let mut out: Vec<char> = Vec::new();
    let mut i: usize = 0;
    proof {
        assert(join_lines(lv.take(0)) =~= Seq::<char>::empty());
        assert(out@ =~= join_lines(lv.take(0)));
    }
    while i < lines.len()
        invariant
            i <= lines.len(),
            lv == lines@.map_values(|v: Vec<char>| v@),
            out@ == join_lines(lv.take(i as int)),
        decreases lines.len() - i,
    {
        proof {
            assert(lv[i as int] == lines@[i as int]@);
        }
        let line = &lines[i];
        let mut j: usize = 0;
        let ghost outpre = out@;
        while j < line.len()
            invariant
                j <= line.len(),
                line@ == lv[i as int],
                out@ == outpre + line@.take(j as int),
            decreases line.len() - j,
        {
            out.push(line[j]);
            proof {
                assert(out@ =~= outpre + line@.take(j + 1));
            }
            j = j + 1;
        }
        proof {
            assert(line@.take(line@.len() as int) =~= line@);
        }
        out.push('\n');
        proof {
            lemma_join_lines_concat(lv.take(i as int), seq![lv[i as int]]);
            assert(lv.take(i + 1) =~= lv.take(i as int) + seq![lv[i as int]]);
            assert(seq![lv[i as int]].drop_first() =~= Seq::<Seq<char>>::empty());
            assert(join_lines(Seq::<Seq<char>>::empty()) =~= Seq::<char>::empty());
            assert(seq![lv[i as int]][0] == lv[i as int]);
            assert(join_lines(seq![lv[i as int]]) == seq![lv[i as int]][0] + seq!['\n']
                + join_lines(seq![lv[i as int]].drop_first()));
            assert(join_lines(seq![lv[i as int]]) =~= lv[i as int] + seq!['\n']);
            assert(out@ =~= join_lines(lv.take(i + 1)));
        }
        i = i + 1;
    }
    proof {
        assert(lv.take(lv.len() as int) =~= lv);
    }
    out
}

impl crate::collection::Collection {
    /// Renders the collection as a document.
    pub fn encode(&self) -> (r: String)
        ensures
            r@ == encode_collection_text(self@),
    {
        let mut lines: Vec<Vec<char>> = Vec::new();
        lines.push(line_esc("name: ", self.name.as_str()));
        lines.push(line_opt("description: ", &self.description));
        lines.push(line_opt("version: ", &self.metadata.version));
        lines.push(line_opt("author: ", &self.metadata.author));
        lines.push(line_opt("created: ", &self.metadata.created_at));
        lines.push(line_opt("updated: ", &self.metadata.updated_at));
        lines.push(line_count("requests: ", self.requests.len()));
        let ghost rsv = self@.requests;
        let ghost head = lines@.map_values(|v: Vec<char>| v@);
        let mut i: usize = 0;
        proof {
            assert(lines@.map_values(|v: Vec<char>| v@) =~= head + requests_lines(rsv.take(0)));
        }
        while i < self.requests.len()
            invariant
                i <= self.requests.len(),
                rsv == self.requests@.map_values(|q: crate::request::Request| q@),
                rsv == self@.requests,
                lines@.map_values(|v: Vec<char>| v@) == head + requests_lines(rsv.take(i as int)),
            decreases self.requests.len() - i,
        {
            proof {
                assert(rsv[i as int] == self.requests@[i as int]@);
            }
            push_request_lines(&mut lines, &self.requests[i]);
            proof {
                lemma_requests_lines_concat(rsv.take(i as int), seq![rsv[i as int]]);
                assert(rsv.take(i + 1) =~= rsv.take(i as int) + seq![rsv[i as int]]);
                assert(seq![rsv[i as int]].drop_first() =~= Seq::<RequestView>::empty());
                assert(requests_lines(Seq::<RequestView>::empty()) =~= Seq::<Seq<char>>::empty());
                assert(seq![rsv[i as int]][0] == rsv[i as int]);
                assert(requests_lines(seq![rsv[i as int]]) == request_lines(
                    seq![rsv[i as int]][0],
                ) + requests_lines(seq![rsv[i as int]].drop_first()));
                assert(requests_lines(seq![rsv[i as int]]) =~= request_lines(rsv[i as int]));
                assert(lines@.map_values(|v: Vec<char>| v@) =~= head + requests_lines(
                    rsv.take(i + 1),
                ));
            }
            i = i + 1;
        }
        proof {
            assert(rsv.take(rsv.len() as int) =~= rsv);
            assert(lines@.map_values(|v: Vec<char>| v@) =~= collection_lines(self@));
        }
        let chars = join_lines_exec(&lines);
        crate::text::string_from_chars(&chars)
    }
}

impl crate::request::Request {
    /// Renders the request as a document.
    pub fn encode(&self) -> (r: String)
        ensures
            r@ == encode_request_text(self@),
    {
        let mut lines: Vec<Vec<char>> = Vec::new();
        push_request_lines(&mut lines, self);
        proof {
            assert(lines@.map_values(|v: Vec<char>| v@) =~= request_lines(self@));
        }
        let chars = join_lines_exec(&lines);
        crate::text::string_from_chars(&chars)
    }
}

// ---------------------------------------------------------------------------
// Reading, executable
// ---------------------------------------------------------------------------

/// The views of a vector of line vectors.
pub open spec fn line_views(lines: Seq<Vec<char>>) -> Seq<Seq<char>> {
    lines.map_values(|v: Vec<char>| v@)
}

/// Whether the characters of `s` from `from` on equal the literal.
fn tail_matches(s: &Vec<char>, from: usize, lit: &str) -> (r: bool)
    requires
        from <= s@.len(),
    ensures
        r == (s@.skip(from as int) == lit@),
{
    let l = crate::text::chars_of(lit);
    if s.len() - from != l.len() {
        proof {
            assert(s@.skip(from as int).len() != lit@.len());
        }
        return false;
    }
    let mut i: usize = from;
    while i < s.len()
        invariant
            from as int + l@.len() == s@.len(),
            l@ == lit@,
            from <= i <= s@.len(),
            forall|j: int| 0 <= j < i - from ==> s@[from + j] == l@[j],
        decreases s.len() - i,
    {
        if s[i] != l[i - from] {
            proof {
                assert(s@.skip(from as int)[i - from] != lit@[i - from]);
            }
            return false;
        }
        i = i + 1;
    }
    proof {
        assert(s@.skip(from as int) =~= lit@);
    }
    true
}

/// The payload start when the line carries the given prefix.
fn strip_prefix_exec(line: &Vec<char>, prefix: &str) -> (r: Option<usize>)
    ensures
        match r {
            Option::Some(k) => k as int == prefix@.len() && strip_pref(line@, prefix@) == Some(
                line@.skip(k as int),
            ),
            Option::None => strip_pref(line@, prefix@) is None,
        },
{
    let p = crate::text::chars_of(prefix);
    if crate::text::chars_have_prefix(line, &p) {
        Some(p.len())
    } else {
        None
    }
}

/// Reads the optional scalar of a line from `from` on.
fn opt_dec_exec(line: &Vec<char>, from: usize) -> (r: Option<Option<String>>)
    requires
        from <= line@.len(),
    ensures
        match r {
            Option::Some(o) => opt_dec(line@.skip(from as int)) == Some(
                crate::collection::view_opt(o),
            ),
            Option::None => opt_dec(line@.skip(from as int)) is None,
        },
{
    let ghost l = line@.skip(from as int);
    if tail_matches(line, from, "~") {
        return Some(None);
    }
    if from < line.len() && line[from] == '|' {
        proof {
            assert(l[0] == '|');
            assert(l.skip(1) =~= line@.skip(from + 1));
        }
        match crate::text::unesc_range(line, from + 1, line.len()) {
            Option::Some(v) => {
                let s = crate::text::string_from_chars(&v);
                return Some(Some(s));
            },
            Option::None => {
                return None;
            },
        }
    }
    proof {
        if l.len() >= 1 {
            assert(l[0] == line@[from as int]);
        }
    }
    None
}

/// Reads the method name of a line from `from` on.
fn parse_method_exec(line: &Vec<char>, from: usize) -> (r: Option<HttpMethod>)
    requires
        from <= line@.len(),
    ensures
        r == parse_method(line@.skip(from as int)),
{
    if tail_matches(line, from, "GET") {
        Some(HttpMethod::Get)
    } else if tail_matches(line, from, "POST") {
        Some(HttpMethod::Post)
    } else if tail_matches(line, from, "PUT") {
        Some(HttpMethod::Put)
    } else if tail_matches(line, from, "PATCH") {
        Some(HttpMethod::Patch)
    } else if tail_matches(line, from, "DELETE") {
        Some(HttpMethod::Delete)
    } else if tail_matches(line, from, "HEAD") {
        Some(HttpMethod::Head)
    } else if tail_matches(line, from, "OPTIONS") {
        Some(HttpMethod::Options)
    } else {
        None
    }
}

/// Reads the count of a line from `from` on.
fn parse_count_exec(line: &Vec<char>, from: usize) -> (r: Option<usize>)
    requires
        from <= line@.len(),
    ensures
        match r {
            Option::Some(n) => parse_count(line@.skip(from as int)) == Some(n as nat),
            Option::None => parse_count(line@.skip(from as int)) is None,
        },
{
    let ghost l = line@.skip(from as int);
    proof {
        assert(l =~= line@.subrange(from as int, line@.len() as int));
    }
    crate::text::parse_dec_range(line, from, line.len())
}

/// Reads the unescaped scalar of a line from `from` on.
fn unesc_string(line: &Vec<char>, from: usize) -> (r: Option<String>)
    requires
        from <= line@.len(),
    ensures
        match r {
            Option::Some(s) => unesc(line@.skip(from as int)) == Some(s@),
            Option::None => unesc(line@.skip(from as int)) is None,
        },
{
    proof {
        assert(line@.skip(from as int) =~= line@.subrange(from as int, line@.len() as int));
    }
    match crate::text::unesc_range(line, from, line.len()) {
        Option::Some(v) => Some(crate::text::string_from_chars(&v)),
        Option::None => None,
    }
}

/// Reads `h` header pairs starting at line `pos`.
fn parse_headers_exec(lines: &Vec<Vec<char>>, pos: usize, h: usize) -> (r: Option<
    (Vec<(String, String)>, usize),
>)
    requires
        pos <= lines@.len(),
    ensures
        match r {
            Option::Some(p) => pos <= p.1 <= lines@.len() && parse_headers(
                line_views(lines@).skip(pos as int),
                h as nat,
            ) == Some(
                (
                    p.0@.map_values(|q: (String, String)| (q.0@, q.1@)),
                    line_views(lines@).skip(p.1 as int),
                ),
            ),
            Option::None => parse_headers(line_views(lines@).skip(pos as int), h as nat) is None,
        },
    decreases h,
{
    let ghost lv = line_views(lines@);
    let ghost suf = lv.skip(pos as int);
    if h == 0 {
        let out: Vec<(String, String)> = Vec::new();
        proof {
            assert(out@.map_values(|q: (String, String)| (q.0@, q.1@)) =~= Seq::<
                (Seq<char>, Seq<char>),
            >::empty());
        }
        return Some((out, pos));
    }
    if lines.len() - pos < 2 {
        return None;
    }
    proof {
        assert(suf[0] == lv[pos as int]);
        assert(suf[1] == lv[pos + 1]);
        assert(lv[pos as int] == lines@[pos as int]@);
        assert(lv[pos + 1] == lines@[pos + 1]@);
    }
    let kstart = match strip_prefix_exec(&lines[pos], "  - ") {
        Option::Some(k) => k,
        Option::None => {
            return None;
        },
    };
    let vstart = match strip_prefix_exec(&lines[pos + 1], "    ") {
        Option::Some(k) => k,
        Option::None => {
            return None;
        },
    };
    proof {
        assert(kstart <= lines@[pos as int]@.len());
        assert(vstart <= lines@[pos + 1]@.len());
    }
    let key = match unesc_string(&lines[pos], kstart) {
        Option::Some(s) => s,
        Option::None => {
            return None;
        },
    };
    let value = match unesc_string(&lines[pos + 1], vstart) {
        Option::Some(s) => s,
        Option::None => {
            return None;
        },
    };
    proof {
        assert(suf.skip(2) =~= lv.skip(pos + 2));
    }
    match parse_headers_exec(lines, pos + 2, h - 1) {
        Option::Some(p) => {
            let (mut rest, next) = p;
            rest.insert(0, (key, value));
            proof {
                assert(rest@.map_values(|q: (String, String)| (q.0@, q.1@)) =~= seq![
                    (key@, value@),
                ] + rest@.drop_first().map_values(|q: (String, String)| (q.0@, q.1@)));
            }
            Some((rest, next))
        },
        Option::None => None,
    }
}

/// Reads one request block starting at line `pos`.
fn parse_request_block_exec(lines: &Vec<Vec<char>>, pos: usize) -> (r: Option<
    (crate::request::Request, usize),
>)
    requires
        pos <= lines@.len(),
    ensures
        match r {
            Option::Some(p) => pos <= p.1 <= lines@.len() && parse_request_block(
                line_views(lines@).skip(pos as int),
            ) == Some((p.0@, line_views(lines@).skip(p.1 as int))),
            Option::None => parse_request_block(line_views(lines@).skip(pos as int)) is None,
        },
{
    let ghost lv = line_views(lines@);
    let ghost suf = lv.skip(pos as int);
    if lines.len() - pos < 5 {
        return None;
    }
    proof {
        assert(suf[0] == lv[pos as int] && lv[pos as int] == lines@[pos as int]@);
        assert(suf[1] == lv[pos + 1] && lv[pos + 1] == lines@[pos + 1]@);
        assert(suf[2] == lv[pos + 2] && lv[pos + 2] == lines@[pos + 2]@);
        assert(suf[3] == lv[pos + 3] && lv[pos + 3] == lines@[pos + 3]@);
        assert(suf[4] == lv[pos + 4] && lv[pos + 4] == lines@[pos + 4]@);
    }
    let nstart = match strip_prefix_exec(&lines[pos], "- name: ") {
        Option::Some(k) => k,
        Option::None => {
            return None;
        },
    };
    let mstart = match strip_prefix_exec(&lines[pos + 1], "  method: ") {
        Option::Some(k) => k,
        Option::None => {
            return None;
        },
    };
    let ustart = match strip_prefix_exec(&lines[pos + 2], "  url: ") {
        Option::Some(k) => k,
        Option::None => {
            return None;
        },
    };
    let bstart = match strip_prefix_exec(&lines[pos + 3], "  body: ") {
        Option::Some(k) => k,
        Option::None => {
            return None;
        },
    };
    let cstart = match strip_prefix_exec(&lines[pos + 4], "  headers: ") {
        Option::Some(k) => k,
        Option::None => {
            return None;
        },
    };
    let name = match unesc_string(&lines[pos], nstart) {
        Option::Some(s) => s,
        Option::None => {
            return None;
        },
    };
    let method = match parse_method_exec(&lines[pos + 1], mstart) {
        Option::Some(m) => m,
        Option::None => {
            return None;
        },
    };
    let url = match unesc_string(&lines[pos + 2], ustart) {
        Option::Some(s) => s,
        Option::None => {
            return None;
        },
    };
    let body = match opt_dec_exec(&lines[pos + 3], bstart) {
        Option::Some(o) => o,
        Option::None => {
            return None;
        },
    };
    let h = match parse_count_exec(&lines[pos + 4], cstart) {
        Option::Some(n) => n,
        Option::None => {
            return None;
        },
    };
    proof {
        assert(suf.skip(5) =~= lv.skip(pos + 5));
    }
    match parse_headers_exec(lines, pos + 5, h) {
        Option::Some(p) => {
            let (headers, next) = p;
            let q = crate::request::Request { method, url, headers, body, name };
            proof {
                assert(q@ == parse_request_block(suf)->Some_0.0);
            }
            Some((q, next))
        },
        Option::None => None,
    }
}

/// Reads `n` request blocks starting at line `pos`.
fn parse_requests_exec(lines: &Vec<Vec<char>>, pos: usize, n: usize) -> (r: Option<
    (Vec<crate::request::Request>, usize),
>)
    requires
        pos <= lines@.len(),
    ensures
        match r {
            Option::Some(p) => pos <= p.1 <= lines@.len() && parse_requests(
                line_views(lines@).skip(pos as int),
                n as nat,
            ) == Some(
                (
                    p.0@.map_values(|q: crate::request::Request| q@),
                    line_views(lines@).skip(p.1 as int),
                ),
            ),
            Option::None => parse_requests(line_views(lines@).skip(pos as int), n as nat) is None,
        },
    decreases n,
{
    let ghost lv = line_views(lines@);
    let ghost suf = lv.skip(pos as int);
    if n == 0 {
        let out: Vec<crate::request::Request> = Vec::new();
        proof {
            assert(out@.map_values(|q: crate::request::Request| q@) =~= Seq::<
                RequestView,
            >::empty());
        }
        return Some((out, pos));
    }
    match parse_request_block_exec(lines, pos) {
        Option::Some(p) => {
            let (q, mid) = p;
            match parse_requests_exec(lines, mid, n - 1) {
                Option::Some(p2) => {
                    let (mut rest, next) = p2;
                    rest.insert(0, q);
                    proof {
                        assert(rest@.map_values(|x: crate::request::Request| x@) =~= seq![q@]
                            + rest@.drop_first().map_values(|x: crate::request::Request| x@));
                    }
                    Some((rest, next))
                },
                Option::None => None,
            }
        },
        Option::None => None,
    }
}

/// Splits a text into line vectors.
fn lines_of_text(text: &str) -> (r: Vec<Vec<char>>)
    ensures
        line_views(r@) == split_lines(text@),
{
    let chars = crate::text::chars_of(text);
    let lines = crate::text::split_lines_exec(&chars);
    proof {
        assert(line_views(lines@) =~= split_lines(text@));
    }
    lines
}

impl crate::collection::Collection {
    /// Reads a collection document.  Yields `None` exactly when the text
    /// is not a well-formed collection document.
    pub fn parse(text: &str) -> (r: Option<Self>)
        ensures
            match r {
                Option::Some(c) => spec_parse_collection(text@) == Some(c@),
                Option::None => spec_parse_collection(text@) is None,
            },
    {
        let lines = lines_of_text(text);
        let ghost lv = line_views(lines@);
        if lines.len() < 7 {
            return None;
        }
        proof {
            assert(lv[0] == lines@[0]@);
            assert(lv[1] == lines@[1]@);
            assert(lv[2] == lines@[2]@);
            assert(lv[3] == lines@[3]@);
            assert(lv[4] == lines@[4]@);
            assert(lv[5] == lines@[5]@);
            assert(lv[6] == lines@[6]@);
        }
        let nstart = match strip_prefix_exec(&lines[0], "name: ") {
            Option::Some(k) => k,
            Option::None => {
                return None;
            },
        };
        let dstart = match strip_prefix_exec(&lines[1], "description: ") {
            Option::Some(k) => k,
            Option::None => {
                return None;
            },
        };
        let vstart = match strip_prefix_exec(&lines[2], "version: ") {
            Option::Some(k) => k,
            Option::None => {
                return None;
            },
        };
        let astart = match strip_prefix_exec(&lines[3], "author: ") {
            Option::Some(k) => k,
            Option::None => {
                return None;
            },
        };
        let cstart = match strip_prefix_exec(&lines[4], "created: ") {
            Option::Some(k) => k,
            Option::None => {
                return None;
            },
        };
        let ustart = match strip_prefix_exec(&lines[5], "updated: ") {
            Option::Some(k) => k,
            Option::None => {
                return None;
            },
        };
        let rstart = match strip_prefix_exec(&lines[6], "requests: ") {
            Option::Some(k) => k,
            Option::None => {
                return None;
            },
        };
        let name = match unesc_string(&lines[0], nstart) {
            Option::Some(s) => s,
            Option::None => {
                return None;
            },
        };
        let description = match opt_dec_exec(&lines[1], dstart) {
            Option::Some(o) => o,
            Option::None => {
                return None;
            },
        };
        let version = match opt_dec_exec(&lines[2], vstart) {
            Option::Some(o) => o,
            Option::None => {
                return None;
            },
        };
        let author = match opt_dec_exec(&lines[3], astart) {
            Option::Some(o) => o,
            Option::None => {
                return None;
            },
        };
        let created_at = match opt_dec_exec(&lines[4], cstart) {
            Option::Some(o) => o,
            Option::None => {
                return None;
            },
        };
        let updated_at = match opt_dec_exec(&lines[5], ustart) {
            Option::Some(o) => o,
            Option::None => {
                return None;
            },
        };
        let n = match parse_count_exec(&lines[6], rstart) {
            Option::Some(n) => n,
            Option::None => {
                return None;
            },
        };
        match parse_requests_exec(&lines, 7, n) {
            Option::Some(p) => {
                let (requests, next) = p;
                if next != lines.len() {
                    proof {
                        assert(lv.skip(next as int).len() > 0);
                    }
                    return None;
                }
                proof {
                    assert(lv.skip(next as int).len() == 0);
                }
                let c = crate::collection::Collection {
                    name,
                    requests,
                    description,
                    metadata: crate::collection::CollectionMetadata {
                        version,
                        author,
                        created_at,
                        updated_at,
                    },
                };
                proof {
                    assert(c@ == spec_parse_collection(text@)->Some_0);
                }
                Some(c)
            },
            Option::None => None,
        }
    }
}

impl crate::request::Request {
    /// Reads a request document.  Yields `None` exactly when the text is
    /// not a well-formed request document.
    pub fn parse(text: &str) -> (r: Option<Self>)
        ensures
            match r {
                Option::Some(q) => spec_parse_request(text@) == Some(q@),
                Option::None => spec_parse_request(text@) is None,
            },
    {
        let lines = lines_of_text(text);
        let ghost lv = line_views(lines@);
        proof {
            assert(lv.skip(0) =~= lv);
        }
        match parse_request_block_exec(&lines, 0) {
            Option::Some(p) => {
                let (q, next) = p;
                if next != lines.len() {
                    proof {
                        assert(lv.skip(next as int).len() > 0);
                    }
                    return None;
                }
                proof {
                    assert(lv.skip(next as int).len() == 0);
                }
                Some(q)
            },
            Option::None => None,
        }
    }
}

} // verus!
