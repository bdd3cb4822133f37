//! The document store: path resolution, file naming, and the content
//! side of loading and saving.  The host application performs the file
//! reads, atomic writes and deletions; every decision about paths and
//! document content is made here.

use crate::codec::{spec_parse_collection, spec_parse_request};
use crate::collection::Collection;
use crate::error::error_message;
use crate::request::{spec_validate_request, Request};
use crate::text::{has_suffix, str_has_suffix};
use vstd::prelude::*;
use vstd::string::StringExecFns;

verus! {

/// Spec-level shape of a `YAMLStoreError`.
pub ghost enum YAMLStoreErrorView {
    ReadError(Seq<char>),
    SerializeError(Seq<char>),
    FileNotFound(Seq<char>),
    InvalidPath,
    ValidationError(Seq<char>),
}

/// Error type for storage operations.
#[derive(Debug)]
pub enum YAMLStoreError {
    /// An I/O failure while reading, writing or creating directories.
    ReadError(String),
    /// A document failed to encode or decode.
    SerializeError(String),
    /// The resolved path does not exist.
    FileNotFound(String),
    /// The path could not be interpreted.
    InvalidPath,
    /// A loaded document failed validation.
    ValidationError(String),
}

impl View for YAMLStoreError {
    type V = YAMLStoreErrorView;

    open spec fn view(&self) -> YAMLStoreErrorView {
        match self {
            YAMLStoreError::ReadError(s) => YAMLStoreErrorView::ReadError(s@),
            YAMLStoreError::SerializeError(s) => YAMLStoreErrorView::SerializeError(s@),
            YAMLStoreError::FileNotFound(s) => YAMLStoreErrorView::FileNotFound(s@),
            YAMLStoreError::InvalidPath => YAMLStoreErrorView::InvalidPath,
            YAMLStoreError::ValidationError(s) => YAMLStoreErrorView::ValidationError(s@),
        }
    }
}

/// The rendering of a store error as one line of text.
pub open spec fn store_error_message(e: YAMLStoreErrorView) -> Seq<char> {
    match e {
        YAMLStoreErrorView::ReadError(m) => "Failed to read file: "@ + m,
        YAMLStoreErrorView::SerializeError(m) => "Failed to serialize YAML: "@ + m,
        YAMLStoreErrorView::FileNotFound(p) => "File not found: "@ + p,
        YAMLStoreErrorView::InvalidPath => "Invalid file path"@,
        YAMLStoreErrorView::ValidationError(m) => "Validation error: "@ + m,
    }
}

impl YAMLStoreError {
    /// Human-readable message for this error.
    pub fn display_string(&self) -> (r: String)
        ensures
            r@ == store_error_message(self@),
    {
        let mut m = String::new();
        match self {
            YAMLStoreError::ReadError(s) => {
                m.append("Failed to read file: ");
                m.append(s.as_str());
            },
            YAMLStoreError::SerializeError(s) => {
                m.append("Failed to serialize YAML: ");
                m.append(s.as_str());
            },
            YAMLStoreError::FileNotFound(s) => {
                m.append("File not found: ");
                m.append(s.as_str());
            },
            YAMLStoreError::InvalidPath => {
                m.append("Invalid file path");
            },
            YAMLStoreError::ValidationError(s) => {
                m.append("Validation error: ");
                m.append(s.as_str());
            },
        }
        m
    }
}

/// Result type for storage operations.
pub type YAMLStoreResult<T> = Result<T, YAMLStoreError>;

/// A path is absolute when it starts with a separator.
pub open spec fn is_absolute_path(p: Seq<char>) -> bool {
    p.len() >= 1 && p[0] == '/'
}

/// How a path argument resolves against a base directory: an absolute
/// path is used as is, a relative path is joined to the base.
pub open spec fn resolved_path(base: Seq<char>, p: Seq<char>) -> Seq<char> {
    if is_absolute_path(p) {
        p
    } else {
        base + "/"@ + p
    }
}

/// The path of a collection document named `filename` under `base`.
pub open spec fn collection_path(base: Seq<char>, filename: Seq<char>) -> Seq<char> {
    base + "/"@ + filename + ".collection.yaml"@
}

/// The path of a request document named `filename` under `base`.
pub open spec fn request_path(base: Seq<char>, filename: Seq<char>) -> Seq<char> {
    base + "/"@ + filename + ".request.yaml"@
}

/// File storage for requests and collections: the path rules and the
/// document contents.  The host application owns the actual file I/O.
#[derive(Debug)]
pub struct YAMLStore {
    base_path: String,
}

impl View for YAMLStore {
    type V = Seq<char>;

    closed spec fn view(&self) -> Seq<char> {
        self.base_path@
    }
}

impl YAMLStore {
    /// A store rooted at the given base directory.  The host application
    /// creates the directory if it is absent.
    pub fn new(base_path: &str) -> (r: Self)
        ensures
            r@ == base_path@,
    {
        YAMLStore { base_path: base_path.to_owned() }
    }

    /// The base directory of the store.
    pub fn base_path(&self) -> (r: &String)
        ensures
            r@ == self@,
    {
        &self.base_path
    }

    /// Resolves a path: absolute paths are used as is, relative paths
    /// are joined to the base directory.
    pub fn resolve_path(&self, path: &str) -> (r: String)
        ensures
            r@ == resolved_path(self@, path@),
    {
        let chars = crate::text::chars_of(path);
        if chars.len() >= 1 && chars[0] == '/' {
            path.to_owned()
        } else {
            let mut m = self.base_path.clone();
            m.append("/");
            m.append(path);
            m
        }
    }

    /// The target path for a collection saved under `filename`.
    pub fn collection_file_path(&self, filename: &str) -> (r: String)
        ensures
            r@ == collection_path(self@, filename@),
    {
        let mut m = self.base_path.clone();
        m.append("/");
        m.append(filename);
        m.append(".collection.yaml");
        m
    }

    /// The target path for a request saved under `filename`.
    pub fn request_file_path(&self, filename: &str) -> (r: String)
        ensures
            r@ == request_path(self@, filename@),
    {
        let mut m = self.base_path.clone();
        m.append("/");
        m.append(filename);
        m.append(".request.yaml");
        m
    }

    /// The document text and target path for saving a collection.
    pub fn render_collection(&self, collection: &Collection, filename: &str) -> (r: (
        String,
        String,
    ))
        ensures
            r.0@ == collection_path(self@, filename@),
            r.1@ == crate::codec::encode_collection_text(collection@),
    {
        (self.collection_file_path(filename), collection.encode())
    }

    /// The document text and target path for saving a request.
    pub fn render_request(&self, request: &Request, filename: &str) -> (r: (String, String))
        ensures
            r.0@ == request_path(self@, filename@),
            r.1@ == crate::codec::encode_request_text(request@),
    {
        (self.request_file_path(filename), request.encode())
    }

    /// Decodes the text of a collection file.  A text that is not a
    /// well-formed collection document is a serialize error; no further
    /// validation is applied on load.
    pub fn decode_collection(&self, text: &str) -> (r: YAMLStoreResult<Collection>)
        ensures
            match r {
                Result::Ok(c) => spec_parse_collection(text@) == Some(c@),
                Result::Err(e) => spec_parse_collection(text@) is None && e@
                    == YAMLStoreErrorView::SerializeError("not a collection document"@),
            },
    {
        match Collection::parse(text) {
            Option::Some(c) => Ok(c),
            Option::None => Err(
                YAMLStoreError::SerializeError("not a collection document".to_owned()),
            ),
        }
    }

    /// Decodes the text of a request file and validates the result, as
    /// loading a request is stricter than loading a collection.
    pub fn decode_request(&self, text: &str) -> (r: YAMLStoreResult<Request>)
        ensures
            match r {
                Result::Ok(q) => spec_parse_request(text@) == Some(q@) && spec_validate_request(
                    q@,
                ) is Ok,
                Result::Err(e) => match spec_parse_request(text@) {
                    Option::None => e@ == YAMLStoreErrorView::SerializeError(
                        "not a request document"@,
                    ),
                    Option::Some(q) => spec_validate_request(q) matches Result::Err(ve) && e@
                        == YAMLStoreErrorView::ValidationError(error_message(ve)),
                },
            },
    {
        match Request::parse(text) {
            Option::Some(q) => match q.validate() {
                Result::Ok(u) => Ok(q),
                Result::Err(e) => Err(YAMLStoreError::ValidationError(e.display_string())),
            },
            Option::None => Err(YAMLStoreError::SerializeError("not a request document".to_owned())),
        }
    }
}

/// The file name at the end of a path: everything after the last
/// separator.
pub open spec fn basename(p: Seq<char>) -> Seq<char>
    decreases p.len(),
{
    if p.len() == 0 {
        p
    } else if p.last() == '/' {
        Seq::empty()
    } else {
        basename(p.drop_last()).push(p.last())
    }
}

/// The stem a collection file was saved under: its file name with the
/// collection suffix removed.  A name without the suffix is kept whole.
pub open spec fn collection_stem(p: Seq<char>) -> Seq<char> {
    let b = basename(p);
    if has_suffix(b, ".collection.yaml"@) {
        b.take(b.len() - ".collection.yaml"@.len())
    } else {
        b
    }
}

/// The stem a collection file was saved under, used to save it again at
/// the same place after a migration.
pub fn collection_file_stem(path: &str) -> (r: String)
    ensures
        r@ == collection_stem(path@),
{
    let chars = crate::text::chars_of(path);
    // Find the start of the file name: just after the last separator.
    let mut start: usize = 0;
    let mut scan: usize = 0;
    while scan < chars.len()
        invariant
            chars@ == path@,
            start <= scan <= chars@.len(),
            start > 0 ==> chars@[start - 1] == '/',
            forall|j: int| start <= j < scan ==> chars@[j] != '/',
        decreases chars.len() - scan,
    {
        if chars[scan] == '/' {
            start = scan + 1;
        }
        scan = scan + 1;
    }
    proof {
        lemma_basename_stops(path@, start as int);
    }
    let mut name: Vec<char> = Vec::new();
    let mut i: usize = start;
    while i < chars.len()
        invariant
            start <= i <= chars@.len(),
            chars@ == path@,
            name@ == path@.subrange(start as int, i as int),
        decreases chars.len() - i,
    {
        name.push(chars[i]);
        proof {
            assert(name@ =~= path@.subrange(start as int, i + 1));
        }
        i = i + 1;
    }
    proof {
        assert(name@ =~= path@.skip(start as int));
        assert(name@ == basename(path@));
    }
    let suffix = crate::text::chars_of(".collection.yaml");
    if crate::text::chars_have_suffix(&name, &suffix) {
        let keep = name.len() - suffix.len();
        let mut stem: Vec<char> = Vec::new();
        let mut k: usize = 0;
        while k < keep
            invariant
                keep <= name@.len(),
                k <= keep,
                stem@ == name@.subrange(0, k as int),
            decreases keep - k,
        {
            stem.push(name[k]);
            proof {
                assert(stem@ =~= name@.subrange(0, k + 1));
            }
            k = k + 1;
        }
        proof {
            assert(stem@ =~= basename(path@).take(basename(path@).len() - ".collection.yaml"@.len()));
        }
        crate::text::string_from_chars(&stem)
    } else {
        crate::text::string_from_chars(&name)
    }
}

/// The basename of a path starts right after its last separator.
proof fn lemma_basename_stops(p: Seq<char>, start: int)
    requires
        0 <= start <= p.len(),
        forall|j: int| start <= j < p.len() ==> p[j] != '/',
        start > 0 ==> p[start - 1] == '/',
    ensures
        basename(p) == p.skip(start),
    decreases p.len(),
{
    if p.len() == 0 {
        assert(basename(p) =~= p.skip(start));
    } else if start == p.len() {
        if p.last() == '/' {
            assert(basename(p) =~= p.skip(start));
        } else {
            assert(start > 0 ==> p[start - 1] == '/');
            assert(p[p.len() - 1] != '/');
            assert(false);
        }
    } else {
        assert(p.last() != '/');
        lemma_basename_stops(p.drop_last(), start);
        assert(basename(p) == basename(p.drop_last()).push(p.last()));
        assert(p.drop_last().skip(start).push(p.last()) =~= p.skip(start));
    }
}

/// The directory part of a path: everything before the last separator,
/// empty when there is none.
pub open spec fn dirname(p: Seq<char>) -> Seq<char> {
    p.take(p.len() - basename(p).len() - (if basename(p).len() < p.len() {
        1int
    } else {
        0int
    }))
}

/// The folder that holds a collection's request files.  A path ending
/// in `/collection.yaml` names a collection folder directly; a path
/// ending in `.collection.yaml` names a sibling folder called after the
/// file's stem.  Anything else is not a collection file.
pub open spec fn spec_collection_folder(p: Seq<char>) -> Option<Seq<char>> {
    if has_suffix(p, "/collection.yaml"@) {
        Some(p.take(p.len() - "/collection.yaml"@.len()))
    } else if has_suffix(p, ".collection.yaml"@) {
        if basename(p).len() < p.len() {
            Some(dirname(p) + "/"@ + collection_stem(p))
        } else {
            Some(collection_stem(p))
        }
    } else {
        None
    }
}

/// The folder that holds a collection's request files, derived from the
/// collection file's path.
pub fn collection_folder_path(path: &str) -> (r: Result<String, String>)
    ensures
        match r {
            Result::Ok(f) => spec_collection_folder(path@) == Some(f@),
            Result::Err(m) => spec_collection_folder(path@) is None && m@
                == "Unsupported collection file format"@,
        },
{
    let chars = crate::text::chars_of(path);
    let folder_suffix = crate::text::chars_of("/collection.yaml");
    if crate::text::chars_have_suffix(&chars, &folder_suffix) {
        let keep = chars.len() - folder_suffix.len();
        let mut out: Vec<char> = Vec::new();
        let mut i: usize = 0;
        while i < keep
            invariant
                keep <= chars@.len(),
                chars@ == path@,
                i <= keep,
                out@ == path@.subrange(0, i as int),
            decreases keep - i,
        {
            out.push(chars[i]);
            proof {
                assert(out@ =~= path@.subrange(0, i + 1));
            }
            i = i + 1;
        }
        proof {
            assert(out@ =~= path@.take(path@.len() - "/collection.yaml"@.len()));
        }
        return Ok(crate::text::string_from_chars(&out));
    }
    if crate::text::str_has_suffix(path, ".collection.yaml") {
        let stem = collection_file_stem(path);
        // Find where the file name starts to recover the directory.
        let name_len = basename_length(path);
        proof {
            assert(name_len <= path@.len());
        }
        if name_len < chars.len() {
            let dir_len = chars.len() - name_len - 1;
            let mut out: Vec<char> = Vec::new();
            let mut i: usize = 0;
            while i < dir_len
                invariant
                    dir_len < chars@.len(),
                    chars@ == path@,
                    i <= dir_len,
                    out@ == path@.subrange(0, i as int),
                decreases dir_len - i,
            {
                out.push(chars[i]);
                proof {
                    assert(out@ =~= path@.subrange(0, i + 1));
                }
                i = i + 1;
            }
            proof {
                assert(out@ =~= dirname(path@));
            }
            let mut folder = crate::text::string_from_chars(&out);
            folder.append("/");
            folder.append(stem.as_str());
            return Ok(folder);
        }
        return Ok(stem);
    }
    Err("Unsupported collection file format".to_owned())
}

/// The length of a path's basename.
fn basename_length(path: &str) -> (r: usize)
    ensures
        r == basename(path@).len(),
        r <= path@.len(),
{
    let chars = crate::text::chars_of(path);
    let mut start: usize = 0;
    let mut scan: usize = 0;
    while scan < chars.len()
        invariant
            chars@ == path@,
            start <= scan <= chars@.len(),
            start > 0 ==> chars@[start - 1] == '/',
            forall|j: int| start <= j < scan ==> chars@[j] != '/',
        decreases chars.len() - scan,
    {
        if chars[scan] == '/' {
            start = scan + 1;
        }
        scan = scan + 1;
    }
    proof {
        lemma_basename_stops(path@, start as int);
    }
    chars.len() - start
}

/// The path of a request file named after a (sanitized) request name,
/// inside a collection folder.
pub fn request_file_in_folder(folder: &str, request_name: &str) -> (r: Result<String, String>)
    ensures
        match r {
            Result::Ok(p) => !crate::ops::all_dashes(crate::ops::sanitize(request_name@)) && p@
                == folder@ + "/"@ + crate::ops::sanitize(request_name@) + ".request.yaml"@,
            Result::Err(m) => crate::ops::all_dashes(crate::ops::sanitize(request_name@)) && m@
                == "Collection name must contain at least one alphanumeric character"@,
        },
{
    let name = match crate::ops::sanitize_filename(request_name) {
        Result::Ok(f) => f,
        Result::Err(m) => {
            return Err(m);
        },
    };
    let mut p = folder.to_owned();
    p.append("/");
    p.append(name.as_str());
    p.append(".request.yaml");
    Ok(p)
}

/// Keeps the paths that end with the given suffix, in order.
pub open spec fn spec_filter_suffix(paths: Seq<Seq<char>>, suffix: Seq<char>) -> Seq<Seq<char>>
    decreases paths.len(),
{
    if paths.len() == 0 {
        Seq::empty()
    } else {
        (if has_suffix(paths[0], suffix) {
            seq![paths[0]]
        } else {
            Seq::empty()
        }) + spec_filter_suffix(paths.drop_first(), suffix)
    }
}

pub proof fn lemma_filter_suffix_concat(a: Seq<Seq<char>>, b: Seq<Seq<char>>, suffix: Seq<char>)
    ensures
        spec_filter_suffix(a + b, suffix) == spec_filter_suffix(a, suffix) + spec_filter_suffix(
            b,
            suffix,
        ),
    decreases a.len(),
{
    if a.len() == 0 {
        assert(a + b =~= b);
        assert(spec_filter_suffix(a, suffix) + spec_filter_suffix(b, suffix)
            =~= spec_filter_suffix(b, suffix));
    } else {
        lemma_filter_suffix_concat(a.drop_first(), b, suffix);
        assert((a + b).drop_first() =~= a.drop_first() + b);
        assert((a + b)[0] == a[0]);
        let h = if has_suffix(a[0], suffix) {
            seq![a[0]]
        } else {
            Seq::<Seq<char>>::empty()
        };
        assert(spec_filter_suffix(a + b, suffix) =~= h + (spec_filter_suffix(
            a.drop_first(),
            suffix,
        ) + spec_filter_suffix(b, suffix)));
        assert(h + (spec_filter_suffix(a.drop_first(), suffix) + spec_filter_suffix(b, suffix))
            =~= (h + spec_filter_suffix(a.drop_first(), suffix)) + spec_filter_suffix(b, suffix));
    }
}

/// Keeps the paths that end with the given suffix, in their original
/// order.  This is the selection rule behind directory scans.
pub fn filter_paths_with_suffix(paths: &Vec<String>, suffix: &str) -> (r: Vec<String>)
    ensures
        r@.map_values(|s: String| s@) == spec_filter_suffix(
            paths@.map_values(|s: String| s@),
            suffix@,
        ),
{
    let ghost pv = paths@.map_values(|s: String| s@);
    let mut out: Vec<String> = Vec::new();
    let mut i: usize = 0;
    proof {
        assert(spec_filter_suffix(pv.take(0), suffix@) =~= Seq::<Seq<char>>::empty());
        assert(out@.map_values(|s: String| s@) =~= spec_filter_suffix(pv.take(0), suffix@));
    }
    while i < paths.len()
        invariant
            i <= paths.len(),
            pv == paths@.map_values(|s: String| s@),
            out@.map_values(|s: String| s@) == spec_filter_suffix(pv.take(i as int), suffix@),
        decreases paths.len() - i,
    {
        proof {
            assert(pv[i as int] == paths@[i as int]@);
            lemma_filter_suffix_concat(pv.take(i as int), seq![pv[i as int]], suffix@);
            assert(pv.take(i + 1) =~= pv.take(i as int) + seq![pv[i as int]]);
            assert(seq![pv[i as int]].drop_first() =~= Seq::<Seq<char>>::empty());
            assert(spec_filter_suffix(Seq::<Seq<char>>::empty(), suffix@) =~= Seq::<
                Seq<char>,
            >::empty());
            assert(spec_filter_suffix(seq![pv[i as int]], suffix@) =~= (if has_suffix(
                pv[i as int],
                suffix@,
            ) {
                seq![pv[i as int]]
            } else {
                Seq::<Seq<char>>::empty()
            }));
        }
        if str_has_suffix(paths[i].as_str(), suffix) {
            let ghost opre = out@;
            out.push(paths[i].clone());
            proof {
                assert(out@ =~= opre.push(out@.last()));
                assert(out@.map_values(|s: String| s@) =~= opre.map_values(|s: String| s@).push(
                    out@.last()@,
                ));
                assert(out@.map_values(|s: String| s@) =~= spec_filter_suffix(
                    pv.take(i + 1),
                    suffix@,
                ));
            }
        } else {
            proof {
                assert(spec_filter_suffix(pv.take(i + 1), suffix@) =~= spec_filter_suffix(
                    pv.take(i as int),
                    suffix@,
                ));
            }
        }
        i = i + 1;
    }
    proof {
        assert(pv.take(pv.len() as int) =~= pv);
    }
    out
}

} // verus!
