//! Collections: ordered lists of named requests with metadata.

use crate::request::{Request, RequestView};
use crate::text::{dec_digits, str_eq, usize_to_string};
use vstd::prelude::*;
use vstd::string::StringExecFns;

verus! {

/// Spec-level shape of collection metadata.
pub ghost struct MetadataView {
    pub version: Option<Seq<char>>,
    pub author: Option<Seq<char>>,
    pub created_at: Option<Seq<char>>,
    pub updated_at: Option<Seq<char>>,
}

/// Metadata associated with a collection.
#[derive(Debug)]
pub struct CollectionMetadata {
    /// Collection version.
    pub version: Option<String>,
    /// Collection author.
    pub author: Option<String>,
    /// Creation timestamp (ISO 8601 format).
    pub created_at: Option<String>,
    /// Last modified timestamp (ISO 8601 format).
    pub updated_at: Option<String>,
}

pub open spec fn view_opt(o: Option<String>) -> Option<Seq<char>> {
    match o {
        Option::Some(s) => Some(s@),
        Option::None => None,
    }
}

impl View for CollectionMetadata {
    type V = MetadataView;

    open spec fn view(&self) -> MetadataView {
        MetadataView {
            version: view_opt(self.version),
            author: view_opt(self.author),
            created_at: view_opt(self.created_at),
            updated_at: view_opt(self.updated_at),
        }
    }
}

/// The default metadata: version `1.0.0`, everything else absent.
pub open spec fn default_metadata() -> MetadataView {
    MetadataView { version: Some("1.0.0"@), author: None, created_at: None, updated_at: None }
}

impl Default for CollectionMetadata {
    fn default() -> (r: Self)
        ensures
            r@ == default_metadata(),
    {
        CollectionMetadata {
            version: Some("1.0.0".to_owned()),
            author: None,
            created_at: None,
            updated_at: None,
        }
    }
}

/// Clone an optional string field.
pub fn clone_description(o: &Option<String>) -> (r: Option<String>)
    ensures
        view_opt(r) == view_opt(*o),
{
    match o {
        Option::Some(s) => Some(s.clone()),
        Option::None => None,
    }
}

impl Clone for CollectionMetadata {
    /// A clone carries exactly the same data.
    fn clone(&self) -> (r: Self)
        ensures
            r@ == self@,
    {
        CollectionMetadata {
            version: clone_description(&self.version),
            author: clone_description(&self.author),
            created_at: clone_description(&self.created_at),
            updated_at: clone_description(&self.updated_at),
        }
    }
}

/// Spec-level shape of a `Collection`.
pub ghost struct CollectionView {
    pub name: Seq<char>,
    pub requests: Seq<RequestView>,
    pub description: Option<Seq<char>>,
    pub metadata: MetadataView,
}

/// A collection of HTTP requests.
///
/// Nothing forces request names inside a collection to be unique;
/// uniqueness is a validated property, not a structural one.
#[derive(Debug)]
pub struct Collection {
    /// Collection name.
    pub name: String,
    /// List of requests in this collection.
    pub requests: Vec<Request>,
    /// Optional description of the collection.
    pub description: Option<String>,
    /// Collection metadata (version, author, etc.).
    pub metadata: CollectionMetadata,
}

impl View for Collection {
    type V = CollectionView;

    open spec fn view(&self) -> CollectionView {
        CollectionView {
            name: self.name@,
            requests: self.requests@.map_values(|r: Request| r@),
            description: view_opt(self.description),
            metadata: self.metadata@,
        }
    }
}

/// Clone a list of requests.
pub fn requests_clone(requests: &Vec<Request>) -> (r: Vec<Request>)
    ensures
        r@.map_values(|q: Request| q@) == requests@.map_values(|q: Request| q@),
{
    let mut out: Vec<Request> = Vec::new();
    let mut i: usize = 0;
    while i < requests.len()
        invariant
            i <= requests.len(),
            out@.len() == i,
            forall|j: int| 0 <= j < i ==> (#[trigger] out@[j])@ == requests@[j]@,
        decreases requests.len() - i,
    {
        out.push(requests[i].clone());
        i = i + 1;
    }
    proof {
        assert(out@.map_values(|q: Request| q@) =~= requests@.map_values(|q: Request| q@));
    }
    out
}

impl Clone for Collection {
    /// A clone carries exactly the same data.
    fn clone(&self) -> (r: Self)
        ensures
            r@ == self@,
    {
        Collection {
            name: self.name.clone(),
            requests: requests_clone(&self.requests),
            description: clone_description(&self.description),
            metadata: self.metadata.clone(),
        }
    }
}

/// Index of the first request with the given name, or the length of the
/// list when no request carries it.
pub open spec fn request_name_index(rs: Seq<RequestView>, name: Seq<char>) -> int
    decreases rs.len(),
{
    if rs.len() == 0 {
        0
    } else if rs[0].name == name {
        0
    } else {
        1 + request_name_index(rs.drop_first(), name)
    }
}

pub proof fn lemma_request_name_index_bounds(rs: Seq<RequestView>, name: Seq<char>)
    ensures
        0 <= request_name_index(rs, name) <= rs.len(),
        request_name_index(rs, name) < rs.len() ==> rs[request_name_index(rs, name)].name == name,
        forall|j: int| 0 <= j < request_name_index(rs, name) ==> (#[trigger] rs[j]).name != name,
    decreases rs.len(),
{
    if rs.len() > 0 && rs[0].name != name {
        lemma_request_name_index_bounds(rs.drop_first(), name);
        assert(forall|j: int| 1 <= j < rs.len() ==> #[trigger] rs[j] == rs.drop_first()[j - 1]);
    }
}

impl Collection {
    /// Creates a new collection with the given name and default metadata.
    pub fn new(name: &str) -> (r: Self)
        ensures
            r@.name == name@,
            r@.requests == Seq::<RequestView>::empty(),
            r@.description is None,
            r@.metadata == default_metadata(),
    {
        let r = Collection {
            name: name.to_owned(),
            requests: Vec::new(),
            description: None,
            metadata: CollectionMetadata::default(),
        };
        proof {
            assert(r@.requests =~= Seq::<RequestView>::empty());
        }
        r
    }

    /// Sets the collection description.
    pub fn with_description(self, description: &str) -> (r: Self)
        ensures
            r@ == (CollectionView { description: Some(description@), ..self@ }),
    {
        Collection { description: Some(description.to_owned()), ..self }
    }

    /// Adds a request to the collection.
    pub fn add_request(self, request: Request) -> (r: Self)
        ensures
            r@ == (CollectionView { requests: self@.requests.push(request@), ..self@ }),
    {
        let Collection { name, mut requests, description, metadata } = self;
        requests.push(request);
        let r = Collection { name, requests, description, metadata };
        proof {
            assert(r@.requests =~= self@.requests.push(request@));
        }
        r
    }

    /// Sets the collection author.
    pub fn with_author(self, author: &str) -> (r: Self)
        ensures
            r@ == (CollectionView {
                metadata: (MetadataView { author: Some(author@), ..self@.metadata }),
                ..self@
            }),
    {
        let Collection { name, requests, description, metadata } = self;
        let metadata = CollectionMetadata { author: Some(author.to_owned()), ..metadata };
        Collection { name, requests, description, metadata }
    }

    /// Returns the number of requests in the collection.
    pub fn len(&self) -> (r: usize)
        ensures
            r == self@.requests.len(),
    {
        self.requests.len()
    }

    /// Checks if the collection is empty.
    pub fn is_empty(&self) -> (r: bool)
        ensures
            r == (self@.requests.len() == 0),
    {
        self.requests.is_empty()
    }

    /// Finds the first request with the given name.
    pub fn find_request(&self, name: &str) -> (r: Option<&Request>)
        ensures
            match r {
                Option::Some(q) => {
                    let i = request_name_index(self@.requests, name@);
                    i < self@.requests.len() && q@ == self@.requests[i]
                },
                Option::None => request_name_index(self@.requests, name@)
                    == self@.requests.len(),
            },
    {
        let ghost rsv = self@.requests;
        proof {
            lemma_request_name_index_bounds(rsv, name@);
        }
        let mut i: usize = 0;
        while i < self.requests.len()
            invariant
                i <= self.requests.len(),
                rsv == self.requests@.map_values(|q: Request| q@),
                0 <= request_name_index(rsv, name@) <= rsv.len(),
                request_name_index(rsv, name@) < rsv.len() ==> rsv[request_name_index(
                    rsv,
                    name@,
                )].name == name@,
                forall|j: int| 0 <= j < request_name_index(rsv, name@) ==> (
                #[trigger] rsv[j]).name != name@,
                request_name_index(rsv, name@) >= i,
            decreases self.requests.len() - i,
        {
            proof {
                assert(rsv[i as int] == self.requests@[i as int]@);
            }
            if str_eq(self.requests[i].name.as_str(), name) {
                proof {
                    assert(request_name_index(rsv, name@) == i) by {
                        if request_name_index(rsv, name@) > i {
                            assert(rsv[i as int].name != name@);
                        }
                    }
                }
                return Some(&self.requests[i]);
            }
            proof {
                if request_name_index(rsv, name@) == i {
                    assert(rsv[i as int].name == name@);
                    assert(false);
                }
            }
            i = i + 1;
        }
        None
    }

    /// One-line description of the collection: name, request count, and
    /// the description when one is set.
    pub fn display_string(&self) -> (r: String)
        ensures
            r@ == collection_display(self@),
    {
        let mut m = String::new();
        m.append("Collection '");
        m.append(self.name.as_str());
        m.append("' (");
        let d = usize_to_string(self.requests.len());
        m.append(d.as_str());
        m.append(" request(s))");
        match &self.description {
            Option::Some(desc) => {
                m.append(": ");
                m.append(desc.as_str());
            },
            Option::None => {},
        }
        proof {
            assert(m@ =~= collection_display(self@));
        }
        m
    }
}

/// The one-line rendering of a collection.
pub open spec fn collection_display(c: CollectionView) -> Seq<char> {
    "Collection '"@ + c.name + "' ("@ + dec_digits(c.requests.len() as nat) + " request(s))"@ + (
    match c.description {
        Option::Some(d) => ": "@ + d,
        Option::None => Seq::empty(),
    })
}

} // verus!
