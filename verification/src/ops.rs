//! Operation entry points used by the host application: saving, listing
//! and deleting named requests, and deriving safe file names.

use crate::error::error_message;
use crate::request::{spec_validate_request, Request, RequestView};
use crate::request_store::{
    add_exists_message, entry_index, not_found_message, store_contains, RequestStore,
};
use crate::text::{chars_of, is_blank, is_blank_seq, string_from_chars};
use vstd::prelude::*;
use vstd::string::StringExecFns;

verus! {

/// Validates a request and stores it under its own name.  An invalid
/// request and a name collision are both reported as an error string,
/// and leave the store unchanged.
pub fn save_request_impl(request: Request, store: &mut RequestStore) -> (r: Result<(), String>)
    ensures
        match spec_validate_request(request@) {
            Result::Err(e) => r matches Result::Err(m) && m@ == error_message(e) && final(store)@
                == old(store)@,
            Result::Ok(u) => match r {
                Result::Ok(u2) => !store_contains(old(store)@, request@.name) && final(store)@
                    == old(store)@.push((request@.name, request@)),
                Result::Err(m) => store_contains(old(store)@, request@.name) && m@
                    == add_exists_message(request@.name) && final(store)@ == old(store)@,
            },
        },
{
    match request.validate() {
        Result::Err(e) => {
            return Err(e.display_string());
        },
        Result::Ok(u) => {},
    }
    let name = request.name.clone();
    match store.add_request(name.as_str(), request) {
        Result::Ok(u) => Ok(()),
        Result::Err(m) => Err(m),
    }
}

/// Lists the stored requests, in storage order.
pub fn list_requests_impl(store: &RequestStore) -> (r: Result<Vec<Request>, String>)
    ensures
        r matches Result::Ok(v) && v@.map_values(|q: Request| q@) == store@.map_values(
            |p: (Seq<char>, RequestView)| p.1,
        ),
{
    let all = store.get_all_requests();
    let mut out: Vec<Request> = Vec::new();
    let ghost allv = all@.map_values(|p: (String, Request)| (p.0@, p.1@));
    let mut i: usize = 0;
    while i < all.len()
        invariant
            i <= all.len(),
            allv == all@.map_values(|p: (String, Request)| (p.0@, p.1@)),
            out@.len() == i,
            forall|j: int| 0 <= j < i ==> (#[trigger] out@[j])@ == allv[j].1,
        decreases all.len() - i,
    {
        proof {
            assert(allv[i as int] == (all@[i as int].0@, all@[i as int].1@));
        }
        let q = all[i].1.clone();
        out.push(q);
        i = i + 1;
    }
    proof {
        assert(out@.map_values(|q: Request| q@) =~= store@.map_values(
            |p: (Seq<char>, RequestView)| p.1,
        ));
    }
    Ok(out)
}

/// Deletes the request stored under `name`.  A blank name and a missing
/// name are both reported as an error string.
pub fn delete_request_impl(name: String, store: &mut RequestStore) -> (r: Result<(), String>)
    ensures
        match r {
            Result::Ok(u) => !is_blank_seq(name@) && store_contains(old(store)@, name@)
                && final(store)@ == old(store)@.remove(entry_index(old(store)@, name@)),
            Result::Err(m) => final(store)@ == old(store)@ && ((is_blank_seq(name@) && m@
                == "Request name cannot be empty"@) || (!is_blank_seq(name@) && !store_contains(
                old(store)@,
                name@,
            ) && m@ == not_found_message(name@))),
        },
{
    if is_blank(name.as_str()) {
        return Err("Request name cannot be empty".to_owned());
    }
    store.delete_request(name.as_str())
}

// ---------------------------------------------------------------------------
// File names
// ---------------------------------------------------------------------------

/// How one character of a display name maps into a file name: spaces
/// become dashes, ASCII upper case folds to lower case, ASCII letters,
/// digits and dashes pass through, everything else is dropped.
pub open spec fn sanitize_char(c: char) -> Seq<char> {
    if c == ' ' {
        seq!['-']
    } else if 'A' <= c && c <= 'Z' {
        seq![(((c as u8) + 32) as char)]
    } else if ('a' <= c && c <= 'z') || ('0' <= c && c <= '9') || c == '-' {
        seq![c]
    } else {
        Seq::empty()
    }
}

/// The sanitized form of a display name.
pub open spec fn sanitize(s: Seq<char>) -> Seq<char>
    decreases s.len(),
{
    if s.len() == 0 {
        Seq::empty()
    } else {
        sanitize_char(s[0]) + sanitize(s.drop_first())
    }
}

pub proof fn lemma_sanitize_concat(a: Seq<char>, b: Seq<char>)
    ensures
        sanitize(a + b) == sanitize(a) + sanitize(b),
    decreases a.len(),
{
    if a.len() == 0 {
        assert(a + b =~= b);
        assert(sanitize(a) + sanitize(b) =~= sanitize(b));
    } else {
        lemma_sanitize_concat(a.drop_first(), b);
        assert((a + b).drop_first() =~= a.drop_first() + b);
        assert((a + b)[0] == a[0]);
        assert(sanitize(a + b) =~= sanitize_char(a[0]) + (sanitize(a.drop_first()) + sanitize(b)));
        assert(sanitize_char(a[0]) + (sanitize(a.drop_first()) + sanitize(b)) =~= (sanitize_char(
            a[0],
        ) + sanitize(a.drop_first())) + sanitize(b));
    }
}

/// A sanitized name that holds no alphanumeric character: empty, or
/// dashes only.
pub open spec fn all_dashes(s: Seq<char>) -> bool {
    forall|i: int| 0 <= i < s.len() ==> #[trigger] s[i] == '-'
}

/// Derives a safe file name from a display name: lower case, spaces as
/// dashes, ASCII letters, digits and dashes only.  Fails when nothing
/// alphanumeric remains.
pub fn sanitize_filename(name: &str) -> (r: Result<String, String>)
    ensures
        match r {
            Result::Ok(f) => f@ == sanitize(name@) && !all_dashes(sanitize(name@)),
            Result::Err(m) => all_dashes(sanitize(name@)) && m@
                == "Collection name must contain at least one alphanumeric character"@,
        },
{
    let v = chars_of(name);
    let mut out: Vec<char> = Vec::new();
    let mut i: usize = 0;
    while i < v.len()
        invariant
            i <= v.len(),
            v@ == name@,
            out@ == sanitize(name@.take(i as int)),
        decreases v.len() - i,
    {
        let c = v[i];
        proof {
            lemma_sanitize_concat(name@.take(i as int), seq![name@[i as int]]);
            assert(name@.take(i + 1) =~= name@.take(i as int) + seq![name@[i as int]]);
            assert(seq![name@[i as int]].drop_first() =~= Seq::<char>::empty());
            assert(sanitize(seq![name@[i as int]]) =~= sanitize_char(name@[i as int]) + sanitize(
                Seq::<char>::empty(),
            ));
            assert(sanitize(seq![name@[i as int]]) =~= sanitize_char(name@[i as int]));
        }
        if c == ' ' {
            out.push('-');
        } else if 'A' <= c && c <= 'Z' {
            out.push(((c as u8) + 32) as char);
        } else if ('a' <= c && c <= 'z') || ('0' <= c && c <= '9') || c == '-' {
            out.push(c);
        }
        proof {
            assert(out@ =~= sanitize(name@.take(i + 1)));
        }
        i = i + 1;
    }
    proof {
        assert(name@.take(name@.len() as int) =~= name@);
    }
    let mut only_dashes = true;
    let mut j: usize = 0;
    while j < out.len()
        invariant
            j <= out.len(),
            out@ == sanitize(name@),
            only_dashes == (forall|k: int| 0 <= k < j ==> #[trigger] out@[k] == '-'),
        decreases out.len() - j,
    {
        if out[j] != '-' {
            only_dashes = false;
        }
        j = j + 1;
    }
    if out.len() == 0 || only_dashes {
        return Err("Collection name must contain at least one alphanumeric character".to_owned());
    }
    proof {
        assert(!all_dashes(sanitize(name@)));
    }
    Ok(string_from_chars(&out))
}

/// What creating a collection yields: the new collection and the file
/// path it is stored at.
#[derive(Debug)]
pub struct CreateCollectionResponse {
    pub collection: crate::collection::Collection,
    pub path: String,
}

/// Plans a new collection: a fresh collection with default metadata,
/// stored as `collection.yaml` inside a folder named after the
/// sanitized display name.  Fails when the name sanitizes to nothing.
/// The host application creates the folder and writes the file.
pub fn plan_new_collection(name: &str, base_path: &str) -> (r: Result<
    CreateCollectionResponse,
    String,
>)
    ensures
        match r {
            Result::Ok(resp) => !all_dashes(sanitize(name@)) && resp.collection@.name == name@
                && resp.collection@.requests == Seq::<crate::request::RequestView>::empty()
                && resp.collection@.description is None && resp.collection@.metadata
                == crate::collection::default_metadata() && resp.path@ == base_path@ + "/"@
                + sanitize(name@) + "/collection.yaml"@,
            Result::Err(m) => all_dashes(sanitize(name@)) && m@
                == "Collection name must contain at least one alphanumeric character"@,
        },
{
    let folder = match sanitize_filename(name) {
        Result::Ok(f) => f,
        Result::Err(m) => {
            return Err(m);
        },
    };
    let collection = crate::collection::Collection::new(name);
    let mut path = base_path.to_owned();
    path.append("/");
    path.append(folder.as_str());
    path.append("/collection.yaml");
    Ok(CreateCollectionResponse { collection, path })
}

} // verus!
