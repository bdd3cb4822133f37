//! An independent in-memory store of ad-hoc named requests, not tied to
//! any collection.  Unlike the collection manager's request index, it
//! refuses to overwrite on `add`; `update` must be used instead.

use crate::request::{Request, RequestView};
use crate::text::{is_blank, is_blank_seq, str_eq};
use vstd::prelude::*;
use vstd::string::StringExecFns;

verus! {

/// Index of the first entry with the given name, or the length of the
/// list when the name is absent.
pub open spec fn entry_index(es: Seq<(Seq<char>, RequestView)>, name: Seq<char>) -> int
    decreases es.len(),
{
    if es.len() == 0 {
        0
    } else if es[0].0 == name {
        0
    } else {
        1 + entry_index(es.drop_first(), name)
    }
}

pub open spec fn store_contains(es: Seq<(Seq<char>, RequestView)>, name: Seq<char>) -> bool {
    entry_index(es, name) < es.len()
}

pub proof fn lemma_entry_index_bounds(es: Seq<(Seq<char>, RequestView)>, name: Seq<char>)
    ensures
        0 <= entry_index(es, name) <= es.len(),
        entry_index(es, name) < es.len() ==> es[entry_index(es, name)].0 == name,
        forall|j: int| 0 <= j < entry_index(es, name) ==> (#[trigger] es[j]).0 != name,
    decreases es.len(),
{
    if es.len() > 0 && es[0].0 != name {
        lemma_entry_index_bounds(es.drop_first(), name);
        assert(forall|j: int| 1 <= j < es.len() ==> #[trigger] es[j] == es.drop_first()[j - 1]);
    }
}

/// In-memory request storage.  The entries behave as an association
/// list: a name stored through `add_request` occurs exactly once.
#[derive(Debug)]
pub struct RequestStore {
    entries: Vec<(String, Request)>,
}

impl View for RequestStore {
    type V = Seq<(Seq<char>, RequestView)>;

    closed spec fn view(&self) -> Seq<(Seq<char>, RequestView)> {
        self.entries@.map_values(|p: (String, Request)| (p.0@, p.1@))
    }
}

impl RequestStore {
    /// Creates a new empty store.
    pub fn new() -> (r: Self)
        ensures
            r@ == Seq::<(Seq<char>, RequestView)>::empty(),
    {
        let r = RequestStore { entries: Vec::new() };
        proof {
            assert(r@ =~= Seq::<(Seq<char>, RequestView)>::empty());
        }
        r
    }

    /// Returns the number of requests in the store.
    pub fn len(&self) -> (r: usize)
        ensures
            r == self@.len(),
    {
        self.entries.len()
    }

    /// Returns true if the store is empty.
    pub fn is_empty(&self) -> (r: bool)
        ensures
            r == (self@.len() == 0),
    {
        self.entries.is_empty()
    }

    /// Position of the first entry with this name, or the entry count
    /// when the name is absent.
    fn find_index(&self, name: &str) -> (r: usize)
        ensures
            r == entry_index(self@, name@),
    {
        let ghost esv = self@;
        proof {
            lemma_entry_index_bounds(esv, name@);
        }
        let mut i: usize = 0;
        while i < self.entries.len()
            invariant
                i <= self.entries.len(),
                esv == self.entries@.map_values(|p: (String, Request)| (p.0@, p.1@)),
                0 <= entry_index(esv, name@) <= esv.len(),
                entry_index(esv, name@) < esv.len() ==> esv[entry_index(esv, name@)].0 == name@,
                forall|j: int| 0 <= j < entry_index(esv, name@) ==> (#[trigger] esv[j]).0 != name@,
                entry_index(esv, name@) >= i,
            decreases self.entries.len() - i,
        {
            proof {
                assert(esv[i as int] == (self.entries@[i as int].0@, self.entries@[i as int].1@));
            }
            if str_eq(self.entries[i].0.as_str(), name) {
                proof {
                    assert(entry_index(esv, name@) == i) by {
                        if entry_index(esv, name@) > i {
                            assert(esv[i as int].0 != name@);
                        }
                    }
                }
                return i;
            }
            proof {
                if entry_index(esv, name@) == i {
                    assert(esv[i as int].0 == name@);
                    assert(false);
                }
            }
            i = i + 1;
        }
        self.entries.len()
    }

    /// Adds a new request under `name`.  Fails when the name is blank or
    /// already present; an existing entry is never overwritten, and a
    /// failed call leaves the store unchanged.
    pub fn add_request(&mut self, name: &str, request: Request) -> (r: Result<(), String>)
        ensures
            match r {
                Result::Ok(u) => !is_blank_seq(name@) && !store_contains(old(self)@, name@)
                    && final(self)@ == old(self)@.push((name@, request@)),
                Result::Err(m) => final(self)@ == old(self)@ && ((is_blank_seq(name@) && m@
                    == "Request name cannot be empty"@) || (!is_blank_seq(name@)
                    && store_contains(old(self)@, name@) && m@ == add_exists_message(name@))),
            },
    {
        if is_blank(name) {
            return Err("Request name cannot be empty".to_owned());
        }
        let idx = self.find_index(name);
        proof {
            lemma_entry_index_bounds(self@, name@);
        }
        if idx < self.entries.len() {
            let mut m = String::new();
            m.append("Request with name '");
            m.append(name);
            m.append("' already exists");
            return Err(m);
        }
        self.entries.push((name.to_owned(), request));
        proof {
            assert(self@ =~= old(self)@.push((name@, request@)));
        }
        Ok(())
    }

    /// Replaces the request stored under `name`.  Fails when the name is
    /// not present; a failed call leaves the store unchanged.
    pub fn update_request(&mut self, name: &str, request: Request) -> (r: Result<(), String>)
        ensures
            match r {
                Result::Ok(u) => store_contains(old(self)@, name@) && final(self)@ == old(
                    self,
                )@.update(entry_index(old(self)@, name@), (name@, request@)),
                Result::Err(m) => final(self)@ == old(self)@ && !store_contains(old(self)@, name@)
                    && m@ == not_found_message(name@),
            },
    {
        let idx = self.find_index(name);
        proof {
            lemma_entry_index_bounds(self@, name@);
        }
        if idx >= self.entries.len() {
            return Err(not_found_string(name));
        }
        self.entries.remove(idx);
        self.entries.insert(idx, (name.to_owned(), request));
        proof {
            assert(self@ =~= old(self)@.update(entry_index(old(self)@, name@), (name@, request@)));
        }
        Ok(())
    }

    /// Removes the request stored under `name`.  Fails when the name is
    /// not present; a failed call leaves the store unchanged.
    pub fn delete_request(&mut self, name: &str) -> (r: Result<(), String>)
        ensures
            match r {
                Result::Ok(u) => store_contains(old(self)@, name@) && final(self)@ == old(
                    self,
                )@.remove(entry_index(old(self)@, name@)),
                Result::Err(m) => final(self)@ == old(self)@ && !store_contains(old(self)@, name@)
                    && m@ == not_found_message(name@),
            },
    {
        let idx = self.find_index(name);
        proof {
            lemma_entry_index_bounds(self@, name@);
        }
        if idx >= self.entries.len() {
            return Err(not_found_string(name));
        }
        self.entries.remove(idx);
        proof {
            assert(self@ =~= old(self)@.remove(entry_index(old(self)@, name@)));
        }
        Ok(())
    }

    /// Retrieves a copy of the request stored under `name`.
    pub fn get_request(&self, name: &str) -> (r: Option<Request>)
        ensures
            match r {
                Option::Some(q) => store_contains(self@, name@) && q@ == self@[entry_index(
                    self@,
                    name@,
                )].1,
                Option::None => !store_contains(self@, name@),
            },
    {
        let idx = self.find_index(name);
        proof {
            lemma_entry_index_bounds(self@, name@);
            if idx < self.entries.len() {
                assert(self@[idx as int] == (self.entries@[idx as int].0@,
                self.entries@[idx as int].1@));
            }
        }
        if idx < self.entries.len() {
            Some(self.entries[idx].1.clone())
        } else {
            None
        }
    }

    /// Retrieves all `(name, request)` pairs, in storage order.
    pub fn get_all_requests(&self) -> (r: Vec<(String, Request)>)
        ensures
            r@.map_values(|p: (String, Request)| (p.0@, p.1@)) == self@,
    {
        clone_entries(&self.entries)
    }

    /// Checks whether a request with the given name exists.
    pub fn contains(&self, name: &str) -> (r: bool)
        ensures
            r == store_contains(self@, name@),
    {
        let idx = self.find_index(name);
        idx < self.entries.len()
    }

    /// Removes every request from the store.
    pub fn clear(&mut self)
        ensures
            final(self)@ == Seq::<(Seq<char>, RequestView)>::empty(),
    {
        self.entries.clear();
        proof {
            assert(self@ =~= Seq::<(Seq<char>, RequestView)>::empty());
        }
    }
}

impl Default for RequestStore {
    fn default() -> (r: Self)
        ensures
            r@ == Seq::<(Seq<char>, RequestView)>::empty(),
    {
        RequestStore::new()
    }
}

impl Clone for RequestStore {
    /// A clone carries exactly the same entries.
    fn clone(&self) -> (r: Self)
        ensures
            r@ == self@,
    {
        RequestStore { entries: clone_entries(&self.entries) }
    }
}

fn clone_entries(entries: &Vec<(String, Request)>) -> (r: Vec<(String, Request)>)
    ensures
        r@.map_values(|p: (String, Request)| (p.0@, p.1@)) == entries@.map_values(
            |p: (String, Request)| (p.0@, p.1@),
        ),
{
    let mut out: Vec<(String, Request)> = Vec::new();
    let mut i: usize = 0;
    while i < entries.len()
        invariant
            i <= entries.len(),
            out@.len() == i,
            forall|j: int|
                0 <= j < i ==> (#[trigger] out@[j]).0@ == entries@[j].0@ && out@[j].1@
                    == entries@[j].1@,
        decreases entries.len() - i,
    {
        let k = entries[i].0.clone();
        let q = entries[i].1.clone();
        out.push((k, q));
        i = i + 1;
    }
    proof {
        assert(out@.map_values(|p: (String, Request)| (p.0@, p.1@)) =~= entries@.map_values(
            |p: (String, Request)| (p.0@, p.1@),
        ));
    }
    out
}

/// The message reported when an added name is already taken.
pub open spec fn add_exists_message(name: Seq<char>) -> Seq<char> {
    "Request with name '"@ + name + "' already exists"@
}

/// The message reported when a named request is missing.
pub open spec fn not_found_message(name: Seq<char>) -> Seq<char> {
    "Request with name '"@ + name + "' not found"@
}

fn not_found_string(name: &str) -> (r: String)
    ensures
        r@ == not_found_message(name@),
{
    let mut m = String::new();
    m.append("Request with name '");
    m.append(name);
    m.append("' not found");
    m
}

} // verus!
