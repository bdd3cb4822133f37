//! The collection manager: validation and repair of collections, and the
//! in-memory indices kept beside the on-disk store.

use crate::collection::{request_name_index, Collection, CollectionView, MetadataView};
use crate::error::error_message;
use crate::request::{spec_validate_request, Request, RequestView};
use crate::text::{dec_digits, str_eq, usize_to_string};
use vstd::prelude::*;
use vstd::string::StringExecFns;

verus! {

// ---------------------------------------------------------------------------
// Validation and repair
// ---------------------------------------------------------------------------

/// Issues raised by the metadata check.
pub open spec fn meta_issues(m: MetadataView) -> Seq<Seq<char>> {
    if m.version is None {
        seq!["Missing version metadata"@]
    } else {
        Seq::empty()
    }
}

/// The metadata after the check: a missing version is backfilled when
/// fixing.
pub open spec fn fixed_metadata(m: MetadataView, fix: bool) -> MetadataView {
    if fix && m.version is None {
        MetadataView { version: Some("1.0.0"@), ..m }
    } else {
        m
    }
}

/// Whether the request at `i` repeats a name that occurred earlier.
pub open spec fn is_dup_at(rs: Seq<RequestView>, i: int) -> bool {
    exists|k: int| 0 <= k < i && (#[trigger] rs[k]).name == rs[i].name
}

/// The name a duplicate at position `i` is renamed to: the original name
/// with the absolute position appended.
pub open spec fn renamed_name(name: Seq<char>, i: int) -> Seq<char> {
    name + " ("@ + dec_digits(i as nat) + ")"@
}

/// The issue reported for a duplicate at position `i`.
pub open spec fn dup_issue(rs: Seq<RequestView>, i: int) -> Seq<char> {
    "Duplicate request name '"@ + rs[i].name + "' at indices "@ + dec_digits(
        request_name_index(rs, rs[i].name) as nat,
    ) + " and "@ + dec_digits(i as nat)
}

/// Issues raised by the duplicate check over the first `n` requests, in
/// position order.
pub open spec fn dup_issues_upto(rs: Seq<RequestView>, n: int) -> Seq<Seq<char>>
    decreases n,
{
    if n <= 0 {
        Seq::empty()
    } else {
        dup_issues_upto(rs, n - 1) + (if is_dup_at(rs, n - 1) {
            seq![dup_issue(rs, n - 1)]
        } else {
            Seq::empty()
        })
    }
}

pub open spec fn dup_issues(rs: Seq<RequestView>) -> Seq<Seq<char>> {
    dup_issues_upto(rs, rs.len() as int)
}

/// The request list after the duplicate check: when fixing, every
/// duplicate occurrence (never the first) is renamed.
pub open spec fn dup_fixed_requests(rs: Seq<RequestView>, fix: bool) -> Seq<RequestView> {
    Seq::new(
        rs.len(),
        |i: int|
            if fix && is_dup_at(rs, i) {
                RequestView { name: renamed_name(rs[i].name, i), ..rs[i] }
            } else {
                rs[i]
            },
    )
}

/// The issue reported for a request that fails validation.
pub open spec fn invalid_issue(q: RequestView) -> Seq<char> {
    "Invalid request '"@ + q.name + "': "@ + (match spec_validate_request(q) {
        Result::Ok(u) => Seq::empty(),
        Result::Err(e) => error_message(e),
    })
}

/// The requests that survive the validity check.
pub open spec fn validity_kept(rs: Seq<RequestView>) -> Seq<RequestView>
    decreases rs.len(),
{
    if rs.len() == 0 {
        Seq::empty()
    } else if spec_validate_request(rs[0]) is Ok {
        seq![rs[0]] + validity_kept(rs.drop_first())
    } else {
        validity_kept(rs.drop_first())
    }
}

/// Issues raised by the validity check, in position order.
pub open spec fn validity_issues(rs: Seq<RequestView>) -> Seq<Seq<char>>
    decreases rs.len(),
{
    if rs.len() == 0 {
        Seq::empty()
    } else if spec_validate_request(rs[0]) is Ok {
        validity_issues(rs.drop_first())
    } else {
        seq![invalid_issue(rs[0])] + validity_issues(rs.drop_first())
    }
}

pub proof fn lemma_validity_concat(a: Seq<RequestView>, b: Seq<RequestView>)
    ensures
        validity_kept(a + b) == validity_kept(a) + validity_kept(b),
        validity_issues(a + b) == validity_issues(a) + validity_issues(b),
    decreases a.len(),
{
    if a.len() == 0 {
        assert(a + b =~= b);
        assert(validity_kept(a) + validity_kept(b) =~= validity_kept(b));
        assert(validity_issues(a) + validity_issues(b) =~= validity_issues(b));
    } else {
        lemma_validity_concat(a.drop_first(), b);
        assert((a + b).drop_first() =~= a.drop_first() + b);
        assert((a + b)[0] == a[0]);
        if spec_validate_request(a[0]) is Ok {
            assert(validity_kept(a + b) =~= seq![a[0]] + (validity_kept(a.drop_first())
                + validity_kept(b)));
            assert(seq![a[0]] + (validity_kept(a.drop_first()) + validity_kept(b)) =~= (seq![a[0]]
                + validity_kept(a.drop_first())) + validity_kept(b));
        } else {
            assert(validity_issues(a + b) =~= seq![invalid_issue(a[0])] + (validity_issues(
                a.drop_first(),
            ) + validity_issues(b)));
            assert(seq![invalid_issue(a[0])] + (validity_issues(a.drop_first()) + validity_issues(
                b,
            )) =~= (seq![invalid_issue(a[0])] + validity_issues(a.drop_first()))
                + validity_issues(b));
        }
    }
}

/// The full outcome of validating a collection: the (possibly repaired)
/// collection and the issue list, in check order — metadata first, then
/// duplicate names, then per-request validity on the post-rename list.
pub open spec fn spec_validate_and_fix(c: CollectionView, fix: bool) -> (CollectionView, Seq<
    Seq<char>,
>) {
    let r2 = dup_fixed_requests(c.requests, fix);
    let r3 = if fix {
        validity_kept(r2)
    } else {
        r2
    };
    (
        CollectionView { requests: r3, metadata: fixed_metadata(c.metadata, fix), ..c },
        meta_issues(c.metadata) + dup_issues(c.requests) + validity_issues(r2),
    )
}

/// Every request in an all-valid list survives the validity check, and
/// no issue is raised.
pub proof fn lemma_validity_all_ok(rs: Seq<RequestView>)
    requires
        forall|k: int| 0 <= k < rs.len() ==> spec_validate_request(#[trigger] rs[k]) is Ok,
    ensures
        validity_kept(rs) == rs,
        validity_issues(rs) == Seq::<Seq<char>>::empty(),
    decreases rs.len(),
{
    if rs.len() == 0 {
        assert(validity_kept(rs) =~= rs);
    } else {
        assert(forall|k: int|
            0 <= k < rs.drop_first().len() ==> spec_validate_request(
                #[trigger] rs.drop_first()[k],
            ) is Ok) by {
            assert(forall|k: int|
                0 <= k < rs.drop_first().len() ==> rs.drop_first()[k] == rs[k + 1]);
        }
        lemma_validity_all_ok(rs.drop_first());
        assert(validity_kept(rs) =~= seq![rs[0]] + rs.drop_first());
        assert(seq![rs[0]] + rs.drop_first() =~= rs);
    }
}

/// Law: validating without fixing is read-only.  The collection comes
/// back unchanged, so running the validation twice reports the same
/// issue list both times.
pub proof fn lemma_validate_without_fix_idempotent(c: CollectionView)
    ensures
        spec_validate_and_fix(c, false).0 == c,
        spec_validate_and_fix(spec_validate_and_fix(c, false).0, false).1
            == spec_validate_and_fix(c, false).1,
{
    let r2 = dup_fixed_requests(c.requests, false);
    assert(r2 =~= c.requests);
    assert(fixed_metadata(c.metadata, false) == c.metadata);
    assert(spec_validate_and_fix(c, false).0 == c);
}

/// Law: for a collection whose requests repeat exactly one name, at
/// positions `i < j`, with well-formed metadata and individually valid
/// requests, fixing keeps the first occurrence's name, renames the later
/// occurrence to the original name with its absolute position appended,
/// drops nothing, and reports exactly the one duplicate issue.
pub proof fn lemma_single_duplicate_fix(c: CollectionView, i: int, j: int)
    requires
        0 <= i < j < c.requests.len(),
        c.requests[i].name == c.requests[j].name,
        forall|k: int, l: int|
            0 <= k < l < c.requests.len() && !(k == i && l == j) ==> (
            #[trigger] c.requests[k]).name != (#[trigger] c.requests[l]).name,
        c.metadata.version is Some,
        forall|k: int| 0 <= k < c.requests.len() ==> spec_validate_request(
            #[trigger] c.requests[k],
        ) is Ok,
    ensures
        spec_validate_and_fix(c, true).0.requests.len() == c.requests.len(),
        spec_validate_and_fix(c, true).0.requests[i].name == c.requests[i].name,
        spec_validate_and_fix(c, true).0.requests[j].name == renamed_name(c.requests[i].name, j),
        spec_validate_and_fix(c, true).1 =~= seq![
            "Duplicate request name '"@ + c.requests[i].name + "' at indices "@ + dec_digits(
                i as nat,
            ) + " and "@ + dec_digits(j as nat),
        ],
{
    let rs = c.requests;
    let name = rs[j].name;

    // Exactly position j repeats an earlier name.
    assert(is_dup_at(rs, j)) by {
        assert(0 <= i < j && rs[i].name == rs[j].name);
    }
    assert(forall|m: int| 0 <= m < rs.len() && m != j ==> !is_dup_at(rs, m)) by {
        assert forall|m: int| 0 <= m < rs.len() && m != j implies !is_dup_at(rs, m) by {
            if is_dup_at(rs, m) {
                let k = choose|k: int| 0 <= k < m && (#[trigger] rs[k]).name == rs[m].name;
                assert(!(k == i && m == j));
                assert(rs[k].name != rs[m].name);
            }
        }
    }

    // The first occurrence of the repeated name is i.
    crate::collection::lemma_request_name_index_bounds(rs, name);
    let g = request_name_index(rs, name);
    assert(g == i) by {
        if g < i {
            assert(rs[g].name == name);
            assert(!(g == i && j == j));
            assert(rs[g].name != rs[j].name);
        }
        if g > i {
            assert(rs[i].name != name);
        }
    }

    // Duplicate issues: exactly one, for position j.
    assert(forall|n: int| 0 <= n <= j ==> dup_issues_upto(rs, n) =~= Seq::<Seq<char>>::empty())
        by {
        assert forall|n: int| 0 <= n <= j implies dup_issues_upto(rs, n) =~= Seq::<
            Seq<char>,
        >::empty() by {
            lemma_dup_issues_none_upto(rs, n, j);
        }
    }
    assert(forall|n: int|
        j < n <= rs.len() ==> dup_issues_upto(rs, n) =~= seq![dup_issue(rs, j)]) by {
        assert forall|n: int| j < n <= rs.len() implies dup_issues_upto(rs, n) =~= seq![
            dup_issue(rs, j),
        ] by {
            lemma_dup_issues_single_from(rs, n, j);
        }
    }
    assert(dup_issues(rs) =~= seq![dup_issue(rs, j)]);

    // The repaired list renames only position j.
    let r2 = dup_fixed_requests(rs, true);
    assert(r2.len() == rs.len());
    assert(forall|m: int| 0 <= m < rs.len() && m != j ==> r2[m] == rs[m]);
    assert(r2[j] == (RequestView { name: renamed_name(name, j), ..rs[j] }));

    // The renamed request is still valid, so nothing is dropped.
    assert(spec_validate_request(r2[j]) is Ok) by {
        lemma_renamed_name_not_blank(name, j);
        assert(r2[j].url == rs[j].url);
    }
    assert(forall|m: int| 0 <= m < r2.len() ==> spec_validate_request(#[trigger] r2[m]) is Ok);
    lemma_validity_all_ok(r2);

    assert(meta_issues(c.metadata) =~= Seq::<Seq<char>>::empty());
    assert(spec_validate_and_fix(c, true).1 =~= seq![dup_issue(rs, j)]);
    assert(dup_issue(rs, j) == "Duplicate request name '"@ + rs[i].name + "' at indices "@
        + dec_digits(i as nat) + " and "@ + dec_digits(j as nat));
}

/// A renamed duplicate keeps a visibly non-blank name: it ends in `)`.
proof fn lemma_renamed_name_not_blank(name: Seq<char>, i: int)
    requires
        i >= 0,
    ensures
        !crate::text::is_blank_seq(renamed_name(name, i)),
{
    reveal_strlit(" (");
    reveal_strlit(")");
    let r = renamed_name(name, i);
    let last = r.len() - 1;
    assert(r[last] == ')');
    assert(!crate::text::is_space_char(')'));
}

proof fn lemma_dup_issues_none_upto(rs: Seq<RequestView>, n: int, j: int)
    requires
        0 <= n <= j < rs.len(),
        forall|m: int| 0 <= m < rs.len() && m != j ==> !is_dup_at(rs, m),
    ensures
        dup_issues_upto(rs, n) =~= Seq::<Seq<char>>::empty(),
    decreases n,
{
    if n > 0 {
        lemma_dup_issues_none_upto(rs, n - 1, j);
        assert(!is_dup_at(rs, n - 1));
        assert(dup_issues_upto(rs, n) =~= dup_issues_upto(rs, n - 1) + Seq::<Seq<char>>::empty());
    }
}

proof fn lemma_dup_issues_single_from(rs: Seq<RequestView>, n: int, j: int)
    requires
        0 <= j < n <= rs.len(),
        is_dup_at(rs, j),
        forall|m: int| 0 <= m < rs.len() && m != j ==> !is_dup_at(rs, m),
    ensures
        dup_issues_upto(rs, n) =~= seq![dup_issue(rs, j)],
    decreases n,
{
    if n - 1 == j {
        lemma_dup_issues_none_upto(rs, j, j);
        assert(dup_issues_upto(rs, n) =~= dup_issues_upto(rs, j) + seq![dup_issue(rs, j)]);
    } else {
        lemma_dup_issues_single_from(rs, n - 1, j);
        assert(!is_dup_at(rs, n - 1));
        assert(dup_issues_upto(rs, n) =~= dup_issues_upto(rs, n - 1) + Seq::<Seq<char>>::empty());
    }
}

/// Builds the renamed form of a duplicate request's name.
fn build_renamed(name: &String, i: usize) -> (r: String)
    ensures
        r@ == renamed_name(name@, i as int),
{
    let mut m = name.clone();
    m.append(" (");
    let d = usize_to_string(i);
    m.append(d.as_str());
    m.append(")");
    m
}

/// Builds the issue string for a duplicate at `i` first seen at `first`.
fn build_dup_issue(name: &String, first: usize, i: usize) -> (r: String)
    ensures
        r@ == "Duplicate request name '"@ + name@ + "' at indices "@ + dec_digits(first as nat)
            + " and "@ + dec_digits(i as nat),
{
    let mut m = String::new();
    m.append("Duplicate request name '");
    m.append(name.as_str());
    m.append("' at indices ");
    let d1 = usize_to_string(first);
    m.append(d1.as_str());
    m.append(" and ");
    let d2 = usize_to_string(i);
    m.append(d2.as_str());
    m
}

/// Builds the issue string for an invalid request.
fn build_invalid_issue(name: &String, message: &String) -> (r: String)
    ensures
        r@ == "Invalid request '"@ + name@ + "': "@ + message@,
{
    let mut m = String::new();
    m.append("Invalid request '");
    m.append(name.as_str());
    m.append("': ");
    m.append(message.as_str());
    m
}

// ---------------------------------------------------------------------------
// Association lists: the shape of both indices
// ---------------------------------------------------------------------------

/// Index of the first entry with the given key, or the length of the
/// list when the key is absent.
pub open spec fn assoc_index<T>(es: Seq<(Seq<char>, T)>, key: Seq<char>) -> int
    decreases es.len(),
{
    if es.len() == 0 {
        0
    } else if es[0].0 == key {
        0
    } else {
        1 + assoc_index(es.drop_first(), key)
    }
}

pub open spec fn assoc_has<T>(es: Seq<(Seq<char>, T)>, key: Seq<char>) -> bool {
    assoc_index(es, key) < es.len()
}

/// What storing under a key means: replace the first entry with this
/// key, or append a new one.
pub open spec fn assoc_put<T>(es: Seq<(Seq<char>, T)>, key: Seq<char>, value: T) -> Seq<
    (Seq<char>, T),
> {
    let i = assoc_index(es, key);
    if i < es.len() {
        es.update(i, (key, value))
    } else {
        es.push((key, value))
    }
}

/// What removing a key means: drop the first entry with this key, or
/// leave the list unchanged when the key is absent.
pub open spec fn assoc_drop<T>(es: Seq<(Seq<char>, T)>, key: Seq<char>) -> Seq<(Seq<char>, T)> {
    let i = assoc_index(es, key);
    if i < es.len() {
        es.remove(i)
    } else {
        es
    }
}

pub proof fn lemma_assoc_index_bounds<T>(es: Seq<(Seq<char>, T)>, key: Seq<char>)
    ensures
        0 <= assoc_index(es, key) <= es.len(),
        assoc_index(es, key) < es.len() ==> es[assoc_index(es, key)].0 == key,
        forall|j: int| 0 <= j < assoc_index(es, key) ==> (#[trigger] es[j]).0 != key,
    decreases es.len(),
{
    if es.len() > 0 && es[0].0 != key {
        lemma_assoc_index_bounds(es.drop_first(), key);
        assert(forall|j: int| 1 <= j < es.len() ==> #[trigger] es[j] == es.drop_first()[j - 1]);
    }
}

/// The first entry with a given key is the one at `i` when `i` carries
/// the key and nothing before it does.
pub proof fn lemma_assoc_index_unique<T>(es: Seq<(Seq<char>, T)>, key: Seq<char>, i: int)
    requires
        0 <= i < es.len(),
        es[i].0 == key,
        forall|j: int| 0 <= j < i ==> (#[trigger] es[j]).0 != key,
    ensures
        assoc_index(es, key) == i,
    decreases i,
{
    if i > 0 {
        assert(es[0].0 != key);
        assert(forall|j: int| 0 <= j < es.drop_first().len() ==> #[trigger] es.drop_first()[j]
            == es[j + 1]);
        lemma_assoc_index_unique(es.drop_first(), key, i - 1);
    }
}

/// Law: after storing a value under a key, the key is present and looks
/// up exactly that value; a fresh key grows the index by one entry and
/// an existing key leaves its size unchanged.
pub proof fn lemma_assoc_put_get<T>(es: Seq<(Seq<char>, T)>, key: Seq<char>, value: T)
    ensures
        assoc_has(assoc_put(es, key, value), key),
        assoc_put(es, key, value)[assoc_index(assoc_put(es, key, value), key)].1 == value,
        assoc_has(es, key) ==> assoc_put(es, key, value).len() == es.len(),
        !assoc_has(es, key) ==> assoc_put(es, key, value).len() == es.len() + 1,
{
    lemma_assoc_index_bounds(es, key);
    let i = assoc_index(es, key);
    let put = assoc_put(es, key, value);
    if i < es.len() {
        assert(put[i].0 == key);
        assert(forall|j: int| 0 <= j < i ==> (#[trigger] put[j]).0 != key) by {
            assert(forall|j: int| 0 <= j < i ==> put[j] == es[j]);
        }
        lemma_assoc_index_unique(put, key, i);
    } else {
        assert(put[es.len() as int].0 == key);
        assert(forall|j: int| 0 <= j < es.len() ==> (#[trigger] put[j]).0 != key) by {
            assert(forall|j: int| 0 <= j < es.len() ==> put[j] == es[j]);
        }
        lemma_assoc_index_unique(put, key, es.len() as int);
    }
}

/// Law: removing a present key shrinks the index by exactly one entry;
/// removing an absent key changes nothing.
pub proof fn lemma_assoc_drop_count<T>(es: Seq<(Seq<char>, T)>, key: Seq<char>)
    ensures
        assoc_has(es, key) ==> assoc_drop(es, key).len() == es.len() - 1,
        !assoc_has(es, key) ==> assoc_drop(es, key) == es,
{
    lemma_assoc_index_bounds(es, key);
}

/// What indexing the requests of one collection does to the request
/// index: positions `0..n` are stored in order, each overwriting any
/// earlier entry with the same name.  Nothing is ever pruned.
pub open spec fn indexed_requests(
    es: Seq<(Seq<char>, (Seq<char>, int))>,
    rs: Seq<RequestView>,
    path: Seq<char>,
    n: int,
) -> Seq<(Seq<char>, (Seq<char>, int))>
    decreases n,
{
    if n <= 0 {
        es
    } else {
        assoc_put(indexed_requests(es, rs, path, n - 1), rs[n - 1].name, (path, n - 1))
    }
}

/// Spec-level shape of a `CollectionManager`.
pub ghost struct ManagerView {
    pub base_path: Seq<char>,
    pub collections: Seq<(Seq<char>, CollectionView)>,
    pub requests: Seq<(Seq<char>, (Seq<char>, int))>,
    pub watching: bool,
}

/// Manages collections and their in-memory indices.
///
/// The indices are caches over the on-disk store; disk is the source of
/// truth.  The host application owns the I/O and the file watcher; this
/// type owns the decisions: validation, repair, index maintenance, and
/// path rules.
pub struct CollectionManager {
    /// Base path for all collections.
    pub base_path: String,
    /// Cache mapping a collection file path to its last-known content.
    collection_index: Vec<(String, Collection)>,
    /// Best-effort cache mapping a request name to its collection path
    /// and position.  Entries are never pruned; see `add_to_index`.
    request_index: Vec<(String, (String, usize))>,
    /// Whether a file watcher is currently installed.
    watching: bool,
}

impl View for CollectionManager {
    type V = ManagerView;

    closed spec fn view(&self) -> ManagerView {
        ManagerView {
            base_path: self.base_path@,
            collections: self.collection_index@.map_values(
                |p: (String, Collection)| (p.0@, p.1@),
            ),
            requests: self.request_index@.map_values(
                |p: (String, (String, usize))| (p.0@, (p.1.0@, p.1.1 as int)),
            ),
            watching: self.watching,
        }
    }
}

/// Kinds of file system changes the watcher reports.
#[derive(Debug, Clone, Copy, PartialEq, Eq, Structural)]
pub enum FileChangeType {
    /// File was created.
    Created,
    /// File was modified.
    Modified,
    /// File was deleted.
    Deleted,
}

/// A changed path as reported to the watcher's callback: relative to the
/// base directory when it lies under it, absolute otherwise.
pub open spec fn relativized(p: Seq<char>, base: Seq<char>) -> Seq<char> {
    if crate::text::has_prefix(p, base + "/"@) {
        p.skip((base + "/"@).len() as int)
    } else {
        p
    }
}

/// The paths a file system event reports to the callback: those that
/// end with the collection suffix, each relativized, in event order.
pub open spec fn spec_change_paths(paths: Seq<Seq<char>>, base: Seq<char>) -> Seq<Seq<char>>
    decreases paths.len(),
{
    if paths.len() == 0 {
        Seq::empty()
    } else {
        (if crate::text::has_suffix(paths[0], ".collection.yaml"@) {
            seq![relativized(paths[0], base)]
        } else {
            Seq::empty()
        }) + spec_change_paths(paths.drop_first(), base)
    }
}

/// The string held in `v` from position `from` on.
fn chars_tail_string(v: &Vec<char>, from: usize) -> (r: String)
    requires
        from <= v@.len(),
    ensures
        r@ == v@.skip(from as int),
{
    let mut out: Vec<char> = Vec::new();
    let mut i: usize = from;
    while i < v.len()
        invariant
            from <= i <= v@.len(),
            out@ == v@.subrange(from as int, i as int),
        decreases v.len() - i,
    {
        out.push(v[i]);
        proof {
            assert(out@ =~= v@.subrange(from as int, i + 1));
        }
        i = i + 1;
    }
    proof {
        assert(out@ =~= v@.skip(from as int));
    }
    crate::text::string_from_chars(&out)
}

/// Selects and relativizes the collection files among the paths of one
/// file system event.  For every path that ends with the collection
/// suffix, the callback receives the path relative to `base` when
/// possible, absolute otherwise.
pub fn collection_change_paths(paths: &Vec<String>, base: &str) -> (r: Vec<String>)
    ensures
        r@.map_values(|s: String| s@) == spec_change_paths(
            paths@.map_values(|s: String| s@),
            base@,
        ),
{
    let ghost pv = paths@.map_values(|s: String| s@);
    let mut prefix = base.to_owned();
    prefix.append("/");
    let prefix_chars = crate::text::chars_of(prefix.as_str());
    let mut out: Vec<String> = Vec::new();
    let mut i: usize = 0;
    proof {
        assert(spec_change_paths(pv.take(0), base@) =~= Seq::<Seq<char>>::empty());
        assert(out@.map_values(|s: String| s@) =~= spec_change_paths(pv.take(0), base@));
    }
    while i < paths.len()
        invariant
            i <= paths.len(),
            pv == paths@.map_values(|s: String| s@),
            prefix_chars@ == base@ + "/"@,
            out@.map_values(|s: String| s@) == spec_change_paths(pv.take(i as int), base@),
        decreases paths.len() - i,
    {
        proof {
            assert(pv[i as int] == paths@[i as int]@);
            lemma_change_paths_concat(pv.take(i as int), seq![pv[i as int]], base@);
            assert(pv.take(i + 1) =~= pv.take(i as int) + seq![pv[i as int]]);
            assert(seq![pv[i as int]].drop_first() =~= Seq::<Seq<char>>::empty());
            assert(spec_change_paths(Seq::<Seq<char>>::empty(), base@) =~= Seq::<
                Seq<char>,
            >::empty());
            assert(spec_change_paths(seq![pv[i as int]], base@) =~= (if crate::text::has_suffix(
                pv[i as int],
                ".collection.yaml"@,
            ) {
                seq![relativized(pv[i as int], base@)]
            } else {
                Seq::<Seq<char>>::empty()
            }));
        }
        if crate::text::str_has_suffix(paths[i].as_str(), ".collection.yaml") {
            let path_chars = crate::text::chars_of(paths[i].as_str());
            let rel = if crate::text::chars_have_prefix(&path_chars, &prefix_chars) {
                chars_tail_string(&path_chars, prefix_chars.len())
            } else {
                paths[i].clone()
            };
            proof {
                assert(rel@ == relativized(pv[i as int], base@));
            }
            let ghost opre = out@;
            out.push(rel);
            proof {
                assert(out@ =~= opre.push(out@.last()));
                assert(out@.map_values(|s: String| s@) =~= opre.map_values(|s: String| s@).push(
                    out@.last()@,
                ));
                assert(out@.map_values(|s: String| s@) =~= spec_change_paths(
                    pv.take(i + 1),
                    base@,
                ));
            }
        } else {
            proof {
                assert(spec_change_paths(pv.take(i + 1), base@) =~= spec_change_paths(
                    pv.take(i as int),
                    base@,
                ));
            }
        }
        i = i + 1;
    }
    proof {
        assert(pv.take(pv.len() as int) =~= pv);
    }
    out
}

pub proof fn lemma_change_paths_concat(a: Seq<Seq<char>>, b: Seq<Seq<char>>, base: Seq<char>)
    ensures
        spec_change_paths(a + b, base) == spec_change_paths(a, base) + spec_change_paths(b, base),
    decreases a.len(),
{
    if a.len() == 0 {
        assert(a + b =~= b);
        assert(spec_change_paths(a, base) + spec_change_paths(b, base) =~= spec_change_paths(
            b,
            base,
        ));
    } else {
        lemma_change_paths_concat(a.drop_first(), b, base);
        assert((a + b).drop_first() =~= a.drop_first() + b);
        assert((a + b)[0] == a[0]);
        let h = if crate::text::has_suffix(a[0], ".collection.yaml"@) {
            seq![relativized(a[0], base)]
        } else {
            Seq::<Seq<char>>::empty()
        };
        assert(spec_change_paths(a + b, base) =~= h + (spec_change_paths(a.drop_first(), base)
            + spec_change_paths(b, base)));
        assert(h + (spec_change_paths(a.drop_first(), base) + spec_change_paths(b, base)) =~= (h
            + spec_change_paths(a.drop_first(), base)) + spec_change_paths(b, base));
    }
}

/// Stores an entry in the collection index.
fn put_collection_entry(es: &mut Vec<(String, Collection)>, key: &str, value: Collection)
    ensures
        final(es)@.map_values(|p: (String, Collection)| (p.0@, p.1@)) == assoc_put(
            old(es)@.map_values(|p: (String, Collection)| (p.0@, p.1@)),
            key@,
            value@,
        ),
{
    let ghost ev = es@.map_values(|p: (String, Collection)| (p.0@, p.1@));
    proof {
        lemma_assoc_index_bounds(ev, key@);
    }
    let mut i: usize = 0;
    while i < es.len()
        invariant
            i <= es.len(),
            ev == es@.map_values(|p: (String, Collection)| (p.0@, p.1@)),
            es@ == old(es)@,
            0 <= assoc_index(ev, key@) <= ev.len(),
            assoc_index(ev, key@) < ev.len() ==> ev[assoc_index(ev, key@)].0 == key@,
            forall|j: int| 0 <= j < assoc_index(ev, key@) ==> (#[trigger] ev[j]).0 != key@,
            assoc_index(ev, key@) >= i,
        decreases es.len() - i,
    {
        proof {
            assert(ev[i as int] == (es@[i as int].0@, es@[i as int].1@));
        }
        if str_eq(es[i].0.as_str(), key) {
            proof {
                assert(assoc_index(ev, key@) == i) by {
                    if assoc_index(ev, key@) > i {
                        assert(ev[i as int].0 != key@);
                    }
                }
            }
            es.remove(i);
            es.insert(i, (key.to_owned(), value));
            proof {
                assert(es@.map_values(|p: (String, Collection)| (p.0@, p.1@)) =~= ev.update(
                    i as int,
                    (key@, value@),
                ));
            }
            return ;
        }
        proof {
            if assoc_index(ev, key@) == i {
                assert(ev[i as int].0 == key@);
                assert(false);
            }
        }
        i = i + 1;
    }
    es.push((key.to_owned(), value));
    proof {
        assert(es@.map_values(|p: (String, Collection)| (p.0@, p.1@)) =~= ev.push((key@, value@)));
    }
}

/// Stores an entry in the request index.
fn put_request_entry(
    es: &mut Vec<(String, (String, usize))>,
    key: &str,
    path: &str,
    position: usize,
)
    ensures
        final(es)@.map_values(|p: (String, (String, usize))| (p.0@, (p.1.0@, p.1.1 as int)))
            == assoc_put(
            old(es)@.map_values(|p: (String, (String, usize))| (p.0@, (p.1.0@, p.1.1 as int))),
            key@,
            (path@, position as int),
        ),
{
    let ghost ev = es@.map_values(|p: (String, (String, usize))| (p.0@, (p.1.0@, p.1.1 as int)));
    proof {
        lemma_assoc_index_bounds(ev, key@);
    }
    let mut i: usize = 0;
    while i < es.len()
        invariant
            i <= es.len(),
            ev == es@.map_values(|p: (String, (String, usize))| (p.0@, (p.1.0@, p.1.1 as int))),
            es@ == old(es)@,
            0 <= assoc_index(ev, key@) <= ev.len(),
            assoc_index(ev, key@) < ev.len() ==> ev[assoc_index(ev, key@)].0 == key@,
            forall|j: int| 0 <= j < assoc_index(ev, key@) ==> (#[trigger] ev[j]).0 != key@,
            assoc_index(ev, key@) >= i,
        decreases es.len() - i,
    {
        proof {
            assert(ev[i as int] == (es@[i as int].0@, (es@[i as int].1.0@,
            es@[i as int].1.1 as int)));
        }
        if str_eq(es[i].0.as_str(), key) {
            proof {
                assert(assoc_index(ev, key@) == i) by {
                    if assoc_index(ev, key@) > i {
                        assert(ev[i as int].0 != key@);
                    }
                }
            }
            es.remove(i);
            es.insert(i, (key.to_owned(), (path.to_owned(), position)));
            proof {
                assert(es@.map_values(
                    |p: (String, (String, usize))| (p.0@, (p.1.0@, p.1.1 as int)),
                ) =~= ev.update(i as int, (key@, (path@, position as int))));
            }
            return ;
        }
        proof {
            if assoc_index(ev, key@) == i {
                assert(ev[i as int].0 == key@);
                assert(false);
            }
        }
        i = i + 1;
    }
    es.push((key.to_owned(), (path.to_owned(), position)));
    proof {
        assert(es@.map_values(|p: (String, (String, usize))| (p.0@, (p.1.0@, p.1.1 as int)))
            =~= ev.push((key@, (path@, position as int))));
    }
}

/// Index of the first collection entry whose value carries this name.
pub open spec fn coll_name_index(es: Seq<(Seq<char>, CollectionView)>, name: Seq<char>) -> int
    decreases es.len(),
{
    if es.len() == 0 {
        0
    } else if es[0].1.name == name {
        0
    } else {
        1 + coll_name_index(es.drop_first(), name)
    }
}

pub proof fn lemma_coll_name_index_bounds(es: Seq<(Seq<char>, CollectionView)>, name: Seq<char>)
    ensures
        0 <= coll_name_index(es, name) <= es.len(),
        coll_name_index(es, name) < es.len() ==> es[coll_name_index(es, name)].1.name == name,
        forall|j: int| 0 <= j < coll_name_index(es, name) ==> (#[trigger] es[j]).1.name != name,
    decreases es.len(),
{
    if es.len() > 0 && es[0].1.name != name {
        lemma_coll_name_index_bounds(es.drop_first(), name);
        assert(forall|j: int| 1 <= j < es.len() ==> #[trigger] es[j] == es.drop_first()[j - 1]);
    }
}

/// What looking a request up by name yields: the index entry names a
/// collection path and a position, and both lookups must land.
pub open spec fn spec_find_request(m: ManagerView, name: Seq<char>) -> Option<RequestView> {
    if assoc_has(m.requests, name) {
        let entry = m.requests[assoc_index(m.requests, name)].1;
        if assoc_has(m.collections, entry.0) {
            let c = m.collections[assoc_index(m.collections, entry.0)].1;
            if 0 <= entry.1 < c.requests.len() {
                Some(c.requests[entry.1])
            } else {
                None
            }
        } else {
            None
        }
    } else {
        None
    }
}

/// What one loaded document does to the manager: a parseable text
/// replaces the collection entry for its path and stores every one of
/// its requests in the request index; anything else changes nothing.
pub open spec fn ingest_step(m: ManagerView, path: Seq<char>, text: Seq<char>) -> ManagerView {
    match crate::codec::spec_parse_collection(text) {
        Option::Some(cv) => ManagerView {
            collections: assoc_put(m.collections, path, cv),
            requests: indexed_requests(m.requests, cv.requests, path, cv.requests.len() as int),
            ..m
        },
        Option::None => m,
    }
}

/// The manager state after loading the first `n` of the given files.
pub open spec fn ingest_upto(m: ManagerView, files: Seq<(Seq<char>, Seq<char>)>, n: int)
    -> ManagerView
    decreases n,
{
    if n <= 0 {
        m
    } else {
        ingest_step(ingest_upto(m, files, n - 1), files[n - 1].0, files[n - 1].1)
    }
}

/// How many of the first `n` files parse as collection documents.
pub open spec fn ingest_count_upto(files: Seq<(Seq<char>, Seq<char>)>, n: int) -> int
    decreases n,
{
    if n <= 0 {
        0
    } else {
        ingest_count_upto(files, n - 1) + (if crate::codec::spec_parse_collection(
            files[n - 1].1,
        ) is Some {
            1int
        } else {
            0int
        })
    }
}

/// A collection's metadata after migration: the version is backfilled,
/// and when either timestamp is absent both are set to `now`.
pub open spec fn spec_migrate(c: CollectionView, now: Seq<char>) -> CollectionView {
    let version = if c.metadata.version is None {
        Some("1.0.0"@)
    } else {
        c.metadata.version
    };
    let stamps = if c.metadata.created_at is None || c.metadata.updated_at is None {
        (Some(now), Some(now))
    } else {
        (c.metadata.created_at, c.metadata.updated_at)
    };
    CollectionView {
        metadata: MetadataView {
            version,
            author: c.metadata.author,
            created_at: stamps.0,
            updated_at: stamps.1,
        },
        ..c
    }
}

/// Relies on chrono's `Utc::now` and `DateTime::to_rfc3339` for the
/// current UTC time in RFC 3339 form.  The value depends on the clock,
/// so nothing is promised of it.
#[verifier::external_body]
fn now_rfc3339() -> String {
    chrono::Utc::now().to_rfc3339()
}

impl CollectionManager {
    /// A manager rooted at the given base directory, with empty indices
    /// and no watcher.  The host application creates the directory if it
    /// is absent.
    pub fn new(base_path: &str) -> (r: Self)
        ensures
            r@.base_path == base_path@,
            r@.collections == Seq::<(Seq<char>, CollectionView)>::empty(),
            r@.requests == Seq::<(Seq<char>, (Seq<char>, int))>::empty(),
            !r@.watching,
    {
        let r = CollectionManager {
            base_path: base_path.to_owned(),
            collection_index: Vec::new(),
            request_index: Vec::new(),
            watching: false,
        };
        proof {
            assert(r@.collections =~= Seq::<(Seq<char>, CollectionView)>::empty());
            assert(r@.requests =~= Seq::<(Seq<char>, (Seq<char>, int))>::empty());
        }
        r
    }

    /// Stores a collection in both indices: the collection index entry
    /// for `path` is replaced, and every request is stored by name in
    /// the request index.  Entries for names that no longer occur are
    /// deliberately not pruned; the request index is a best-effort cache.
    pub fn add_to_index(&mut self, path: &str, collection: &Collection)
        ensures
            final(self)@.collections == assoc_put(old(self)@.collections, path@, collection@),
            final(self)@.requests == indexed_requests(
                old(self)@.requests,
                collection@.requests,
                path@,
                collection@.requests.len() as int,
            ),
            final(self)@.base_path == old(self)@.base_path,
            final(self)@.watching == old(self)@.watching,
    {
        put_collection_entry(&mut self.collection_index, path, collection.clone());
        let ghost rsv = collection@.requests;
        let ghost base = old(self)@.requests;
        let mut i: usize = 0;
        while i < collection.requests.len()
            invariant
                i <= collection.requests.len(),
                rsv == collection.requests@.map_values(|q: Request| q@),
                rsv == collection@.requests,
                self.request_index@.map_values(
                    |p: (String, (String, usize))| (p.0@, (p.1.0@, p.1.1 as int)),
                ) == indexed_requests(base, rsv, path@, i as int),
                self.collection_index@.map_values(|p: (String, Collection)| (p.0@, p.1@))
                    == assoc_put(old(self)@.collections, path@, collection@),
                self.base_path@ == old(self)@.base_path,
                self.watching == old(self)@.watching,
            decreases collection.requests.len() - i,
        {
            proof {
                assert(rsv[i as int] == collection.requests@[i as int]@);
            }
            put_request_entry(&mut self.request_index, collection.requests[i].name.as_str(), path, i);
            i = i + 1;
        }
    }

    /// Removes the collection index entry for `path`, when one exists.
    /// Request index entries that point at the path are left in place.
    pub fn remove_from_index(&mut self, path: &str)
        ensures
            final(self)@.collections == assoc_drop(old(self)@.collections, path@),
            final(self)@.requests == old(self)@.requests,
            final(self)@.base_path == old(self)@.base_path,
            final(self)@.watching == old(self)@.watching,
    {
        let ghost ev = self@.collections;
        proof {
            lemma_assoc_index_bounds(ev, path@);
        }
        let mut i: usize = 0;
        while i < self.collection_index.len()
            invariant
                i <= self.collection_index.len(),
                ev == self.collection_index@.map_values(|p: (String, Collection)| (p.0@, p.1@)),
                ev == old(self)@.collections,
                self@.requests == old(self)@.requests,
                self@.base_path == old(self)@.base_path,
                self@.watching == old(self)@.watching,
                0 <= assoc_index(ev, path@) <= ev.len(),
                assoc_index(ev, path@) < ev.len() ==> ev[assoc_index(ev, path@)].0 == path@,
                forall|j: int| 0 <= j < assoc_index(ev, path@) ==> (#[trigger] ev[j]).0 != path@,
                assoc_index(ev, path@) >= i,
            decreases self.collection_index.len() - i,
        {
            proof {
                assert(ev[i as int] == (self.collection_index@[i as int].0@,
                self.collection_index@[i as int].1@));
            }
            if str_eq(self.collection_index[i].0.as_str(), path) {
                proof {
                    assert(assoc_index(ev, path@) == i) by {
                        if assoc_index(ev, path@) > i {
                            assert(ev[i as int].0 != path@);
                        }
                    }
                }
                self.collection_index.remove(i);
                proof {
                    assert(self@.collections =~= ev.remove(i as int));
                }
                return ;
            }
            proof {
                if assoc_index(ev, path@) == i {
                    assert(ev[i as int].0 == path@);
                    assert(false);
                }
            }
            i = i + 1;
        }
    }

    /// Parses the text read from a collection file and, on success,
    /// stores the result in both indices.  A text that is not a
    /// well-formed collection document is a serialize error and leaves
    /// the manager unchanged.
    pub fn ingest_collection(&mut self, path: &str, text: &str) -> (r: crate::store::YAMLStoreResult<
        Collection,
    >)
        ensures
            final(self)@ == ingest_step(old(self)@, path@, text@),
            match r {
                Result::Ok(c) => crate::codec::spec_parse_collection(text@) == Some(c@),
                Result::Err(e) => crate::codec::spec_parse_collection(text@) is None && e@
                    == crate::store::YAMLStoreErrorView::SerializeError(
                    "not a collection document"@,
                ),
            },
    {
        match Collection::parse(text) {
            Option::Some(c) => {
                self.add_to_index(path, &c);
                Ok(c)
            },
            Option::None => Err(
                crate::store::YAMLStoreError::SerializeError(
                    "not a collection document".to_owned(),
                ),
            ),
        }
    }

    /// Loads a batch of already-read files: each entry is a path and the
    /// text read from it.  A file that does not parse is skipped; the
    /// count of successful loads is returned.
    pub fn ingest_many(&mut self, files: &Vec<(String, String)>) -> (r: usize)
        ensures
            final(self)@ == ingest_upto(
                old(self)@,
                files@.map_values(|p: (String, String)| (p.0@, p.1@)),
                files@.len() as int,
            ),
            r as int == ingest_count_upto(
                files@.map_values(|p: (String, String)| (p.0@, p.1@)),
                files@.len() as int,
            ),
    {
        let ghost fv = files@.map_values(|p: (String, String)| (p.0@, p.1@));
        let mut count: usize = 0;
        let mut i: usize = 0;
        while i < files.len()
            invariant
                i <= files.len(),
                fv == files@.map_values(|p: (String, String)| (p.0@, p.1@)),
                self@ == ingest_upto(old(self)@, fv, i as int),
                count as int == ingest_count_upto(fv, i as int),
                count <= i,
            decreases files.len() - i,
        {
            proof {
                assert(fv[i as int] == (files@[i as int].0@, files@[i as int].1@));
            }
            match self.ingest_collection(files[i].0.as_str(), files[i].1.as_str()) {
                Result::Ok(c) => {
                    count = count + 1;
                },
                Result::Err(e) => {},
            }
            i = i + 1;
        }
        count
    }

    /// Finds the first loaded collection with the given name, in index
    /// order.
    pub fn find_collection_by_name(&self, name: &str) -> (r: Option<Collection>)
        ensures
            match r {
                Option::Some(c) => coll_name_index(self@.collections, name@)
                    < self@.collections.len() && c@ == self@.collections[coll_name_index(
                    self@.collections,
                    name@,
                )].1,
                Option::None => coll_name_index(self@.collections, name@)
                    == self@.collections.len(),
            },
    {
        let ghost ev = self@.collections;
        proof {
            lemma_coll_name_index_bounds(ev, name@);
        }
        let mut i: usize = 0;
        while i < self.collection_index.len()
            invariant
                i <= self.collection_index.len(),
                ev == self.collection_index@.map_values(|p: (String, Collection)| (p.0@, p.1@)),
                0 <= coll_name_index(ev, name@) <= ev.len(),
                coll_name_index(ev, name@) < ev.len() ==> ev[coll_name_index(
                    ev,
                    name@,
                )].1.name == name@,
                forall|j: int| 0 <= j < coll_name_index(ev, name@) ==> (#[trigger] ev[j]).1.name
                    != name@,
                coll_name_index(ev, name@) >= i,
            decreases self.collection_index.len() - i,
        {
            proof {
                assert(ev[i as int] == (self.collection_index@[i as int].0@,
                self.collection_index@[i as int].1@));
            }
            if str_eq(self.collection_index[i].1.name.as_str(), name) {
                proof {
                    assert(coll_name_index(ev, name@) == i) by {
                        if coll_name_index(ev, name@) > i {
                            assert(ev[i as int].1.name != name@);
                        }
                    }
                }
                return Some(self.collection_index[i].1.clone());
            }
            proof {
                if coll_name_index(ev, name@) == i {
                    assert(ev[i as int].1.name == name@);
                    assert(false);
                }
            }
            i = i + 1;
        }
        None
    }

    /// Position of the first collection entry for this path, or the
    /// entry count when the path is absent.
    fn find_collection_entry(&self, path: &str) -> (r: usize)
        ensures
            r == assoc_index(self@.collections, path@),
    {
        let ghost ev = self@.collections;
        proof {
            lemma_assoc_index_bounds(ev, path@);
        }
        let mut i: usize = 0;
        while i < self.collection_index.len()
            invariant
                i <= self.collection_index.len(),
                ev == self.collection_index@.map_values(|p: (String, Collection)| (p.0@, p.1@)),
                0 <= assoc_index(ev, path@) <= ev.len(),
                assoc_index(ev, path@) < ev.len() ==> ev[assoc_index(ev, path@)].0 == path@,
                forall|j: int| 0 <= j < assoc_index(ev, path@) ==> (#[trigger] ev[j]).0 != path@,
                assoc_index(ev, path@) >= i,
            decreases self.collection_index.len() - i,
        {
            proof {
                assert(ev[i as int] == (self.collection_index@[i as int].0@,
                self.collection_index@[i as int].1@));
            }
            if str_eq(self.collection_index[i].0.as_str(), path) {
                proof {
                    assert(assoc_index(ev, path@) == i) by {
                        if assoc_index(ev, path@) > i {
                            assert(ev[i as int].0 != path@);
                        }
                    }
                }
                return i;
            }
            proof {
                if assoc_index(ev, path@) == i {
                    assert(ev[i as int].0 == path@);
                    assert(false);
                }
            }
            i = i + 1;
        }
        self.collection_index.len()
    }

    /// Looks a request up by name: the request index names a collection
    /// path and a position, and the request is re-fetched from the
    /// collection index.  Either lookup can miss, since the request
    /// index is only a best-effort cache.
    pub fn find_request_by_name(&self, name: &str) -> (r: Option<Request>)
        ensures
            match r {
                Option::Some(q) => spec_find_request(self@, name@) == Some(q@),
                Option::None => spec_find_request(self@, name@) is None,
            },
    {
        let ghost rv = self@.requests;
        proof {
            lemma_assoc_index_bounds(rv, name@);
        }
        let mut i: usize = 0;
        while i < self.request_index.len()
            invariant
                i <= self.request_index.len(),
                rv == self.request_index@.map_values(
                    |p: (String, (String, usize))| (p.0@, (p.1.0@, p.1.1 as int)),
                ),
                0 <= assoc_index(rv, name@) <= rv.len(),
                assoc_index(rv, name@) < rv.len() ==> rv[assoc_index(rv, name@)].0 == name@,
                forall|j: int| 0 <= j < assoc_index(rv, name@) ==> (#[trigger] rv[j]).0 != name@,
                assoc_index(rv, name@) >= i,
            decreases self.request_index.len() - i,
        {
            proof {
                assert(rv[i as int] == (self.request_index@[i as int].0@,
                (self.request_index@[i as int].1.0@, self.request_index@[i as int].1.1 as int)));
            }
            if str_eq(self.request_index[i].0.as_str(), name) {
                proof {
                    assert(assoc_index(rv, name@) == i) by {
                        if assoc_index(rv, name@) > i {
                            assert(rv[i as int].0 != name@);
                        }
                    }
                }
                let path = &self.request_index[i].1.0;
                let position = self.request_index[i].1.1;
                let ci = self.find_collection_entry(path.as_str());
                if ci >= self.collection_index.len() {
                    return None;
                }
                proof {
                    assert(self@.collections[ci as int] == (self.collection_index@[ci as int].0@,
                    self.collection_index@[ci as int].1@));
                }
                let c = &self.collection_index[ci].1;
                if position >= c.requests.len() {
                    return None;
                }
                proof {
                    assert(c@.requests[position as int] == c.requests@[position as int]@);
                }
                return Some(c.requests[position].clone());
            }
            proof {
                if assoc_index(rv, name@) == i {
                    assert(rv[i as int].0 == name@);
                    assert(false);
                }
            }
            i = i + 1;
        }
        None
    }

    /// A snapshot of every loaded collection, in index order.
    pub fn get_all_collections(&self) -> (r: Vec<Collection>)
        ensures
            r@.map_values(|c: Collection| c@) == self@.collections.map_values(
                |p: (Seq<char>, CollectionView)| p.1,
            ),
    {
        let mut out: Vec<Collection> = Vec::new();
        let ghost ev = self@.collections;
        let mut i: usize = 0;
        while i < self.collection_index.len()
            invariant
                i <= self.collection_index.len(),
                ev == self.collection_index@.map_values(|p: (String, Collection)| (p.0@, p.1@)),
                out@.len() == i,
                forall|j: int| 0 <= j < i ==> (#[trigger] out@[j])@ == ev[j].1,
            decreases self.collection_index.len() - i,
        {
            proof {
                assert(ev[i as int] == (self.collection_index@[i as int].0@,
                self.collection_index@[i as int].1@));
            }
            out.push(self.collection_index[i].1.clone());
            i = i + 1;
        }
        proof {
            assert(out@.map_values(|c: Collection| c@) =~= ev.map_values(
                |p: (Seq<char>, CollectionView)| p.1,
            ));
        }
        out
    }

    /// Empties both indices.  Disk is not touched.
    pub fn clear_index(&mut self)
        ensures
            final(self)@.collections == Seq::<(Seq<char>, CollectionView)>::empty(),
            final(self)@.requests == Seq::<(Seq<char>, (Seq<char>, int))>::empty(),
            final(self)@.base_path == old(self)@.base_path,
            final(self)@.watching == old(self)@.watching,
    {
        self.collection_index.clear();
        self.request_index.clear();
        proof {
            assert(self@.collections =~= Seq::<(Seq<char>, CollectionView)>::empty());
            assert(self@.requests =~= Seq::<(Seq<char>, (Seq<char>, int))>::empty());
        }
    }

    /// The number of collections in the index.
    pub fn collection_count(&self) -> (r: usize)
        ensures
            r == self@.collections.len(),
    {
        self.collection_index.len()
    }

    /// Records whether a file watcher is installed.  The watcher itself
    /// lives with the host application, which owns the file system.
    pub fn set_watching(&mut self, on: bool)
        ensures
            final(self)@ == (ManagerView { watching: on, ..old(self)@ }),
    {
        self.watching = on;
    }

    /// Forgets the watcher.
    pub fn stop_watching(&mut self)
        ensures
            final(self)@ == (ManagerView { watching: false, ..old(self)@ }),
    {
        self.watching = false;
    }

    /// Whether a file watcher is currently installed.
    pub fn is_watching(&self) -> (r: bool)
        ensures
            r == self@.watching,
    {
        self.watching
    }

    /// The issues found by an integrity check, given the outcome of
    /// loading the collection: validation issues when the load
    /// succeeded, and a single load-failure issue otherwise.
    pub fn check_integrity(load: &crate::store::YAMLStoreResult<Collection>) -> (r: Vec<String>)
        ensures
            match load {
                Result::Ok(c) => r@.map_values(|s: String| s@) == spec_validate_and_fix(
                    c@,
                    false,
                ).1,
                Result::Err(e) => r@.map_values(|s: String| s@) == seq![
                    "Failed to load collection: "@ + crate::store::store_error_message(e@),
                ],
            },
    {
        match load {
            Result::Ok(c) => {
                let (fixed, issues) = Self::validate_and_fix_collection(c, false);
                issues
            },
            Result::Err(e) => {
                let mut m = String::new();
                m.append("Failed to load collection: ");
                let em = e.display_string();
                m.append(em.as_str());
                let mut out: Vec<String> = Vec::new();
                out.push(m);
                proof {
                    assert(out@.map_values(|s: String| s@) =~= seq![
                        "Failed to load collection: "@ + crate::store::store_error_message(e@),
                    ]);
                }
                out
            },
        }
    }

    /// Backfills a collection's metadata: the version becomes `1.0.0`
    /// when absent, and when either timestamp is absent both are set to
    /// `now`.
    pub fn apply_migration(collection: Collection, now: &str) -> (r: Collection)
        ensures
            r@ == spec_migrate(collection@, now@),
    {
        let mut c = collection;
        if c.metadata.version.is_none() {
            c.metadata.version = Some("1.0.0".to_owned());
        }
        if c.metadata.created_at.is_none() || c.metadata.updated_at.is_none() {
            c.metadata.created_at = Some(now.to_owned());
            c.metadata.updated_at = Some(now.to_owned());
        }
        c
    }

    /// Backfills a collection's metadata, stamping absent timestamps
    /// with the current time.  What the clock returned is unspecified;
    /// everything else about the result is exact.
    pub fn migrate_collection(collection: Collection) -> (r: Collection)
        ensures
            exists|now: Seq<char>| r@ == spec_migrate(collection@, now),
    {
        let ghost cv = collection@;
        let now = now_rfc3339();
        let r = Self::apply_migration(collection, now.as_str());
        proof {
            assert(r@ == spec_migrate(cv, now@));
        }
        r
    }
}

impl CollectionManager {
    /// Validate a collection and, when `fix_issues` is set, repair it:
    /// a missing metadata version is backfilled, duplicate request names
    /// are renamed by their absolute position, and requests that fail
    /// validation are dropped.  The issue list reports every finding
    /// whether or not fixes were applied.
    pub fn validate_and_fix_collection(collection: &Collection, fix_issues: bool) -> (r: (
        Collection,
        Vec<String>,
    ))
        ensures
            r.0@ == spec_validate_and_fix(collection@, fix_issues).0,
            r.1@.map_values(|s: String| s@) == spec_validate_and_fix(collection@, fix_issues).1,
    {
        let ghost cv = collection@;
        let mut issues: Vec<String> = Vec::new();

        // Metadata check.
        let mut metadata = collection.metadata.clone();
        if metadata.version.is_none() {
            issues.push("Missing version metadata".to_owned());
            if fix_issues {
                metadata.version = Some("1.0.0".to_owned());
            }
        }
        proof {
            assert(metadata@ == fixed_metadata(cv.metadata, fix_issues));
            assert(issues@.map_values(|s: String| s@) =~= meta_issues(cv.metadata));
        }

        // Duplicate-name check.
        let ghost rsv = cv.requests;
        let rs = &collection.requests;
        let mut reqs2: Vec<Request> = Vec::new();
        let mut i: usize = 0;
        proof {
            assert(issues@.map_values(|s: String| s@) =~= meta_issues(cv.metadata)
                + dup_issues_upto(rsv, 0));
        }
        while i < rs.len()
            invariant
                i <= rs.len(),
                rsv == rs@.map_values(|q: Request| q@),
                rsv == collection@.requests,
                cv == collection@,
                metadata@ == fixed_metadata(cv.metadata, fix_issues),
                reqs2@.len() == i,
                forall|j: int| 0 <= j < i ==> (#[trigger] reqs2@[j])@ == dup_fixed_requests(
                    rsv,
                    fix_issues,
                )[j],
                issues@.map_values(|s: String| s@) == meta_issues(cv.metadata) + dup_issues_upto(
                    rsv,
                    i as int,
                ),
            decreases rs.len() - i,
        {
            proof {
                assert(rsv[i as int] == rs@[i as int]@);
            }
            // Find the first earlier request with the same name.
            let mut first: usize = i;
            let mut j: usize = 0;
            while j < i
                invariant
                    j <= i < rs.len(),
                    rsv == rs@.map_values(|q: Request| q@),
                    first == i || (first < j && rsv[first as int].name == rsv[i as int].name),
                    first == i ==> forall|k: int| 0 <= k < j ==> (#[trigger] rsv[k]).name != rsv[
                        i as int
                    ].name,
                    first < i ==> forall|k: int| 0 <= k < first ==> (#[trigger] rsv[k]).name
                        != rsv[i as int].name,
                decreases i - j,
            {
                proof {
                    assert(rsv[j as int] == rs@[j as int]@);
                }
                if first == i && str_eq(rs[j].name.as_str(), rs[i].name.as_str()) {
                    first = j;
                }
                j = j + 1;
            }
            let ghost dup = is_dup_at(rsv, i as int);
            proof {
                if first < i {
                    assert(dup);
                    crate::collection::lemma_request_name_index_bounds(rsv, rsv[i as int].name);
                    assert(request_name_index(rsv, rsv[i as int].name) == first) by {
                        let g = request_name_index(rsv, rsv[i as int].name);
                        assert(0 <= g <= rsv.len());
                        if g < first {
                            assert(rsv[g].name == rsv[i as int].name);
                            assert(false);
                        }
                        if g > first {
                            assert(rsv[first as int].name != rsv[i as int].name);
                            assert(false);
                        }
                    }
                } else {
                    assert(!dup);
                }
            }
            if first < i {
                let ghost pre = issues@;
                issues.push(build_dup_issue(&rs[i].name, first, i));
                proof {
                    assert(issues@ =~= pre.push(issues@.last()));
                    assert(issues@.map_values(|s: String| s@) =~= pre.map_values(
                        |s: String| s@,
                    ).push(issues@.last()@));
                    assert(issues@.last()@ == dup_issue(rsv, i as int));
                    assert(dup_issues_upto(rsv, i + 1) =~= dup_issues_upto(rsv, i as int).push(
                        dup_issue(rsv, i as int),
                    ));
                    assert(issues@.map_values(|s: String| s@) =~= meta_issues(cv.metadata)
                        + dup_issues_upto(rsv, i + 1));
                }
                if fix_issues {
                    let mut q = rs[i].clone();
                    q.name = build_renamed(&rs[i].name, i);
                    reqs2.push(q);
                } else {
                    reqs2.push(rs[i].clone());
                }
            } else {
                proof {
                    assert(dup_issues_upto(rsv, i + 1) =~= dup_issues_upto(rsv, i as int));
                }
                reqs2.push(rs[i].clone());
            }
            i = i + 1;
        }
        let ghost r2v = dup_fixed_requests(rsv, fix_issues);
        proof {
            assert(reqs2@.map_values(|q: Request| q@) =~= r2v);
            assert(issues@.map_values(|s: String| s@) == meta_issues(cv.metadata) + dup_issues(
                rsv,
            ));
        }

        // Per-request validity check, on the post-rename list.
        let mut kept: Vec<Request> = Vec::new();
        let ghost issues_base = issues@.map_values(|s: String| s@);
        let mut k: usize = 0;
        proof {
            assert(validity_kept(r2v.take(0)) =~= Seq::<RequestView>::empty());
            assert(validity_issues(r2v.take(0)) =~= Seq::<Seq<char>>::empty());
            assert(kept@.map_values(|q: Request| q@) =~= validity_kept(r2v.take(0)));
            assert(issues@.map_values(|s: String| s@) =~= issues_base + validity_issues(
                r2v.take(0),
            ));
        }
        while k < reqs2.len()
            invariant
                k <= reqs2.len(),
                r2v == reqs2@.map_values(|q: Request| q@),
                kept@.map_values(|q: Request| q@) == validity_kept(r2v.take(k as int)),
                issues@.map_values(|s: String| s@) == issues_base + validity_issues(
                    r2v.take(k as int),
                ),
            decreases reqs2.len() - k,
        {
            let ghost single = seq![r2v[k as int]];
            proof {
                assert(r2v[k as int] == reqs2@[k as int]@);
                lemma_validity_concat(r2v.take(k as int), single);
                assert(r2v.take(k + 1) =~= r2v.take(k as int) + single);
                assert(single[0] == r2v[k as int]);
                assert(single.drop_first() =~= Seq::<RequestView>::empty());
                assert(validity_kept(Seq::<RequestView>::empty()) =~= Seq::<
                    RequestView,
                >::empty());
                assert(validity_issues(Seq::<RequestView>::empty()) =~= Seq::<Seq<char>>::empty());
                if spec_validate_request(r2v[k as int]) is Ok {
                    assert(validity_kept(single) =~= seq![single[0]] + validity_kept(
                        single.drop_first(),
                    ));
                    assert(validity_kept(single) =~= single);
                    assert(validity_issues(single) =~= Seq::<Seq<char>>::empty());
                } else {
                    assert(validity_kept(single) =~= Seq::<RequestView>::empty());
                    assert(validity_issues(single) =~= seq![invalid_issue(single[0])] +
                    validity_issues(single.drop_first()));
                    assert(validity_issues(single) =~= seq![invalid_issue(r2v[k as int])]);
                }
            }
            match reqs2[k].validate() {
                Result::Ok(u) => {
                    let ghost kpre = kept@;
                    kept.push(reqs2[k].clone());
                    proof {
                        assert(kept@ =~= kpre.push(kept@.last()));
                        assert(kept@.map_values(|q: Request| q@) =~= kpre.map_values(
                            |q: Request| q@,
                        ).push(kept@.last()@));
                        assert(kept@.last()@ == r2v[k as int]);
                        assert(validity_kept(r2v.take(k + 1)) =~= validity_kept(
                            r2v.take(k as int),
                        ).push(r2v[k as int]));
                        assert(kept@.map_values(|q: Request| q@) =~= validity_kept(
                            r2v.take(k + 1),
                        ));
                        assert(issues@.map_values(|s: String| s@) =~= issues_base
                            + validity_issues(r2v.take(k + 1)));
                    }
                },
                Result::Err(e) => {
                    let msg = e.display_string();
                    let ghost pre = issues@;
                    issues.push(build_invalid_issue(&reqs2[k].name, &msg));
                    proof {
                        assert(issues@ =~= pre.push(issues@.last()));
                        assert(issues@.map_values(|s: String| s@) =~= pre.map_values(
                            |s: String| s@,
                        ).push(issues@.last()@));
                        assert(issues@.last()@ == invalid_issue(r2v[k as int]));
                        assert(validity_issues(r2v.take(k + 1)) =~= validity_issues(
                            r2v.take(k as int),
                        ).push(invalid_issue(r2v[k as int])));
                        assert(kept@.map_values(|q: Request| q@) =~= validity_kept(
                            r2v.take(k + 1),
                        ));
                        assert(issues@.map_values(|s: String| s@) =~= issues_base
                            + validity_issues(r2v.take(k + 1)));
                    }
                },
            }
            k = k + 1;
        }
        proof {
            assert(r2v.take(r2v.len() as int) =~= r2v);
        }
        let final_requests = if fix_issues {
            kept
        } else {
            reqs2
        };
        let fixed = Collection {
            name: collection.name.clone(),
            requests: final_requests,
            description: crate::collection::clone_description(&collection.description),
            metadata,
        };
        proof {
            assert(fixed@ == spec_validate_and_fix(cv, fix_issues).0);
            assert(issues@.map_values(|s: String| s@) =~= spec_validate_and_fix(
                cv,
                fix_issues,
            ).1);
        }
        (fixed, issues)
    }
}

} // verus!
