//! The query engine: read-only filters over a loaded collection.
//!
//! Both filters compare case-insensitively on both sides — one fixed
//! policy for every search mode. They preserve collection order and report
//! each matching record's original position, which downstream positional
//! operations address.

use vstd::prelude::*;
use vstd::string::*;

verus! {

use crate::codec::encode_spec;
use crate::record::{Bookmark, BookmarkView};

/// What lowercasing a sequence of characters yields: Unicode case
/// mapping, a function of the characters alone, too large to state here,
/// so it has only a name.
pub uninterp spec fn lower_of(s: Seq<char>) -> Seq<char>;

/// Relies on `str::to_lowercase`: the result depends on the characters of
/// `s` alone.
#[verifier::external_body]
fn lowercase(s: &str) -> (r: String)
    ensures
        r@ == lower_of(s@),
{
    s.to_lowercase()
}

/// Whether `needle` occurs in `hay` as a contiguous subsequence.
pub open spec fn has_sub(hay: Seq<char>, needle: Seq<char>) -> bool {
    exists|i: int|
        0 <= i <= hay.len() - needle.len() && #[trigger] hay.subrange(i, i + needle.len() as int)
            == needle
}

/// Whether at least one tag of the record contains the query as a
/// substring, both sides lowercased.
pub open spec fn tag_match(b: BookmarkView, query: Seq<char>) -> bool {
    exists|i: int|
        0 <= i < b.tags.len() && has_sub(lower_of(#[trigger] b.tags[i]), lower_of(query))
}

/// Whether the record's whole encoded line contains the query as a
/// substring, both sides lowercased: a hit on the name, the URL or the
/// raw tag string counts.
pub open spec fn fuzzy_match(b: BookmarkView, query: Seq<char>) -> bool {
    has_sub(lower_of(encode_spec(b)), lower_of(query))
}

/// Whether `needle` matches `hay` at position `i` exactly.
fn matches_at(hay: &str, needle: &str, i: usize) -> (r: bool)
    requires
        i + needle@.len() <= hay@.len(),
    ensures
        r == (hay@.subrange(i as int, i as int + needle@.len() as int) == needle@),
{
    let hl = hay.unicode_len();
    let nl = needle.unicode_len();
    let mut j: usize = 0;
    while j < nl
        invariant
            j <= nl,
            nl == needle@.len(),
            hl == hay@.len(),
            i + nl <= hl,
            forall|y: int| 0 <= y < j ==> hay@[i + y] == needle@[y],
        decreases nl - j,
    {
        if hay.get_char(i + j) != needle.get_char(j) {
            proof {
                assert(hay@.subrange(i as int, i as int + nl as int)[j as int] == hay@[i as int
                    + j as int]);
            }
            return false;
        }
        j = j + 1;
    }
    proof {
        assert(hay@.subrange(i as int, i as int + nl as int) =~= needle@);
    }
    true
}

/// Whether `needle` occurs anywhere in `hay`, as `has_sub` says. The
/// empty needle occurs in everything.
fn contains_sub(hay: &str, needle: &str) -> (r: bool)
    ensures
        r == has_sub(hay@, needle@),
{
    let hl = hay.unicode_len();
    let nl = needle.unicode_len();
    if nl > hl {
        return false;
    }
    if nl == 0 {
        proof {
            assert(hay@.subrange(0, 0 + needle@.len() as int) =~= needle@);
        }
        return true;
    }
    let mut i: usize = 0;
    while i <= hl - nl
        invariant
            1 <= nl <= hl,
            hl == hay@.len(),
            nl == needle@.len(),
            i <= hl - nl + 1,
            forall|x: int|
                0 <= x < i ==> #[trigger] hay@.subrange(x, x + needle@.len() as int) != needle@,
        decreases hl - nl + 1 - i,
    {
        if matches_at(hay, needle, i) {
            return true;
        }
        i = i + 1;
    }
    false
}

impl Bookmark {
    /// Whether this record is a hit for a tag search, as `tag_match` says.
    pub fn matches_tag(&self, query: &str) -> (r: bool)
        ensures
            r == tag_match(self@, query@),
    {
        let q = lowercase(query);
        let mut i: usize = 0;
        while i < self.tags.len()
            invariant
                i <= self.tags.len(),
                q@ == lower_of(query@),
                forall|x: int|
                    0 <= x < i ==> !has_sub(lower_of(#[trigger] self@.tags[x]), lower_of(query@)),
            decreases self.tags.len() - i,
        {
            let t = lowercase(self.tags[i].as_str());
            proof {
                assert(self@.tags[i as int] == self.tags[i as int]@);
            }
            if contains_sub(t.as_str(), q.as_str()) {
                return true;
            }
            i = i + 1;
        }
        false
    }

    /// Whether this record is a hit for a fuzzy search, as `fuzzy_match`
    /// says: the query against the whole encoded line.
    pub fn matches_fuzzy(&self, query: &str) -> (r: bool)
        ensures
            r == fuzzy_match(self@, query@),
    {
        let line = self.serialize();
        let lower_line = lowercase(line.as_str());
        let q = lowercase(query);
        contains_sub(lower_line.as_str(), q.as_str())
    }
}

/// Every record with a tag containing the query (both sides lowercased),
/// paired with its original position, in collection order: exactly the
/// matching records, their positions strictly increasing.
pub fn filter_by_tag(collection: &Vec<Bookmark>, query: &str) -> (r: Vec<(usize, Bookmark)>)
    ensures
        forall|k: int|
            0 <= k < r@.len() ==> (#[trigger] r@[k]).0 < collection@.len() && r@[k].1@
                == collection@[r@[k].0 as int]@ && tag_match(collection@[r@[k].0 as int]@, query@),
        forall|k1: int, k2: int| 0 <= k1 < k2 < r@.len() ==> r@[k1].0 < r@[k2].0,
        forall|i: int|
            0 <= i < collection@.len() && tag_match(#[trigger] collection@[i]@, query@)
                ==> exists|k: int| 0 <= k < r@.len() && (#[trigger] r@[k]).0 == i,
{
    let mut r: Vec<(usize, Bookmark)> = Vec::new();
    let mut i: usize = 0;
    while i < collection.len()
        invariant
            i <= collection.len(),
            forall|k: int|
                0 <= k < r@.len() ==> (#[trigger] r@[k]).0 < i && r@[k].1@
                    == collection@[r@[k].0 as int]@ && tag_match(
                    collection@[r@[k].0 as int]@,
                    query@,
                ),
            forall|k1: int, k2: int| 0 <= k1 < k2 < r@.len() ==> r@[k1].0 < r@[k2].0,
            forall|x: int|
                0 <= x < i && tag_match(#[trigger] collection@[x]@, query@) ==> exists|k: int|
                    0 <= k < r@.len() && (#[trigger] r@[k]).0 == x,
        decreases collection.len() - i,
    {
        if collection[i].matches_tag(query) {
            let ghost old_r = r@;
            r.push((i, collection[i].clone()));
            proof {
                assert forall|x: int|
                    0 <= x < i + 1 && tag_match(#[trigger] collection@[x]@, query@) implies exists|
                    k: int,
                |
                    0 <= k < r@.len() && (#[trigger] r@[k]).0 == x by {
                    if x < i {
                        let k0 = choose|k: int|
                            0 <= k < old_r.len() && (#[trigger] old_r[k]).0 == x;
                        assert(r@[k0] == old_r[k0]);
                        assert((r@[k0]).0 == x);
                    } else {
                        assert((r@[r@.len() - 1]).0 == x);
                    }
                }
            }
        }
        i = i + 1;
    }
    r
}

/// Every record whose whole encoded line contains the query (both sides
/// lowercased), paired with its original position, in collection order:
/// exactly the matching records, their positions strictly increasing.
pub fn filter_fuzzy(collection: &Vec<Bookmark>, query: &str) -> (r: Vec<(usize, Bookmark)>)
    ensures
        forall|k: int|
            0 <= k < r@.len() ==> (#[trigger] r@[k]).0 < collection@.len() && r@[k].1@
                == collection@[r@[k].0 as int]@ && fuzzy_match(
                collection@[r@[k].0 as int]@,
                query@,
            ),
        forall|k1: int, k2: int| 0 <= k1 < k2 < r@.len() ==> r@[k1].0 < r@[k2].0,
        forall|i: int|
            0 <= i < collection@.len() && fuzzy_match(#[trigger] collection@[i]@, query@)
                ==> exists|k: int| 0 <= k < r@.len() && (#[trigger] r@[k]).0 == i,
{
    let mut r: Vec<(usize, Bookmark)> = Vec::new();
    let mut i: usize = 0;
    while i < collection.len()
        invariant
            i <= collection.len(),
            forall|k: int|
                0 <= k < r@.len() ==> (#[trigger] r@[k]).0 < i && r@[k].1@
                    == collection@[r@[k].0 as int]@ && fuzzy_match(
                    collection@[r@[k].0 as int]@,
                    query@,
                ),
            forall|k1: int, k2: int| 0 <= k1 < k2 < r@.len() ==> r@[k1].0 < r@[k2].0,
            forall|x: int|
                0 <= x < i && fuzzy_match(#[trigger] collection@[x]@, query@) ==> exists|k: int|
                    0 <= k < r@.len() && (#[trigger] r@[k]).0 == x,
        decreases collection.len() - i,
    {
        if collection[i].matches_fuzzy(query) {
            let ghost old_r = r@;
            r.push((i, collection[i].clone()));
            proof {
                assert forall|x: int|
                    0 <= x < i + 1 && fuzzy_match(#[trigger] collection@[x]@, query@) implies exists|
                    k: int,
                |
                    0 <= k < r@.len() && (#[trigger] r@[k]).0 == x by {
                    if x < i {
                        let k0 = choose|k: int|
                            0 <= k < old_r.len() && (#[trigger] old_r[k]).0 == x;
                        assert(r@[k0] == old_r[k0]);
                        assert((r@[k0]).0 == x);
                    } else {
                        assert((r@[r@.len() - 1]).0 == x);
                    }
                }
            }
        }
        i = i + 1;
    }
    r
}

} // verus!
