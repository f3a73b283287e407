//! The in-memory representation of one bookmark.

use vstd::prelude::*;

verus! {

/// One bookmark entry: a name, a URL, and an ordered tag list.
///
/// Fields are opaque strings: no length, emptiness or character-set
/// validation is performed. `tags` preserves insertion order and may
/// contain duplicates.
pub struct Bookmark {
    pub name: String,
    pub url: String,
    pub tags: Vec<String>,
}

/// The mathematical model of a bookmark: each field as a sequence of
/// characters, the tag list as a sequence of such sequences.
pub ghost struct BookmarkView {
    pub name: Seq<char>,
    pub url: Seq<char>,
    pub tags: Seq<Seq<char>>,
}

impl View for Bookmark {
    type V = BookmarkView;

    open spec fn view(&self) -> BookmarkView {
        BookmarkView { name: self.name@, url: self.url@, tags: self.tags.deep_view() }
    }
}

impl DeepView for Bookmark {
    type V = BookmarkView;

    open spec fn deep_view(&self) -> BookmarkView {
        self.view()
    }
}

impl Clone for Bookmark {
    fn clone(&self) -> (res: Self)
        ensures
            res@ == self@,
    {
        let tags = self.tags.clone();
        proof {
            assert(tags@ =~= self.tags@);
            assert(tags.deep_view() =~= self.tags.deep_view());
        }
        Bookmark { name: self.name.clone(), url: self.url.clone(), tags }
    }
}

} // verus!
