//! The store and mutator layer: a whole file's text to and from an ordered
//! collection of bookmarks, and the positional operations on a collection.
//!
//! Loading splits the text into lines, decodes each in original order, and
//! keeps only the successes: comment lines, blank lines and malformed lines
//! are dropped with no diagnostic. Saving encodes every record and ends each
//! line with a newline, so loading then saving is lossy with respect to
//! comments and blank lines. The collection's order is never changed:
//! records are addressed by position alone, and removing one shifts all
//! later positions down by one.
//!
//! The file I/O itself lives outside this crate; its caller hands the
//! file's text in and takes the new text back. Concurrent writers to one
//! file race (read-modify-write, last writer wins); nothing here locks.

use vstd::prelude::*;
use vstd::string::*;

verus! {

use crate::codec::{decode_spec, encode_spec, split_spec, trim_spec};
use crate::record::{Bookmark, BookmarkView};

/// A record that the file stores faithfully, one line per record: no `|`
/// or newline in any field, no `,` in a tag, each tag already trimmed, at
/// least one tag, and a name not starting with `#`. Outside these bounds
/// the flat format loses information: the separators and the newline are
/// not escapable, an empty tag list reads back as one empty tag, and a
/// leading `#` turns the line into a comment.
pub open spec fn representable(b: BookmarkView) -> bool {
    &&& forall|j: int| 0 <= j < b.name.len() ==> b.name[j] != '|' && b.name[j] != '\n'
    &&& forall|j: int| 0 <= j < b.url.len() ==> b.url[j] != '|' && b.url[j] != '\n'
    &&& forall|i: int, j: int|
        0 <= i < b.tags.len() && 0 <= j < b.tags[i].len() ==> #[trigger] b.tags[i][j] != '|'
            && b.tags[i][j] != ',' && b.tags[i][j] != '\n'
    &&& forall|i: int| 0 <= i < b.tags.len() ==> trim_spec(#[trigger] b.tags[i]) == b.tags[i]
    &&& b.tags.len() >= 1
    &&& (b.name.len() > 0 ==> b.name[0] != '#')
}

/// What decoding a sequence of lines yields: the records of the lines that
/// decode, in line order.
pub open spec fn load_lines_spec(lines: Seq<Seq<char>>) -> Seq<BookmarkView>
    decreases lines.len(),
{
    if lines.len() == 0 {
        Seq::empty()
    } else {
        let rest = load_lines_spec(lines.drop_first());
        match decode_spec(lines[0]) {
            Some(b) => seq![b] + rest,
            None => rest,
        }
    }
}

/// What loading a whole file's text yields: its lines, split on newline,
/// decoded in order.
pub open spec fn load_spec(content: Seq<char>) -> Seq<BookmarkView> {
    load_lines_spec(split_spec(content, '\n'))
}

/// What saving a collection writes: every record encoded, each line ended
/// by one newline.
pub open spec fn save_spec(records: Seq<BookmarkView>) -> Seq<char>
    decreases records.len(),
{
    if records.len() == 0 {
        Seq::empty()
    } else {
        encode_spec(records[0]) + seq!['\n'] + save_spec(records.drop_first())
    }
}

/// Decoding one more line at the back of a line sequence.
pub proof fn lemma_load_lines_push(lines: Seq<Seq<char>>, l: Seq<char>)
    ensures
        load_lines_spec(lines.push(l)) == load_lines_spec(lines) + (match decode_spec(l) {
            Some(b) => seq![b],
            None => Seq::<BookmarkView>::empty(),
        }),
    decreases lines.len(),
{
    let p = lines.push(l);
    if lines.len() == 0 {
        assert(p[0] == l);
        assert(p.drop_first() =~= Seq::<Seq<char>>::empty());
        assert(load_lines_spec(Seq::<Seq<char>>::empty()) =~= Seq::<BookmarkView>::empty());
        assert(load_lines_spec(lines) =~= Seq::<BookmarkView>::empty());
        match decode_spec(l) {
            Some(b) => {
                assert(load_lines_spec(p) =~= load_lines_spec(lines) + seq![b]);
            },
            None => {
                assert(load_lines_spec(p) =~= load_lines_spec(lines));
            },
        }
    } else {
        lemma_load_lines_push(lines.drop_first(), l);
        assert(p.drop_first() =~= lines.drop_first().push(l));
        assert(p[0] == lines[0]);
        match decode_spec(l) {
            Some(b) => {
                assert(load_lines_spec(p) =~= load_lines_spec(lines) + seq![b]);
            },
            None => {
                assert(load_lines_spec(p) =~= load_lines_spec(lines));
            },
        }
    }
}

/// Encoding one more record at the back of a collection.
pub proof fn lemma_save_push(records: Seq<BookmarkView>, b: BookmarkView)
    ensures
        save_spec(records.push(b)) == save_spec(records) + encode_spec(b) + seq!['\n'],
    decreases records.len(),
{
    let p = records.push(b);
    if records.len() == 0 {
        assert(p[0] == b);
        assert(p.drop_first() =~= Seq::<BookmarkView>::empty());
        assert(save_spec(Seq::<BookmarkView>::empty()) =~= Seq::<char>::empty());
        assert(save_spec(records) =~= Seq::<char>::empty());
        assert(save_spec(p) =~= save_spec(records) + encode_spec(b) + seq!['\n']);
    } else {
        lemma_save_push(records.drop_first(), b);
        assert(p.drop_first() =~= records.drop_first().push(b));
        assert(p[0] == records[0]);
        assert(save_spec(p) =~= save_spec(records) + encode_spec(b) + seq!['\n']);
    }
}

/// Load a collection from a whole file's text, as `load_spec` says: split
/// into lines, decode each in order, keep the successes. The caller that
/// owns the file reads it and hands the text in; a file that cannot be
/// read is treated at that boundary as empty text, which loads to the
/// empty collection.
pub fn load_from_str(content: &str) -> (r: Vec<Bookmark>)
    ensures
        r.deep_view() == load_spec(content@),
{
    let ghost full = split_spec(content@, '\n');
    let len = content.unicode_len();
    let mut r: Vec<Bookmark> = Vec::new();
    let mut cur: usize = 0;
    let ghost mut k: int = 0;
    proof {
        crate::codec::lemma_split_len(content@, '\n');
        assert(content@.skip(0) =~= content@);
        assert(full.take(0) =~= Seq::<Seq<char>>::empty());
        assert(full =~= full.take(0) + split_spec(content@.skip(0), '\n'));
    }
    while cur <= len
        invariant
            cur <= len + 1,
            len == content@.len(),
            full == split_spec(content@, '\n'),
            0 <= k <= full.len(),
            cur <= len ==> full == full.take(k) + split_spec(content@.skip(cur as int), '\n'),
            cur == len + 1 ==> k == full.len(),
            r.deep_view() == load_lines_spec(full.take(k)),
        decreases len + 1 - cur,
    {
        let ghost rest = content@.skip(cur as int);
        let q = crate::codec::find_from(content, cur, '\n');
        let line = content.substring_char(cur, q);
        let ghost old_dv = r.deep_view();
        let decoded = Bookmark::deserialize(line);
        proof {
            crate::codec::lemma_split_len(rest, '\n');
            assert(forall|j: int| 0 <= j < q - cur ==> rest[j] == content@[cur + j] && rest[j]
                != '\n');
            if q < len {
                assert(rest[q - cur] == content@[q as int]);
            }
            crate::codec::lemma_split_at_first(rest, '\n', q - cur);
            if q == len {
                assert(split_spec(rest, '\n') == seq![rest]);
                assert(full[k] == rest);
                assert(line@ =~= rest);
            } else {
                let head = rest.take(q - cur);
                assert(split_spec(rest, '\n') == seq![head] + split_spec(
                    rest.skip(q - cur + 1),
                    '\n',
                ));
                assert(full[k] == head);
                assert(line@ =~= head);
                assert(rest.skip(q - cur + 1) =~= content@.skip(q as int + 1));
                assert(full =~= full.take(k + 1) + split_spec(content@.skip(q as int + 1), '\n'));
            }
            assert(full.take(k + 1) =~= full.take(k).push(full[k]));
            lemma_load_lines_push(full.take(k), full[k]);
        }
        match decoded {
            Some(b) => {
                r.push(b);
                proof {
                    assert(r.deep_view() =~= old_dv.push(b@));
                    assert(r.deep_view() =~= load_lines_spec(full.take(k + 1)));
                }
            },
            None => {
                proof {
                    assert(r.deep_view() =~= load_lines_spec(full.take(k + 1)));
                }
            },
        }
        proof {
            k = k + 1;
        }
        if q == len {
            proof {
                assert(full.take(k) =~= full);
            }
            return r;
        }
        cur = q + 1;
    }
    proof {
        assert(full.take(k) =~= full);
    }
    r
}

/// Write a collection out as a whole file's text, as `save_spec` says:
/// every record encoded in order, one line each. The caller that owns the
/// file truncates it and writes this text completely; comments and blank
/// lines of a previously loaded file are not in the collection and so are
/// not written back.
pub fn save_to_str(records: &Vec<Bookmark>) -> (r: String)
    ensures
        r@ == save_spec(records.deep_view()),
{
    let ghost rv = records.deep_view();
    let mut r = String::new();
    let mut i: usize = 0;
    proof {
        assert(rv.take(0) =~= Seq::<BookmarkView>::empty());
    }
    while i < records.len()
        invariant
            i <= records.len(),
            rv == records.deep_view(),
            r@ == save_spec(rv.take(i as int)),
        decreases records.len() - i,
    {
        let line = records[i].serialize();
        r.append(line.as_str());
        r.append("\n");
        proof {
            reveal_strlit("\n");
            lemma_save_push(rv.take(i as int), rv[i as int]);
            assert(rv.take(i as int).push(rv[i as int]) =~= rv.take(i as int + 1));
            assert(records[i as int]@ == rv[i as int]);
            assert(r@ == save_spec(rv.take(i as int + 1)));
        }
        i = i + 1;
    }
    proof {
        assert(rv.take(records.len() as int) =~= rv);
    }
    r
}

/// The whole-file round trip: saving a collection and loading the text
/// back yields that collection, provided every record is representable.
/// (Loading then saving is the lossy direction: comments and blank lines
/// are dropped, and tags are trimmed.)
pub proof fn lemma_save_load(records: Seq<BookmarkView>)
    requires
        forall|i: int| 0 <= i < records.len() ==> representable(#[trigger] records[i]),
    ensures
        load_spec(save_spec(records)) == records,
    decreases records.len(),
{
    if records.len() == 0 {
        assert(save_spec(records) =~= Seq::<char>::empty());
        let lines = split_spec(Seq::<char>::empty(), '\n');
        assert(lines =~= seq![Seq::<char>::empty()]);
        assert(lines.drop_first() =~= Seq::<Seq<char>>::empty());
        assert(load_lines_spec(lines.drop_first()) =~= Seq::<BookmarkView>::empty());
        assert(load_spec(save_spec(records)) =~= records);
    } else {
        let b = records[0];
        let rest = records.drop_first();
        assert forall|i: int| 0 <= i < rest.len() implies representable(#[trigger] rest[i]) by {
            assert(rest[i] == records[i + 1]);
        }
        lemma_save_load(rest);
        let line = encode_spec(b);
        let s = save_spec(records);
        assert(s == line + seq!['\n'] + save_spec(rest));
        crate::codec::lemma_join_chars(b.tags, ',');
        let jt = crate::codec::join_spec(b.tags, ',');
        assert forall|j: int| 0 <= j < line.len() implies line[j] != '\n' by {
            let nl = b.name.len() as int;
            let ul = b.url.len() as int;
            if j < nl {
                assert(line[j] == b.name[j]);
            } else if j == nl {
                assert(line[j] == '|');
            } else if j < nl + 1 + ul {
                assert(line[j] == b.url[j - (nl + 1)]);
            } else if j == nl + 1 + ul {
                assert(line[j] == '|');
            } else {
                assert(line[j] == jt[j - (nl + 1 + ul + 1)]);
            }
        }
        assert(forall|j: int| 0 <= j < line.len() ==> s[j] == line[j] && s[j] != '\n');
        assert(s[line.len() as int] == '\n');
        crate::codec::lemma_split_at_first(s, '\n', line.len() as int);
        assert(s.take(line.len() as int) =~= line);
        assert(s.skip(line.len() as int + 1) =~= save_spec(rest));
        let lines = split_spec(s, '\n');
        assert(lines == seq![line] + split_spec(save_spec(rest), '\n'));
        assert(lines[0] == line);
        assert(lines.drop_first() =~= split_spec(save_spec(rest), '\n'));
        crate::codec::lemma_encode_decode(b);
        assert(decode_spec(line) == Some(b));
        assert(load_lines_spec(lines) == seq![b] + load_lines_spec(lines.drop_first()));
        assert(load_spec(s) =~= records);
    }
}

/// The error of a positional operation whose target index is not within
/// the collection. It is a distinct result state from an I/O failure,
/// which only the caller that owns the file can meet, and from a malformed
/// line, which loading silently skips.
#[derive(Clone, Copy, Debug, PartialEq, Eq, Structural)]
pub enum StoreError {
    IndexOutOfRange,
}

/// Add a record at the end of the collection. No deduplication: the
/// collection keeps every record in insertion order.
pub fn append(collection: &mut Vec<Bookmark>, record: Bookmark)
    ensures
        final (collection).deep_view() == old(collection).deep_view().push(record@),
{
    let ghost rv = record@;
    collection.push(record);
    proof {
        assert(collection.deep_view() =~= old(collection).deep_view().push(rv));
    }
}

/// Remove the record at `index`, shifting all later positions down by
/// one, when `index` is within the collection; otherwise leave the
/// collection unchanged and report `IndexOutOfRange`. No partial
/// mutation: on an error nothing should be saved.
pub fn remove_at(collection: &mut Vec<Bookmark>, index: usize) -> (r: Result<(), StoreError>)
    ensures
        index < old(collection).len() ==> r is Ok && final (collection).deep_view() == old(
            collection,
        ).deep_view().remove(index as int),
        index >= old(collection).len() ==> r == Result::<(), StoreError>::Err(
            StoreError::IndexOutOfRange,
        ) && *final (collection) == *old(collection),
{
    if index < collection.len() {
        collection.remove(index);
        proof {
            assert(collection.deep_view() =~= old(collection).deep_view().remove(index as int));
        }
        Ok(())
    } else {
        Err(StoreError::IndexOutOfRange)
    }
}

} // verus!
