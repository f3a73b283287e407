//! The record codec: the pure mapping between one bookmark and one line of
//! text.
//!
//! The on-disk form of a record is `name|url|tag1,tag2,...`: the three
//! fields joined by `|`, the tag sequence joined by `,` in its stored order.
//! Decoding skips empty lines and lines starting with `#`, splits on `|`,
//! takes the first three segments (anything after the third is discarded),
//! splits the third segment on `,` and trims each piece. Neither separator
//! is escapable: a field holding a literal `|` or `,` is not representable.

use vstd::prelude::*;
use vstd::string::*;

verus! {

use crate::record::{Bookmark, BookmarkView};

/// A character with the Unicode `White_Space` property: what trimming a
/// tag removes from its ends.
pub open spec fn is_wspace(c: char) -> bool {
    ||| c == '\t'
    ||| c == '\n'
    ||| c == '\u{0B}'
    ||| c == '\u{0C}'
    ||| c == '\r'
    ||| c == ' '
    ||| c == '\u{85}'
    ||| c == '\u{A0}'
    ||| c == '\u{1680}'
    ||| ('\u{2000}' <= c && c <= '\u{200A}')
    ||| c == '\u{2028}'
    ||| c == '\u{2029}'
    ||| c == '\u{202F}'
    ||| c == '\u{205F}'
    ||| c == '\u{3000}'
}

/// The sequence with its leading whitespace removed.
pub open spec fn trim_start_spec(s: Seq<char>) -> Seq<char>
    decreases s.len(),
{
    if s.len() > 0 && is_wspace(s[0]) {
        trim_start_spec(s.drop_first())
    } else {
        s
    }
}

/// The sequence with its trailing whitespace removed.
pub open spec fn trim_end_spec(s: Seq<char>) -> Seq<char>
    decreases s.len(),
{
    if s.len() > 0 && is_wspace(s[s.len() - 1]) {
        trim_end_spec(s.drop_last())
    } else {
        s
    }
}

/// The sequence with whitespace removed from both ends.
pub open spec fn trim_spec(s: Seq<char>) -> Seq<char> {
    trim_end_spec(trim_start_spec(s))
}

/// Splitting on a separator character. Every sequence splits into at least
/// one segment; each separator occurrence ends a segment, so `n` separators
/// yield `n + 1` segments, empty ones included.
pub open spec fn split_spec(s: Seq<char>, sep: char) -> Seq<Seq<char>>
    decreases s.len(),
{
    if s.len() == 0 {
        seq![Seq::<char>::empty()]
    } else if s[0] == sep {
        seq![Seq::<char>::empty()] + split_spec(s.drop_first(), sep)
    } else {
        let r = split_spec(s.drop_first(), sep);
        seq![seq![s[0]] + r[0]] + r.drop_first()
    }
}

/// Joining segments with a separator character: the left inverse of
/// `split_spec` when no segment holds the separator.
pub open spec fn join_spec(parts: Seq<Seq<char>>, sep: char) -> Seq<char>
    decreases parts.len(),
{
    if parts.len() == 0 {
        Seq::empty()
    } else if parts.len() == 1 {
        parts[0]
    } else {
        parts[0] + seq![sep] + join_spec(parts.drop_first(), sep)
    }
}

/// The tag sequence read out of the third field: split on `,`, each piece
/// trimmed. An empty field yields one empty tag, not zero tags.
pub open spec fn split_trim(s: Seq<char>) -> Seq<Seq<char>> {
    split_spec(s, ',').map_values(|t: Seq<char>| trim_spec(t))
}

/// The one line of text that encodes a record.
pub open spec fn encode_spec(b: BookmarkView) -> Seq<char> {
    b.name + seq!['|'] + b.url + seq!['|'] + join_spec(b.tags, ',')
}

/// What decoding one line yields: `None` for an empty line, a comment line,
/// or a line with fewer than three `|`-separated segments; otherwise the
/// record read from the first three segments, the rest discarded.
pub open spec fn decode_spec(line: Seq<char>) -> Option<BookmarkView> {
    if line.len() == 0 || line[0] == '#' {
        None
    } else {
        let segs = split_spec(line, '|');
        if segs.len() < 3 {
            None
        } else {
            Some(BookmarkView { name: segs[0], url: segs[1], tags: split_trim(segs[2]) })
        }
    }
}

pub proof fn lemma_split_len(s: Seq<char>, sep: char)
    ensures
        split_spec(s, sep).len() >= 1,
    decreases s.len(),
{
    if s.len() > 0 {
        lemma_split_len(s.drop_first(), sep);
    }
}

/// Splitting, read off the position of the first separator: with no
/// separator the whole sequence is the one segment; with the first at `i`,
/// the prefix before `i` is the first segment and the rest splits on.
pub proof fn lemma_split_at_first(s: Seq<char>, sep: char, i: int)
    requires
        0 <= i <= s.len(),
        forall|j: int| 0 <= j < i ==> s[j] != sep,
        i < s.len() ==> s[i] == sep,
    ensures
        i == s.len() ==> split_spec(s, sep) == seq![s],
        i < s.len() ==> split_spec(s, sep) == seq![s.take(i)] + split_spec(s.skip(i + 1), sep),
    decreases s.len(),
{
    lemma_split_len(s, sep);
    if s.len() == 0 {
        assert(s =~= Seq::<char>::empty());
        assert(split_spec(s, sep) =~= seq![s]);
    } else if i == 0 {
        if i < s.len() {
            assert(s.skip(1) =~= s.drop_first());
            assert(s.take(0) =~= Seq::<char>::empty());
            assert(split_spec(s, sep) =~= seq![s.take(0)] + split_spec(s.skip(1), sep));
        }
    } else {
        let d = s.drop_first();
        lemma_split_len(d, sep);
        assert(forall|j: int| 0 <= j < i - 1 ==> d[j] != sep);
        lemma_split_at_first(d, sep, i - 1);
        let r = split_spec(d, sep);
        if i == s.len() {
            assert(r == seq![d]);
            assert(seq![s[0]] + r[0] =~= s);
            assert(r.drop_first() =~= Seq::<Seq<char>>::empty());
            assert(split_spec(s, sep) =~= seq![s]);
        } else {
            let rest = split_spec(d.skip(i), sep);
            assert(r == seq![d.take(i - 1)] + rest);
            assert(r[0] == d.take(i - 1));
            assert(seq![s[0]] + d.take(i - 1) =~= s.take(i));
            assert(r.drop_first() =~= rest);
            assert(d.skip(i) =~= s.skip(i + 1));
            assert(split_spec(s, sep) =~= seq![s.take(i)] + split_spec(s.skip(i + 1), sep));
        }
    }
}

/// Joining one more segment at the back.
pub proof fn lemma_join_push(parts: Seq<Seq<char>>, t: Seq<char>, sep: char)
    ensures
        parts.len() == 0 ==> join_spec(parts.push(t), sep) == t,
        parts.len() > 0 ==> join_spec(parts.push(t), sep) == join_spec(parts, sep) + seq![sep] + t,
    decreases parts.len(),
{
    let p = parts.push(t);
    if parts.len() == 0 {
        assert(p.len() == 1);
        assert(p[0] == t);
    } else if parts.len() == 1 {
        assert(p.len() == 2);
        assert(p[0] == parts[0]);
        assert(p.drop_first() =~= seq![t]);
        assert(join_spec(seq![t], sep) == t);
    } else {
        lemma_join_push(parts.drop_first(), t, sep);
        assert(p.drop_first() =~= parts.drop_first().push(t));
        assert(join_spec(p, sep) == p[0] + seq![sep] + join_spec(p.drop_first(), sep));
        assert(join_spec(p, sep) =~= join_spec(parts, sep) + seq![sep] + t);
    }
}

/// Every character of a join is the separator or a character of some
/// segment.
pub proof fn lemma_join_chars(parts: Seq<Seq<char>>, sep: char)
    ensures
        forall|k: int|
            0 <= k < join_spec(parts, sep).len() ==> (join_spec(parts, sep)[k] == sep
                || exists|i: int, j: int|
                0 <= i < parts.len() && 0 <= j < parts[i].len() && parts[i][j] == #[trigger] join_spec(
                    parts,
                    sep,
                )[k]),
    decreases parts.len(),
{
    if parts.len() <= 1 {
    } else {
        lemma_join_chars(parts.drop_first(), sep);
        let jd = join_spec(parts.drop_first(), sep);
        let j0 = parts[0];
        assert forall|k: int|
            0 <= k < join_spec(parts, sep).len() implies (join_spec(parts, sep)[k] == sep
            || exists|i: int, j: int|
            0 <= i < parts.len() && 0 <= j < parts[i].len() && parts[i][j] == #[trigger] join_spec(
                parts,
                sep,
            )[k]) by {
            let c = join_spec(parts, sep)[k];
            if k < j0.len() {
                assert(parts[0][k] == c);
            } else if k == j0.len() {
            } else {
                let kd = k - j0.len() - 1;
                assert(jd[kd] == c);
                if c != sep {
                    let (i, j): (int, int) = choose|i: int, j: int|
                        0 <= i < parts.drop_first().len() && 0 <= j
                            < parts.drop_first()[i].len() && parts.drop_first()[i][j] == jd[kd];
                    assert(parts[i + 1][j] == c);
                }
            }
        }
    }
}

/// Splitting a join recovers the segments, provided there is at least one
/// segment and none holds the separator.
pub proof fn lemma_split_join(parts: Seq<Seq<char>>, sep: char)
    requires
        parts.len() >= 1,
        forall|i: int, j: int|
            0 <= i < parts.len() && 0 <= j < parts[i].len() ==> #[trigger] parts[i][j] != sep,
    ensures
        split_spec(join_spec(parts, sep), sep) == parts,
    decreases parts.len(),
{
    if parts.len() == 1 {
        let s = join_spec(parts, sep);
        assert(s == parts[0]);
        assert(forall|j: int| 0 <= j < s.len() ==> s[j] != sep);
        lemma_split_at_first(s, sep, s.len() as int);
        assert(split_spec(s, sep) =~= parts);
    } else {
        let d = parts.drop_first();
        lemma_split_join(d, sep);
        let s = join_spec(parts, sep);
        let h = parts[0];
        assert(s == h + seq![sep] + join_spec(d, sep));
        assert(forall|j: int| 0 <= j < h.len() ==> s[j] == h[j] && s[j] != sep);
        assert(s[h.len() as int] == sep);
        lemma_split_at_first(s, sep, h.len() as int);
        assert(s.take(h.len() as int) =~= h);
        assert(s.skip(h.len() as int + 1) =~= join_spec(d, sep));
        assert(split_spec(s, sep) =~= seq![h] + d);
        assert(seq![h] + d =~= parts);
    }
}

fn is_space_char(c: char) -> (r: bool)
    ensures
        r == is_wspace(c),
{
    c == '\t' || c == '\n' || c == '\u{0B}' || c == '\u{0C}' || c == '\r' || c == ' ' || c
        == '\u{85}' || c == '\u{A0}' || c == '\u{1680}' || ('\u{2000}' <= c && c <= '\u{200A}') || c
        == '\u{2028}' || c == '\u{2029}' || c == '\u{202F}' || c == '\u{205F}' || c == '\u{3000}'
}

/// The index of the first occurrence of `sep` at or after `from`, or the
/// length of `s` when there is none.
pub(crate) fn find_from(s: &str, from: usize, sep: char) -> (r: usize)
    requires
        from <= s@.len(),
    ensures
        from <= r <= s@.len(),
        forall|j: int| from <= j < r ==> s@[j] != sep,
        r < s@.len() ==> s@[r as int] == sep,
{
    let len = s.unicode_len();
    let mut i: usize = from;
    while i < len
        invariant
            from <= i <= len,
            len == s@.len(),
            forall|j: int| from <= j < i ==> s@[j] != sep,
        decreases len - i,
    {
        if s.get_char(i) == sep {
            return i;
        }
        i = i + 1;
    }
    i
}

/// The string with whitespace removed from both ends, as `trim_spec` says.
fn trim_str(s: &str) -> (r: String)
    ensures
        r@ == trim_spec(s@),
{
    let len = s.unicode_len();
    let mut start: usize = 0;
    proof {
        assert(s@.skip(0) =~= s@);
    }
    while start < len && is_space_char(s.get_char(start))
        invariant
            0 <= start <= len,
            len == s@.len(),
            trim_start_spec(s@) == trim_start_spec(s@.skip(start as int)),
        decreases len - start,
    {
        proof {
            assert(s@.skip(start as int).drop_first() =~= s@.skip(start as int + 1));
        }
        start = start + 1;
    }
    proof {
        if start == len {
            assert(s@.skip(start as int) =~= Seq::<char>::empty());
        }
        assert(trim_start_spec(s@) == s@.skip(start as int));
        assert(s@.skip(start as int) =~= s@.subrange(start as int, len as int));
    }
    let mut end: usize = len;
    while end > start && is_space_char(s.get_char(end - 1))
        invariant
            start <= end <= len,
            len == s@.len(),
            trim_end_spec(s@.skip(start as int)) == trim_end_spec(
                s@.subrange(start as int, end as int),
            ),
        decreases end,
    {
        proof {
            assert(s@.subrange(start as int, end as int).drop_last() =~= s@.subrange(
                start as int,
                end as int - 1,
            ));
        }
        end = end - 1;
    }
    proof {
        assert(s@.skip(start as int) =~= s@.subrange(start as int, len as int));
        assert(trim_spec(s@) == s@.subrange(start as int, end as int));
    }
    s.substring_char(start, end).to_owned()
}

/// Split the tag field on `,` and trim each piece, as `split_trim` says.
fn split_tags(s: &str) -> (tags: Vec<String>)
    ensures
        tags.deep_view() == split_trim(s@),
{
    let ghost full = split_spec(s@, ',');
    let len = s.unicode_len();
    let mut tags: Vec<String> = Vec::new();
    let mut cur: usize = 0;
    proof {
        lemma_split_len(s@, ',');
        assert(s@.skip(0) =~= s@);
        assert(full.take(0) =~= Seq::<Seq<char>>::empty());
        assert(full =~= full.take(0) + split_spec(s@.skip(0), ','));
    }
    while cur <= len
        invariant
            cur <= len + 1,
            len == s@.len(),
            full == split_spec(s@, ','),
            tags.len() <= full.len(),
            cur <= len ==> full == full.take(tags.len() as int) + split_spec(
                s@.skip(cur as int),
                ',',
            ),
            cur == len + 1 ==> tags.len() == full.len(),
            forall|i: int| 0 <= i < tags.len() ==> tags.deep_view()[i] == trim_spec(full[i]),
        decreases len + 1 - cur,
    {
        let ghost n: int = tags.len() as int;
        let ghost rest = s@.skip(cur as int);
        let q = find_from(s, cur, ',');
        let piece = s.substring_char(cur, q);
        let t = trim_str(piece);
        let ghost old_dv = tags.deep_view();
        tags.push(t);
        proof {
            lemma_split_len(rest, ',');
            assert(forall|j: int| 0 <= j < q - cur ==> rest[j] == s@[cur + j] && rest[j] != ',');
            if q < len {
                assert(rest[q - cur] == s@[q as int]);
            }
            lemma_split_at_first(rest, ',', q - cur);
            assert(tags.deep_view() =~= old_dv.push(t@));
            if q == len {
                assert(split_spec(rest, ',') == seq![rest]);
                assert(full.len() == n + 1);
                assert(full[n] == rest);
                assert(piece@ =~= rest);
                assert(tags.deep_view()[n] == trim_spec(full[n]));
            } else {
                let head = rest.take(q - cur);
                let tail = split_spec(rest.skip(q - cur + 1), ',');
                assert(split_spec(rest, ',') == seq![head] + tail);
                assert(full[n] == head);
                assert(piece@ =~= head);
                assert(tags.deep_view()[n] == trim_spec(full[n]));
                assert(rest.skip(q - cur + 1) =~= s@.skip(q as int + 1));
                assert(full.take(n + 1) =~= full.take(n).push(full[n]));
                assert(full =~= full.take(n + 1) + split_spec(s@.skip(q as int + 1), ','));
            }
        }
        if q == len {
            proof {
                assert(tags.deep_view() =~= split_trim(s@));
            }
            return tags;
        }
        cur = q + 1;
    }
    proof {
        assert(tags.deep_view() =~= split_trim(s@));
    }
    tags
}

impl Bookmark {
    /// Decode one line of text, as `decode_spec` says: `None` for an empty
    /// line, a line starting with `#`, or a line with fewer than three
    /// `|`-separated fields; otherwise the record read from the first three
    /// fields, with each tag trimmed, and anything after the third field
    /// discarded.
    pub fn deserialize(line: &str) -> (r: Option<Bookmark>)
        ensures
            r is Some <==> decode_spec(line@) is Some,
            r matches Some(b) ==> b@ == decode_spec(line@).unwrap(),
    {
        let ghost lv = line@;
        let len = line.unicode_len();
        if len == 0 {
            return None;
        }
        if line.get_char(0) == '#' {
            return None;
        }
        let p1 = find_from(line, 0, '|');
        if p1 == len {
            proof {
                lemma_split_at_first(lv, '|', len as int);
            }
            return None;
        }
        proof {
            lemma_split_at_first(lv, '|', p1 as int);
        }
        let ghost rest1 = lv.skip(p1 as int + 1);
        let p2 = find_from(line, p1 + 1, '|');
        proof {
            assert(forall|j: int|
                0 <= j < p2 - (p1 + 1) ==> rest1[j] == lv[p1 + 1 + j] && rest1[j] != '|');
            if p2 < len {
                assert(rest1[p2 - (p1 + 1)] == lv[p2 as int]);
            }
            lemma_split_at_first(rest1, '|', p2 - (p1 + 1));
        }
        if p2 == len {
            proof {
                assert(split_spec(lv, '|').len() == 2);
            }
            return None;
        }
        let ghost rest2 = lv.skip(p2 as int + 1);
        let p3 = find_from(line, p2 + 1, '|');
        proof {
            assert(rest1.skip(p2 - (p1 + 1) + 1) =~= rest2);
            assert(forall|j: int|
                0 <= j < p3 - (p2 + 1) ==> rest2[j] == lv[p2 + 1 + j] && rest2[j] != '|');
            if p3 < len {
                assert(rest2[p3 - (p2 + 1)] == lv[p3 as int]);
            }
            lemma_split_at_first(rest2, '|', p3 - (p2 + 1));
            if p3 == len {
                assert(rest2 =~= lv.subrange(p2 as int + 1, p3 as int));
            } else {
                assert(rest2.take(p3 - (p2 + 1)) =~= lv.subrange(p2 as int + 1, p3 as int));
            }
        }
        let name = line.substring_char(0, p1).to_owned();
        let url = line.substring_char(p1 + 1, p2).to_owned();
        let tags = split_tags(line.substring_char(p2 + 1, p3));
        let r = Bookmark { name, url, tags };
        proof {
            let segs = split_spec(lv, '|');
            lemma_split_len(rest2, '|');
            assert(segs == seq![lv.take(p1 as int)] + (seq![rest1.take(p2 - (p1 + 1))]
                + split_spec(rest2, '|')));
            assert(segs.len() >= 3);
            assert(segs[0] == lv.take(p1 as int));
            assert(lv.take(p1 as int) =~= lv.subrange(0, p1 as int));
            assert(segs[1] == rest1.take(p2 - (p1 + 1)));
            assert(rest1.take(p2 - (p1 + 1)) =~= lv.subrange(p1 as int + 1, p2 as int));
            assert(segs[2] == split_spec(rest2, '|')[0]);
            assert(split_spec(rest2, '|')[0] == lv.subrange(p2 as int + 1, p3 as int));
            assert(r@ == decode_spec(lv).unwrap());
        }
        Some(r)
    }

    /// The tag sequence joined by `,` in its stored order, each tag's
    /// stored form used verbatim: no re-trimming, no escaping.
    pub fn tag_string(&self) -> (r: String)
        ensures
            r@ == join_spec(self@.tags, ','),
    {
        let ghost tv = self@.tags;
        let mut r = String::new();
        let mut i: usize = 0;
        proof {
            assert(tv.take(0) =~= Seq::<Seq<char>>::empty());
        }
        while i < self.tags.len()
            invariant
                i <= self.tags.len(),
                tv == self@.tags,
                r@ == join_spec(tv.take(i as int), ','),
            decreases self.tags.len() - i,
        {
            if i > 0 {
                r.append(",");
            }
            r.append(self.tags[i].as_str());
            proof {
                reveal_strlit(",");
                lemma_join_push(tv.take(i as int), tv[i as int], ',');
                assert(tv.take(i as int).push(tv[i as int]) =~= tv.take(i as int + 1));
                assert(r@ == join_spec(tv.take(i as int + 1), ','));
            }
            i = i + 1;
        }
        proof {
            assert(tv.take(self.tags.len() as int) =~= tv);
        }
        r
    }

    /// Encode the record as its one line of text: the three fields joined
    /// by `|`, the tags joined by `,`, as `encode_spec` says.
    pub fn serialize(&self) -> (r: String)
        ensures
            r@ == encode_spec(self@),
    {
        let mut r = String::new();
        r.append(self.name.as_str());
        r.append("|");
        r.append(self.url.as_str());
        r.append("|");
        let ts = self.tag_string();
        r.append(ts.as_str());
        proof {
            reveal_strlit("|");
            assert(r@ =~= encode_spec(self@));
        }
        r
    }
}

/// The round trip: decoding an encoded record yields that record back,
/// provided the record is representable in the format — neither `|` in any
/// field nor `,` in a tag, each tag already trimmed, at least one tag, and
/// a name not starting with `#`. (A record outside these bounds encodes to
/// a line that decodes differently or not at all: the separators are not
/// escapable, an empty tag list decodes as one empty tag, and a leading
/// `#` turns the line into a comment.)
pub proof fn lemma_encode_decode(b: BookmarkView)
    requires
        forall|j: int| 0 <= j < b.name.len() ==> b.name[j] != '|',
        forall|j: int| 0 <= j < b.url.len() ==> b.url[j] != '|',
        forall|i: int, j: int|
            0 <= i < b.tags.len() && 0 <= j < b.tags[i].len() ==> #[trigger] b.tags[i][j] != '|'
                && b.tags[i][j] != ',',
        forall|i: int| 0 <= i < b.tags.len() ==> trim_spec(#[trigger] b.tags[i]) == b.tags[i],
        b.tags.len() >= 1,
        b.name.len() > 0 ==> b.name[0] != '#',
    ensures
        decode_spec(encode_spec(b)) == Some(b),
{
    let line = encode_spec(b);
    let nl = b.name.len() as int;
    let ul = b.url.len() as int;
    let jt = join_spec(b.tags, ',');
    lemma_join_chars(b.tags, ',');
    assert(forall|k: int| 0 <= k < jt.len() ==> jt[k] != '|');
    assert(line.len() > 0);
    if nl > 0 {
        assert(line[0] == b.name[0]);
    } else {
        assert(line[0] == '|');
    }
    assert(line[0] != '#');
    assert(forall|j: int| 0 <= j < nl ==> line[j] == b.name[j] && line[j] != '|');
    assert(line[nl] == '|');
    lemma_split_at_first(line, '|', nl);
    let rest1 = line.skip(nl + 1);
    assert(rest1 =~= b.url + seq!['|'] + jt);
    assert(forall|j: int| 0 <= j < ul ==> rest1[j] == b.url[j] && rest1[j] != '|');
    assert(rest1[ul] == '|');
    lemma_split_at_first(rest1, '|', ul);
    let rest2 = rest1.skip(ul + 1);
    assert(rest2 =~= jt);
    lemma_split_at_first(jt, '|', jt.len() as int);
    let segs = split_spec(line, '|');
    assert(segs == seq![line.take(nl)] + (seq![rest1.take(ul)] + seq![jt]));
    assert(segs.len() == 3);
    assert(line.take(nl) =~= b.name);
    assert(rest1.take(ul) =~= b.url);
    assert(segs[0] == b.name);
    assert(segs[1] == b.url);
    assert(segs[2] == jt);
    lemma_split_join(b.tags, ',');
    assert(split_trim(jt) =~= b.tags);
    assert(decode_spec(line) == Some(BookmarkView { name: b.name, url: b.url, tags: b.tags }));
    assert(BookmarkView { name: b.name, url: b.url, tags: b.tags } == b);
}

} // verus!
