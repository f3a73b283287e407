use quickmark::query::{filter_by_tag, filter_fuzzy};
use quickmark::store::{append, load_from_str, remove_at, save_to_str, StoreError};
use quickmark::Bookmark;

fn bm(name: &str, url: &str, tags: &[&str]) -> Bookmark {
    Bookmark {
        name: name.to_string(),
        url: url.to_string(),
        tags: tags.iter().map(|t| t.to_string()).collect(),
    }
}

fn same(a: &Bookmark, b: &Bookmark) -> bool {
    a.name == b.name && a.url == b.url && a.tags == b.tags
}

#[test]
fn serialize_simple() {
    let b = bm("Name", "http://x", &["a", "b"]);
    assert_eq!(b.serialize(), "Name|http://x|a,b");
}

#[test]
fn tag_string_joins_verbatim() {
    let b = bm("n", "u", &["a", " b ", ""]);
    assert_eq!(b.tag_string(), "a, b ,");
}

#[test]
fn round_trip_simple() {
    let b = bm("Name", "http://x", &["a", "b"]);
    let line = b.serialize();
    let back = Bookmark::deserialize(&line).unwrap();
    assert!(same(&b, &back));
}

#[test]
fn deserialize_empty_line_skipped() {
    assert!(Bookmark::deserialize("").is_none());
}

#[test]
fn deserialize_comment_skipped() {
    assert!(Bookmark::deserialize("# a comment").is_none());
}

#[test]
fn deserialize_missing_fields() {
    assert!(Bookmark::deserialize("only a name").is_none());
    assert!(Bookmark::deserialize("name|url").is_none());
}

#[test]
fn deserialize_three_fields() {
    let b = Bookmark::deserialize("Name|http://x|a,b").unwrap();
    assert_eq!(b.name, "Name");
    assert_eq!(b.url, "http://x");
    assert_eq!(b.tags, vec!["a".to_string(), "b".to_string()]);
}

#[test]
fn deserialize_discards_after_third_field() {
    let b = Bookmark::deserialize("a|b|c|discarded|too").unwrap();
    assert_eq!(b.name, "a");
    assert_eq!(b.url, "b");
    assert_eq!(b.tags, vec!["c".to_string()]);
}

#[test]
fn deserialize_empty_tag_field_is_one_empty_tag() {
    let b = Bookmark::deserialize("a|b|").unwrap();
    assert_eq!(b.tags, vec![String::new()]);
}

#[test]
fn deserialize_trims_tags() {
    let b = Bookmark::deserialize("a|b|  x , y\t").unwrap();
    assert_eq!(b.tags, vec!["x".to_string(), "y".to_string()]);
}

#[test]
fn encode_does_not_retrim() {
    let b = bm("a", "b", &[" x "]);
    assert_eq!(b.serialize(), "a|b| x ");
}

#[test]
fn comment_blank_skip() {
    let got = load_from_str("#note\n\nName|http://x|a,b\n");
    assert_eq!(got.len(), 1);
    assert!(same(&got[0], &bm("Name", "http://x", &["a", "b"])));
}

#[test]
fn lossy_save() {
    let got = load_from_str("#note\n\nName|http://x|a,b\n");
    assert_eq!(save_to_str(&got), "Name|http://x|a,b\n");
}

#[test]
fn empty_text_loads_empty_collection() {
    assert_eq!(load_from_str("").len(), 0);
}

#[test]
fn save_empty_collection() {
    assert_eq!(save_to_str(&Vec::new()), "");
}

#[test]
fn append_keeps_order_and_duplicates() {
    let mut coll = vec![bm("a", "u", &["t"])];
    append(&mut coll, bm("b", "v", &["s"]));
    append(&mut coll, bm("a", "u", &["t"]));
    assert_eq!(coll.len(), 3);
    assert_eq!(coll[0].name, "a");
    assert_eq!(coll[1].name, "b");
    assert_eq!(coll[2].name, "a");
}

#[test]
fn positional_remove() {
    let mut coll = vec![bm("r0", "u0", &["a"]), bm("r1", "u1", &["b"]), bm("r2", "u2", &["c"])];
    let r = remove_at(&mut coll, 1);
    assert!(r.is_ok());
    assert_eq!(coll.len(), 2);
    assert_eq!(coll[0].name, "r0");
    assert_eq!(coll[1].name, "r2");
}

#[test]
fn positional_remove_out_of_range() {
    let mut coll = vec![bm("r0", "u0", &["a"]), bm("r1", "u1", &["b"]), bm("r2", "u2", &["c"])];
    let r = remove_at(&mut coll, 5);
    assert!(matches!(r, Err(StoreError::IndexOutOfRange)));
    assert_eq!(coll.len(), 3);
    assert_eq!(coll[0].name, "r0");
    assert_eq!(coll[1].name, "r1");
    assert_eq!(coll[2].name, "r2");
}

#[test]
fn tag_filter() {
    let coll = vec![bm("one", "u0", &["lang", "dev"]), bm("two", "u1", &["music"])];
    let hits = filter_by_tag(&coll, "lang");
    assert_eq!(hits.len(), 1);
    assert_eq!(hits[0].0, 0);
    assert!(same(&hits[0].1, &coll[0]));
}

#[test]
fn tag_filter_is_substring_containment() {
    let coll = vec![bm("one", "u0", &["golang"])];
    let hits = filter_by_tag(&coll, "lang");
    assert_eq!(hits.len(), 1);
}

#[test]
fn tag_filter_case_insensitive_both_sides() {
    let coll = vec![bm("one", "u0", &["Lang"])];
    assert_eq!(filter_by_tag(&coll, "LANG").len(), 1);
    assert_eq!(filter_by_tag(&coll, "lang").len(), 1);
}

#[test]
fn fuzzy_filter() {
    let b = bm("Rust Blog", "https://blog.rs", &["lang", "dev"]);
    assert_eq!(b.serialize(), "Rust Blog|https://blog.rs|lang,dev");
    let coll = vec![b];
    let hits = filter_fuzzy(&coll, "RUST");
    assert_eq!(hits.len(), 1);
    assert_eq!(hits[0].0, 0);
    assert_eq!(filter_fuzzy(&coll, "py").len(), 0);
}

#[test]
fn fuzzy_filter_hits_any_field() {
    let coll = vec![bm("name", "https://example.org", &["tag"])];
    assert_eq!(filter_fuzzy(&coll, "example").len(), 1);
    assert_eq!(filter_fuzzy(&coll, "TAG").len(), 1);
    assert_eq!(filter_fuzzy(&coll, "nowhere").len(), 0);
}

#[test]
fn filters_preserve_positions() {
    let coll = vec![
        bm("a", "u0", &["hit"]),
        bm("b", "u1", &["miss"]),
        bm("c", "u2", &["hit"]),
    ];
    let hits = filter_by_tag(&coll, "hit");
    assert_eq!(hits.len(), 2);
    assert_eq!(hits[0].0, 0);
    assert_eq!(hits[1].0, 2);
}
