use the_way::engine::TheWay;
use the_way::export::{decode_records, encode_records};
use the_way::index::IndexKind;
use the_way::snippet::{Draft, Filters, LostTheWay};

fn fresh() -> (sled::Db, TheWay) {
    let db = sled::Config::new().temporary(true).open().unwrap();
    let w = TheWay::attach(&db).unwrap();
    (db, w)
}

fn draft(desc: &str, lang: &str, tags: &[&str], code: &str) -> Draft {
    Draft {
        description: desc.as_bytes().to_vec(),
        language: lang.as_bytes().to_vec(),
        tags: tags.iter().map(|t| t.as_bytes().to_vec()).collect(),
        code: code.as_bytes().to_vec(),
    }
}

fn by_language(lang: &str) -> Filters {
    let mut f = Filters::none();
    f.language = Some(lang.as_bytes().to_vec());
    f
}

#[test]
fn add_assigns_increasing_identifiers() {
    let (_db, mut w) = fresh();
    let id1 = w.add_snippet(draft("first", "rust", &[], "a"), 10).unwrap();
    let id2 = w.add_snippet(draft("second", "go", &[], "b"), 11).unwrap();
    let id3 = w.add_snippet(draft("third", "", &[], "c"), 12).unwrap();
    assert_eq!(id1, 1);
    assert_eq!(id2, 2);
    assert_eq!(id3, 3);
    assert!(id1 < id2 && id2 < id3);
}

#[test]
fn counter_persists_across_reattach() {
    let db = sled::Config::new().temporary(true).open().unwrap();
    {
        let mut w = TheWay::attach(&db).unwrap();
        let id1 = w.add_snippet(draft("one", "rust", &[], "x"), 1).unwrap();
        assert_eq!(id1, 1);
        w.delete_snippet(id1).unwrap();
    }
    let mut w2 = TheWay::attach(&db).unwrap();
    // the identifier of the deleted record is never reused
    let id2 = w2.add_snippet(draft("two", "rust", &[], "y"), 2).unwrap();
    assert_eq!(id2, 2);
}

#[test]
fn get_returns_what_was_added() {
    let (_db, mut w) = fresh();
    let id = w
        .add_snippet(draft("hello", "rust", &["cli", "demo"], "fn main() {}"), 42)
        .unwrap();
    let s = w.get_snippet(id).unwrap();
    assert_eq!(s.id, id);
    assert_eq!(s.description, b"hello".to_vec());
    assert_eq!(s.language, b"rust".to_vec());
    assert_eq!(s.tags, vec![b"cli".to_vec(), b"demo".to_vec()]);
    assert_eq!(s.code, b"fn main() {}".to_vec());
    assert_eq!(s.created_at, 42);
    assert_eq!(s.modified_at, 42);
}

#[test]
fn delete_then_get_is_not_found() {
    let (_db, mut w) = fresh();
    let id = w.add_snippet(draft("gone", "rust", &["t"], "x"), 5).unwrap();
    let prior = w.delete_snippet(id).unwrap();
    assert_eq!(prior.description, b"gone".to_vec());
    assert_eq!(w.get_snippet(id).unwrap_err(), LostTheWay::NotFound);
    // delete is not idempotent at this layer
    assert_eq!(w.delete_snippet(id).unwrap_err(), LostTheWay::NotFound);
}

#[test]
fn edit_preserves_identifier_and_advances_modified_at() {
    let (_db, mut w) = fresh();
    let id = w.add_snippet(draft("before", "rust", &["a"], "1"), 100).unwrap();
    w.edit_snippet(id, draft("after", "go", &["b"], "2"), 150).unwrap();
    let s = w.get_snippet(id).unwrap();
    assert_eq!(s.id, id);
    assert_eq!(s.description, b"after".to_vec());
    assert_eq!(s.language, b"go".to_vec());
    assert_eq!(s.created_at, 100);
    assert!(s.modified_at >= 100);
    assert_eq!(s.modified_at, 150);
    // a clock that went backwards still never lowers modified_at
    w.edit_snippet(id, draft("again", "go", &[], "3"), 90).unwrap();
    let s2 = w.get_snippet(id).unwrap();
    assert_eq!(s2.modified_at, 150);
    // the indices follow the edit
    let rust_hits = w.filter_snippets(&by_language("rust")).unwrap();
    assert!(rust_hits.is_empty());
    let go_hits = w.filter_snippets(&by_language("go")).unwrap();
    assert_eq!(go_hits.len(), 1);
    assert_eq!(go_hits[0].id, id);
}

#[test]
fn edit_missing_and_invalid_are_rejected() {
    let (_db, mut w) = fresh();
    assert_eq!(
        w.edit_snippet(7, draft("x", "", &[], ""), 1).unwrap_err(),
        LostTheWay::NotFound
    );
    let id = w.add_snippet(draft("ok", "", &[], ""), 1).unwrap();
    assert_eq!(
        w.edit_snippet(id, draft("", "", &[], ""), 2).unwrap_err(),
        LostTheWay::InvalidRecord
    );
    assert_eq!(
        w.add_snippet(draft("", "rust", &[], "x"), 3).unwrap_err(),
        LostTheWay::InvalidRecord
    );
}

#[test]
fn three_languages_scenario() {
    let (_db, mut w) = fresh();
    let id1 = w.add_snippet(draft("r1", "rust", &[], "a"), 1).unwrap();
    let id2 = w.add_snippet(draft("r2", "rust", &[], "b"), 2).unwrap();
    let id3 = w.add_snippet(draft("g1", "go", &[], "c"), 3).unwrap();
    let mut rust_ids = w.index.lookup(IndexKind::Language, &b"rust".to_vec()).unwrap();
    rust_ids.sort();
    assert_eq!(rust_ids, vec![id1, id2]);
    let go_ids = w.index.lookup(IndexKind::Language, &b"go".to_vec()).unwrap();
    assert_eq!(go_ids, vec![id3]);
    w.delete_snippet(id1).unwrap();
    let rust_after = w.index.lookup(IndexKind::Language, &b"rust".to_vec()).unwrap();
    assert_eq!(rust_after, vec![id2]);
    let hits = w.filter_snippets(&by_language("rust")).unwrap();
    assert_eq!(hits.len(), 1);
    assert_eq!(hits[0].id, id2);
}

#[test]
fn tag_filter_demands_every_tag() {
    let (_db, mut w) = fresh();
    let both = w.add_snippet(draft("both", "", &["a", "b"], "1"), 1).unwrap();
    let _only_a = w.add_snippet(draft("only a", "", &["a"], "2"), 2).unwrap();
    let _only_b = w.add_snippet(draft("only b", "", &["b"], "3"), 3).unwrap();
    let mut f = Filters::none();
    f.tags = vec![b"a".to_vec(), b"b".to_vec()];
    let hits = w.filter_snippets(&f).unwrap();
    assert_eq!(hits.len(), 1);
    assert_eq!(hits[0].id, both);
    for s in &hits {
        assert!(s.tags.contains(&b"a".to_vec()));
        assert!(s.tags.contains(&b"b".to_vec()));
    }
    // a tag nothing carries gives an empty answer, not an error
    let mut none = Filters::none();
    none.tags = vec![b"zzz".to_vec()];
    assert!(w.filter_snippets(&none).unwrap().is_empty());
}

#[test]
fn date_range_and_fuzzy_pattern() {
    let (_db, mut w) = fresh();
    let early = w.add_snippet(draft("parse config files", "", &[], "1"), 10).unwrap();
    let late = w.add_snippet(draft("print colored output", "", &[], "2"), 20).unwrap();
    let mut f = Filters::none();
    f.date_from = Some(15);
    let hits = w.filter_snippets(&f).unwrap();
    assert_eq!(hits.len(), 1);
    assert_eq!(hits[0].id, late);
    let mut g = Filters::none();
    g.date_to = Some(15);
    let hits2 = w.filter_snippets(&g).unwrap();
    assert_eq!(hits2.len(), 1);
    assert_eq!(hits2[0].id, early);
    // "pcf" is a subsequence of "parse config files" but not of the other
    let mut h = Filters::none();
    h.pattern = Some(b"pcf".to_vec());
    let hits3 = w.filter_snippets(&h).unwrap();
    assert_eq!(hits3.len(), 1);
    assert_eq!(hits3[0].id, early);
}

#[test]
fn stale_index_entry_heals_on_rebuild() {
    let (_db, mut w) = fresh();
    let id = w.add_snippet(draft("hidden", "rust", &["x"], "c"), 1).unwrap();
    // corrupt the index by hand: the record loses its language entry
    w.index
        .remove_from_index(IndexKind::Language, &b"rust".to_vec(), id)
        .unwrap();
    let hits = w.filter_snippets(&by_language("rust")).unwrap();
    assert!(hits.is_empty());
    // a full scan still sees it
    let all = w.filter_snippets(&Filters::none()).unwrap();
    assert_eq!(all.len(), 1);
    // the maintenance pass restores the entry
    w.rebuild_indices().unwrap();
    let healed = w.filter_snippets(&by_language("rust")).unwrap();
    assert_eq!(healed.len(), 1);
    assert_eq!(healed[0].id, id);
}

#[test]
fn rebuild_twice_gives_identical_contents() {
    let (_db, mut w) = fresh();
    w.add_snippet(draft("a", "rust", &["t1", "t2"], "1"), 1).unwrap();
    w.add_snippet(draft("b", "go", &["t2"], "2"), 2).unwrap();
    w.rebuild_indices().unwrap();
    let mut rust1 = w.index.lookup(IndexKind::Language, &b"rust".to_vec()).unwrap();
    let mut t2_1 = w.index.lookup(IndexKind::Tag, &b"t2".to_vec()).unwrap();
    w.rebuild_indices().unwrap();
    let mut rust2 = w.index.lookup(IndexKind::Language, &b"rust".to_vec()).unwrap();
    let mut t2_2 = w.index.lookup(IndexKind::Tag, &b"t2".to_vec()).unwrap();
    rust1.sort();
    rust2.sort();
    t2_1.sort();
    t2_2.sort();
    assert_eq!(rust1, rust2);
    assert_eq!(t2_1, t2_2);
}

#[test]
fn export_then_import_round_trips_fields() {
    let (_db, mut w) = fresh();
    w.add_snippet(draft("keep me", "rust", &["a"], "code-1"), 1).unwrap();
    w.add_snippet(draft("and me", "go", &["b", "c"], "code-2"), 2).unwrap();
    w.add_snippet(draft("not me", "python", &[], "code-3"), 3).unwrap();
    let bytes = w.export_filtered(&Filters::none()).unwrap();

    let (_db2, mut w2) = fresh();
    let n = w2.import_records(&bytes, 99).unwrap();
    assert_eq!(n, 3);
    let all = w2.filter_snippets(&Filters::none()).unwrap();
    assert_eq!(all.len(), 3);
    assert_eq!(all[0].description, b"keep me".to_vec());
    assert_eq!(all[0].language, b"rust".to_vec());
    assert_eq!(all[0].tags, vec![b"a".to_vec()]);
    assert_eq!(all[0].code, b"code-1".to_vec());
    assert_eq!(all[1].description, b"and me".to_vec());
    assert_eq!(all[1].tags, vec![b"b".to_vec(), b"c".to_vec()]);
    // identifiers and timestamps are reassigned, not trusted from the file
    assert_eq!(all[0].created_at, 99);
    assert_eq!(all[0].modified_at, 99);
    // the imported records are indexed
    let hits = w2.filter_snippets(&by_language("go")).unwrap();
    assert_eq!(hits.len(), 1);
    assert_eq!(hits[0].description, b"and me".to_vec());
}

#[test]
fn encode_decode_records_is_exact() {
    let (_db, mut w) = fresh();
    w.add_snippet(draft("alpha", "rust", &["q"], "body"), 7).unwrap();
    let all = w.filter_snippets(&Filters::none()).unwrap();
    let bytes = encode_records(&all);
    let back = decode_records(&bytes).unwrap();
    assert_eq!(back.len(), 1);
    assert_eq!(back[0].description, all[0].description);
    assert_eq!(back[0].language, all[0].language);
    assert_eq!(back[0].tags, all[0].tags);
    assert_eq!(back[0].code, all[0].code);
    // a truncated file is rejected
    let mut cut = bytes.clone();
    cut.pop();
    assert!(decode_records(&cut).is_none());
}

#[test]
fn export_writes_json_object_lines() {
    let (_db, mut w) = fresh();
    w.add_snippet(draft("hi \"there\"", "rust", &["a", "b"], "line1\nline2"), 7).unwrap();
    let bytes = w.export_filtered(&Filters::none()).unwrap();
    let text = String::from_utf8(bytes).unwrap();
    assert_eq!(
        text,
        "{\"description\":\"hi \\\"there\\\"\",\"language\":\"rust\",\"tags\":[\"a\",\"b\"],\"code\":\"line1\\nline2\"}\n"
    );
    // an empty tag array and an empty export are both well-formed
    let (_db2, mut w2) = fresh();
    w2.add_snippet(draft("d", "", &[], "c"), 1).unwrap();
    let one = w2.export_filtered(&Filters::none()).unwrap();
    assert_eq!(
        String::from_utf8(one).unwrap(),
        "{\"description\":\"d\",\"language\":\"\",\"tags\":[],\"code\":\"c\"}\n"
    );
    let mut nothing = Filters::none();
    nothing.tags = vec![b"absent".to_vec()];
    let empty = w2.export_filtered(&nothing).unwrap();
    assert!(empty.is_empty());
}

#[test]
fn import_rejects_garbage() {
    let (_db, mut w) = fresh();
    let garbage = b"not an export at all".to_vec();
    assert_eq!(w.import_records(&garbage, 1).unwrap_err(), LostTheWay::InvalidRecord);
    assert_eq!(w.current_counter().unwrap(), 0);
}

#[test]
fn clear_erases_everything_and_resets_counter() {
    let (_db, mut w) = fresh();
    w.add_snippet(draft("a", "rust", &["t"], "1"), 1).unwrap();
    w.add_snippet(draft("b", "go", &[], "2"), 2).unwrap();
    w.clear().unwrap();
    assert_eq!(w.current_counter().unwrap(), 0);
    assert!(w.filter_snippets(&Filters::none()).unwrap().is_empty());
    assert!(w.index.lookup(IndexKind::Language, &b"rust".to_vec()).unwrap().is_empty());
    // the counter starts over after a full clear, by design
    let id = w.add_snippet(draft("fresh", "", &[], "3"), 3).unwrap();
    assert_eq!(id, 1);
}

#[test]
fn empty_language_is_not_indexed() {
    let (_db, mut w) = fresh();
    let id = w.add_snippet(draft("no lang", "", &[], "x"), 1).unwrap();
    let keys = w.index.keys(IndexKind::Language).unwrap();
    assert!(keys.is_empty());
    // still reachable by full scan
    let all = w.filter_snippets(&Filters::none()).unwrap();
    assert_eq!(all.len(), 1);
    assert_eq!(all[0].id, id);
}

#[test]
fn index_keys_enumerates_languages() {
    let (_db, mut w) = fresh();
    w.add_snippet(draft("a", "rust", &[], "1"), 1).unwrap();
    w.add_snippet(draft("b", "go", &[], "2"), 2).unwrap();
    w.add_snippet(draft("c", "rust", &[], "3"), 3).unwrap();
    let mut keys = w.index.keys(IndexKind::Language).unwrap();
    keys.sort();
    assert_eq!(keys, vec![b"go".to_vec(), b"rust".to_vec()]);
}
