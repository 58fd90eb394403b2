use iioon::document::{Document, Kind, Unsupported, Value};
use iioon::lang::Lang;
use iioon::store::{DocumentStore, StoreError};

fn text(s: &str) -> Value {
    Value::Str(s.to_string())
}

fn keys(doc: &Document) -> Vec<String> {
    let mut r = Vec::new();
    for i in 0..doc.len() {
        r.push(doc.key(i).clone());
    }
    r
}

fn path(segments: &[&str]) -> Vec<String> {
    segments.iter().map(|s| s.to_string()).collect()
}

fn lang(tag: &str) -> Lang {
    Lang::new(tag.to_string()).unwrap()
}

fn greeting_of(d: &Document) -> Document {
    match d.get("hello") {
        Some(Value::Str(s)) => greeting(s),
        _ => Document::new(),
    }
}

fn greeting(s: &str) -> Document {
    let mut d = Document::new();
    d.insert("hello".to_string(), text(s));
    d
}

#[test]
fn a_new_document_is_empty() {
    let d = Document::new();
    assert_eq!(d.len(), 0);
    assert!(d.get("hello").is_none());
}

#[test]
fn keys_are_kept_in_ascending_order() {
    let mut d = Document::new();
    for k in ["nested", "hello", "zebra", "args", "Hello", "_x"] {
        d.insert(k.to_string(), text(k));
    }
    assert_eq!(keys(&d), vec!["Hello", "_x", "args", "hello", "nested", "zebra"]);
    assert_eq!(d.value(3), &text("hello"));
}

#[test]
fn the_order_of_insertion_does_not_matter() {
    let mut a = Document::new();
    let mut b = Document::new();
    for k in ["a", "b", "c", "d"] {
        a.insert(k.to_string(), text(k));
    }
    for k in ["d", "b", "a", "c"] {
        b.insert(k.to_string(), text(k));
    }
    assert_eq!(a, b);
}

#[test]
fn inserting_under_a_key_again_replaces_the_value() {
    let mut d = Document::new();
    d.insert("hello".to_string(), text("Hello!"));
    d.insert("bye".to_string(), text("Bye!"));
    d.insert("hello".to_string(), text("Hi!"));
    assert_eq!(d.len(), 2);
    assert_eq!(d.get("hello"), Some(&text("Hi!")));
    assert_eq!(d.get("bye"), Some(&text("Bye!")));
    assert_eq!(keys(&d), vec!["bye", "hello"]);
}

#[test]
fn values_are_found_by_key() {
    let mut d = Document::new();
    d.insert("hello".to_string(), text("Hello!"));
    d.insert("count".to_string(), Value::Other(Unsupported::Integer));
    assert_eq!(d.get("hello"), Some(&text("Hello!")));
    assert_eq!(d.get("count"), Some(&Value::Other(Unsupported::Integer)));
    assert_eq!(d.get("Hello"), None);
    assert_eq!(d.get(""), None);
}

#[test]
fn values_are_found_along_paths() {
    let mut deeper = Document::new();
    deeper.insert("hello_deeper_nested".to_string(), text("deep"));
    let mut nested = Document::new();
    nested.insert("hello_nested".to_string(), text("nested"));
    nested.insert("deeper_nested".to_string(), Value::Table(deeper));
    let mut root = Document::new();
    root.insert("hello".to_string(), text("top"));
    root.insert("nested".to_string(), Value::Table(nested));

    assert_eq!(root.value_at(&path(&["hello"])), Some(&text("top")));
    assert_eq!(root.value_at(&path(&["nested", "hello_nested"])), Some(&text("nested")));
    assert_eq!(
        root.value_at(&path(&["nested", "deeper_nested", "hello_deeper_nested"])),
        Some(&text("deep"))
    );
    assert!(matches!(root.value_at(&path(&["nested"])), Some(Value::Table(_))));
    assert_eq!(root.value_at(&path(&[])), None);
    assert_eq!(root.value_at(&path(&["missing"])), None);
    assert_eq!(root.value_at(&path(&["hello", "deeper"])), None);
    assert_eq!(root.value_at(&path(&["nested", "missing"])), None);
    assert_eq!(root.value_at(&path(&["nested", "hello_nested", "x"])), None);
}

#[test]
fn every_value_has_its_kind() {
    assert_eq!(text("x").kind(), Kind::Str);
    assert_eq!(Value::Table(Document::new()).kind(), Kind::Table);
    assert_eq!(Value::Other(Unsupported::Integer).kind(), Kind::Other(Unsupported::Integer));
    assert_eq!(Value::Other(Unsupported::Array).kind(), Kind::Other(Unsupported::Array));
    assert_ne!(Value::Other(Unsupported::Float).kind(), Value::Other(Unsupported::Boolean).kind());
    assert_ne!(Value::Other(Unsupported::Datetime).kind(), Kind::Str);
}

#[test]
fn a_new_store_is_empty() {
    let s = DocumentStore::new();
    assert_eq!(s.len(), 0);
    assert!(s.languages().is_empty());
    assert_eq!(s.find("en"), None);
    assert_eq!(s.get(&lang("en")).err(), Some(StoreError::UnknownLanguage));
}

#[test]
fn languages_are_kept_in_ascending_order() {
    let mut s = DocumentStore::new();
    for tag in ["fr", "en", "pt-BR", "de", "EN-us"] {
        s.insert(lang(tag), greeting(tag));
    }
    let tags: Vec<String> = s.languages().iter().map(|l| l.inner()).collect();
    assert_eq!(tags, vec!["de", "en", "EN-us", "fr", "pt-BR"]);
    assert_eq!(s.len(), 5);
    assert_eq!(s.language(1).id(), "en");
    assert_eq!(s.document(3), &greeting("fr"));
}

#[test]
fn of_two_offers_for_one_language_the_tag_that_comes_first_wins() {
    let mut s = DocumentStore::new();
    s.insert(lang("en"), greeting("small"));
    s.insert(lang("de"), greeting("hallo"));
    s.insert(lang("EN"), greeting("capital"));
    assert_eq!(s.len(), 2);
    assert_eq!(s.language(1).inner(), "EN");
    assert_eq!(s.document(1), &greeting("capital"));
    assert_eq!(s.get(&lang("En")), Ok(&greeting("capital")));

    let mut t = DocumentStore::new();
    t.insert(lang("EN"), greeting("capital"));
    t.insert(lang("en"), greeting("small"));
    t.insert(lang("de"), greeting("hallo"));
    assert_eq!(t.len(), 2);
    assert_eq!(t.language(1).inner(), "EN");
    assert_eq!(t.document(1), &greeting("capital"));
}

#[test]
fn an_offer_under_the_tag_that_is_held_changes_nothing() {
    let mut s = DocumentStore::new();
    s.insert(lang("en"), greeting("first"));
    s.insert(lang("en"), greeting("second"));
    assert_eq!(s.len(), 1);
    assert_eq!(s.language(0).inner(), "en");
    assert_eq!(s.document(0), &greeting("first"));
}

#[test]
fn a_store_is_the_same_however_it_was_filled() {
    let offers = [("fr", "a"), ("En", "b"), ("de", "c"), (" en", "d"), ("en", "e"), ("DE", "f")];
    let orders: [[usize; 6]; 4] =
        [[0, 1, 2, 3, 4, 5], [5, 4, 3, 2, 1, 0], [3, 0, 4, 1, 5, 2], [1, 3, 5, 0, 2, 4]];
    let mut seen: Vec<Vec<(String, Document)>> = Vec::new();
    for order in orders {
        let mut s = DocumentStore::new();
        for i in order {
            s.insert(lang(offers[i].0), greeting(offers[i].1));
        }
        let mut held = Vec::new();
        for i in 0..s.len() {
            held.push((s.language(i).inner(), greeting_of(s.document(i))));
        }
        seen.push(held);
    }
    assert_eq!(seen[0].len(), 3);
    assert_eq!(seen[0][0].0, "DE");
    assert_eq!(seen[0][1].0, " en");
    assert_eq!(seen[0][1].1, greeting("d"));
    assert_eq!(seen[0][2].0, "fr");
    for held in &seen {
        assert_eq!(held, &seen[0]);
    }
}

#[test]
fn documents_are_found_by_language() {
    let mut s = DocumentStore::new();
    s.insert(lang("en"), greeting("hello"));
    s.insert(lang("de"), greeting("hallo"));
    assert_eq!(s.get(&lang("de")), Ok(&greeting("hallo")));
    assert_eq!(s.get(&lang("en")), Ok(&greeting("hello")));
    assert_eq!(s.get(&lang("fr")), Err(StoreError::UnknownLanguage));
    assert_eq!(s.index_of(&lang("EN")), Some(1));
    assert_eq!(s.index_of(&lang("no")), None);
}

#[test]
fn languages_are_found_by_name_in_any_case() {
    let mut s = DocumentStore::new();
    s.insert(lang("en"), greeting("hello"));
    s.insert(lang("de"), greeting("hallo"));
    assert_eq!(s.find("en"), Some(1));
    assert_eq!(s.find("En"), Some(1));
    assert_eq!(s.find("EN"), Some(1));
    assert_eq!(s.find("DE"), Some(0));
    assert_eq!(s.find("no-such-lang"), None);
    assert_eq!(s.find(""), None);
}
