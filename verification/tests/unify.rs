use iioon::document::{Document, Unsupported, Value};
use iioon::lang::Lang;
use iioon::schema::{build_schema, derive_schema, Node};
use iioon::store::DocumentStore;
use iioon::unify::{check_tables, unify, Fault};

fn text(s: &str) -> Value {
    Value::Str(s.to_string())
}

fn table(entries: Vec<(&str, Value)>) -> Document {
    let mut d = Document::new();
    for (k, v) in entries {
        d.insert(k.to_string(), v);
    }
    d
}

fn strings(items: &[&str]) -> Vec<String> {
    items.iter().map(|s| s.to_string()).collect()
}

fn lang(tag: &str) -> Lang {
    Lang::new(tag.to_string()).unwrap()
}

fn reference() -> Document {
    table(vec![
        ("hello", text("Hello!")),
        (
            "nested",
            Value::Table(table(vec![
                ("hello_nested", text("Hello {who}!")),
                ("deeper_nested", Value::Table(table(vec![("hello_deeper_nested", text("Deep"))]))),
            ])),
        ),
    ])
}

fn translated() -> Document {
    table(vec![
        ("hello", text("Hallo!")),
        (
            "nested",
            Value::Table(table(vec![
                ("hello_nested", text("Hallo {who}!")),
                ("deeper_nested", Value::Table(table(vec![("hello_deeper_nested", text("Tief"))]))),
            ])),
        ),
    ])
}

#[test]
fn a_document_conforms_to_itself() {
    assert_eq!(check_tables(&reference(), &reference()), None);
    assert_eq!(check_tables(&Document::new(), &Document::new()), None);
}

#[test]
fn a_document_of_the_same_shape_conforms() {
    assert_eq!(check_tables(&reference(), &translated()), None);
    assert_eq!(check_tables(&translated(), &reference()), None);
}

#[test]
fn anything_conforms_to_the_empty_reference() {
    assert_eq!(check_tables(&Document::new(), &reference()), None);
}

#[test]
fn extra_keys_of_the_other_document_are_ignored() {
    let other = table(vec![
        ("hello", text("Hallo!")),
        ("extra", text("mehr")),
        (
            "nested",
            Value::Table(table(vec![
                ("another", Value::Table(Document::new())),
                ("hello_nested", text("Hallo!")),
                ("deeper_nested", Value::Table(table(vec![("hello_deeper_nested", text("Tief")), ("z", text("z"))]))),
            ])),
        ),
    ]);
    assert_eq!(check_tables(&reference(), &other), None);
    let d = check_tables(&other, &reference()).unwrap();
    assert_eq!(d.fault, Fault::MissingKey);
    assert_eq!(d.path, strings(&["extra"]));
}

#[test]
fn a_missing_key_is_reported_with_its_path() {
    let other = table(vec![("nested", Value::Table(Document::new()))]);
    let d = check_tables(&reference(), &other).unwrap();
    assert_eq!(d.fault, Fault::MissingKey);
    assert_eq!(d.path, strings(&["hello"]));

    let other = table(vec![
        ("hello", text("Hallo!")),
        (
            "nested",
            Value::Table(table(vec![
                ("hello_nested", text("Hallo!")),
                ("deeper_nested", Value::Table(Document::new())),
            ])),
        ),
    ]);
    let d = check_tables(&reference(), &other).unwrap();
    assert_eq!(d.fault, Fault::MissingKey);
    assert_eq!(d.path, strings(&["nested", "deeper_nested", "hello_deeper_nested"]));
}

#[test]
fn a_string_in_place_of_a_table_is_a_kind_mismatch() {
    let one = table(vec![("greeting", text("Hello"))]);
    let other = table(vec![("greeting", Value::Table(table(vec![("inner", text("Hallo"))])))]);
    let d = check_tables(&one, &other).unwrap();
    assert_eq!(d.fault, Fault::KindMismatch);
    assert_eq!(d.path, strings(&["greeting"]));
    let d = check_tables(&other, &one).unwrap();
    assert_eq!(d.fault, Fault::KindMismatch);
    assert_eq!(d.path, strings(&["greeting"]));
}

#[test]
fn a_kind_mismatch_is_reported_with_its_path() {
    let other = table(vec![
        ("hello", text("Hallo!")),
        (
            "nested",
            Value::Table(table(vec![
                ("hello_nested", Value::Other(Unsupported::Integer)),
                ("deeper_nested", Value::Table(table(vec![("hello_deeper_nested", text("Tief"))]))),
            ])),
        ),
    ]);
    let d = check_tables(&reference(), &other).unwrap();
    assert_eq!(d.fault, Fault::KindMismatch);
    assert_eq!(d.path, strings(&["nested", "hello_nested"]));
}

#[test]
fn the_first_divergence_in_key_order_is_reported() {
    let other = table(vec![("nested", text("flat"))]);
    let d = check_tables(&reference(), &other).unwrap();
    assert_eq!(d.fault, Fault::MissingKey);
    assert_eq!(d.path, strings(&["hello"]));

    let other = table(vec![
        ("hello", text("Hallo!")),
        ("nested", Value::Table(table(vec![("hello_nested", Value::Table(Document::new()))]))),
    ]);
    let d = check_tables(&reference(), &other).unwrap();
    assert_eq!(d.fault, Fault::MissingKey);
    assert_eq!(d.path, strings(&["nested", "deeper_nested"]));
}

#[test]
fn values_without_translation_are_compared_by_kind() {
    let one = table(vec![("count", Value::Other(Unsupported::Integer))]);
    let same = table(vec![("count", Value::Other(Unsupported::Integer))]);
    let float = table(vec![("count", Value::Other(Unsupported::Float))]);
    assert_eq!(check_tables(&one, &same), None);
    let d = check_tables(&one, &float).unwrap();
    assert_eq!(d.fault, Fault::KindMismatch);
    assert_eq!(d.path, strings(&["count"]));
}

#[test]
fn unification_accepts_documents_of_one_shape() {
    let mut store = DocumentStore::new();
    store.insert(lang("en"), reference());
    store.insert(lang("de"), translated());
    assert!(unify(&store, &reference()).is_ok());
    assert!(unify(&store, &translated()).is_ok());
    assert!(unify(&DocumentStore::new(), &reference()).is_ok());
}

#[test]
fn unification_names_the_language_that_diverges() {
    let mut store = DocumentStore::new();
    store.insert(lang("en"), reference());
    store.insert(lang("de"), translated());
    store.insert(lang("FR"), table(vec![("hello", text("Salut!")), ("nested", text("plat"))]));
    store.insert(lang("it"), Document::new());
    let e = unify(&store, &reference()).unwrap_err();
    assert_eq!(e.lang, "FR");
    assert_eq!(e.fault, Fault::KindMismatch);
    assert_eq!(e.path, strings(&["nested"]));
}

#[test]
fn two_documents_that_disagree_on_a_kind_do_not_unify() {
    let mut store = DocumentStore::new();
    store.insert(lang("en"), table(vec![("greeting", text("Hello"))]));
    store.insert(lang("de"), table(vec![("greeting", Value::Table(table(vec![("formal", text("Guten Tag"))])))]));
    let e = unify(&store, store.document(1)).unwrap_err();
    assert_eq!(e.fault, Fault::KindMismatch);
    assert_eq!(e.lang, "de");
    assert_eq!(e.path, strings(&["greeting"]));
    let e = unify(&store, store.document(0)).unwrap_err();
    assert_eq!(e.fault, Fault::KindMismatch);
    assert_eq!(e.lang, "en");
    assert_eq!(e.path, strings(&["greeting"]));
}

#[test]
fn the_schema_mirrors_the_reference() {
    let schema = build_schema(&reference());
    assert_eq!(schema.key, "");
    assert_eq!(schema.accessor_name, "");
    assert_eq!(schema.children.len(), 2);
    match &schema.children[0] {
        Node::Leaf(leaf) => {
            assert_eq!(leaf.key, "hello");
            assert_eq!(leaf.placeholders, strings(&[]));
        },
        Node::Table(_) => panic!("hello is a string"),
    }
    match &schema.children[1] {
        Node::Table(nested) => {
            assert_eq!(nested.key, "nested");
            assert_eq!(nested.accessor_name, "Nested");
            assert_eq!(nested.children.len(), 2);
            match &nested.children[0] {
                Node::Table(deeper) => {
                    assert_eq!(deeper.key, "deeper_nested");
                    assert_eq!(deeper.accessor_name, "Nested__DeeperNested");
                    assert_eq!(deeper.children.len(), 1);
                    match &deeper.children[0] {
                        Node::Leaf(leaf) => assert_eq!(leaf.key, "hello_deeper_nested"),
                        Node::Table(_) => panic!("hello_deeper_nested is a string"),
                    }
                },
                Node::Leaf(_) => panic!("deeper_nested is a table"),
            }
            match &nested.children[1] {
                Node::Leaf(leaf) => {
                    assert_eq!(leaf.key, "hello_nested");
                    assert_eq!(leaf.placeholders, strings(&["who"]));
                },
                Node::Table(_) => panic!("hello_nested is a string"),
            }
        },
        Node::Leaf(_) => panic!("nested is a table"),
    }
}

#[test]
fn the_schema_of_the_empty_document_has_no_children() {
    let schema = build_schema(&Document::new());
    assert!(schema.children.is_empty());
}

#[test]
fn values_without_translation_have_no_node() {
    let doc = table(vec![
        ("a", Value::Other(Unsupported::Boolean)),
        ("b", text("b")),
        ("c", Value::Other(Unsupported::Array)),
        ("d", Value::Table(table(vec![("e", Value::Other(Unsupported::Datetime))]))),
    ]);
    let schema = build_schema(&doc);
    assert_eq!(schema.children.len(), 2);
    assert!(matches!(&schema.children[0], Node::Leaf(l) if l.key == "b"));
    assert!(matches!(&schema.children[1], Node::Table(t) if t.key == "d" && t.children.is_empty()));
}

#[test]
fn building_the_schema_twice_gives_the_same_tree() {
    assert_eq!(build_schema(&reference()), build_schema(&reference()));
}

#[test]
fn the_schema_of_a_store_names_its_reference_and_languages() {
    let mut store = DocumentStore::new();
    store.insert(lang("en"), reference());
    store.insert(lang("de"), translated());
    let schema = derive_schema(&store, 1).unwrap();
    assert_eq!(schema.reference.inner(), "en");
    assert_eq!(schema.languages.len(), 2);
    assert_eq!(schema.languages[0].inner(), "de");
    assert_eq!(schema.languages[1].inner(), "en");
    assert_eq!(schema.root, build_schema(&reference()));
    assert!(derive_schema(&store, 2).is_none());
    assert!(derive_schema(&DocumentStore::new(), 0).is_none());
}
