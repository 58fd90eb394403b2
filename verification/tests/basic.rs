use iioon::api::Api;
use iioon::document::{Document, Value};
use iioon::generate::{try_derive_i18n, Folder, SourceFile};

fn text(s: &str) -> Value {
    Value::Str(s.to_string())
}

fn locale(hello: &str, nested: &str, deeper: &str, args: &str) -> Document {
    let mut deeper_nested = Document::new();
    deeper_nested.insert("hello_deeper_nested".to_string(), text(deeper));
    let mut nested_table = Document::new();
    nested_table.insert("hello_nested".to_string(), text(nested));
    nested_table.insert("deeper_nested".to_string(), Value::Table(deeper_nested));
    let mut args_table = Document::new();
    args_table.insert("hello_args".to_string(), text(args));
    let mut root = Document::new();
    root.insert("hello".to_string(), text(hello));
    root.insert("nested".to_string(), Value::Table(nested_table));
    root.insert("args".to_string(), Value::Table(args_table));
    root
}

fn locales() -> Api {
    let files = vec![
        SourceFile {
            stem: "en".to_string(),
            document: Some(locale(
                "Hello!",
                "Hello from a table!",
                "Hello from deep down!",
                "Hello {name}!",
            )),
        },
        SourceFile {
            stem: "de".to_string(),
            document: Some(locale(
                "Hallo!",
                "Hallo aus einer Tabelle!",
                "Hallo aus der Tiefe!",
                "Hallo {name}!",
            )),
        },
    ];
    match try_derive_i18n(Folder::Found(files), Some("en")) {
        Ok(api) => api,
        Err(_) => panic!("the two documents have the same shape"),
    }
}

#[test]
fn top_level() {
    let api = locales();
    let en = api.language("en").unwrap();
    assert!(!en.leaf("hello", &vec![]).unwrap().is_empty())
}

#[test]
fn nested() {
    let api = locales();
    let en = api.language("en").unwrap();
    assert!(!en.table("nested").unwrap().leaf("hello_nested", &vec![]).unwrap().is_empty())
}

#[test]
fn deeper_nested() {
    let api = locales();
    let en = api.language("en").unwrap();
    assert!(
        !en.table("nested")
            .unwrap()
            .table("deeper_nested")
            .unwrap()
            .leaf("hello_deeper_nested", &vec![])
            .unwrap()
            .is_empty()
    )
}

#[test]
fn other_language() {
    let api = locales();
    let de = api.language("de").unwrap();
    assert!(!de.table("nested").unwrap().leaf("hello_nested", &vec![]).unwrap().is_empty())
}

#[test]
fn fallback() {
    let api = locales();
    assert!(!api.fallback().unwrap().leaf("hello", &vec![]).unwrap().is_empty())
}

#[test]
fn get_lang() {
    let api = locales();
    assert!(api.get_lang("en").is_some());
    assert!(api.get_lang("eN").is_some());
    assert!(api.get_lang("no").is_none());
    assert!(
        !api.get_lang("No").or(api.fallback()).unwrap().leaf("hello", &vec![]).unwrap().is_empty()
    )
}

#[test]
fn args() {
    let api = locales();
    let en = api.language("en").unwrap();
    assert_eq!(
        en.table("args").unwrap().leaf("hello_args", &vec!["John Doe".to_string()]).unwrap(),
        "Hello John Doe!"
    )
}
