use iioon::lang::{checked_name, Lang, LangError};

fn lang(tag: &str) -> Lang {
    Lang::new(tag.to_string()).unwrap()
}

#[test]
fn a_tag_becomes_a_language() {
    let en = lang("en");
    assert_eq!(en.inner(), "en");
    assert_eq!(en.id(), "en");
}

#[test]
fn the_tag_is_kept_and_the_identifier_is_normalized() {
    let l = lang("  Pt-BR ");
    assert_eq!(l.inner(), "  Pt-BR ");
    assert_eq!(l.id(), "pt-br");
}

#[test]
fn a_blank_tag_is_no_language() {
    assert_eq!(Lang::new(String::new()).err(), Some(LangError::EmptyIdentifier));
    assert_eq!(Lang::new("   ".to_string()).err(), Some(LangError::EmptyIdentifier));
    assert_eq!(Lang::new("\t\n\u{3000}".to_string()).err(), Some(LangError::EmptyIdentifier));
    assert!(Lang::new("_".to_string()).is_ok());
}

#[test]
fn the_selector_form_is_snake_case() {
    assert_eq!(lang("en").fn_name(), Ok("en".to_string()));
    assert_eq!(lang("EN").fn_name(), Ok("en".to_string()));
    assert_eq!(lang("pt-BR").fn_name(), Ok("pt_br".to_string()));
    assert_eq!(lang("en us").fn_name(), Ok("en_us".to_string()));
}

#[test]
fn the_variant_form_is_pascal_case() {
    assert_eq!(lang("en").enum_variant(), Ok("En".to_string()));
    assert_eq!(lang("EN").enum_variant(), Ok("En".to_string()));
    assert_eq!(lang("pt-BR").enum_variant(), Ok("PtBr".to_string()));
    assert_eq!(lang("en_us").enum_variant(), Ok("EnUs".to_string()));
}

#[test]
fn the_forms_depend_on_the_normalized_identifier_only() {
    let a = lang("En-Us");
    let b = lang(" en-us ");
    assert!(a.same_as(&b));
    assert_eq!(a.fn_name(), b.fn_name());
    assert_eq!(a.enum_variant(), b.enum_variant());
}

#[test]
fn a_tag_that_gives_no_symbol_is_invalid() {
    assert_eq!(lang("123").fn_name(), Err(LangError::InvalidIdentifier));
    assert_eq!(lang("123").enum_variant(), Err(LangError::InvalidIdentifier));
    assert_eq!(lang("日本語").fn_name(), Err(LangError::InvalidIdentifier));
    assert_eq!(lang("en.us").enum_variant(), Err(LangError::InvalidIdentifier));
    assert_eq!(lang("en+us").fn_name(), Err(LangError::InvalidIdentifier));
}

#[test]
fn names_are_checked() {
    assert_eq!(checked_name("en".to_string()), Ok("en".to_string()));
    assert_eq!(checked_name("_x9".to_string()), Ok("_x9".to_string()));
    assert_eq!(checked_name(String::new()), Err(LangError::InvalidIdentifier));
    assert_eq!(checked_name("9x".to_string()), Err(LangError::InvalidIdentifier));
    assert_eq!(checked_name("a-b".to_string()), Err(LangError::InvalidIdentifier));
}

#[test]
fn a_language_answers_to_its_tag_in_any_case() {
    let en = lang("en");
    assert!(en.answers_to("en"));
    assert!(en.answers_to("En"));
    assert!(en.answers_to("EN"));
    assert!(en.answers_to("eN"));
    assert!(!en.answers_to("e"));
    assert!(!en.answers_to("en "));
    assert!(!en.answers_to("de"));
    assert!(!en.answers_to("no-such-lang"));
    let spaced = lang(" En ");
    assert!(spaced.answers_to(" en "));
    assert!(!spaced.answers_to("en"));
}

#[test]
fn languages_are_the_same_when_their_identifiers_are() {
    assert!(lang("en").same_as(&lang("En")));
    assert!(lang("en").same_as(&lang(" EN ")));
    assert!(!lang("en").same_as(&lang("de")));
    assert!(!lang("en").same_as(&lang("en-us")));
}

#[test]
fn a_clone_is_the_same_language() {
    let l = lang(" Pt-BR");
    let c = l.clone();
    assert_eq!(c.inner(), " Pt-BR");
    assert_eq!(c.id(), "pt-br");
    assert!(c.same_as(&l));
}

#[test]
fn equality_is_on_the_normalized_identifier() {
    assert!(lang("en") == lang("En"));
    assert!(lang(" EN") == lang("en "));
    assert!(lang("en") != lang("de"));
    assert!(lang("en") != lang("en-us"));
}

#[test]
fn order_is_on_the_normalized_identifier() {
    assert!(lang("de") < lang("en"));
    assert!(lang("DE") < lang("en"));
    assert!(lang(" en") < lang("EN-us"));
    assert!(lang("en") <= lang("En"));
    assert!(lang("en") >= lang("En"));
    assert!(!(lang("en") < lang("En")));
    assert!(lang("fr") > lang("en"));
    assert_eq!(lang("en").partial_cmp(&lang("EN")), Some(std::cmp::Ordering::Equal));
    assert_eq!(lang("a").partial_cmp(&lang("b")), Some(std::cmp::Ordering::Less));
    assert_eq!(lang("b").partial_cmp(&lang("a")), Some(std::cmp::Ordering::Greater));
}
