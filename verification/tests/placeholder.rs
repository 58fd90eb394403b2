use iioon::placeholder::{extract, scan_name, scan_token};
use iioon::render::render;
use iioon::text::to_chars;
use regex::Regex;

fn strings(items: &[&str]) -> Vec<String> {
    items.iter().map(|s| s.to_string()).collect()
}

fn by_pattern(template: &str) -> Vec<String> {
    let pattern = Regex::new(r"\{([A-Za-z0-9_]+)\}").unwrap();
    let mut names: Vec<String> = Vec::new();
    for found in pattern.captures_iter(template) {
        let name = found.get(1).unwrap().as_str().to_string();
        if !names.contains(&name) {
            names.push(name);
        }
    }
    names
}

fn samples() -> Vec<&'static str> {
    vec![
        "",
        "Hello!",
        "Hello {name}!",
        "{a}",
        "{a}{b}",
        "{a} and {b} and {a}",
        "{b}{a}{b}{a}{c}",
        "{",
        "}",
        "{}",
        "{ }",
        "{a",
        "a}",
        "{a b}",
        "{a-b}",
        "{{a}}",
        "{{a}",
        "{a}}",
        "{a{b}c}",
        "{a{b}",
        "{0}",
        "{_}",
        "{name_1}{NAME_1}",
        "{é}",
        "{naïve}",
        "grüße {name}, 日本語 {other}!",
        "{a}{",
        "{{{{",
        "}}}}{x}",
        "{x}{x}{x}",
        "{first} {second} {third} {second} {first}",
        "{^}",
        "{[}",
        "{a`b}",
        "{a\\b}",
    ]
}

#[test]
fn one_placeholder_gives_one_parameter() {
    assert_eq!(extract("Hello {name}!"), strings(&["name"]));
}

#[test]
fn no_placeholder_gives_no_parameter() {
    assert_eq!(extract("Hello!"), strings(&[]));
    assert_eq!(extract(""), strings(&[]));
}

#[test]
fn parameters_come_in_the_order_of_first_occurrence() {
    assert_eq!(extract("{b} then {a} then {c}"), strings(&["b", "a", "c"]));
    assert_eq!(extract("{first} {second} {third} {second} {first}"), strings(&["first", "second", "third"]));
}

#[test]
fn repeated_placeholders_give_one_parameter() {
    assert_eq!(extract("{a} and {b} and {a}"), strings(&["a", "b"]));
    assert_eq!(extract("{x}{x}{x}"), strings(&["x"]));
}

#[test]
fn malformed_braces_are_text() {
    for t in ["{", "}", "{}", "{ }", "{a", "a}", "{a b}", "{a-b}", "{é}", "{^}", "{[}", "{a`b}"] {
        assert_eq!(extract(t), strings(&[]), "{:?}", t);
    }
    assert_eq!(extract("{{a}}"), strings(&["a"]));
    assert_eq!(extract("{a{b}c}"), strings(&["b"]));
    assert_eq!(extract("{a}{"), strings(&["a"]));
}

#[test]
fn names_are_letters_digits_and_underscores() {
    assert_eq!(extract("{0}"), strings(&["0"]));
    assert_eq!(extract("{_}"), strings(&["_"]));
    assert_eq!(extract("{name_1}{NAME_1}"), strings(&["name_1", "NAME_1"]));
}

#[test]
fn extraction_agrees_with_the_pattern() {
    for t in samples() {
        assert_eq!(extract(t), by_pattern(t), "{:?}", t);
    }
}

#[test]
fn names_and_tokens_are_scanned() {
    let v = to_chars("Hello {name}! {x");
    assert_eq!(scan_name(&v, 0), 5);
    assert_eq!(scan_name(&v, 5), 5);
    assert_eq!(scan_name(&v, 7), 11);
    assert_eq!(scan_name(&v, 16), 16);
    assert_eq!(scan_token(&v, 6), Some(12));
    assert_eq!(scan_token(&v, 0), None);
    assert_eq!(scan_token(&v, 7), None);
    assert_eq!(scan_token(&v, 14), None);
    let empty = to_chars("{}");
    assert_eq!(scan_token(&empty, 0), None);
}

#[test]
fn arguments_replace_placeholders() {
    assert_eq!(render("Hello {name}!", &strings(&["name"]), &strings(&["John Doe"])), "Hello John Doe!");
    assert_eq!(
        render("{a} and {b} and {a}", &strings(&["a", "b"]), &strings(&["1", "2"])),
        "1 and 2 and 1"
    );
    assert_eq!(render("{b}{a}", &strings(&["a", "b"]), &strings(&["x", "y"])), "yx");
    assert_eq!(render("{a}", &strings(&["a"]), &strings(&[""])), "");
    assert_eq!(render("{a}", &strings(&["a"]), &strings(&["{a}"])), "{a}");
    assert_eq!(render("{a}{b}", &strings(&["a", "b"]), &strings(&["{b}", "c"])), "{b}c");
}

#[test]
fn rendering_without_parameters_returns_the_template() {
    for t in samples() {
        assert_eq!(render(t, &strings(&[]), &strings(&[])), t, "{:?}", t);
        assert_eq!(render(t, &strings(&[]), &strings(&["unused"])), t, "{:?}", t);
    }
}

#[test]
fn placeholders_that_name_no_parameter_stay() {
    assert_eq!(
        render("Hallo {name} und {freund}!", &strings(&["name"]), &strings(&["Anna"])),
        "Hallo Anna und {freund}!"
    );
    assert_eq!(render("{x}", &strings(&["name"]), &strings(&["Anna"])), "{x}");
}

#[test]
fn a_parameter_without_an_argument_stays() {
    assert_eq!(render("{a} {b}", &strings(&["a", "b"]), &strings(&["1"])), "1 {b}");
}

#[test]
fn malformed_braces_are_rendered_as_text() {
    assert_eq!(render("{ {a} }", &strings(&["a"]), &strings(&["1"])), "{ 1 }");
    assert_eq!(render("{{a}}", &strings(&["a"]), &strings(&["1"])), "{1}");
    assert_eq!(render("{a", &strings(&["a"]), &strings(&["1"])), "{a");
    assert_eq!(render("grüße {a} 日本語", &strings(&["a"]), &strings(&["ü"])), "grüße ü 日本語");
}
