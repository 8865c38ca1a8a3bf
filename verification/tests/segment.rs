use router::segment::{
    extract_param_name, find_delimiter, find_param, split_at_next_param_delimiter, split_param,
};
use router::text::{same_text, to_lower_char, to_lowered, Text};

fn chars(text: &str) -> Vec<char> {
    text.chars().collect()
}

#[test]
fn split_param_at_first_token() {
    assert_eq!(split_param("/foo/:bar/more"), ("/foo/", ":bar/more"));
    assert_eq!(split_param("/foo/bar"), ("/foo/bar", ""));
    assert_eq!(split_param("/a:b/:c"), ("/a:b/", ":c"));
    assert_eq!(split_param(":id"), (":id", ""));
    assert_eq!(split_param("/:a/:b"), ("/", ":a/:b"));
    assert_eq!(split_param(""), ("", ""));
}

#[test]
fn split_at_delimiter() {
    assert_eq!(split_at_next_param_delimiter("whatever/prop"), ("whatever", "/prop"));
    assert_eq!(split_at_next_param_delimiter("42.json"), ("42", ".json"));
    assert_eq!(split_at_next_param_delimiter("whatever"), ("whatever", ""));
    assert_eq!(split_at_next_param_delimiter("/more"), ("", "/more"));
    assert_eq!(split_at_next_param_delimiter(""), ("", ""));
}

#[test]
fn extract_name() {
    assert_eq!(extract_param_name(":id/prop"), ("id", "/prop"));
    assert_eq!(extract_param_name(":id.json"), ("id", ".json"));
    assert_eq!(extract_param_name(":id"), ("id", ""));
    assert_eq!(extract_param_name(":"), ("", ""));
    assert_eq!(extract_param_name(":/x"), ("", "/x"));
}

#[test]
fn positions_of_delimiters_and_tokens() {
    let text = chars("/one/:id.json/:x");
    assert_eq!(find_delimiter(&text, 0), 0);
    assert_eq!(find_delimiter(&text, 1), 4);
    assert_eq!(find_delimiter(&text, 5), 8);
    assert_eq!(find_delimiter(&text, 15), 16);
    assert_eq!(find_delimiter(&text, 16), 16);
    assert_eq!(find_param(&text, 0), 5);
    assert_eq!(find_param(&text, 5), 5);
    assert_eq!(find_param(&text, 6), 14);
    assert_eq!(find_param(&text, 15), 16);
}

#[test]
fn text_positions_are_characters() {
    let text = Text::new("/caf\u{e9}/:id");
    assert_eq!(text.len(), 9);
    assert_eq!(text.at(4), '\u{e9}');
    assert_eq!(text.slice(1, 5), "caf\u{e9}");
    assert_eq!(text.cut(7, 9), "id".to_string());
    assert_eq!(text.chars(), &chars("/caf\u{e9}/:id"));
}

#[test]
fn same_text_compares_characters() {
    assert!(same_text("GET", "GET"));
    assert!(!same_text("GET", "get"));
    assert!(!same_text("GET", "GETS"));
    assert!(same_text("", ""));
}

#[test]
fn lowering_touches_ascii_capitals_only() {
    assert_eq!(to_lower_char('A'), 'a');
    assert_eq!(to_lower_char('Z'), 'z');
    assert_eq!(to_lower_char('a'), 'a');
    assert_eq!(to_lower_char('/'), '/');
    assert_eq!(to_lower_char('['), '[');
    assert_eq!(to_lower_char('@'), '@');
    assert_eq!(to_lower_char('\u{c9}'), '\u{c9}');
    assert_eq!(to_lowered(&chars("/Test/FooBar.JSON")), chars("/test/foobar.json"));
}
