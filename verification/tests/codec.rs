//! The metadata-block codec on concrete inputs.

use zettel::frontmatter::Error;
use zettel::frontmatter::parse_yaml;
use zettel::frontmatter::write_str;

fn pairs(items: &[(&str, &str)]) -> Vec<(String, String)> {
    items.iter().map(|(k, v)| (k.to_string(), v.to_string())).collect()
}

#[test]
fn parse_basic_header() {
    let text = "---\ntitle: My Note\nid: abc123\n---\n\nThe body.";
    let (mapping, offset) = parse_yaml(text).expect("header should parse");
    assert_eq!(mapping, pairs(&[("title", "My Note"), ("id", "abc123")]));
    assert_eq!(&text[offset..], "\nThe body.");
}

#[test]
fn parse_empty_mapping() {
    let text = "---\n---\nbody";
    let (mapping, offset) = parse_yaml(text).expect("header should parse");
    assert!(mapping.is_empty());
    assert_eq!(&text[offset..], "body");
}

#[test]
fn parse_keeps_value_verbatim() {
    let text = "---\nnote: a: b: c\n---\n";
    let (mapping, _) = parse_yaml(text).expect("header should parse");
    // the first `: ` separates; the rest belongs to the value
    assert_eq!(mapping, pairs(&[("note", "a: b: c")]));
}

#[test]
fn parse_missing_initial_delimiter() {
    assert_eq!(parse_yaml("title: x\n---\n"), Err(Error::MissingInitialDelimiter));
    assert_eq!(parse_yaml(""), Err(Error::MissingInitialDelimiter));
    assert_eq!(parse_yaml("--\nx: y\n---\n"), Err(Error::MissingInitialDelimiter));
}

#[test]
fn parse_missing_final_delimiter() {
    assert_eq!(parse_yaml("---\ntitle: x\n"), Err(Error::MissingFinalDelimiter));
    assert_eq!(parse_yaml("---"), Err(Error::MissingFinalDelimiter));
    assert_eq!(parse_yaml("---\n"), Err(Error::MissingFinalDelimiter));
}

#[test]
fn parse_malformed_mapping() {
    assert_eq!(parse_yaml("---\nno separator\n---\n"), Err(Error::HeaderParseError));
    assert_eq!(parse_yaml("---\n: empty key\n---\n"), Err(Error::HeaderParseError));
}

#[test]
fn missing_close_outweighs_a_malformed_line() {
    // lines are accumulated first: with no closing delimiter, the missing
    // close is the error, however the lines look
    assert_eq!(parse_yaml("---\nx\n"), Err(Error::MissingFinalDelimiter));
    assert_eq!(parse_yaml("---\nno separator"), Err(Error::MissingFinalDelimiter));
    assert_eq!(parse_yaml("---\nok: fine\nbad line\n"), Err(Error::MissingFinalDelimiter));
}

#[test]
fn write_str_is_deterministic_and_ordered() {
    let fm = pairs(&[("title", "A"), ("id", "xyz"), ("date", "2015-05-14")]);
    let rendered = write_str(&fm).expect("rendering should succeed");
    assert_eq!(rendered, "---\ntitle: A\nid: xyz\ndate: 2015-05-14\n");
    // byte-deterministic: a second rendering is identical
    assert_eq!(write_str(&fm).expect("rendering should succeed"), rendered);
}

#[test]
fn write_str_refuses_what_cannot_round_trip() {
    assert_eq!(write_str(&pairs(&[("title", "line\nbreak")])), Err(Error::UnrenderableField));
    assert_eq!(write_str(&pairs(&[("bad\nkey", "v")])), Err(Error::UnrenderableField));
    assert_eq!(write_str(&pairs(&[("key: inner", "v")])), Err(Error::UnrenderableField));
    assert_eq!(write_str(&pairs(&[("", "v")])), Err(Error::UnrenderableField));
}

#[test]
fn write_then_parse_round_trips() {
    let fm = pairs(&[("alpha", "one two"), ("beta", ""), ("gamma", "x:y")]);
    let mut text = write_str(&fm).expect("rendering should succeed");
    text.push_str("---\n\nsome body\n---\nnot a header");
    let (mapping, _) = parse_yaml(&text).expect("rendered header should parse");
    assert_eq!(mapping, fm);
}
