//! Notes: construction, filenames, dates, and header rendering.

use zettel::database;
use zettel::frontmatter::parse_yaml;
use zettel::time::Timestamp;
use zettel::zettel::Error;
use zettel::zettel::Zettel;
use zettel::zettel::make_filename;

fn pairs(items: &[(&str, &str)]) -> Vec<(String, String)> {
    items.iter().map(|(k, v)| (k.to_string(), v.to_string())).collect()
}

#[test]
fn date_string_formats_and_pads() {
    let t = Timestamp::new(1431648000, 2015, 5, 14);
    assert_eq!(t.date_string(), "2015-05-14");
    let early = Timestamp::new(0, 800, 1, 2);
    assert_eq!(early.date_string(), "0800-01-02");
}

#[test]
fn make_filename_dashes_spaces() {
    assert_eq!(make_filename("my blog post"), "my-blog-post.md");
    assert_eq!(make_filename("nospace"), "nospace.md");
}

#[test]
fn dated_filename_prefixes_the_date() {
    let t = Timestamp::new(1431648000, 2015, 5, 14);
    assert_eq!(database::make_filename("a new blog post", &t), "2015-05-14-a-new-blog-post.md");
}

#[test]
fn builder_fills_defaults() {
    let t = Timestamp::new(100, 2022, 1, 1);
    let z = Zettel::builder().created(t).build();
    assert_eq!(z.meta.title, "my zettel");
    assert_eq!(z.meta.path, "my-zettel.md");
    assert_eq!(z.content, "\n");
    assert_eq!(z.meta.created, t);
    assert_eq!(z.meta.modified, t);
}

#[test]
fn builder_generates_alphanumeric_ids() {
    let t = Timestamp::new(100, 2022, 1, 1);
    let z = Zettel::builder().created(t).build();
    let id = z.uuid();
    assert_eq!(id.len(), 18);
    assert!(id.chars().all(|c| c.is_ascii_alphanumeric()));
}

#[test]
fn builder_subdir_shapes_the_path() {
    let t = Timestamp::new(100, 2022, 1, 1);
    let z = Zettel::builder().title("a post").subdir("2022").created(t).content("A post.").build();
    assert_eq!(z.meta.path, "2022/a-post.md");
    assert_eq!(z.meta.title, "a post");
    assert_eq!(z.content, "A post.");
}

#[test]
fn as_string_renders_in_template_order() {
    let t = Timestamp::new(1431648000, 2015, 5, 14);
    let z = database::new_zettel("My Note", "abcdefghijklmnopqr", t);
    let template = pairs(&[("title", "@title"), ("id", "@id"), ("date", "@created")]);
    let text = z.as_string(&template).expect("rendering should succeed");
    assert_eq!(text, "---\ntitle: My Note\nid: abcdefghijklmnopqr\ndate: 2015-05-14\n---\n\n");
}

#[test]
fn as_string_copies_literals_and_round_trips() {
    let t = Timestamp::new(1431648000, 2015, 5, 14);
    let mut z = database::new_zettel("My Note", "someid", t);
    z.content = "Body text.".to_string();
    let template = pairs(&[("kind", "note"), ("date", "@created"), ("id", "@id"), ("title", "@title")]);
    let text = z.as_string(&template).expect("rendering should succeed");
    let (mapping, offset) = parse_yaml(&text).expect("rendered note should parse");
    assert_eq!(
        mapping,
        pairs(&[("kind", "note"), ("date", "2015-05-14"), ("id", "someid"), ("title", "My Note")])
    );
    assert_eq!(&text[offset..], "\nBody text.");
}

#[test]
fn as_string_rejects_values_that_break_the_header() {
    let t = Timestamp::new(1431648000, 2015, 5, 14);
    let z = database::new_zettel("a title\nwith a break", "someid", t);
    let template = pairs(&[("title", "@title")]);
    assert_eq!(
        z.as_string(&template),
        Err(Error::FrontmatterError(zettel::frontmatter::Error::UnrenderableField))
    );
}

#[test]
fn as_string_rejects_unknown_references() {
    let t = Timestamp::new(1431648000, 2015, 5, 14);
    let z = database::new_zettel("My Note", "someid", t);
    let template = pairs(&[("title", "@title"), ("oops", "@nosuchfield")]);
    assert_eq!(z.as_string(&template), Err(Error::UnknownField));
}
