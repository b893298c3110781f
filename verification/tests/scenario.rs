//! The whole flow on one concrete collection: initialize, create a note,
//! register it.

use zettel::database;
use zettel::frontmatter::parse_yaml;
use zettel::time::Timestamp;
use zettel::zettelkasten::Zettelkasten;

#[test]
fn init_new_and_register() {
    // an empty root: init builds an index with no notes and the default
    // template {title: "@title", id: "@id", date: "@created"}
    let t0 = Timestamp::new(1650000000, 2022, 4, 15);
    let mut zk = Zettelkasten::builder().build(t0);
    assert!(zk.zettels.is_empty());
    assert_eq!(zk.default_frontmatter.len(), 3);
    assert_eq!(zk.default_frontmatter[0], ("title".to_string(), "@title".to_string()));
    assert_eq!(zk.default_frontmatter[1], ("id".to_string(), "@id".to_string()));
    assert_eq!(zk.default_frontmatter[2], ("date".to_string(), "@created".to_string()));

    // a new note titled "My Note" at time T1, with a generated identifier
    let t1 = Timestamp::new(1431648000, 2015, 5, 14);
    let note = database::fresh_zettel("My Note", t1);
    let id = note.uuid().clone();
    assert_eq!(id.len(), 18);
    assert!(id.chars().all(|c| c.is_ascii_alphanumeric()));
    assert_eq!(note.meta.path, "2015-05-14-My-Note.md");

    // registering writes a file whose header carries date, id and title
    let text = zk.add(&note, false).expect("add should succeed");
    let (header, _) = parse_yaml(&text).expect("the note file should carry a header");
    let get = |key: &str| {
        header
            .iter()
            .find(|(k, _)| k == key)
            .map(|(_, v)| v.clone())
            .expect("field should be present")
    };
    assert_eq!(get("date"), "2015-05-14");
    assert_eq!(get("id"), id);
    assert_eq!(get("title"), "My Note");

    // and the index now knows the note under that id, at that filename
    let registered = zk.get(&id).expect("the id should be registered");
    assert_eq!(registered.path, "2015-05-14-My-Note.md");
}
