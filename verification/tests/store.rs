//! The index store: registration, lookup, uniqueness, and the backing
//! file's conventions.

use zettel::database;
use zettel::frontmatter::parse_yaml;
use zettel::time::Timestamp;
use zettel::zettel::Zettel;
use zettel::zettelkasten::DbFormat;
use zettel::zettelkasten::Error;
use zettel::zettelkasten::Zettelkasten;
use zettel::zettelkasten::db_format;
use zettel::zettelkasten::resolve_db_path;

fn pairs(items: &[(&str, &str)]) -> Vec<(String, String)> {
    items.iter().map(|(k, v)| (k.to_string(), v.to_string())).collect()
}

fn t0() -> Timestamp {
    Timestamp::new(1650000000, 2022, 4, 15)
}

#[test]
fn init_builds_an_empty_index() {
    let zk = Zettelkasten::builder().build(t0());
    assert!(zk.zettels.is_empty());
    assert_eq!(
        zk.default_frontmatter,
        pairs(&[("title", "@title"), ("id", "@id"), ("date", "@created")])
    );
    assert_eq!(zk.root_path, ".");
    assert_eq!(zk.db_path, "_zettel.yaml");
    assert_eq!(zk.meta.created, t0());
    assert_eq!(zk.meta.modified, t0());
}

#[test]
fn new_zettel() {
    // one fresh note, rendered and registered
    let tmp_root = "zk_yaml_test";
    let mut zk = Zettelkasten::builder().root_path(tmp_root).build(t0());
    let id = "123456";
    let dt = Timestamp::new(1431648000, 2015, 5, 14);
    let title = "a new blog post";
    let zettel = database::new_zettel(title, id, dt);
    assert_eq!(zettel.meta.path, "2015-05-14-a-new-blog-post.md");
    let text = zk.add(&zettel, false).expect("adding the new zettel should succeed");
    let (meta, _) = parse_yaml(&text).expect("the written file should carry a header");
    let get = |key: &str| {
        meta.iter()
            .find(|(k, _)| k == key)
            .map(|(_, v)| v.clone())
    };
    assert_eq!(
        get("id").expect("frontmatter should containt field 'id'"),
        id,
        "id in frontmatter does not match"
    );
    assert_eq!(
        get("date").expect("frontmatter should containt field 'date'"),
        "2015-05-14",
        "date in frontmatter does not match"
    );
    assert_eq!(
        get("title").expect("frontmatter should containt field 'title'"),
        title,
        "title in frontmatter does not match"
    );
    assert!(zk.zettels.len() == 1, "new zettel should be reflected in db");
}

#[test]
fn handle_subdirs() {
    let mut zk = Zettelkasten::builder()
        .root_path("zk_command_test")
        .add_subdir("2022")
        .build(t0());
    let zettel = Zettel::builder()
        .title("a zettel in a subdirectory")
        .created(Timestamp::new(1431648000, 2015, 5, 14))
        .subdir("2022")
        .content("A post.")
        .build();
    zk.add(&zettel, false).expect("adding zettel");
    let found = zk.get(zettel.uuid()).expect("retrieving zettel from db");
    assert_eq!(found.path(), "2022/a-zettel-in-a-subdirectory.md");
}

#[test]
fn add_rejects_an_occupied_path() {
    let mut zk = Zettelkasten::builder().build(t0());
    let z1 = Zettel::builder().title("first").created(t0()).build();
    zk.add(&z1, false).expect("first add should succeed");
    assert_eq!(zk.zettels.len(), 1);
    // the second note computes the same path, which now exists on disk
    let z2 = Zettel::builder().title("first").created(t0()).build();
    assert_eq!(zk.add(&z2, true), Err(Error::AlreadyExists));
    assert_eq!(zk.zettels.len(), 1, "a failed add must not grow the table");
}

#[test]
fn add_reports_a_bad_template() {
    let mut zk = Zettelkasten::builder().build(t0());
    zk.default_frontmatter = pairs(&[("title", "@titel")]);
    let z = Zettel::builder().title("first").created(t0()).build();
    assert_eq!(
        zk.add(&z, false),
        Err(Error::ZettelError(zettel::zettel::Error::UnknownField))
    );
    assert!(zk.zettels.is_empty());
}

#[test]
fn remove_destroys_exactly_one_entry() {
    let mut zk = Zettelkasten::builder().build(t0());
    let z1 = Zettel::builder().title("first").created(t0()).build();
    let z2 = Zettel::builder().title("second").created(t0()).build();
    zk.add(&z1, false).expect("first add should succeed");
    zk.add(&z2, false).expect("second add should succeed");
    // the rollback of a just-created note: its entry is destroyed
    let removed = zk.remove(z1.uuid()).expect("the entry should be there to remove");
    assert_eq!(&removed.id, z1.uuid());
    assert_eq!(zk.zettels.len(), 1);
    assert_eq!(zk.get(z1.uuid()), Err(Error::NotFound));
    assert!(zk.get(z2.uuid()).is_ok(), "the other entry survives");
    // not idempotent by design: a second removal reports NotFound
    assert_eq!(zk.remove(z1.uuid()), Err(Error::NotFound));
}

#[test]
fn get_reports_unknown_ids() {
    let zk = Zettelkasten::builder().build(t0());
    assert_eq!(zk.get("nobody"), Err(Error::NotFound));
    assert_eq!(zk.path_to("nobody"), Err(Error::NotFound));
}

#[test]
fn path_to_joins_the_root() {
    let mut zk = Zettelkasten::builder().root_path("my-root").build(t0());
    let z = Zettel::builder().title("a note").created(t0()).build();
    zk.add(&z, false).expect("add should succeed");
    assert_eq!(zk.path_to(z.uuid()).unwrap(), "my-root/a-note.md");
    assert_eq!(zk.db_path(), "my-root/_zettel.yaml");
    assert_eq!(zk.root_path(), "my-root");
}

#[test]
fn db_format_recognizes_yaml_suffixes() {
    assert_eq!(db_format("_zettel.yaml"), Ok(DbFormat::Yaml));
    assert_eq!(db_format("index.yml"), Ok(DbFormat::Yaml));
    assert_eq!(db_format("archive.tar.yaml"), Ok(DbFormat::Yaml));
    assert_eq!(db_format("_zettel.json"), Err(Error::UnsupportedFormat));
    assert_eq!(db_format("no_suffix"), Err(Error::UnsupportedFormat));
}

#[test]
fn resolve_db_path_follows_the_convention() {
    assert_eq!(
        resolve_db_path("some/dir", true, true),
        Some("some/dir/_zettel.yaml".to_string())
    );
    assert_eq!(resolve_db_path("some/dir", true, false), None);
    assert_eq!(
        resolve_db_path("some/file.yaml", false, false),
        Some("some/file.yaml".to_string())
    );
}
