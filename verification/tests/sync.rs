//! The sync engine: relocation by identity, resilience, idempotence.

use zettel::frontmatter;
use zettel::time::Timestamp;
use zettel::zettel::Zettel;
use zettel::zettel::ZettelMeta;
use zettel::zettelkasten::SkipReason;
use zettel::zettelkasten::Zettelkasten;

fn t0() -> Timestamp {
    Timestamp::new(1650000000, 2022, 4, 15)
}

fn files(items: &[(&str, &str)]) -> Vec<(String, String)> {
    items.iter().map(|(p, t)| (p.to_string(), t.to_string())).collect()
}

fn plain_meta(id: &str, path: &str, title: &str, at: Timestamp) -> ZettelMeta {
    ZettelMeta {
        created: at,
        modified: at,
        title: title.to_string(),
        path: path.to_string(),
        id: id.to_string(),
    }
}

#[test]
fn create_and_sync() {
    let mut zk = Zettelkasten::builder()
        .root_path("zk_command_test")
        .add_subdir("2022")
        .build(t0());
    let zettel = Zettel::builder()
        .title("my blog post")
        .created(Timestamp::new(1431648000, 2015, 5, 14))
        .content("A post.")
        .build();
    let text = zk.add(&zettel, false).expect("adding zettel to zk");
    let zettel_meta = zk
        .get(zettel.uuid())
        .expect("zettul uuid should be in database before sync")
        .clone();
    // the file moved: it is now found at 2022/other.md with the same header
    let discovered = files(&[("2022/other.md", &text)]);
    let diags = zk.sync(&discovered);
    assert!(diags.is_empty());
    let new_zettel_meta = zk
        .get(&zettel_meta.id)
        .expect("zettel uuid should be in database after sync");
    assert_eq!(new_zettel_meta.path, "2022/other.md");
    assert_eq!(zettel_meta.created, new_zettel_meta.created);
    assert_eq!(zettel_meta.modified, new_zettel_meta.modified);
    assert_eq!(zettel_meta.title, new_zettel_meta.title);
}

#[test]
fn sync_relocates_by_identity() {
    let t1 = Timestamp::new(100, 2020, 2, 2);
    let mut zk = Zettelkasten::builder().build(t0());
    zk.zettels.push(plain_meta("X", "a.md", "old title", t1));
    // a.md is gone; b/c.md carries the same id
    let discovered = files(&[("b/c.md", "---\nid: X\n---\n\n")]);
    let diags = zk.sync(&discovered);
    assert!(diags.is_empty());
    let m = zk.get("X").unwrap();
    assert_eq!(m.path, "b/c.md");
    assert_eq!(m.created, t1, "sync must not touch creation time");
    assert_eq!(m.modified, t1);
    assert_eq!(m.title, "old title", "a header without a title keeps the old one");
}

#[test]
fn sync_updates_the_title_from_the_header() {
    let t1 = Timestamp::new(100, 2020, 2, 2);
    let mut zk = Zettelkasten::builder().build(t0());
    zk.zettels.push(plain_meta("X", "a.md", "old title", t1));
    let discovered = files(&[("a.md", "---\nid: X\ntitle: renamed\n---\n\n")]);
    zk.sync(&discovered);
    assert_eq!(zk.get("X").unwrap().title, "renamed");
}

#[test]
fn sync_survives_a_malformed_file() {
    let t1 = Timestamp::new(100, 2020, 2, 2);
    let mut zk = Zettelkasten::builder().build(t0());
    zk.zettels.push(plain_meta("X", "a.md", "old title", t1));
    let discovered = files(&[
        ("broken.md", "no delimiter here"),
        ("moved.md", "---\nid: X\n---\n\n"),
    ]);
    let diags = zk.sync(&discovered);
    // the bad file is reported and skipped; the good one is still processed
    assert_eq!(
        diags,
        vec![(
            "broken.md".to_string(),
            SkipReason::Frontmatter(frontmatter::Error::MissingInitialDelimiter)
        )]
    );
    assert_eq!(zk.get("X").unwrap().path, "moved.md");
}

#[test]
fn sync_skips_headers_without_an_id() {
    let t1 = Timestamp::new(100, 2020, 2, 2);
    let mut zk = Zettelkasten::builder().build(t0());
    zk.zettels.push(plain_meta("X", "a.md", "old title", t1));
    let before = zk.zettels.clone();
    let discovered = files(&[("anon.md", "---\ntitle: who am i\n---\n\n")]);
    let diags = zk.sync(&discovered);
    assert_eq!(diags, vec![("anon.md".to_string(), SkipReason::MissingId)]);
    assert_eq!(zk.zettels, before, "a skipped file changes no entry");
}

#[test]
fn sync_reports_unregistered_ids() {
    let mut zk = Zettelkasten::builder().build(t0());
    let discovered = files(&[("stranger.md", "---\nid: nobody\n---\n\n")]);
    let diags = zk.sync(&discovered);
    assert_eq!(diags, vec![("stranger.md".to_string(), SkipReason::UnregisteredId)]);
    assert!(zk.zettels.is_empty());
}

#[test]
fn sync_leaves_the_backing_file_alone() {
    let t1 = Timestamp::new(100, 2020, 2, 2);
    let mut zk = Zettelkasten::builder().build(t0());
    zk.zettels.push(plain_meta("X", "a.md", "old title", t1));
    let before = zk.zettels.clone();
    // the index file itself is discovered during the walk, at any depth
    let discovered = files(&[
        ("_zettel.yaml", "not a note at all"),
        ("deep/_zettel.yaml", "---\nid: X\n---\n\n"),
    ]);
    let diags = zk.sync(&discovered);
    assert!(diags.is_empty(), "the backing file is skipped silently");
    assert_eq!(zk.zettels, before);
}

#[test]
fn sync_twice_is_sync_once() {
    let t1 = Timestamp::new(100, 2020, 2, 2);
    let mut zk = Zettelkasten::builder().build(t0());
    zk.zettels.push(plain_meta("X", "a.md", "old", t1));
    zk.zettels.push(plain_meta("Y", "b.md", "other", t1));
    let discovered = files(&[
        ("moved/x.md", "---\nid: X\ntitle: renamed\n---\n\n"),
        ("broken.md", "garbage"),
        ("y.md", "---\nid: Y\n---\n\n"),
    ]);
    let first_diags = zk.sync(&discovered);
    let after_first = zk.clone();
    let second_diags = zk.sync(&discovered);
    assert_eq!(zk, after_first, "a second pass changes nothing");
    assert_eq!(first_diags, second_diags);
}

#[test]
fn sync_lets_the_last_file_win() {
    let t1 = Timestamp::new(100, 2020, 2, 2);
    let mut zk = Zettelkasten::builder().build(t0());
    zk.zettels.push(plain_meta("X", "a.md", "old", t1));
    let discovered = files(&[
        ("first.md", "---\nid: X\n---\n\n"),
        ("second.md", "---\nid: X\n---\n\n"),
    ]);
    zk.sync(&discovered);
    assert_eq!(zk.get("X").unwrap().path, "second.md");
}
