//! The index: the store of note metadata, and the sync engine that
//! reconciles it with the file tree.
//!
//! The store owns an in-memory table of `ZettelMeta` records keyed by the
//! notes' stable identifiers. `add` registers a freshly created note and
//! hands back the file text to write; `sync` re-links every registered note
//! to wherever its identifier is found on disk. All file reading and
//! writing, and the serialization of the index file itself, are the
//! caller's: the store takes and returns plain values.

use crate::frontmatter;
use crate::time::Timestamp;
use crate::zettel;
use crate::zettel::MetaView;
use crate::zettel::Zettel;
use crate::zettel::ZettelMeta;
use crate::zettel::str_eq;
use vstd::prelude::*;

verus! {

/// Why an index operation failed.
#[derive(Clone, Copy, Debug, PartialEq, Eq, Structural)]
pub enum Error {
    /// The note's computed path is already occupied; nothing was changed.
    AlreadyExists,
    /// No entry carries the requested identifier.
    NotFound,
    /// Rendering the note's header failed.
    ZettelError(zettel::Error),
    /// The backing file's name has an unrecognized suffix.
    UnsupportedFormat,
}

/// Metadata about the index itself.
#[derive(Clone, Copy, Debug, PartialEq, Eq, Structural)]
pub struct ZkMeta {
    /// When the index was created.
    pub created: Timestamp,
    /// When the index was last modified.
    pub modified: Timestamp,
}

/// The table of an index as a map from identifier to metadata; a later
/// entry with the same identifier would win, though a well-formed index
/// has no two such entries.
pub open spec fn seq_to_map(s: Seq<MetaView>) -> Map<Seq<char>, MetaView>
    decreases s.len(),
{
    if s.len() == 0 {
        Map::empty()
    } else {
        seq_to_map(s.drop_last()).insert(s.last().id, s.last())
    }
}

/// Every key of the table's map is carried by one of its records.
pub proof fn lemma_seq_to_map_contains(s: Seq<MetaView>, id: Seq<char>)
    ensures
        seq_to_map(s).contains_key(id) <==> exists|i: int|
            0 <= i < s.len() && (#[trigger] s[i]).id == id,
    decreases s.len(),
{
    if s.len() > 0 {
        lemma_seq_to_map_contains(s.drop_last(), id);
        if seq_to_map(s).contains_key(id) {
            if s.last().id == id {
                assert(s[s.len() - 1].id == id);
            } else {
                let i = choose|i: int| 0 <= i < s.drop_last().len() && (#[trigger] s.drop_last()[i]).id == id;
                assert(s[i].id == id);
            }
        }
        if exists|i: int| 0 <= i < s.len() && (#[trigger] s[i]).id == id {
            let i = choose|i: int| 0 <= i < s.len() && (#[trigger] s[i]).id == id;
            if i < s.len() - 1 {
                assert(s.drop_last()[i].id == id);
            }
        }
    }
}

/// A record no later record shadows is what its identifier maps to.
pub proof fn lemma_seq_to_map_index(s: Seq<MetaView>, i: int)
    requires
        0 <= i < s.len(),
        forall|j: int| i < j < s.len() ==> (#[trigger] s[j]).id != s[i].id,
    ensures
        seq_to_map(s).contains_key(s[i].id),
        seq_to_map(s)[s[i].id] == s[i],
    decreases s.len(),
{
    if i == s.len() - 1 {
    } else {
        assert(s.drop_last()[i] == s[i]);
        lemma_seq_to_map_index(s.drop_last(), i);
        assert(s.last().id != s[i].id);
    }
}

/// The store of zettels: index metadata, the frontmatter template, and one
/// record per known note.
#[derive(Debug, Clone, PartialEq)]
pub struct Zettelkasten {
    /// Index-level timestamps.
    pub meta: ZkMeta,
    /// The ordered frontmatter template notes are rendered with.
    pub default_frontmatter: Vec<(String, String)>,
    /// One record per known note, in registration order.
    pub zettels: Vec<ZettelMeta>,
    /// The collection root, as the caller names it.
    pub root_path: String,
    /// The backing file's path, relative to the root.
    pub db_path: String,
}

impl Zettelkasten {
    /// The table's records, as mathematical values.
    pub open spec fn zseq(self) -> Seq<MetaView> {
        self.zettels.deep_view()
    }

    /// The table as a map from identifier to record.
    pub open spec fn zmap(self) -> Map<Seq<char>, MetaView> {
        seq_to_map(self.zseq())
    }

    /// A well-formed index: no two records share an identifier.
    pub open spec fn wf(self) -> bool {
        forall|i: int, j: int|
            0 <= i < j < self.zseq().len() ==> (#[trigger] self.zseq()[i]).id != (
            #[trigger] self.zseq()[j]).id
    }

    /// Everything but the table, unchanged.
    pub open spec fn same_but_zettels(self, other: Self) -> bool {
        &&& self.meta == other.meta
        &&& self.default_frontmatter.deep_view() == other.default_frontmatter.deep_view()
        &&& self.root_path@ == other.root_path@
        &&& self.db_path@ == other.db_path@
    }

    /// The collection root.
    pub fn root_path(&self) -> (r: &str)
        ensures
            r@ == self.root_path@,
    {
        self.root_path.as_str()
    }

    /// The record registered under `id`, or `NotFound`.
    pub fn get(&self, id: &str) -> (r: Result<&ZettelMeta, Error>)
        requires
            self.wf(),
        ensures
            match r {
                Result::Ok(m) => self.zmap().contains_key(id@) && m@ == self.zmap()[id@],
                Result::Err(e) => e == Error::NotFound && !self.zmap().contains_key(id@),
            },
    {
        let n = self.zettels.len();
        let mut i: usize = 0;
        while i < n
            invariant
                self.wf(),
                n == self.zettels.len(),
                i <= n,
                forall|j: int| 0 <= j < i ==> (#[trigger] self.zseq()[j]).id != id@,
            decreases n - i,
        {
            if str_eq(self.zettels[i].id.as_str(), id) {
                proof {
                    assert(self.zseq()[i as int].id == id@);
                    lemma_seq_to_map_index(self.zseq(), i as int);
                }
                return Ok(&self.zettels[i]);
            }
            proof {
                assert(self.zseq()[i as int] == self.zettels[i as int]@);
            }
            i = i + 1;
        }
        proof {
            lemma_seq_to_map_contains(self.zseq(), id@);
        }
        Err(Error::NotFound)
    }

    /// The absolute path of a root-relative path: the root, a slash, the
    /// relative path.
    pub fn abs_path(&self, rel: &str) -> (r: String)
        ensures
            r@ == spec_abs_path(self.root_path@, rel@),
    {
        let mut p = self.root_path.clone();
        let slash = "/";
        proof {
            reveal_strlit("/");
        }
        p.append(slash);
        p.append(rel);
        proof {
            assert(slash@ =~= seq!['/']);
        }
        p
    }

    /// Where the note registered under `id` lies: the root joined with its
    /// recorded relative path.
    pub fn path_to(&self, id: &str) -> (r: Result<String, Error>)
        requires
            self.wf(),
        ensures
            match r {
                Result::Ok(p) => self.zmap().contains_key(id@) && p@ == spec_abs_path(
                    self.root_path@,
                    self.zmap()[id@].path,
                ),
                Result::Err(e) => e == Error::NotFound && !self.zmap().contains_key(id@),
            },
    {
        let meta = match self.get(id) {
            Ok(m) => m,
            Err(e) => {
                return Err(e);
            },
        };
        Ok(self.abs_path(meta.path.as_str()))
    }

    /// Where the backing file lies: the root joined with its relative path.
    pub fn db_path(&self) -> (r: String)
        ensures
            r@ == spec_abs_path(self.root_path@, self.db_path@),
    {
        let rel = self.db_path.clone();
        self.abs_path(rel.as_str())
    }

    /// Registers a freshly created note and hands back the text of its
    /// file. The caller says whether the note's path is already occupied;
    /// if so, nothing changes and the call fails with `AlreadyExists`. A
    /// failure to render leaves the index unchanged too. On success the
    /// note's record is inserted under its identifier and the rendered
    /// file text — header from the index's template, then the body — is
    /// returned for the caller to write.
    pub fn add(&mut self, zettel: &Zettel, path_exists: bool) -> (r: Result<String, Error>)
        requires
            old(self).wf(),
            zettel.meta.created.wf(),
        ensures
            final(self).wf(),
            match r {
                Result::Ok(text) => {
                    &&& !path_exists
                    &&& zettel::spec_as_string(
                        old(self).default_frontmatter.deep_view(),
                        zettel.meta@,
                        zettel.content@,
                    ) == Option::Some(text@)
                    &&& final(self).zmap() == old(self).zmap().insert(zettel.meta@.id, zettel.meta@)
                    &&& final(self).same_but_zettels(*old(self))
                },
                Result::Err(e) => {
                    &&& *final(self) == *old(self)
                    &&& if path_exists {
                        e == Error::AlreadyExists
                    } else {
                        &&& zettel::spec_as_string(
                            old(self).default_frontmatter.deep_view(),
                            zettel.meta@,
                            zettel.content@,
                        ) is None
                        &&& e == Error::ZettelError(
                            if zettel::spec_subst_pairs(
                                old(self).default_frontmatter.deep_view(),
                                zettel.meta@,
                            ) is None {
                                zettel::Error::UnknownField
                            } else {
                                zettel::Error::FrontmatterError(
                                    frontmatter::Error::UnrenderableField,
                                )
                            },
                        )
                    }
                },
            },
    {
        if path_exists {
            return Err(Error::AlreadyExists);
        }
        let text = match zettel.as_string(&self.default_frontmatter) {
            Ok(t) => t,
            Err(e) => {
                return Err(Error::ZettelError(e));
            },
        };
        let n = self.zettels.len();
        let mut i: usize = 0;
        while i < n
            invariant
                *self == *old(self),
                old(self).wf(),
                !path_exists,
                zettel.meta.created.wf(),
                zettel::spec_as_string(
                    old(self).default_frontmatter.deep_view(),
                    zettel.meta@,
                    zettel.content@,
                ) == Option::Some(text@),
                n == self.zettels.len(),
                i <= n,
                forall|j: int| 0 <= j < i ==> (#[trigger] self.zseq()[j]).id != zettel.meta@.id,
            decreases n - i,
        {
            if str_eq(self.zettels[i].id.as_str(), zettel.meta.id.as_str()) {
                proof {
                    assert(self.zseq()[i as int].id == zettel.meta@.id);
                }
                let ghost pre = self.zseq();
                proof {
                    let ghost ii = i as int;
                    assert forall|j: int| ii < j < pre.len() implies (#[trigger] pre[j]).id
                        != pre[ii].id by {}
                }
                self.zettels.set(i, zettel.meta.duplicate());
                proof {
                    assert(self.zseq() =~= pre.update(i as int, zettel.meta@));
                    lemma_seq_to_map_update(pre, i as int, zettel.meta@);
                    assert forall|a: int, b: int| 0 <= a < b < self.zseq().len() implies (
                    #[trigger] self.zseq()[a]).id != (#[trigger] self.zseq()[b]).id by {
                        assert(pre[a].id != pre[b].id);
                        assert(self.zseq()[a] == if a == i { zettel.meta@ } else { pre[a] });
                        assert(self.zseq()[b] == if b == i { zettel.meta@ } else { pre[b] });
                        if a == i {
                            assert(zettel.meta@.id == pre[a].id);
                        }
                        if b == i {
                            assert(zettel.meta@.id == pre[b].id);
                        }
                    }
                }
                return Ok(text);
            }
            proof {
                assert(self.zseq()[i as int] == self.zettels[i as int]@);
            }
            i = i + 1;
        }
        let ghost pre = self.zseq();
        self.zettels.push(zettel.meta.duplicate());
        proof {
            assert(self.zseq() =~= pre.push(zettel.meta@));
            assert(self.zseq().drop_last() =~= pre);
            assert(final(self).zmap() == old(self).zmap().insert(zettel.meta@.id, zettel.meta@));
            assert forall|a: int, b: int| 0 <= a < b < self.zseq().len() implies (
            #[trigger] self.zseq()[a]).id != (#[trigger] self.zseq()[b]).id by {
                if b < pre.len() {
                    assert(pre[a].id != pre[b].id);
                } else {
                    assert(self.zseq()[b] == zettel.meta@);
                }
            }
        }
        Ok(text)
    }
}

/// Replacing the record at `i` by one carrying the same identifier updates
/// the map at that identifier, provided no later record shadows it.
pub proof fn lemma_seq_to_map_update(s: Seq<MetaView>, i: int, m: MetaView)
    requires
        0 <= i < s.len(),
        s[i].id == m.id,
        forall|j: int| i < j < s.len() ==> (#[trigger] s[j]).id != s[i].id,
    ensures
        seq_to_map(s.update(i, m)) == seq_to_map(s).insert(m.id, m),
    decreases s.len(),
{
    let t = s.update(i, m);
    if i == s.len() - 1 {
        assert(t.drop_last() =~= s.drop_last());
        assert(t.last() == m);
        assert(seq_to_map(t) == seq_to_map(s.drop_last()).insert(m.id, m));
        assert(seq_to_map(s) == seq_to_map(s.drop_last()).insert(s.last().id, s.last()));
        assert(seq_to_map(s.drop_last()).insert(m.id, m) =~= seq_to_map(s.drop_last()).insert(
            s.last().id,
            s.last(),
        ).insert(m.id, m));
    } else {
        assert(t.drop_last() =~= s.drop_last().update(i, m));
        assert(t.last() == s.last());
        assert(s.drop_last()[i] == s[i]);
        assert(forall|j: int|
            i < j < s.drop_last().len() ==> (#[trigger] s.drop_last()[j]).id != s.drop_last()[i].id);
        lemma_seq_to_map_update(s.drop_last(), i, m);
        assert(seq_to_map(t) == seq_to_map(s.drop_last()).insert(m.id, m).insert(
            s.last().id,
            s.last(),
        ));
        assert(s.last().id != m.id);
        assert(seq_to_map(s.drop_last()).insert(m.id, m).insert(s.last().id, s.last())
            =~= seq_to_map(s.drop_last()).insert(s.last().id, s.last()).insert(m.id, m));
    }
}

/// Removing the record at `i` removes exactly its identifier from the
/// map, when no other record carries that identifier.
pub proof fn lemma_seq_to_map_remove(s: Seq<MetaView>, i: int)
    requires
        0 <= i < s.len(),
        forall|j: int| 0 <= j < s.len() && j != i ==> (#[trigger] s[j]).id != s[i].id,
    ensures
        seq_to_map(s.remove(i)) == seq_to_map(s).remove(s[i].id),
    decreases s.len(),
{
    let t = s.remove(i);
    if i == s.len() - 1 {
        assert(t =~= s.drop_last());
        lemma_seq_to_map_contains(s.drop_last(), s[i].id);
        let target = s[i].id;
        assert(!seq_to_map(s.drop_last()).contains_key(target)) by {
            if exists|j: int|
                0 <= j < s.drop_last().len() && (#[trigger] s.drop_last()[j]).id == target {
                let j = choose|j: int|
                    0 <= j < s.drop_last().len() && (#[trigger] s.drop_last()[j]).id == target;
                assert(s[j].id == s[i].id);
            }
        }
        assert(seq_to_map(s).remove(s[i].id) =~= seq_to_map(s.drop_last()));
    } else {
        assert(t.drop_last() =~= s.drop_last().remove(i));
        assert(t.last() == s.last());
        assert(s.drop_last()[i] == s[i]);
        lemma_seq_to_map_remove(s.drop_last(), i);
        assert(seq_to_map(t) == seq_to_map(s.drop_last()).remove(s[i].id).insert(
            s.last().id,
            s.last(),
        ));
        assert(s.last().id != s[i].id);
        assert(seq_to_map(s.drop_last()).remove(s[i].id).insert(s.last().id, s.last())
            =~= seq_to_map(s.drop_last()).insert(s.last().id, s.last()).remove(s[i].id));
    }
}

/// The absolute path of a root-relative path.
pub open spec fn spec_abs_path(root: Seq<char>, rel: Seq<char>) -> Seq<char> {
    root + seq!['/'] + rel
}

/// Index of the first `c` at or after `pos`, or -1 if there is none.
pub open spec fn find_char_from(s: Seq<char>, pos: int, c: char) -> int
    decreases s.len() - pos,
{
    if pos < 0 || pos >= s.len() {
        -1
    } else if s[pos] == c {
        pos
    } else {
        find_char_from(s, pos + 1, c)
    }
}

/// What `find_char_from` finds: the first occurrence, or none at all.
pub proof fn lemma_find_char_from_spec(s: Seq<char>, pos: int, c: char)
    requires
        0 <= pos,
    ensures
        find_char_from(s, pos, c) == -1 ==> forall|k: int| pos <= k < s.len() ==> s[k] != c,
        find_char_from(s, pos, c) != -1 ==> {
            let i = find_char_from(s, pos, c);
            &&& pos <= i < s.len()
            &&& s[i] == c
            &&& forall|k: int| pos <= k < i ==> s[k] != c
        },
    decreases s.len() - pos,
{
    if pos < s.len() && s[pos] != c {
        lemma_find_char_from_spec(s, pos + 1, c);
    }
}

/// The filename of a relative path: what follows its last slash.
pub open spec fn spec_basename(p: Seq<char>) -> Seq<char>
    decreases p.len(),
    via spec_basename_dec
{
    let i = find_char_from(p, 0, '/');
    if i == -1 {
        p
    } else {
        spec_basename(p.skip(i + 1))
    }
}

#[via_fn]
proof fn spec_basename_dec(p: Seq<char>) {
    lemma_find_char_from_spec(p, 0, '/');
}

/// A path with no slash is its own filename.
pub proof fn lemma_basename_no_slash(p: Seq<char>)
    requires
        forall|j: int| 0 <= j < p.len() ==> p[j] != '/',
    ensures
        spec_basename(p) == p,
{
    lemma_find_char_from_spec(p, 0, '/');
    if find_char_from(p, 0, '/') != -1 {
        assert(false);
    }
}

/// The filename of a path is what follows its last slash.
pub proof fn lemma_basename_last_slash(p: Seq<char>, j: int)
    requires
        0 <= j < p.len(),
        p[j] == '/',
        forall|k: int| j < k < p.len() ==> p[k] != '/',
    ensures
        spec_basename(p) == p.skip(j + 1),
    decreases p.len(),
{
    lemma_find_char_from_spec(p, 0, '/');
    let i = find_char_from(p, 0, '/');
    assert(i != -1);
    assert(i <= j);
    if i == j {
        let q = p.skip(j + 1);
        assert(forall|k: int| 0 <= k < q.len() ==> #[trigger] q[k] == p[j + 1 + k]);
        lemma_basename_no_slash(q);
    } else {
        let q = p.skip(i + 1);
        assert(forall|k: int| 0 <= k < q.len() ==> #[trigger] q[k] == p[i + 1 + k]);
        assert(q[j - i - 1] == '/');
        lemma_basename_last_slash(q, j - i - 1);
        assert(q.skip(j - i) =~= p.skip(j + 1));
    }
}

/// The filename prefix that marks the backing file: sync leaves such
/// files alone.
pub open spec fn zettel_prefix() -> Seq<char> {
    seq!['_', 'z', 'e', 't', 't', 'e', 'l']
}

/// A path sync skips silently: its filename starts with `_zettel`.
pub open spec fn spec_skip_file(p: Seq<char>) -> bool {
    spec_basename(p).len() >= 7 && spec_basename(p).take(7) == zettel_prefix()
}

/// Whether sync must leave the file alone: its filename starts with
/// `_zettel`.
fn is_skip_name(path: &str) -> (b: bool)
    ensures
        b == spec_skip_file(path@),
{
    let n = path.unicode_len();
    let mut i: usize = 0;
    let mut base: usize = 0;
    while i < n
        invariant
            n == path@.len(),
            i <= n,
            base <= i,
            base > 0 ==> path@[base - 1] == '/',
            forall|k: int| base <= k < i ==> path@[k] != '/',
        decreases n - i,
    {
        if path.get_char(i) == '/' {
            base = i + 1;
        }
        i = i + 1;
    }
    proof {
        if base == 0 {
            lemma_basename_no_slash(path@);
            assert(path@.skip(0) =~= path@);
        } else {
            lemma_basename_last_slash(path@, base - 1);
        }
        assert(spec_basename(path@) == path@.skip(base as int));
    }
    if n - base < 7 {
        return false;
    }
    let prefix = path.substring_char(base, base + 7);
    let marker = "_zettel";
    let r = str_eq(prefix, marker);
    proof {
        reveal_strlit("_zettel");
        assert(marker@ =~= zettel_prefix());
        assert(prefix@ =~= path@.skip(base as int).take(7));
    }
    r
}

/// Looks a key up in a parsed header mapping: the first pair carrying the
/// key wins.
pub fn lookup(pairs: &Vec<(String, String)>, key: &str) -> (r: Option<String>)
    ensures
        match r {
            Option::Some(v) => frontmatter::spec_lookup(pairs.deep_view(), key@)
                == Option::Some(v@),
            Option::None => frontmatter::spec_lookup(pairs.deep_view(), key@) is None,
        },
{
    let ghost dv = pairs.deep_view();
    let n = pairs.len();
    let mut i: usize = 0;
    proof {
        assert(dv.skip(0) =~= dv);
    }
    while i < n
        invariant
            dv == pairs.deep_view(),
            dv.len() == n,
            n == pairs.len(),
            i <= n,
            frontmatter::spec_lookup(dv, key@) == frontmatter::spec_lookup(
                dv.skip(i as int),
                key@,
            ),
        decreases n - i,
    {
        proof {
            assert(dv[i as int] == (pairs[i as int].0@, pairs[i as int].1@));
            assert(dv.skip(i as int)[0] == dv[i as int]);
        }
        if str_eq(pairs[i].0.as_str(), key) {
            return Some(pairs[i].1.clone());
        }
        proof {
            assert(dv.skip(i as int).drop_first() =~= dv.skip(i + 1));
        }
        i = i + 1;
    }
    proof {
        assert(dv.skip(n as int) =~= Seq::<(Seq<char>, Seq<char>)>::empty());
    }
    None
}

/// Why sync skipped a file.
#[derive(Clone, Copy, Debug, PartialEq, Eq, Structural)]
pub enum SkipReason {
    /// The file's header did not parse.
    Frontmatter(frontmatter::Error),
    /// The header has no `id` key.
    MissingId,
    /// The id the header carries is not registered in the index.
    UnregisteredId,
}

/// The diagnostics as mathematical values.
pub open spec fn diags_view(d: Seq<(String, SkipReason)>) -> Seq<(Seq<char>, SkipReason)> {
    Seq::new(d.len(), |i: int| (d[i].0@, d[i].1))
}

/// What one discovered file does to the table: its header is parsed and
/// the record carrying the header's `id` is re-linked — its path becomes
/// the file's path, its title the header's `title` when one is present;
/// `created`, `modified` and the identifier are kept. A file whose name
/// starts with `_zettel`, or whose header cannot be used, changes nothing.
pub open spec fn spec_sync_file(
    m: Map<Seq<char>, MetaView>,
    path: Seq<char>,
    text: Seq<char>,
) -> Map<Seq<char>, MetaView> {
    if spec_skip_file(path) {
        m
    } else {
        match frontmatter::spec_parse(text) {
            Result::Err(_) => m,
            Result::Ok(pr) => match frontmatter::spec_lookup(pr.0, zettel::id_key()) {
                Option::None => m,
                Option::Some(id) => if !m.contains_key(id) {
                    m
                } else {
                    m.insert(id, spec_relink(m[id], pr.0, path))
                },
            },
        }
    }
}

/// A record re-linked to a discovered file: path replaced, title replaced
/// when the header carries one, everything else kept.
pub open spec fn spec_relink(
    prev: MetaView,
    header: Seq<(Seq<char>, Seq<char>)>,
    path: Seq<char>,
) -> MetaView {
    MetaView {
        created: prev.created,
        modified: prev.modified,
        title: match frontmatter::spec_lookup(header, zettel::title_key()) {
            Option::Some(t) => t,
            Option::None => prev.title,
        },
        path: path,
        id: prev.id,
    }
}

/// The diagnostic one file yields, when it is skipped with a report.
pub open spec fn spec_sync_file_diag(
    m: Map<Seq<char>, MetaView>,
    path: Seq<char>,
    text: Seq<char>,
) -> Option<(Seq<char>, SkipReason)> {
    if spec_skip_file(path) {
        Option::None
    } else {
        match frontmatter::spec_parse(text) {
            Result::Err(e) => Option::Some((path, SkipReason::Frontmatter(e))),
            Result::Ok(pr) => match frontmatter::spec_lookup(pr.0, zettel::id_key()) {
                Option::None => Option::Some((path, SkipReason::MissingId)),
                Option::Some(id) => if !m.contains_key(id) {
                    Option::Some((path, SkipReason::UnregisteredId))
                } else {
                    Option::None
                },
            },
        }
    }
}

/// The table after reconciling the discovered files, in order.
pub open spec fn spec_sync(
    m: Map<Seq<char>, MetaView>,
    files: Seq<(Seq<char>, Seq<char>)>,
) -> Map<Seq<char>, MetaView>
    decreases files.len(),
{
    if files.len() == 0 {
        m
    } else {
        spec_sync(spec_sync_file(m, files[0].0, files[0].1), files.drop_first())
    }
}

/// The diagnostics of a whole sync pass, in file order.
pub open spec fn spec_sync_diags(
    m: Map<Seq<char>, MetaView>,
    files: Seq<(Seq<char>, Seq<char>)>,
) -> Seq<(Seq<char>, SkipReason)>
    decreases files.len(),
{
    if files.len() == 0 {
        Seq::empty()
    } else {
        (match spec_sync_file_diag(m, files[0].0, files[0].1) {
            Option::Some(d) => seq![d],
            Option::None => Seq::empty(),
        }) + spec_sync_diags(spec_sync_file(m, files[0].0, files[0].1), files.drop_first())
    }
}

/// The format of the backing file.
#[derive(Clone, Copy, Debug, PartialEq, Eq, Structural)]
pub enum DbFormat {
    /// The YAML store, the one concrete backing format.
    Yaml,
}

/// The conventional name of the backing file at the collection root.
pub open spec fn default_db_name() -> Seq<char> {
    seq!['_', 'z', 'e', 't', 't', 'e', 'l', '.', 'y', 'a', 'm', 'l']
}

/// The default frontmatter template: the note's title, its identifier,
/// and its creation date, in that order.
pub open spec fn spec_default_frontmatter() -> Seq<(Seq<char>, Seq<char>)> {
    seq![
        (seq!['t', 'i', 't', 'l', 'e'], seq!['@', 't', 'i', 't', 'l', 'e']),
        (seq!['i', 'd'], seq!['@', 'i', 'd']),
        (seq!['d', 'a', 't', 'e'], seq!['@', 'c', 'r', 'e', 'a', 't', 'e', 'd']),
    ]
}

/// Step-by-step construction of an index, finished by `build`.
#[derive(Debug, Clone, PartialEq)]
pub struct ZettelkastenBuilder {
    /// The collection root; the working directory's stand-in `.` when
    /// unset.
    pub root_path: Option<String>,
    /// A frontmatter template of the caller's own; the default template
    /// when unset.
    pub default_frontmatter: Option<Vec<(String, String)>>,
    /// The backing format.
    pub db_kind: DbFormat,
    /// Subdirectories the caller wants created under the root.
    pub subdirs: Vec<String>,
}

impl Default for ZettelkastenBuilder {
    /// A builder with nothing set and the YAML backing format.
    fn default() -> (r: Self)
        ensures
            r.root_path is None,
            r.default_frontmatter is None,
            r.db_kind == DbFormat::Yaml,
            r.subdirs@.len() == 0,
    {
        ZettelkastenBuilder {
            root_path: None,
            default_frontmatter: None,
            db_kind: DbFormat::Yaml,
            subdirs: Vec::new(),
        }
    }
}

impl ZettelkastenBuilder {
    /// Sets the collection root.
    pub fn root_path(self, path: &str) -> (r: Self)
        ensures
            r == (ZettelkastenBuilder { root_path: r.root_path, ..self }),
            r.root_path matches Some(p) && p@ == path@,
    {
        ZettelkastenBuilder { root_path: Some(String::from_str(path)), ..self }
    }

    /// Selects the YAML backing format.
    pub fn yaml(self) -> (r: Self)
        ensures
            r == (ZettelkastenBuilder { db_kind: DbFormat::Yaml, ..self }),
    {
        ZettelkastenBuilder { db_kind: DbFormat::Yaml, ..self }
    }

    /// Asks for a subdirectory under the root. The store only records the
    /// wish: the caller creates the directories of `subdirs` when it
    /// builds.
    pub fn add_subdir(self, path: &str) -> (r: Self)
        ensures
            r == (ZettelkastenBuilder { subdirs: r.subdirs, ..self }),
            r.subdirs@.len() == self.subdirs@.len() + 1,
            r.subdirs@.last()@ == path@,
            forall|i: int| 0 <= i < self.subdirs@.len() ==> r.subdirs@[i] == self.subdirs@[i],
    {
        let mut s = self;
        s.subdirs.push(String::from_str(path));
        s
    }

    /// The subdirectories the caller asked for.
    pub fn subdirs(&self) -> (r: &Vec<String>)
        ensures
            r == self.subdirs,
    {
        &self.subdirs
    }

    /// Builds an empty index created and modified `now`, with the default
    /// template unless one was set, rooted where asked or at `.`, backed
    /// by the conventionally named file.
    pub fn build(self, now: Timestamp) -> (zk: Zettelkasten)
        ensures
            zk.wf(),
            zk.meta.created == now,
            zk.meta.modified == now,
            zk.zseq().len() == 0,
            zk.zmap() == Map::<Seq<char>, MetaView>::empty(),
            zk.default_frontmatter.deep_view() == (match self.default_frontmatter {
                Option::Some(fm) => fm.deep_view(),
                Option::None => spec_default_frontmatter(),
            }),
            zk.root_path@ == (match self.root_path {
                Option::Some(p) => p@,
                Option::None => seq!['.'],
            }),
            zk.db_path@ == default_db_name(),
    {
        let root_path = match self.root_path {
            Some(p) => p,
            None => {
                let dot = ".";
                proof {
                    reveal_strlit(".");
                }
                let d = String::from_str(dot);
                proof {
                    assert(d@ =~= seq!['.']);
                }
                d
            },
        };
        let default_frontmatter = match self.default_frontmatter {
            Some(fm) => fm,
            None => default_frontmatter_vec(),
        };
        let db_name = match self.db_kind {
            DbFormat::Yaml => "_zettel.yaml",
        };
        proof {
            reveal_strlit("_zettel.yaml");
        }
        let db_path = String::from_str(db_name);
        proof {
            assert(db_path@ =~= default_db_name());
        }
        let zk = Zettelkasten {
            meta: ZkMeta { created: now, modified: now },
            default_frontmatter,
            zettels: Vec::new(),
            root_path,
            db_path,
        };
        proof {
            assert(zk.zseq() =~= Seq::<MetaView>::empty());
            assert(zk.zmap() =~= Map::<Seq<char>, MetaView>::empty());
        }
        zk
    }
}

/// The default template as an exec value.
fn default_frontmatter_vec() -> (r: Vec<(String, String)>)
    ensures
        r.deep_view() == spec_default_frontmatter(),
{
    let mut fm: Vec<(String, String)> = Vec::new();
    proof {
        reveal_strlit("title");
        reveal_strlit("@title");
        reveal_strlit("id");
        reveal_strlit("@id");
        reveal_strlit("date");
        reveal_strlit("@created");
    }
    fm.push((String::from_str("title"), String::from_str("@title")));
    fm.push((String::from_str("id"), String::from_str("@id")));
    fm.push((String::from_str("date"), String::from_str("@created")));
    proof {
        assert(("title"@) =~= seq!['t', 'i', 't', 'l', 'e']);
        assert(("@title"@) =~= seq!['@', 't', 'i', 't', 'l', 'e']);
        assert(("id"@) =~= seq!['i', 'd']);
        assert(("@id"@) =~= seq!['@', 'i', 'd']);
        assert(("date"@) =~= seq!['d', 'a', 't', 'e']);
        assert(("@created"@) =~= seq!['@', 'c', 'r', 'e', 'a', 't', 'e', 'd']);
        assert(fm.deep_view() =~= spec_default_frontmatter());
    }
    fm
}

impl Zettelkasten {
    /// A builder with nothing set.
    pub fn builder() -> (r: ZettelkastenBuilder)
        ensures
            r.root_path is None,
            r.default_frontmatter is None,
            r.db_kind == DbFormat::Yaml,
            r.subdirs@.len() == 0,
    {
        ZettelkastenBuilder::default()
    }
}

/// Resolves which file `open` should load. A directory holds its index
/// under the conventional name when it holds one at all — "no index" is
/// an answer, not an error, and the caller decides whether to initialize.
/// A file path is taken as the index itself.
pub fn resolve_db_path(path: &str, is_dir: bool, default_db_exists: bool) -> (r: Option<String>)
    ensures
        is_dir && default_db_exists ==> (r matches Option::Some(p) && p@ == spec_abs_path(
            path@,
            default_db_name(),
        )),
        is_dir && !default_db_exists ==> r is None,
        !is_dir ==> (r matches Option::Some(p) && p@ == path@),
{
    if is_dir {
        if default_db_exists {
            let mut p = String::from_str(path);
            let slash = "/";
            let name = "_zettel.yaml";
            proof {
                reveal_strlit("/");
                reveal_strlit("_zettel.yaml");
            }
            p.append(slash);
            p.append(name);
            proof {
                assert(slash@ =~= seq!['/']);
                assert(name@ =~= default_db_name());
            }
            Some(p)
        } else {
            None
        }
    } else {
        Some(String::from_str(path))
    }
}

/// The suffix after the last dot of a filename, when a dot there is.
pub open spec fn spec_suffix(name: Seq<char>) -> Option<Seq<char>>
    decreases name.len(),
    via spec_suffix_dec
{
    let i = find_char_from(name, 0, '.');
    if i == -1 {
        Option::None
    } else {
        match spec_suffix(name.skip(i + 1)) {
            Option::Some(s) => Option::Some(s),
            Option::None => Option::Some(name.skip(i + 1)),
        }
    }
}

#[via_fn]
proof fn spec_suffix_dec(name: Seq<char>) {
    lemma_find_char_from_spec(name, 0, '.');
}

/// A dotless name has no suffix.
pub proof fn lemma_suffix_no_dot(name: Seq<char>)
    requires
        forall|j: int| 0 <= j < name.len() ==> name[j] != '.',
    ensures
        spec_suffix(name) is None,
{
    lemma_find_char_from_spec(name, 0, '.');
    if find_char_from(name, 0, '.') != -1 {
        assert(false);
    }
}

/// The suffix is what follows the last dot.
pub proof fn lemma_suffix_last_dot(name: Seq<char>, j: int)
    requires
        0 <= j < name.len(),
        name[j] == '.',
        forall|k: int| j < k < name.len() ==> name[k] != '.',
    ensures
        spec_suffix(name) == Option::Some(name.skip(j + 1)),
    decreases name.len(),
{
    lemma_find_char_from_spec(name, 0, '.');
    let i = find_char_from(name, 0, '.');
    assert(i != -1);
    assert(i <= j);
    if i == j {
        let q = name.skip(j + 1);
        assert(forall|k: int| 0 <= k < q.len() ==> #[trigger] q[k] == name[j + 1 + k]);
        lemma_suffix_no_dot(q);
    } else {
        let q = name.skip(i + 1);
        assert(forall|k: int| 0 <= k < q.len() ==> #[trigger] q[k] == name[i + 1 + k]);
        assert(q[j - i - 1] == '.');
        lemma_suffix_last_dot(q, j - i - 1);
        assert(q.skip(j - i) =~= name.skip(j + 1));
    }
}

/// The suffixes the store recognizes.
pub open spec fn yaml_suffix() -> Seq<char> {
    seq!['y', 'a', 'm', 'l']
}

/// The shorter spelling of the YAML suffix.
pub open spec fn yml_suffix() -> Seq<char> {
    seq!['y', 'm', 'l']
}

/// The format a backing filename names, if a recognized one.
pub open spec fn spec_db_format(name: Seq<char>) -> Option<DbFormat> {
    match spec_suffix(name) {
        Option::Some(s) => if s == yaml_suffix() || s == yml_suffix() {
            Option::Some(DbFormat::Yaml)
        } else {
            Option::None
        },
        Option::None => Option::None,
    }
}

/// Which backing format a filename names: a `yaml` or `yml` suffix is the
/// YAML store; any other suffix, or none, is unsupported.
pub fn db_format(filename: &str) -> (r: Result<DbFormat, Error>)
    ensures
        match r {
            Result::Ok(f) => spec_db_format(filename@) == Option::Some(f),
            Result::Err(e) => e == Error::UnsupportedFormat && spec_db_format(filename@) is None,
        },
{
    let n = filename.unicode_len();
    let mut i: usize = 0;
    let mut dot: usize = 0;
    let mut seen: bool = false;
    while i < n
        invariant
            n == filename@.len(),
            i <= n,
            seen ==> dot < i && filename@[dot as int] == '.',
            forall|k: int| (if seen { dot < k } else { 0 <= k }) && k < i ==> filename@[k] != '.',
        decreases n - i,
    {
        if filename.get_char(i) == '.' {
            dot = i;
            seen = true;
        }
        i = i + 1;
    }
    if !seen {
        proof {
            lemma_suffix_no_dot(filename@);
        }
        return Err(Error::UnsupportedFormat);
    }
    proof {
        lemma_suffix_last_dot(filename@, dot as int);
    }
    let suffix = filename.substring_char(dot + 1, n);
    proof {
        assert(suffix@ =~= filename@.skip(dot + 1));
    }
    let yaml_name = "yaml";
    let yml_name = "yml";
    proof {
        reveal_strlit("yaml");
        reveal_strlit("yml");
        assert(yaml_name@ =~= yaml_suffix());
        assert(yml_name@ =~= yml_suffix());
    }
    if str_eq(suffix, yaml_name) || str_eq(suffix, yml_name) {
        Ok(DbFormat::Yaml)
    } else {
        Err(Error::UnsupportedFormat)
    }
}

/// Whether a discovered file addresses the record with identifier `id`:
/// its name is not skipped, its header parses, and the header's `id`
/// field is exactly `id`.
pub open spec fn spec_file_addresses(f: (Seq<char>, Seq<char>), id: Seq<char>) -> bool {
    &&& !spec_skip_file(f.0)
    &&& frontmatter::spec_parse(f.1) is Ok
    &&& frontmatter::spec_lookup(spec_file_header(f), zettel::id_key()) == Option::Some(id)
}

/// The header mapping a file carries, when it parses.
pub open spec fn spec_file_header(f: (Seq<char>, Seq<char>)) -> Seq<(Seq<char>, Seq<char>)> {
    frontmatter::spec_parse(f.1)->Ok_0.0
}

/// One record after every file addressed to it has re-linked it, in order.
pub open spec fn spec_apply_files(
    v: MetaView,
    files: Seq<(Seq<char>, Seq<char>)>,
    id: Seq<char>,
) -> MetaView
    decreases files.len(),
{
    if files.len() == 0 {
        v
    } else {
        let v1 = if spec_file_addresses(files[0], id) {
            spec_relink(v, spec_file_header(files[0]), files[0].0)
        } else {
            v
        };
        spec_apply_files(v1, files.drop_first(), id)
    }
}

/// Applying one more file applies it after all the others.
proof fn lemma_apply_files_push(
    v: MetaView,
    files: Seq<(Seq<char>, Seq<char>)>,
    f: (Seq<char>, Seq<char>),
    id: Seq<char>,
)
    ensures
        spec_apply_files(v, files.push(f), id) == ({
            let w = spec_apply_files(v, files, id);
            if spec_file_addresses(f, id) {
                spec_relink(w, spec_file_header(f), f.0)
            } else {
                w
            }
        }),
    decreases files.len(),
{
    if files.len() == 0 {
        assert(files.push(f).drop_first() =~= Seq::<(Seq<char>, Seq<char>)>::empty());
        assert(files.push(f)[0] == f);
        let v1 = if spec_file_addresses(f, id) {
            spec_relink(v, spec_file_header(f), f.0)
        } else {
            v
        };
        assert(spec_apply_files(v, files.push(f), id) == spec_apply_files(
            v1,
            Seq::<(Seq<char>, Seq<char>)>::empty(),
            id,
        ));
        assert(spec_apply_files(v1, Seq::<(Seq<char>, Seq<char>)>::empty(), id) == v1);
        assert(spec_apply_files(v, files, id) == v);
    } else {
        assert(files.push(f)[0] == files[0]);
        assert(files.push(f).drop_first() =~= files.drop_first().push(f));
        let v1 = if spec_file_addresses(files[0], id) {
            spec_relink(v, spec_file_header(files[0]), files[0].0)
        } else {
            v
        };
        assert(spec_apply_files(v, files.push(f), id) == spec_apply_files(
            v1,
            files.drop_first().push(f),
            id,
        ));
        lemma_apply_files_push(v1, files.drop_first(), f, id);
        assert(spec_apply_files(v, files, id) == spec_apply_files(v1, files.drop_first(), id));
    }
}

/// Sync keeps exactly the registered identifiers, and treats each record
/// independently: its new value is its old value with every file addressed
/// to it applied in order.
pub proof fn lemma_sync_pointwise(m: Map<Seq<char>, MetaView>, files: Seq<(Seq<char>, Seq<char>)>)
    ensures
        spec_sync(m, files).dom() == m.dom(),
        forall|id: Seq<char>| #[trigger]
            m.contains_key(id) ==> spec_sync(m, files)[id] == spec_apply_files(m[id], files, id),
    decreases files.len(),
{
    if files.len() > 0 {
        let f = files[0];
        let m1 = spec_sync_file(m, f.0, f.1);
        assert(m1.dom() =~= m.dom());
        lemma_sync_pointwise(m1, files.drop_first());
        assert forall|id: Seq<char>| #[trigger] m.contains_key(id) implies spec_sync(m, files)[id]
            == spec_apply_files(m[id], files, id) by {
            let step = if spec_file_addresses(f, id) {
                spec_relink(m[id], spec_file_header(f), f.0)
            } else {
                m[id]
            };
            assert(m1[id] == step);
            assert(m1.contains_key(id));
            assert(spec_sync(m, files)[id] == spec_sync(m1, files.drop_first())[id]);
            assert(spec_sync(m1, files.drop_first())[id] == spec_apply_files(
                m1[id],
                files.drop_first(),
                id,
            ));
        }
    }
}

/// The path of the last file addressed to `id`, if any file is.
pub open spec fn spec_last_path(files: Seq<(Seq<char>, Seq<char>)>, id: Seq<char>) -> Option<
    Seq<char>,
>
    decreases files.len(),
{
    if files.len() == 0 {
        Option::None
    } else if spec_file_addresses(files.last(), id) {
        Option::Some(files.last().0)
    } else {
        spec_last_path(files.drop_last(), id)
    }
}

/// The last title any file addressed to `id` provides, if any does.
pub open spec fn spec_last_title(files: Seq<(Seq<char>, Seq<char>)>, id: Seq<char>) -> Option<
    Seq<char>,
>
    decreases files.len(),
{
    if files.len() == 0 {
        Option::None
    } else if spec_file_addresses(files.last(), id) && frontmatter::spec_lookup(
        spec_file_header(files.last()),
        zettel::title_key(),
    ) is Some {
        frontmatter::spec_lookup(spec_file_header(files.last()), zettel::title_key())
    } else {
        spec_last_title(files.drop_last(), id)
    }
}

/// What applying a pass to one record amounts to: the path of the last
/// file addressed to it, the last title provided for it, everything else
/// kept.
pub proof fn lemma_apply_files_last(
    v: MetaView,
    files: Seq<(Seq<char>, Seq<char>)>,
    id: Seq<char>,
)
    ensures
        spec_apply_files(v, files, id) == (MetaView {
            created: v.created,
            modified: v.modified,
            title: match spec_last_title(files, id) {
                Option::Some(t) => t,
                Option::None => v.title,
            },
            path: match spec_last_path(files, id) {
                Option::Some(p) => p,
                Option::None => v.path,
            },
            id: v.id,
        }),
    decreases files.len(),
{
    if files.len() == 0 {
    } else {
        let fs0 = files.drop_last();
        let f = files.last();
        assert(files =~= fs0.push(f));
        lemma_apply_files_push(v, fs0, f, id);
        lemma_apply_files_last(v, fs0, id);
    }
}

/// IDEMPOTENT SYNC: running the pass twice over the same files leaves the
/// table exactly as one pass does.
pub proof fn lemma_sync_idempotent(m: Map<Seq<char>, MetaView>, files: Seq<(Seq<char>, Seq<char>)>)
    ensures
        spec_sync(spec_sync(m, files), files) == spec_sync(m, files),
{
    let m1 = spec_sync(m, files);
    lemma_sync_pointwise(m, files);
    lemma_sync_pointwise(m1, files);
    assert forall|id: Seq<char>| #[trigger] m1.contains_key(id) implies spec_sync(m1, files)[id]
        == m1[id] by {
        assert(m.contains_key(id));
        let v = m[id];
        lemma_apply_files_last(v, files, id);
        lemma_apply_files_last(m1[id], files, id);
    }
    assert(spec_sync(m1, files) =~= m1);
}

/// IDENTITY-BASED RELOCATION: after a pass, a registered record lies at
/// the path of the last file carrying its identifier — wherever that file
/// moved — and its creation time, modification time and identifier are
/// exactly what they were.
pub proof fn lemma_sync_relocates(
    m: Map<Seq<char>, MetaView>,
    files: Seq<(Seq<char>, Seq<char>)>,
    id: Seq<char>,
)
    requires
        m.contains_key(id),
    ensures
        spec_sync(m, files).contains_key(id),
        spec_sync(m, files)[id].created == m[id].created,
        spec_sync(m, files)[id].modified == m[id].modified,
        spec_sync(m, files)[id].id == m[id].id,
        spec_last_path(files, id) matches Option::Some(p) ==> spec_sync(m, files)[id].path == p,
        spec_last_path(files, id) is None ==> spec_sync(m, files)[id].path == m[id].path,
        spec_last_title(files, id) matches Option::Some(t) ==> spec_sync(m, files)[id].title == t,
        spec_last_title(files, id) is None ==> spec_sync(m, files)[id].title == m[id].title,
{
    lemma_sync_pointwise(m, files);
    lemma_apply_files_last(m[id], files, id);
}

/// MALFORMED-FILE AND MISSING-ID RESILIENCE: a file the pass skips — a
/// `_zettel*` name, a header that does not parse, a header without an
/// `id`, or an identifier that is not registered — changes no record, and
/// the rest of the pass proceeds exactly as if the file were absent.
pub proof fn lemma_sync_skips_ineffective(
    m: Map<Seq<char>, MetaView>,
    files: Seq<(Seq<char>, Seq<char>)>,
    k: int,
)
    requires
        0 <= k < files.len(),
        spec_skip_file(files[k].0) || frontmatter::spec_parse(files[k].1) is Err
            || frontmatter::spec_lookup(spec_file_header(files[k]), zettel::id_key()) is None || (
        frontmatter::spec_lookup(spec_file_header(files[k]), zettel::id_key()) matches Option::Some(
            id,
        ) && !m.contains_key(id)),
    ensures
        spec_sync(m, files) == spec_sync(m, files.remove(k)),
    decreases files.len(),
{
    if k == 0 {
        assert(spec_sync_file(m, files[0].0, files[0].1) == m);
        assert(files.remove(0) =~= files.drop_first());
    } else {
        let m1 = spec_sync_file(m, files[0].0, files[0].1);
        assert(m1.dom() =~= m.dom());
        assert(files.drop_first()[k - 1] == files[k]);
        lemma_sync_skips_ineffective(m1, files.drop_first(), k - 1);
        assert(files.remove(k).drop_first() =~= files.drop_first().remove(k - 1));
        assert(files.remove(k)[0] == files[0]);
        assert(files.remove(k).len() > 0);
    }
}

impl Zettelkasten {
    /// The position of the record carrying `id`, when one is registered.
    fn find_index(&self, id: &str) -> (r: Option<usize>)
        requires
            self.wf(),
        ensures
            match r {
                Option::Some(i) => i < self.zseq().len() && self.zseq()[i as int].id == id@
                    && self.zmap().contains_key(id@) && self.zmap()[id@] == self.zseq()[i as int],
                Option::None => !self.zmap().contains_key(id@),
            },
    {
        let n = self.zettels.len();
        let mut i: usize = 0;
        while i < n
            invariant
                self.wf(),
                n == self.zettels.len(),
                i <= n,
                forall|j: int| 0 <= j < i ==> (#[trigger] self.zseq()[j]).id != id@,
            decreases n - i,
        {
            if str_eq(self.zettels[i].id.as_str(), id) {
                proof {
                    assert(self.zseq()[i as int].id == id@);
                    lemma_seq_to_map_index(self.zseq(), i as int);
                }
                return Some(i);
            }
            proof {
                assert(self.zseq()[i as int] == self.zettels[i as int]@);
            }
            i = i + 1;
        }
        proof {
            lemma_seq_to_map_contains(self.zseq(), id@);
        }
        None
    }

    /// Destroys the entry registered under `id` and hands its record
    /// back: the explicit removal of spec and rollback — when a note's
    /// file was written but the commit that followed failed, the caller
    /// removes the entry and deletes the file it just created. Deleting
    /// the file is the caller's, as writing it was with `add`. Fails with
    /// `NotFound` when no entry carries the identifier.
    pub fn remove(&mut self, id: &str) -> (r: Result<ZettelMeta, Error>)
        requires
            old(self).wf(),
        ensures
            final(self).wf(),
            final(self).same_but_zettels(*old(self)),
            match r {
                Result::Ok(m) => {
                    &&& old(self).zmap().contains_key(id@)
                    &&& m@ == old(self).zmap()[id@]
                    &&& final(self).zmap() == old(self).zmap().remove(id@)
                },
                Result::Err(e) => {
                    &&& e == Error::NotFound
                    &&& !old(self).zmap().contains_key(id@)
                    &&& *final(self) == *old(self)
                },
            },
    {
        let idx = match self.find_index(id) {
            Some(i) => i,
            None => {
                return Err(Error::NotFound);
            },
        };
        let ghost pre = self.zseq();
        proof {
            let ii = idx as int;
            assert forall|j: int| 0 <= j < pre.len() && j != ii implies (#[trigger] pre[j]).id
                != pre[ii].id by {}
            lemma_seq_to_map_remove(pre, ii);
        }
        let m = self.zettels.remove(idx);
        proof {
            let ii = idx as int;
            assert(self.zseq() =~= pre.remove(ii));
            assert(m@ == pre[ii]);
            assert forall|a: int, b: int| 0 <= a < b < self.zseq().len() implies (
            #[trigger] self.zseq()[a]).id != (#[trigger] self.zseq()[b]).id by {
                let a0: int = if a < ii { a } else { a + 1 };
                let b0: int = if b < ii { b } else { b + 1 };
                assert(self.zseq()[a] == pre[a0]);
                assert(self.zseq()[b] == pre[b0]);
                assert(pre[a0].id != pre[b0].id);
            }
        }
        Ok(m)
    }

    /// Reconciles the table with the files the caller discovered under the
    /// root, in the order given: each `(path, text)` pair is one regular
    /// file, its path root-relative. The record carrying a file's header
    /// `id` is re-linked to that file: the path is overwritten, the title
    /// too when the header names one; `created`, `modified` and the
    /// identifier are never touched, and no record is added or removed.
    /// Files named `_zettel*` are left alone; a file with an unreadable
    /// header, no `id`, or an unregistered `id` is skipped with a
    /// diagnostic while the rest are still processed. Sync itself never
    /// fails; the caller commits afterwards.
    pub fn sync(&mut self, files: &Vec<(String, String)>) -> (diags: Vec<(String, SkipReason)>)
        requires
            old(self).wf(),
        ensures
            final(self).wf(),
            final(self).zmap() == spec_sync(old(self).zmap(), files.deep_view()),
            diags_view(diags@) == spec_sync_diags(old(self).zmap(), files.deep_view()),
            final(self).same_but_zettels(*old(self)),
            final(self).zseq().len() == old(self).zseq().len(),
            forall|i: int|
                0 <= i < old(self).zseq().len() ==> (#[trigger] final(self).zseq()[i]).id == old(
                    self,
                ).zseq()[i].id && final(self).zseq()[i].created == old(self).zseq()[i].created
                    && final(self).zseq()[i].modified == old(self).zseq()[i].modified,
    {
        let ghost fdv = files.deep_view();
        let ghost m0 = self.zmap();
        let mut diags: Vec<(String, SkipReason)> = Vec::new();
        let n = files.len();
        let mut k: usize = 0;
        proof {
            assert(fdv.skip(0) =~= fdv);
            assert(diags_view(diags@) =~= Seq::<(Seq<char>, SkipReason)>::empty());
            assert(Seq::<(Seq<char>, SkipReason)>::empty() + spec_sync_diags(m0, fdv)
                =~= spec_sync_diags(m0, fdv));
        }
        while k < n
            invariant
                self.wf(),
                n == files.len(),
                fdv == files.deep_view(),
                fdv.len() == n,
                k <= n,
                m0 == old(self).zmap(),
                self.same_but_zettels(*old(self)),
                self.zseq().len() == old(self).zseq().len(),
                forall|i: int|
                    0 <= i < old(self).zseq().len() ==> (#[trigger] self.zseq()[i]).id == old(
                        self,
                    ).zseq()[i].id && self.zseq()[i].created == old(self).zseq()[i].created
                        && self.zseq()[i].modified == old(self).zseq()[i].modified,
                spec_sync(m0, fdv) == spec_sync(self.zmap(), fdv.skip(k as int)),
                spec_sync_diags(m0, fdv) == diags_view(diags@) + spec_sync_diags(
                    self.zmap(),
                    fdv.skip(k as int),
                ),
            decreases n - k,
        {
            let ghost mcur = self.zmap();
            let ghost f = fdv[k as int];
            let ghost dpre = diags_view(diags@);
            proof {
                assert(fdv.skip(k as int)[0] == fdv[k as int]);
                assert(fdv.skip(k as int).drop_first() =~= fdv.skip(k + 1));
                assert(fdv[k as int] == (files[k as int].0@, files[k as int].1@));
            }
            let path: &String = &files[k].0;
            let text: &String = &files[k].1;
            if is_skip_name(path.as_str()) {
                proof {
                    assert(spec_sync_file(mcur, f.0, f.1) == mcur);
                    assert(spec_sync_file_diag(mcur, f.0, f.1) is None);
                }
            } else {
                match frontmatter::parse_yaml(text.as_str()) {
                    Err(e) => {
                        diags.push((path.clone(), SkipReason::Frontmatter(e)));
                        proof {
                            assert(spec_sync_file(mcur, f.0, f.1) == mcur);
                            assert(spec_sync_file_diag(mcur, f.0, f.1) == Option::Some(
                                (f.0, SkipReason::Frontmatter(e)),
                            ));
                        }
                    },
                    Ok(parsed) => {
                        let pairs = parsed.0;
                        let ghost pr0 = pairs.deep_view();
                        let id_name = "id";
                        proof {
                            reveal_strlit("id");
                            assert(id_name@ =~= zettel::id_key());
                        }
                        match lookup(&pairs, id_name) {
                            None => {
                                diags.push((path.clone(), SkipReason::MissingId));
                                proof {
                                    assert(spec_sync_file(mcur, f.0, f.1) == mcur);
                                    assert(spec_sync_file_diag(mcur, f.0, f.1) == Option::Some(
                                        (f.0, SkipReason::MissingId),
                                    ));
                                }
                            },
                            Some(id) => {
                                match self.find_index(id.as_str()) {
                                    None => {
                                        diags.push((path.clone(), SkipReason::UnregisteredId));
                                        proof {
                                            assert(spec_sync_file(mcur, f.0, f.1) == mcur);
                                            assert(spec_sync_file_diag(mcur, f.0, f.1)
                                                == Option::Some(
                                                (f.0, SkipReason::UnregisteredId),
                                            ));
                                        }
                                    },
                                    Some(i) => {
                                        let ghost pre = self.zseq();
                                        let title_name = "title";
                                        proof {
                                            reveal_strlit("title");
                                            assert(title_name@ =~= zettel::title_key());
                                        }
                                        let new_title: String = match lookup(&pairs, title_name) {
                                            Some(t) => t,
                                            None => self.zettels[i].title.clone(),
                                        };
                                        let prev = &self.zettels[i];
                                        let new_meta = ZettelMeta {
                                            created: prev.created,
                                            modified: prev.modified,
                                            title: new_title,
                                            path: path.clone(),
                                            id: prev.id.clone(),
                                        };
                                        proof {
                                            let ii = i as int;
                                            assert forall|j: int| ii < j < pre.len() implies (
                                            #[trigger] pre[j]).id != pre[ii].id by {}
                                        }
                                        self.zettels.set(i, new_meta);
                                        proof {
                                            let ii = i as int;
                                            assert(new_meta@ == spec_relink(pre[ii], pr0, f.0));
                                            assert(self.zseq() =~= pre.update(ii, new_meta@));
                                            lemma_seq_to_map_update(pre, ii, new_meta@);
                                            assert(spec_sync_file(mcur, f.0, f.1) == mcur.insert(
                                                id@,
                                                spec_relink(mcur[id@], pr0, f.0),
                                            )) by {
                                                assert(mcur.contains_key(id@));
                                            }
                                            assert(self.zmap() == spec_sync_file(mcur, f.0, f.1));
                                            assert(spec_sync_file_diag(mcur, f.0, f.1) is None);
                                            assert forall|a: int, b: int|
                                                0 <= a < b < self.zseq().len() implies (
                                            #[trigger] self.zseq()[a]).id != (
                                            #[trigger] self.zseq()[b]).id by {
                                                assert(pre[a].id != pre[b].id);
                                                if a == ii {
                                                    assert(self.zseq()[a].id == pre[a].id);
                                                }
                                                if b == ii {
                                                    assert(self.zseq()[b].id == pre[b].id);
                                                }
                                            }
                                        }
                                    },
                                }
                            },
                        }
                    },
                }
            }
            proof {
                let head = match spec_sync_file_diag(mcur, f.0, f.1) {
                    Option::Some(d) => seq![d],
                    Option::None => Seq::<(Seq<char>, SkipReason)>::empty(),
                };
                assert(diags_view(diags@) =~= dpre + head);
                assert(spec_sync(mcur, fdv.skip(k as int)) == spec_sync(
                    self.zmap(),
                    fdv.skip(k + 1),
                ));
                assert(spec_sync_diags(mcur, fdv.skip(k as int)) == head + spec_sync_diags(
                    self.zmap(),
                    fdv.skip(k + 1),
                ));
                assert(dpre + (head + spec_sync_diags(self.zmap(), fdv.skip(k + 1))) =~= (dpre
                    + head) + spec_sync_diags(self.zmap(), fdv.skip(k + 1)));
            }
            k = k + 1;
        }
        proof {
            assert(fdv.skip(n as int) =~= Seq::<(Seq<char>, Seq<char>)>::empty());
            assert(diags_view(diags@) + Seq::<(Seq<char>, SkipReason)>::empty() =~= diags_view(
                diags@,
            ));
        }
        diags
    }
}

} // verus!
