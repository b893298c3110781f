//! Notes and their metadata.
//!
//! A `Zettel` is a note about to be written to disk: its metadata record and
//! its body. `ZettelMeta` is what the index keeps for each known note. A
//! note's header is rendered from a frontmatter template: an ordered list of
//! `(key, value)` pairs where a value starting with `@` names a metadata
//! field (`@title`, `@id`, `@created`) and any other value is copied
//! verbatim.

use crate::frontmatter;
use crate::time::Timestamp;
use crate::time::spec_date_string;
use rand::Rng;
use vstd::prelude::*;

verus! {

/// A note's stable identifier: an opaque string, assigned once at creation.
pub type Id = String;

/// Why rendering a note failed.
#[derive(Clone, Copy, Debug, PartialEq, Eq, Structural)]
pub enum Error {
    /// A template reference names a field notes do not have.
    UnknownField,
    /// The codec refused the substituted mapping: some entry cannot stand
    /// as one header line.
    FrontmatterError(frontmatter::Error),
}

/// Metadata for one note, as the index records it.
#[derive(Debug, Clone, PartialEq)]
pub struct ZettelMeta {
    /// Creation time; assigned once, never changed afterwards.
    pub created: Timestamp,
    /// Modification time; sync never touches it.
    pub modified: Timestamp,
    /// Title, refreshed by sync from the file's header.
    pub title: String,
    /// Slash-separated path relative to the collection root; refreshed by
    /// sync as files move, never authoritative for identity.
    pub path: String,
    /// The stable identifier: the only cross-reference between index and
    /// file tree.
    pub id: Id,
}

/// The mathematical value of a `ZettelMeta`.
pub ghost struct MetaView {
    pub created: Timestamp,
    pub modified: Timestamp,
    pub title: Seq<char>,
    pub path: Seq<char>,
    pub id: Seq<char>,
}

impl View for ZettelMeta {
    type V = MetaView;

    open spec fn view(&self) -> MetaView {
        MetaView {
            created: self.created,
            modified: self.modified,
            title: self.title@,
            path: self.path@,
            id: self.id@,
        }
    }
}

impl DeepView for ZettelMeta {
    type V = MetaView;

    open spec fn deep_view(&self) -> MetaView {
        self@
    }
}

impl ZettelMeta {
    /// A field-for-field copy; spelled out so its contract can say the copy
    /// has the same value.
    pub fn duplicate(&self) -> (r: ZettelMeta)
        ensures
            r@ == self@,
    {
        ZettelMeta {
            created: self.created,
            modified: self.modified,
            title: self.title.clone(),
            path: self.path.clone(),
            id: self.id.clone(),
        }
    }

    /// The note's root-relative path.
    pub fn path(&self) -> (r: &str)
        ensures
            r@ == self@.path,
    {
        self.path.as_str()
    }
}

/// A note: its metadata and its body. Transient: it is written to a file
/// and registered in the index right after construction, never stored.
#[derive(Debug, Clone, PartialEq)]
pub struct Zettel {
    pub meta: ZettelMeta,
    pub content: String,
}

/// The template reference token for the title field, without its marker.
pub open spec fn title_key() -> Seq<char> {
    seq!['t', 'i', 't', 'l', 'e']
}

/// The template reference token for the identifier field, without its marker.
pub open spec fn id_key() -> Seq<char> {
    seq!['i', 'd']
}

/// The template reference token for the creation date, without its marker.
pub open spec fn created_key() -> Seq<char> {
    seq!['c', 'r', 'e', 'a', 't', 'e', 'd']
}

/// What a template value renders to for a given note: a literal is copied;
/// `@title`, `@id` and `@created` are replaced by the note's fields, the
/// date as `YYYY-MM-DD`; any other `@` reference is unknown.
pub open spec fn spec_subst_value(v: Seq<char>, meta: MetaView) -> Option<Seq<char>> {
    if v.len() == 0 || v[0] != '@' {
        Option::Some(v)
    } else if v.skip(1) == title_key() {
        Option::Some(meta.title)
    } else if v.skip(1) == id_key() {
        Option::Some(meta.id)
    } else if v.skip(1) == created_key() {
        Option::Some(spec_date_string(meta.created))
    } else {
        Option::None
    }
}

/// The substituted template: keys kept in order, each value substituted;
/// nothing when some reference is unknown.
pub open spec fn spec_subst_pairs(t: Seq<(Seq<char>, Seq<char>)>, meta: MetaView) -> Option<
    Seq<(Seq<char>, Seq<char>)>,
> {
    if forall|j: int| 0 <= j < t.len() ==> spec_subst_value(#[trigger] t[j].1, meta) is Some {
        Option::Some(
            Seq::new(t.len(), |j: int| (t[j].0, spec_subst_value(t[j].1, meta).unwrap())),
        )
    } else {
        Option::None
    }
}

/// The full text of a note rendered with a template: the substituted
/// mapping block, the closing delimiter, a blank line, the body. Nothing
/// when a reference is unknown, or when some substituted entry cannot
/// stand as one header line — only text that parses back to the same
/// mapping is ever produced.
pub open spec fn spec_as_string(
    t: Seq<(Seq<char>, Seq<char>)>,
    meta: MetaView,
    content: Seq<char>,
) -> Option<Seq<char>> {
    match spec_subst_pairs(t, meta) {
        Option::Some(pairs) => if frontmatter::wf_pairs(pairs) {
            Option::Some(frontmatter::spec_render_doc(pairs, content))
        } else {
            Option::None
        },
        Option::None => Option::None,
    }
}

/// Whether two strings hold the same characters.
pub(crate) fn str_eq(a: &str, b: &str) -> (r: bool)
    ensures
        r == (a@ == b@),
{
    let n = a.unicode_len();
    if n != b.unicode_len() {
        return false;
    }
    let mut i: usize = 0;
    while i < n
        invariant
            i <= n,
            n == a@.len(),
            n == b@.len(),
            forall|j: int| 0 <= j < i ==> a@[j] == b@[j],
        decreases n - i,
    {
        if a.get_char(i) != b.get_char(i) {
            return false;
        }
        i = i + 1;
    }
    proof {
        assert(a@ =~= b@);
    }
    true
}

impl Zettel {
    /// A builder with nothing set.
    pub fn builder() -> (r: ZettelBuilder)
        ensures
            r.title is None,
            r.created is None,
            r.modified is None,
            r.subdir is None,
            r.content is None,
            r.uuid is None,
    {
        ZettelBuilder::default()
    }

    /// The note's stable identifier.
    pub fn uuid(&self) -> (r: &Id)
        ensures
            r@ == self.meta@.id,
    {
        &self.meta.id
    }

    /// Renders the note as file text using the given frontmatter template:
    /// header block in template order, closing delimiter, blank line, body.
    /// Fails exactly when the template holds an unknown `@` reference, or
    /// when a substituted entry cannot stand as one header line — a key or
    /// value with a newline, say — so that whatever is returned parses
    /// back to the same mapping.
    pub fn as_string(&self, frontmatter: &Vec<(String, String)>) -> (r: Result<String, Error>)
        requires
            self.meta.created.wf(),
        ensures
            match r {
                Result::Ok(s) => spec_as_string(frontmatter.deep_view(), self.meta@, self.content@)
                    == Option::Some(s@),
                Result::Err(e) => {
                    &&& spec_as_string(frontmatter.deep_view(), self.meta@, self.content@) is None
                    &&& e == (if spec_subst_pairs(frontmatter.deep_view(), self.meta@) is None {
                        Error::UnknownField
                    } else {
                        Error::FrontmatterError(frontmatter::Error::UnrenderableField)
                    })
                },
            },
    {
        let ghost tdv = frontmatter.deep_view();
        let ghost m = self.meta@;
        let mut sv: Vec<(String, String)> = Vec::new();
        let mut i: usize = 0;
        proof {
            assert(tdv.take(0) =~= Seq::<(Seq<char>, Seq<char>)>::empty());
            assert(spec_subst_pairs(tdv.take(0), m) == Option::Some(sv.deep_view())) by {
                assert(sv.deep_view() =~= Seq::<(Seq<char>, Seq<char>)>::empty());
                assert(Seq::new(0, |j: int| (tdv.take(0)[j].0, spec_subst_value(
                    tdv.take(0)[j].1,
                    m,
                ).unwrap())) =~= Seq::<(Seq<char>, Seq<char>)>::empty());
            }
        }
        while i < frontmatter.len()
            invariant
                tdv == frontmatter.deep_view(),
                tdv.len() == frontmatter.len(),
                i <= frontmatter.len(),
                m == self.meta@,
                self.meta.created.wf(),
                spec_subst_pairs(tdv.take(i as int), m) == Option::Some(sv.deep_view()),
            decreases frontmatter.len() - i,
        {
            proof {
                assert(tdv[i as int] == (frontmatter[i as int].0@, frontmatter[i as int].1@));
            }
            let val: &String = &frontmatter[i].1;
            let vlen = val.as_str().unicode_len();
            let new_val: String;
            if vlen == 0 || val.as_str().get_char(0) != '@' {
                new_val = val.clone();
                proof {
                    assert(spec_subst_value(tdv[i as int].1, m) == Option::Some(new_val@));
                }
            } else {
                let tail = val.as_str().substring_char(1, vlen);
                proof {
                    assert(tail@ =~= val@.skip(1));
                }
                if str_eq(tail, "title") {
                    proof {
                        reveal_strlit("title");
                        assert("title"@ =~= title_key());
                    }
                    new_val = self.meta.title.clone();
                } else if str_eq(tail, "id") {
                    proof {
                        reveal_strlit("title");
                        reveal_strlit("id");
                        assert("id"@ =~= id_key());
                        assert("title"@ =~= title_key());
                    }
                    new_val = self.meta.id.clone();
                } else if str_eq(tail, "created") {
                    proof {
                        reveal_strlit("title");
                        reveal_strlit("id");
                        reveal_strlit("created");
                        assert("title"@ =~= title_key());
                        assert("id"@ =~= id_key());
                        assert("created"@ =~= created_key());
                    }
                    new_val = self.meta.created.date_string();
                } else {
                    proof {
                        reveal_strlit("title");
                        reveal_strlit("id");
                        reveal_strlit("created");
                        assert("title"@ =~= title_key());
                        assert("id"@ =~= id_key());
                        assert("created"@ =~= created_key());
                        assert(spec_subst_value(tdv[i as int].1, m) is None);
                        assert(spec_subst_pairs(tdv, m) is None);
                    }
                    return Err(Error::UnknownField);
                }
                proof {
                    assert(spec_subst_value(tdv[i as int].1, m) == Option::Some(new_val@));
                }
            }
            let key = frontmatter[i].0.clone();
            let ghost old_dv = sv.deep_view();
            sv.push((key, new_val));
            proof {
                assert(sv.deep_view() =~= old_dv.push((key@, new_val@)));
                assert(tdv.take(i + 1) =~= tdv.take(i as int).push(tdv[i as int]));
                assert forall|j: int| 0 <= j < i + 1 implies spec_subst_value(
                    #[trigger] tdv.take(i + 1)[j].1,
                    m,
                ) is Some by {
                    assert(tdv.take(i + 1)[j] == tdv[j]);
                    if j < i {
                        assert(tdv.take(i as int)[j] == tdv[j]);
                    }
                }
                assert(spec_subst_pairs(tdv.take(i + 1), m) == Option::Some(sv.deep_view())) by {
                    let lhs = Seq::new((i + 1) as nat, |j: int| (tdv.take(i + 1)[j].0, spec_subst_value(
                        tdv.take(i + 1)[j].1,
                        m,
                    ).unwrap()));
                    let prev = Seq::new(i as nat, |j: int| (tdv.take(i as int)[j].0,
                    spec_subst_value(tdv.take(i as int)[j].1, m).unwrap()));
                    assert(prev == old_dv);
                    assert forall|j: int| 0 <= j < i + 1 implies #[trigger] lhs[j] == sv.deep_view()[j] by {
                        assert(tdv.take(i + 1)[j] == tdv[j]);
                        if j < i {
                            assert(tdv.take(i as int)[j] == tdv[j]);
                            assert(prev[j] == old_dv[j]);
                        }
                    }
                    assert(lhs =~= sv.deep_view());
                }
            }
            i = i + 1;
        }
        proof {
            assert(tdv.take(tdv.len() as int) =~= tdv);
        }
        // every substituted entry must fit on one header line
        let ghost pairs = sv.deep_view();
        let np = sv.len();
        let mut j: usize = 0;
        while j < np
            invariant
                pairs == sv.deep_view(),
                pairs.len() == np,
                np == sv.len(),
                j <= np,
                tdv == frontmatter.deep_view(),
                m == self.meta@,
                spec_subst_pairs(tdv, m) == Option::Some(pairs),
                forall|q: int| 0 <= q < j ==> frontmatter::wf_pair(#[trigger] pairs[q]),
            decreases np - j,
        {
            proof {
                assert(pairs[j as int] == (sv[j as int].0@, sv[j as int].1@));
            }
            if !frontmatter::check_wf_key(sv[j].0.as_str()) || frontmatter::has_nl(
                sv[j].1.as_str(),
            ) {
                proof {
                    assert(!frontmatter::wf_pair(pairs[j as int]));
                }
                return Err(Error::FrontmatterError(frontmatter::Error::UnrenderableField));
            }
            j = j + 1;
        }
        proof {
            assert(frontmatter::wf_pairs(pairs));
        }
        let mut s = match frontmatter::write_str(&sv) {
            Ok(block) => block,
            Err(_) => unreached(),
        };
        let closing = "---\n\n";
        proof {
            reveal_strlit("---\n\n");
            assert(closing@ =~= frontmatter::delim_seq() + seq!['\n'] + seq!['\n']);
        }
        s.append(closing);
        s.append(self.content.as_str());
        proof {
            assert(s@ =~= frontmatter::spec_render_doc(sv.deep_view(), self.content@));
        }
        Ok(s)
    }
}

/// The full `@title` template value.
pub open spec fn ref_title() -> Seq<char> {
    seq!['@'] + title_key()
}

/// The full `@id` template value.
pub open spec fn ref_id() -> Seq<char> {
    seq!['@'] + id_key()
}

/// The full `@created` template value.
pub open spec fn ref_created() -> Seq<char> {
    seq!['@'] + created_key()
}

/// ROUND TRIP: render any note the renderer admits — `as_string` returns
/// text at all, and the template's keys are pairwise distinct — then
/// parse the text back: whatever the body, the parsed mapping holds
/// exactly the substituted template — under an `@title` entry's key the
/// note's title, under an `@id` entry's key its identifier, under an
/// `@created` entry's key its `YYYY-MM-DD` date.
pub proof fn lemma_note_round_trip(
    t: Seq<(Seq<char>, Seq<char>)>,
    meta: MetaView,
    body: Seq<char>,
)
    requires
        spec_as_string(t, meta, body) is Some,
        forall|a: int, b: int| 0 <= a < b < t.len() ==> (#[trigger] t[a]).0 != (#[trigger] t[b]).0,
    ensures
        frontmatter::spec_parse(spec_as_string(t, meta, body).unwrap()) is Ok,
        ({
            let pr = frontmatter::spec_parse(spec_as_string(t, meta, body).unwrap())->Ok_0.0;
            &&& forall|i: int|
                0 <= i < t.len() ==> frontmatter::spec_lookup(pr, (#[trigger] t[i]).0)
                    == spec_subst_value(t[i].1, meta)
            &&& forall|i: int|
                0 <= i < t.len() && (#[trigger] t[i]).1 == ref_title()
                    ==> frontmatter::spec_lookup(pr, t[i].0) == Option::Some(meta.title)
            &&& forall|i: int|
                0 <= i < t.len() && (#[trigger] t[i]).1 == ref_id()
                    ==> frontmatter::spec_lookup(pr, t[i].0) == Option::Some(meta.id)
            &&& forall|i: int|
                0 <= i < t.len() && (#[trigger] t[i]).1 == ref_created()
                    ==> frontmatter::spec_lookup(pr, t[i].0) == Option::Some(
                    spec_date_string(meta.created),
                )
        }),
{
    let pairs = spec_subst_pairs(t, meta).unwrap();
    assert(pairs.len() == t.len());
    assert(frontmatter::wf_pairs(pairs));
    frontmatter::lemma_round_trip(pairs, body);
    let text = spec_as_string(t, meta, body).unwrap();
    assert(text == frontmatter::spec_render_doc(pairs, body));
    let pr = frontmatter::spec_parse(text)->Ok_0.0;
    assert(pr == pairs);
    assert forall|i: int| 0 <= i < t.len() implies frontmatter::spec_lookup(
        pr,
        (#[trigger] t[i]).0,
    ) == spec_subst_value(t[i].1, meta) by {
        assert(pairs[i] == (t[i].0, spec_subst_value(t[i].1, meta).unwrap()));
        assert forall|a: int, b: int| 0 <= a < b < pairs.len() implies (#[trigger] pairs[a]).0 != (
        #[trigger] pairs[b]).0 by {
            assert(pairs[a].0 == t[a].0 && pairs[b].0 == t[b].0);
        }
        frontmatter::lemma_lookup_unique(pairs, i);
    }
    assert forall|i: int| 0 <= i < t.len() && (#[trigger] t[i]).1 == ref_title() implies
        spec_subst_value(t[i].1, meta) == Option::Some(meta.title) by {
        assert(ref_title()[0] == '@');
        assert(ref_title().skip(1) =~= title_key());
    }
    assert forall|i: int| 0 <= i < t.len() && (#[trigger] t[i]).1 == ref_id() implies
        spec_subst_value(t[i].1, meta) == Option::Some(meta.id) by {
        assert(ref_id()[0] == '@');
        assert(ref_id().skip(1) =~= id_key());
        assert(ref_id().skip(1) != title_key());
    }
    assert forall|i: int| 0 <= i < t.len() && (#[trigger] t[i]).1 == ref_created() implies
        spec_subst_value(t[i].1, meta) == Option::Some(spec_date_string(meta.created)) by {
        assert(ref_created()[0] == '@');
        assert(ref_created().skip(1) =~= created_key());
        assert(ref_created().skip(1) != title_key());
        assert(ref_created().skip(1) != id_key());
    }
}

/// The parsed header of a rendered note does not depend on its body:
/// one note rendered over any two bodies parses to the same mapping.
pub proof fn lemma_as_string_ignores_body(
    t: Seq<(Seq<char>, Seq<char>)>,
    meta: MetaView,
    body1: Seq<char>,
    body2: Seq<char>,
)
    requires
        spec_as_string(t, meta, body1) is Some,
    ensures
        spec_as_string(t, meta, body2) is Some,
        frontmatter::spec_parse(spec_as_string(t, meta, body1).unwrap()) == frontmatter::spec_parse(
            spec_as_string(t, meta, body2).unwrap(),
        ),
{
    let pairs = spec_subst_pairs(t, meta).unwrap();
    frontmatter::lemma_parse_ignores_body(pairs, body1, body2);
}

/// The default title of a note built without one.
pub open spec fn default_title() -> Seq<char> {
    seq!['m', 'y', ' ', 'z', 'e', 't', 't', 'e', 'l']
}

/// The default body of a note built without one.
pub open spec fn default_content() -> Seq<char> {
    seq!['\n']
}

/// A title with each space turned into a dash.
pub open spec fn spec_dashed(s: Seq<char>) -> Seq<char> {
    Seq::new(s.len(), |i: int| if s[i] == ' ' { '-' } else { s[i] })
}

/// The filename of a note: its dashed title and the `.md` suffix.
pub open spec fn spec_filename(title: Seq<char>) -> Seq<char> {
    spec_dashed(title) + seq!['.', 'm', 'd']
}

/// A character the identifier generator can produce.
pub open spec fn is_id_char(c: char) -> bool {
    ('a' <= c && c <= 'z') || ('A' <= c && c <= 'Z') || ('0' <= c && c <= '9')
}

/// A freshly generated identifier: eighteen alphanumeric characters.
pub open spec fn is_generated_id(s: Seq<char>) -> bool {
    s.len() == 18 && (forall|i: int| 0 <= i < s.len() ==> is_id_char(#[trigger] s[i]))
}

/// Relies on rand's `Alphanumeric` distribution: every sampled byte is one
/// of `A-Z`, `a-z`, `0-9`; eighteen samples are drawn and kept in order.
#[verifier::external_body]
pub(crate) fn rand_id() -> (r: String)
    ensures
        is_generated_id(r@),
{
    rand::thread_rng().sample_iter(&rand::distributions::Alphanumeric).take(18).map(
        char::from,
    ).collect()
}

/// The filename for a note title: the title with spaces dashed, then `.md`.
pub fn make_filename(title: &str) -> (r: String)
    ensures
        r@ == spec_filename(title@),
{
    let n = title.unicode_len();
    let mut s = String::new();
    let mut i: usize = 0;
    while i < n
        invariant
            i <= n,
            n == title@.len(),
            s@ == spec_dashed(title@.take(i as int)),
        decreases n - i,
    {
        if title.get_char(i) == ' ' {
            let dash = "-";
            proof {
                reveal_strlit("-");
            }
            s.append(dash);
            proof {
                assert(dash@ =~= seq!['-']);
            }
        } else {
            let piece = title.substring_char(i, i + 1);
            s.append(piece);
            proof {
                assert(piece@ =~= seq![title@[i as int]]);
            }
        }
        proof {
            assert(s@ =~= spec_dashed(title@.take(i + 1)));
        }
        i = i + 1;
    }
    proof {
        assert(title@.take(n as int) =~= title@);
    }
    let suffix = ".md";
    proof {
        reveal_strlit(".md");
    }
    s.append(suffix);
    proof {
        assert(suffix@ =~= seq!['.', 'm', 'd']);
    }
    s
}

/// Step-by-step construction of a note, finished by `build`.
#[derive(Debug, Clone, PartialEq)]
pub struct ZettelBuilder {
    pub title: Option<String>,
    pub created: Option<Timestamp>,
    pub modified: Option<Timestamp>,
    pub subdir: Option<String>,
    pub content: Option<String>,
    pub uuid: Option<Id>,
}

impl Default for ZettelBuilder {
    /// A builder with nothing set.
    fn default() -> (r: Self)
        ensures
            r.title is None,
            r.created is None,
            r.modified is None,
            r.subdir is None,
            r.content is None,
            r.uuid is None,
    {
        ZettelBuilder {
            title: None,
            created: None,
            modified: None,
            subdir: None,
            content: None,
            uuid: None,
        }
    }
}

impl ZettelBuilder {
    /// Sets the note's title.
    pub fn title(self, title: &str) -> (r: Self)
        ensures
            r == (ZettelBuilder { title: r.title, ..self }),
            r.title matches Some(t) && t@ == title@,
    {
        ZettelBuilder { title: Some(String::from_str(title)), ..self }
    }

    /// Sets the note's creation time.
    pub fn created(self, created: Timestamp) -> (r: Self)
        ensures
            r == (ZettelBuilder { created: Some(created), ..self }),
    {
        ZettelBuilder { created: Some(created), ..self }
    }

    /// Puts the note in a subdirectory of the collection root.
    pub fn subdir(self, subdir: &str) -> (r: Self)
        ensures
            r == (ZettelBuilder { subdir: r.subdir, ..self }),
            r.subdir matches Some(d) && d@ == subdir@,
    {
        ZettelBuilder { subdir: Some(String::from_str(subdir)), ..self }
    }

    /// Sets the note's body.
    pub fn content(self, content: &str) -> (r: Self)
        ensures
            r == (ZettelBuilder { content: r.content, ..self }),
            r.content matches Some(c) && c@ == content@,
    {
        ZettelBuilder { content: Some(String::from_str(content)), ..self }
    }

    /// The title the built note will have.
    pub open spec fn spec_title(self) -> Seq<char> {
        match self.title {
            Option::Some(t) => t@,
            Option::None => default_title(),
        }
    }

    /// The path the built note will have: the dashed-title filename, under
    /// the subdirectory when one was given.
    pub open spec fn spec_path(self) -> Seq<char> {
        match self.subdir {
            Option::Some(d) => if d@.len() == 0 {
                spec_filename(self.spec_title())
            } else {
                d@ + seq!['/'] + spec_filename(self.spec_title())
            },
            Option::None => spec_filename(self.spec_title()),
        }
    }

    /// Builds the note. The creation time must have been set: notes carry
    /// the caller's clock, never an ambient one. A fresh identifier is
    /// generated when none was set.
    pub fn build(self) -> (z: Zettel)
        requires
            self.created is Some,
        ensures
            z.meta.created == self.created.unwrap(),
            z.meta.modified == (if self.modified is Some {
                self.modified.unwrap()
            } else {
                self.created.unwrap()
            }),
            z.meta@.title == self.spec_title(),
            z.meta@.path == self.spec_path(),
            self.uuid matches Some(u) ==> z.meta@.id == u@,
            self.uuid is None ==> is_generated_id(z.meta@.id),
            z.content@ == (match self.content {
                Option::Some(c) => c@,
                Option::None => default_content(),
            }),
    {
        let created = match self.created {
            Some(c) => c,
            None => unreached(),
        };
        let modified = match self.modified {
            Some(m) => m,
            None => created,
        };
        let title = match self.title {
            Some(t) => t,
            None => {
                let t = "my zettel";
                proof {
                    reveal_strlit("my zettel");
                }
                let t = String::from_str(t);
                proof {
                    assert(t@ =~= default_title());
                }
                t
            },
        };
        let path = match &self.subdir {
            Some(d) => {
                if d.as_str().unicode_len() == 0 {
                    make_filename(title.as_str())
                } else {
                    let mut p = d.clone();
                    let slash = "/";
                    proof {
                        reveal_strlit("/");
                    }
                    p.append(slash);
                    let fname = make_filename(title.as_str());
                    p.append(fname.as_str());
                    proof {
                        assert(slash@ =~= seq!['/']);
                    }
                    p
                }
            },
            None => make_filename(title.as_str()),
        };
        let id = match self.uuid {
            Some(u) => u,
            None => rand_id(),
        };
        let content = match self.content {
            Some(c) => c,
            None => {
                let c = "\n";
                proof {
                    reveal_strlit("\n");
                }
                let c = String::from_str(c);
                proof {
                    assert(c@ =~= default_content());
                }
                c
            },
        };
        Zettel {
            meta: ZettelMeta { created, modified, title, path, id },
            content,
        }
    }
}

/// The view of a note: the view of its metadata and its body.
impl View for Zettel {
    type V = (MetaView, Seq<char>);

    open spec fn view(&self) -> (MetaView, Seq<char>) {
        (self.meta@, self.content@)
    }
}

} // verus!
