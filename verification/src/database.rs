//! The backing store's conventions for newly created notes: a dated
//! filename at the collection root, and a fresh, empty note under it.

use crate::time::Timestamp;
use crate::time::spec_date_string;
use crate::zettel;
use crate::zettel::Zettel;
use crate::zettel::ZettelMeta;
use vstd::prelude::*;

verus! {

/// The dated filename of a note: `YYYY-MM-DD-`, then the title with its
/// spaces dashed, then `.md`.
pub open spec fn spec_dated_filename(title: Seq<char>, date: Timestamp) -> Seq<char> {
    spec_date_string(date) + seq!['-'] + zettel::spec_filename(title)
}

/// The filename for a note created on `date` with `title`.
pub fn make_filename(title: &str, date: &Timestamp) -> (r: String)
    requires
        date.wf(),
    ensures
        r@ == spec_dated_filename(title@, *date),
{
    let mut s = date.date_string();
    let dash = "-";
    proof {
        reveal_strlit("-");
    }
    s.append(dash);
    let fname = zettel::make_filename(title);
    s.append(fname.as_str());
    proof {
        assert(dash@ =~= seq!['-']);
    }
    s
}

/// A new note: created and modified on `date`, titled and identified as
/// given, lying at its dated filename under the collection root, with an
/// empty body. The caller registers it with `add`.
pub fn new_zettel(title: &str, id: &str, date: Timestamp) -> (z: Zettel)
    requires
        date.wf(),
    ensures
        z.meta.created == date,
        z.meta.modified == date,
        z.meta@.title == title@,
        z.meta@.id == id@,
        z.meta@.path == spec_dated_filename(title@, date),
        z.content@ == Seq::<char>::empty(),
{
    Zettel {
        meta: ZettelMeta {
            created: date,
            modified: date,
            title: String::from_str(title),
            path: make_filename(title, &date),
            id: String::from_str(id),
        },
        content: String::new(),
    }
}

/// A new note as the `new` command creates one: a freshly generated
/// eighteen-character identifier, a dated filename, an empty body.
pub fn fresh_zettel(title: &str, date: Timestamp) -> (z: Zettel)
    requires
        date.wf(),
    ensures
        z.meta.created == date,
        z.meta.modified == date,
        z.meta@.title == title@,
        zettel::is_generated_id(z.meta@.id),
        z.meta@.path == spec_dated_filename(title@, date),
        z.content@ == Seq::<char>::empty(),
{
    let id = zettel::rand_id();
    new_zettel(title, id.as_str(), date)
}

} // verus!
