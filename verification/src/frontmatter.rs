//! The metadata-block codec.
//!
//! A note file starts with a delimited header: a line equal to `---`, then
//! mapping lines of the form `key: value`, then another line equal to `---`.
//! Everything after the closing delimiter line is the body. `parse_yaml`
//! reads such a header; `write_str` renders one deterministically, in the
//! order its entries are given.

use vstd::prelude::*;

verus! {

/// Why a header failed to parse.
#[derive(Clone, Copy, Debug, PartialEq, Eq, Structural)]
pub enum Error {
    /// The first line is not the delimiter.
    MissingInitialDelimiter,
    /// The input ended before a closing delimiter line.
    MissingFinalDelimiter,
    /// A header line is not of the form `key: value` with a nonempty key.
    HeaderParseError,
    /// A mapping entry cannot stand as one `key: value` line: its key is
    /// empty, or holds a newline or the separator, or its value holds a
    /// newline.
    UnrenderableField,
}

/// The delimiter line.
pub open spec fn delim_seq() -> Seq<char> {
    seq!['-', '-', '-']
}

/// The separator between a key and its value.
pub open spec fn sep_seq() -> Seq<char> {
    seq![':', ' ']
}

/// Index of the first newline at or after `pos`, or -1 if there is none.
pub open spec fn find_nl_from(s: Seq<char>, pos: int) -> int
    decreases s.len() - pos,
{
    if pos < 0 || pos >= s.len() {
        -1
    } else if s[pos] == '\n' {
        pos
    } else {
        find_nl_from(s, pos + 1)
    }
}

/// Index of the first `": "` starting at or after `pos`, or -1 if none.
pub open spec fn find_sep_from(s: Seq<char>, pos: int) -> int
    decreases s.len() - pos,
{
    if pos < 0 || pos + 1 >= s.len() {
        -1
    } else if s[pos] == ':' && s[pos + 1] == ' ' {
        pos
    } else {
        find_sep_from(s, pos + 1)
    }
}

/// A header line as a key/value pair: the text before the first `": "`
/// (which must be nonempty) and the text after it.
pub open spec fn spec_parse_line(line: Seq<char>) -> Option<(Seq<char>, Seq<char>)> {
    let j = find_sep_from(line, 0);
    if j <= 0 {
        None
    } else {
        Some((line.subrange(0, j), line.subrange(j + 2, line.len() as int)))
    }
}

/// Parses header lines from `pos` on, accumulating pairs in `acc`, until the
/// closing delimiter line; the offset just past that line is the body offset.
/// Reaching end-of-input first fails the missing close, whatever the lines
/// held; a malformed line is reported only once the close is known to come.
pub open spec fn spec_parse_lines(
    s: Seq<char>,
    pos: int,
    acc: Seq<(Seq<char>, Seq<char>)>,
) -> Result<(Seq<(Seq<char>, Seq<char>)>, int), Error>
    decreases s.len() - pos,
    via spec_parse_lines_dec
{
    if pos < 0 || pos >= s.len() {
        Err(Error::MissingFinalDelimiter)
    } else {
        let i = find_nl_from(s, pos);
        let end = if i == -1 { s.len() as int } else { i };
        let next = if i == -1 { s.len() as int } else { i + 1 };
        let line = s.subrange(pos, end);
        if line == delim_seq() {
            Ok((acc, next))
        } else {
            match spec_parse_line(line) {
                Option::None => spec_parse_bad(s, next),
                Option::Some(kv) => spec_parse_lines(s, next, acc.push(kv)),
            }
        }
    }
}

#[via_fn]
proof fn spec_parse_lines_dec(s: Seq<char>, pos: int, acc: Seq<(Seq<char>, Seq<char>)>) {
    lemma_find_nl_from_bounds(s, pos);
}

/// After a malformed line: the block is bad only if its close exists, so
/// the scan goes on looking for the closing delimiter line; end-of-input
/// first still fails the missing close.
pub open spec fn spec_parse_bad(s: Seq<char>, pos: int) -> Result<
    (Seq<(Seq<char>, Seq<char>)>, int),
    Error,
>
    decreases s.len() - pos,
    via spec_parse_bad_dec
{
    if pos < 0 || pos >= s.len() {
        Err(Error::MissingFinalDelimiter)
    } else {
        let i = find_nl_from(s, pos);
        let end = if i == -1 { s.len() as int } else { i };
        let next = if i == -1 { s.len() as int } else { i + 1 };
        if s.subrange(pos, end) == delim_seq() {
            Err(Error::HeaderParseError)
        } else {
            spec_parse_bad(s, next)
        }
    }
}

#[via_fn]
proof fn spec_parse_bad_dec(s: Seq<char>, pos: int) {
    lemma_find_nl_from_bounds(s, pos);
}

/// The whole header: the first line must be the delimiter, and a closing
/// delimiter line must follow; yields the mapping and the body offset.
pub open spec fn spec_parse(s: Seq<char>) -> Result<(Seq<(Seq<char>, Seq<char>)>, int), Error> {
    let i = find_nl_from(s, 0);
    let end = if i == -1 { s.len() as int } else { i };
    if s.subrange(0, end) != delim_seq() {
        Err(Error::MissingInitialDelimiter)
    } else if i == -1 {
        Err(Error::MissingFinalDelimiter)
    } else {
        spec_parse_lines(s, i + 1, Seq::empty())
    }
}

/// One rendered mapping line, `key: value` and a newline.
pub open spec fn spec_render_line(p: (Seq<char>, Seq<char>)) -> Seq<char> {
    p.0 + sep_seq() + p.1 + seq!['\n']
}

/// The rendered mapping lines, one per pair, in order.
pub open spec fn spec_render_pairs(pairs: Seq<(Seq<char>, Seq<char>)>) -> Seq<char>
    decreases pairs.len(),
{
    if pairs.len() == 0 {
        Seq::empty()
    } else {
        spec_render_line(pairs[0]) + spec_render_pairs(pairs.drop_first())
    }
}

/// A rendered mapping block: the opening delimiter line, then the pairs.
pub open spec fn spec_write_str(pairs: Seq<(Seq<char>, Seq<char>)>) -> Seq<char> {
    delim_seq() + seq!['\n'] + spec_render_pairs(pairs)
}

pub proof fn lemma_find_nl_from_bounds(s: Seq<char>, pos: int)
    ensures
        find_nl_from(s, pos) == -1 || (pos <= find_nl_from(s, pos) < s.len()),
        find_nl_from(s, pos) != -1 ==> s[find_nl_from(s, pos)] == '\n',
    decreases s.len() - pos,
{
    if pos < 0 || pos >= s.len() {
    } else if s[pos] == '\n' {
    } else {
        lemma_find_nl_from_bounds(s, pos + 1);
    }
}

/// The first newline at or after `pos` is exactly at `r`.
pub proof fn lemma_find_nl_from_is(s: Seq<char>, pos: int, r: int)
    requires
        0 <= pos <= r < s.len(),
        s[r] == '\n',
        forall|j: int| pos <= j < r ==> s[j] != '\n',
    ensures
        find_nl_from(s, pos) == r,
    decreases r - pos,
{
    if pos < r {
        lemma_find_nl_from_is(s, pos + 1, r);
    }
}

/// There is no newline at or after `pos`.
pub proof fn lemma_find_nl_from_none(s: Seq<char>, pos: int)
    requires
        0 <= pos,
        forall|j: int| pos <= j < s.len() ==> s[j] != '\n',
    ensures
        find_nl_from(s, pos) == -1,
    decreases s.len() - pos,
{
    if pos < s.len() {
        lemma_find_nl_from_none(s, pos + 1);
    }
}

pub proof fn lemma_find_sep_from_bounds(s: Seq<char>, pos: int)
    ensures
        find_sep_from(s, pos) == -1 || (pos <= find_sep_from(s, pos) < s.len() - 1),
        find_sep_from(s, pos) != -1 ==> s[find_sep_from(s, pos)] == ':' && s[find_sep_from(
            s,
            pos,
        ) + 1] == ' ',
    decreases s.len() - pos,
{
    if pos < 0 || pos + 1 >= s.len() {
    } else if s[pos] == ':' && s[pos + 1] == ' ' {
    } else {
        lemma_find_sep_from_bounds(s, pos + 1);
    }
}

/// The first `": "` at or after `pos` is exactly at `r`.
pub proof fn lemma_find_sep_from_is(s: Seq<char>, pos: int, r: int)
    requires
        0 <= pos <= r,
        r + 1 < s.len(),
        s[r] == ':' && s[r + 1] == ' ',
        forall|j: int| pos <= j < r ==> !(#[trigger] s[j] == ':' && s[j + 1] == ' '),
    ensures
        find_sep_from(s, pos) == r,
    decreases r - pos,
{
    if pos < r {
        lemma_find_sep_from_is(s, pos + 1, r);
    }
}

/// Appending a pair renders as the old block followed by the pair's line.
pub proof fn lemma_render_pairs_push(pairs: Seq<(Seq<char>, Seq<char>)>, p: (Seq<char>, Seq<char>))
    ensures
        spec_render_pairs(pairs.push(p)) == spec_render_pairs(pairs) + spec_render_line(p),
    decreases pairs.len(),
{
    if pairs.len() == 0 {
        assert(pairs.push(p).drop_first() =~= Seq::<(Seq<char>, Seq<char>)>::empty());
        assert(pairs.push(p)[0] == p);
        assert(spec_render_pairs(pairs.push(p)) == spec_render_line(p) + spec_render_pairs(
            Seq::<(Seq<char>, Seq<char>)>::empty(),
        ));
        assert(spec_render_line(p) + Seq::<char>::empty() =~= Seq::<char>::empty()
            + spec_render_line(p));
    } else {
        assert(pairs.push(p).drop_first() =~= pairs.drop_first().push(p));
        lemma_render_pairs_push(pairs.drop_first(), p);
        assert(pairs.push(p)[0] == pairs[0]);
        assert(spec_render_pairs(pairs.push(p)) == spec_render_line(pairs[0]) + (spec_render_pairs(
            pairs.drop_first(),
        ) + spec_render_line(p)));
        assert(spec_render_line(pairs[0]) + (spec_render_pairs(pairs.drop_first())
            + spec_render_line(p)) =~= (spec_render_line(pairs[0]) + spec_render_pairs(
            pairs.drop_first(),
        )) + spec_render_line(p));
    }
}

/// There is no `": "` at or after `pos`.
pub proof fn lemma_find_sep_from_none(s: Seq<char>, pos: int)
    requires
        0 <= pos,
        forall|j: int| pos <= j && j + 1 < s.len() ==> !(#[trigger] s[j] == ':' && s[j + 1] == ' '),
    ensures
        find_sep_from(s, pos) == -1,
    decreases s.len() - pos,
{
    if pos + 1 < s.len() {
        lemma_find_sep_from_none(s, pos + 1);
    }
}

/// Text that fits on one header line.
pub open spec fn no_nl(s: Seq<char>) -> bool {
    forall|i: int| 0 <= i < s.len() ==> s[i] != '\n'
}

/// A key the codec can round-trip: nonempty, on one line, and free of the
/// `": "` separator.
pub open spec fn wf_key(k: Seq<char>) -> bool {
    &&& k.len() > 0
    &&& no_nl(k)
    &&& find_sep_from(k, 0) == -1
}

/// A pair the codec can round-trip.
pub open spec fn wf_pair(p: (Seq<char>, Seq<char>)) -> bool {
    wf_key(p.0) && no_nl(p.1)
}

/// Pairs the codec can round-trip.
pub open spec fn wf_pairs(pairs: Seq<(Seq<char>, Seq<char>)>) -> bool {
    forall|i: int| 0 <= i < pairs.len() ==> wf_pair(#[trigger] pairs[i])
}

/// A whole rendered note: mapping block, closing delimiter line, blank
/// line, body.
pub open spec fn spec_render_doc(pairs: Seq<(Seq<char>, Seq<char>)>, body: Seq<char>) -> Seq<char> {
    spec_write_str(pairs) + delim_seq() + seq!['\n'] + seq!['\n'] + body
}

/// When no `": "` was found, no position holds one.
pub proof fn lemma_find_sep_from_none_inv(s: Seq<char>, pos: int, j: int)
    requires
        find_sep_from(s, pos) == -1,
        0 <= pos <= j,
        j + 1 < s.len(),
    ensures
        !(s[j] == ':' && s[j + 1] == ' '),
    decreases j - pos,
{
    if pos < j {
        lemma_find_sep_from_none_inv(s, pos + 1, j);
    }
}

/// Parsing lines that were rendered from `pairs`, then closed by a
/// delimiter line, yields exactly those pairs and the offset past the close.
proof fn lemma_parse_lines_render(
    s: Seq<char>,
    pos: int,
    acc: Seq<(Seq<char>, Seq<char>)>,
    pairs: Seq<(Seq<char>, Seq<char>)>,
    tail: Seq<char>,
)
    requires
        0 <= pos <= s.len(),
        wf_pairs(pairs),
        s.skip(pos) == spec_render_pairs(pairs) + delim_seq() + seq!['\n'] + tail,
    ensures
        spec_parse_lines(s, pos, acc) == Result::<_, Error>::Ok(
            (acc + pairs, pos + spec_render_pairs(pairs).len() + 4),
        ),
    decreases pairs.len(),
{
    let k = s.skip(pos);
    assert(k.len() == s.len() - pos);
    assert(forall|i: int| 0 <= i < k.len() ==> #[trigger] k[i] == s[pos + i]);
    if pairs.len() == 0 {
        assert(spec_render_pairs(pairs) == Seq::<char>::empty());
        assert(k.len() == 4 + tail.len());
        assert(k[0] == '-' && k[1] == '-' && k[2] == '-' && k[3] == '\n');
        assert(s[pos + 3] == '\n');
        assert forall|j: int| pos <= j < pos + 3 implies s[j] != '\n' by {
            assert(k[j - pos] == s[pos + (j - pos)]);
        }
        lemma_find_nl_from_is(s, pos, pos + 3);
        assert(s.subrange(pos, pos + 3) =~= delim_seq());
        assert(spec_parse_lines(s, pos, acc) == Result::<_, Error>::Ok((acc, pos + 4)));
        assert(acc + pairs =~= acc);
    } else {
        let p = pairs[0];
        let rest = pairs.drop_first();
        let r = spec_render_line(p);
        let rest_s = spec_render_pairs(rest);
        assert(spec_render_pairs(pairs) == r + rest_s);
        assert(wf_pair(p));
        let kl = p.0.len() as int;
        let ll = kl + 2 + p.1.len();  // line length without the newline
        assert(r.len() == ll + 1);
        assert(k.len() == r.len() + rest_s.len() + 4 + tail.len());
        assert(pos + ll + 1 <= s.len());
        assert forall|i: int| 0 <= i < ll implies #[trigger] s[pos + i] != '\n' by {
            assert(k[i] == s[pos + i]);
            assert(k[i] == r[i]);
            if i < kl {
                assert(r[i] == p.0[i]);
            } else if i == kl {
                assert(r[i] == ':');
            } else if i == kl + 1 {
                assert(r[i] == ' ');
            } else {
                assert(r[i] == p.1[i - kl - 2]);
            }
        }
        assert forall|j: int| pos <= j < pos + ll implies s[j] != '\n' by {
            assert(s[pos + (j - pos)] != '\n');
        }
        assert(k[ll] == r[ll] && r[ll] == '\n');
        lemma_find_nl_from_is(s, pos, pos + ll);
        let line = s.subrange(pos, pos + ll);
        assert forall|i: int| 0 <= i < ll implies line[i] == r[i] by {
            assert(line[i] == s[pos + i]);
            assert(k[i] == r[i]);
        }
        // the line is not the delimiter: it holds a ':'
        assert(line[kl] == ':');
        if line == delim_seq() {
            if kl < 3 {
                assert(delim_seq()[kl] == '-');
            }
            assert(false);
        }
        // the separator is found exactly at the end of the key
        assert forall|j: int| 0 <= j < kl implies !(#[trigger] line[j] == ':' && line[j + 1]
            == ' ') by {
            if j + 1 < kl {
                lemma_find_sep_from_none_inv(p.0, 0, j);
                assert(line[j] == p.0[j] && line[j + 1] == p.0[j + 1]);
            } else {
                assert(line[j + 1] == ':');
            }
        }
        assert(line[kl] == ':' && line[kl + 1] == ' ');
        lemma_find_sep_from_is(line, 0, kl);
        assert(line.subrange(0, kl) =~= p.0);
        assert(line.subrange(kl + 2, line.len() as int) =~= p.1);
        assert(spec_parse_line(line) == Option::Some((p.0, p.1)));
        // step to the rest of the pairs
        let next = pos + ll + 1;
        let x = rest_s + delim_seq() + seq!['\n'] + tail;
        assert(k =~= r + x);
        assert forall|i: int| 0 <= i < x.len() implies #[trigger] s.skip(next)[i] == x[i] by {
            assert(s.skip(next)[i] == s[next + i]);
            assert(k[ll + 1 + i] == s[pos + (ll + 1 + i)]);
            assert((r + x)[ll + 1 + i] == x[i]);
        }
        assert(s.skip(next).len() == x.len());
        assert(s.skip(next) =~= x);
        assert(wf_pairs(rest));
        lemma_parse_lines_render(s, next, acc.push(p), rest, tail);
        assert((p.0, p.1) == p);
        assert(acc.push(p) + rest =~= acc + pairs);
        assert(spec_parse_lines(s, pos, acc) == spec_parse_lines(s, next, acc.push(p)));
    }
}

/// Parsing a rendered note recovers its mapping exactly, whatever the body:
/// the codec round-trips.
pub proof fn lemma_round_trip(pairs: Seq<(Seq<char>, Seq<char>)>, body: Seq<char>)
    requires
        wf_pairs(pairs),
    ensures
        spec_parse(spec_render_doc(pairs, body)) == Result::<_, Error>::Ok(
            (pairs, spec_render_pairs(pairs).len() + 8 as int),
        ),
{
    let s = spec_render_doc(pairs, body);
    assert(s =~= delim_seq() + seq!['\n'] + (spec_render_pairs(pairs) + delim_seq() + seq!['\n']
        + (seq!['\n'] + body)));
    assert(s[0] == '-' && s[1] == '-' && s[2] == '-' && s[3] == '\n');
    assert(forall|j: int| 0 <= j < 3 ==> s[j] != '\n');
    lemma_find_nl_from_is(s, 0, 3);
    assert(s.subrange(0, 3) =~= delim_seq());
    assert(s.skip(4) =~= spec_render_pairs(pairs) + delim_seq() + seq!['\n'] + (seq!['\n'] + body));
    lemma_parse_lines_render(s, 4, Seq::empty(), pairs, seq!['\n'] + body);
    assert(Seq::empty() + pairs =~= pairs);
}

/// The value of the first pair carrying `key`, if any.
pub open spec fn spec_lookup(pairs: Seq<(Seq<char>, Seq<char>)>, key: Seq<char>) -> Option<
    Seq<char>,
>
    decreases pairs.len(),
{
    if pairs.len() == 0 {
        Option::None
    } else if pairs[0].0 == key {
        Option::Some(pairs[0].1)
    } else {
        spec_lookup(pairs.drop_first(), key)
    }
}

/// With pairwise distinct keys, each pair is found by its own key.
pub proof fn lemma_lookup_unique(pairs: Seq<(Seq<char>, Seq<char>)>, i: int)
    requires
        0 <= i < pairs.len(),
        forall|a: int, b: int|
            0 <= a < b < pairs.len() ==> (#[trigger] pairs[a]).0 != (#[trigger] pairs[b]).0,
    ensures
        spec_lookup(pairs, pairs[i].0) == Option::Some(pairs[i].1),
    decreases pairs.len(),
{
    if i == 0 {
    } else {
        assert(pairs[0].0 != pairs[i].0);
        assert(pairs.drop_first()[i - 1] == pairs[i]);
        assert(forall|a: int, b: int|
            0 <= a < b < pairs.drop_first().len() ==> (#[trigger] pairs.drop_first()[a]).0 != (
            #[trigger] pairs.drop_first()[b]).0);
        lemma_lookup_unique(pairs.drop_first(), i - 1);
    }
}

/// The parsed header does not depend on the body: one mapping rendered
/// over any two bodies parses to the same mapping at the same offset.
pub proof fn lemma_parse_ignores_body(
    pairs: Seq<(Seq<char>, Seq<char>)>,
    body1: Seq<char>,
    body2: Seq<char>,
)
    requires
        wf_pairs(pairs),
    ensures
        spec_parse(spec_render_doc(pairs, body1)) == spec_parse(spec_render_doc(pairs, body2)),
{
    lemma_round_trip(pairs, body1);
    lemma_round_trip(pairs, body2);
}

/// Index of the first newline at or after `start`, or `n` when there is none.
fn find_newline(text: &str, start: usize, n: usize) -> (r: usize)
    requires
        n == text@.len(),
        start <= n,
    ensures
        start <= r <= n,
        r < n ==> text@[r as int] == '\n' && find_nl_from(text@, start as int) == r,
        r == n ==> find_nl_from(text@, start as int) == -1,
{
    let mut k = start;
    while k < n
        invariant
            n == text@.len(),
            start <= k <= n,
            forall|j: int| start <= j < k ==> text@[j] != '\n',
        decreases n - k,
    {
        if text.get_char(k) == '\n' {
            proof {
                lemma_find_nl_from_is(text@, start as int, k as int);
            }
            return k;
        }
        k = k + 1;
    }
    proof {
        lemma_find_nl_from_none(text@, start as int);
    }
    n
}

/// Index of the first `": "` within `[start, end)`, or `end` when there is
/// none, reported against the line `text[start..end]`.
fn find_sep_in(text: &str, start: usize, end: usize) -> (r: usize)
    requires
        start <= end <= text@.len(),
    ensures
        start <= r <= end,
        r < end ==> r + 1 < end && find_sep_from(
            text@.subrange(start as int, end as int),
            0,
        ) == r - start,
        r == end ==> find_sep_from(text@.subrange(start as int, end as int), 0) == -1,
{
    let ghost line = text@.subrange(start as int, end as int);
    let mut k = start;
    while k < end && k + 1 < end
        invariant
            start <= k <= end <= text@.len(),
            line == text@.subrange(start as int, end as int),
            forall|j: int| start <= j < k ==> !(#[trigger] text@[j] == ':' && text@[j + 1] == ' '),
        decreases end - k,
    {
        if text.get_char(k) == ':' && text.get_char(k + 1) == ' ' {
            proof {
                assert forall|j: int| 0 <= j < k - start implies !(#[trigger] line[j] == ':'
                    && line[j + 1] == ' ') by {
                    assert(line[j] == text@[start + j]);
                    assert(line[j + 1] == text@[start + j + 1]);
                }
                assert(line[k - start] == text@[k as int]);
                assert(line[k - start + 1] == text@[k + 1]);
                lemma_find_sep_from_is(line, 0, k - start);
            }
            return k;
        }
        k = k + 1;
    }
    proof {
        assert forall|j: int| 0 <= j && j + 1 < line.len() implies !(#[trigger] line[j] == ':'
            && line[j + 1] == ' ') by {
            assert(line[j] == text@[start + j]);
            assert(line[j + 1] == text@[start + j + 1]);
        }
        lemma_find_sep_from_none(line, 0);
    }
    end
}

/// Parses the header at the top of `text`: the first line must equal `---`;
/// the following lines, each `key: value`, form the mapping, up to a line
/// equal to `---`; the offset just past that line is where the body starts.
/// End-of-input before a closing delimiter line fails the missing close,
/// whatever the lines held; a malformed line is reported only when the
/// close follows it.
pub fn parse_yaml(text: &str) -> (r: Result<(Vec<(String, String)>, usize), Error>)
    ensures
        match r {
            Result::Ok(p) => spec_parse(text@) == Result::<_, Error>::Ok(
                (p.0.deep_view(), p.1 as int),
            ),
            Result::Err(e) => spec_parse(text@) == Result::<
                (Seq<(Seq<char>, Seq<char>)>, int),
                Error,
            >::Err(e),
        },
{
    let n = text.unicode_len();
    let i0 = find_newline(text, 0, n);
    let delim_first = i0 < n && i0 == 3 && text.get_char(0) == '-' && text.get_char(1) == '-'
        && text.get_char(2) == '-';
    if !delim_first {
        if i0 == n && n == 3 && text.get_char(0) == '-' && text.get_char(1) == '-'
            && text.get_char(2) == '-' {
            // the whole input is the line `---`: the close is missing
            proof {
                assert(text@.subrange(0, 3) =~= delim_seq());
            }
            return Err(Error::MissingFinalDelimiter);
        }
        proof {
            let end0: int = if i0 == n { n as int } else { i0 as int };
            let se = text@.subrange(0, end0);
            if se == delim_seq() {
                assert(se.len() == 3);
                assert(se[0] == text@[0] && se[1] == text@[1] && se[2] == text@[2]);
                assert(false);
            }
        }
        return Err(Error::MissingInitialDelimiter);
    }
    proof {
        assert(text@.subrange(0, 3) =~= delim_seq());
    }
    let mut pos: usize = i0 + 1;
    let mut out: Vec<(String, String)> = Vec::new();
    proof {
        assert(out.deep_view() =~= Seq::<(Seq<char>, Seq<char>)>::empty());
    }
    loop
        invariant
            n == text@.len(),
            pos <= n,
            spec_parse(text@) == spec_parse_lines(text@, pos as int, out.deep_view()),
        decreases n - pos,
    {
        if pos >= n {
            return Err(Error::MissingFinalDelimiter);
        }
        let nl = find_newline(text, pos, n);
        let end = nl;
        let next = if nl == n { n } else { nl + 1 };
        let ghost line = text@.subrange(pos as int, end as int);
        let is_delim = end - pos == 3 && text.get_char(pos) == '-' && text.get_char(pos + 1) == '-'
            && text.get_char(pos + 2) == '-';
        if is_delim {
            proof {
                assert(line =~= delim_seq());
            }
            return Ok((out, next));
        }
        proof {
            if line == delim_seq() {
                assert(line.len() == 3);
                assert(line[0] == text@[pos as int] && line[1] == text@[pos + 1] && line[2]
                    == text@[pos + 2]);
                assert(false);
            }
        }
        let sep = find_sep_in(text, pos, end);
        if sep == end || sep == pos {
            proof {
                assert(spec_parse_line(line) is None);
            }
            // the mapping is malformed; the missing close still dominates,
            // so keep scanning for the closing delimiter line
            let mut p2 = next;
            loop
                invariant
                    n == text@.len(),
                    p2 <= n,
                    spec_parse(text@) == spec_parse_bad(text@, p2 as int),
                decreases n - p2,
            {
                if p2 >= n {
                    return Err(Error::MissingFinalDelimiter);
                }
                let nl2 = find_newline(text, p2, n);
                let end2 = nl2;
                let next2 = if nl2 == n { n } else { nl2 + 1 };
                let ghost line2 = text@.subrange(p2 as int, end2 as int);
                let is_delim2 = end2 - p2 == 3 && text.get_char(p2) == '-' && text.get_char(
                    p2 + 1,
                ) == '-' && text.get_char(p2 + 2) == '-';
                if is_delim2 {
                    proof {
                        assert(line2 =~= delim_seq());
                    }
                    return Err(Error::HeaderParseError);
                }
                proof {
                    if line2 == delim_seq() {
                        assert(line2.len() == 3);
                        assert(line2[0] == text@[p2 as int] && line2[1] == text@[p2 + 1] && line2[2]
                            == text@[p2 + 2]);
                        assert(false);
                    }
                }
                p2 = next2;
            }
        }
        let key = String::from_str(text.substring_char(pos, sep));
        let val = String::from_str(text.substring_char(sep + 2, end));
        proof {
            assert(key@ =~= line.subrange(0, sep - pos));
            assert(val@ =~= line.subrange(sep - pos + 2, line.len() as int));
            assert(spec_parse_line(line) == Option::Some((key@, val@)));
        }
        let ghost old_dv = out.deep_view();
        out.push((key, val));
        proof {
            assert(out.deep_view() =~= old_dv.push((key@, val@)));
        }
        pos = next;
    }
}

/// Whether the string holds a newline.
pub(crate) fn has_nl(s: &str) -> (b: bool)
    ensures
        b == !no_nl(s@),
{
    let n = s.unicode_len();
    let mut i: usize = 0;
    while i < n
        invariant
            i <= n,
            n == s@.len(),
            forall|j: int| 0 <= j < i ==> s@[j] != '\n',
        decreases n - i,
    {
        if s.get_char(i) == '\n' {
            proof {
                assert(s@[i as int] == '\n');
            }
            return true;
        }
        i = i + 1;
    }
    false
}

/// Whether the string can stand as a header key.
pub(crate) fn check_wf_key(k: &str) -> (b: bool)
    ensures
        b == wf_key(k@),
{
    let n = k.unicode_len();
    if n == 0 {
        return false;
    }
    if has_nl(k) {
        return false;
    }
    let sep = find_sep_in(k, 0, n);
    proof {
        assert(k@.subrange(0, n as int) =~= k@);
    }
    sep == n
}

/// Renders a mapping block — the opening delimiter line, then one
/// `key: value` line per entry, in the order given — once every entry is
/// known to fit on such a line.
fn render_block(frontmatter: &Vec<(String, String)>) -> (r: String)
    ensures
        r@ == spec_write_str(frontmatter.deep_view()),
{
    let mut s = String::new();
    let opening = "---\n";
    proof {
        reveal_strlit("---\n");
        assert(opening@ =~= delim_seq() + seq!['\n']);
    }
    s.append(opening);
    let ghost dv = frontmatter.deep_view();
    let mut i: usize = 0;
    while i < frontmatter.len()
        invariant
            dv == frontmatter.deep_view(),
            dv.len() == frontmatter.len(),
            i <= frontmatter.len(),
            s@ == delim_seq() + seq!['\n'] + spec_render_pairs(dv.take(i as int)),
        decreases frontmatter.len() - i,
    {
        let sep = ": ";
        let nl = "\n";
        proof {
            reveal_strlit(": ");
            reveal_strlit("\n");
            assert(sep@ =~= sep_seq());
            assert(nl@ =~= seq!['\n']);
        }
        s.append(frontmatter[i].0.as_str());
        s.append(sep);
        s.append(frontmatter[i].1.as_str());
        s.append(nl);
        proof {
            assert(dv[i as int] == (frontmatter[i as int].0@, frontmatter[i as int].1@));
            assert(dv.take(i + 1) =~= dv.take(i as int).push(dv[i as int]));
            lemma_render_pairs_push(dv.take(i as int), dv[i as int]);
            assert(s@ =~= delim_seq() + seq!['\n'] + spec_render_pairs(dv.take(i + 1)));
        }
        i = i + 1;
    }
    proof {
        assert(dv.take(dv.len() as int) =~= dv);
    }
    s
}

/// Renders a mapping block: the opening delimiter line, then one
/// `key: value` line per entry, in the order given. An entry that cannot
/// stand as such a line — an empty key, a key holding a newline or the
/// separator, a value holding a newline — is refused, so that whatever is
/// rendered parses back to the same mapping.
pub fn write_str(frontmatter: &Vec<(String, String)>) -> (r: Result<String, Error>)
    ensures
        match r {
            Result::Ok(s) => wf_pairs(frontmatter.deep_view()) && s@ == spec_write_str(
                frontmatter.deep_view(),
            ),
            Result::Err(e) => e == Error::UnrenderableField && !wf_pairs(
                frontmatter.deep_view(),
            ),
        },
{
    let ghost dv = frontmatter.deep_view();
    let n = frontmatter.len();
    let mut i: usize = 0;
    while i < n
        invariant
            dv == frontmatter.deep_view(),
            dv.len() == n,
            n == frontmatter.len(),
            i <= n,
            forall|j: int| 0 <= j < i ==> wf_pair(#[trigger] dv[j]),
        decreases n - i,
    {
        proof {
            assert(dv[i as int] == (frontmatter[i as int].0@, frontmatter[i as int].1@));
        }
        if !check_wf_key(frontmatter[i].0.as_str()) || has_nl(frontmatter[i].1.as_str()) {
            proof {
                assert(!wf_pair(dv[i as int]));
            }
            return Err(Error::UnrenderableField);
        }
        i = i + 1;
    }
    Ok(render_block(frontmatter))
}

} // verus!
