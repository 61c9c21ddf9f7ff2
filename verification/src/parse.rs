//! Manifest parsing: from raw playlist bytes and a base URL to the
//! ordered list of absolute segment references.
//!
//! The text is split into lines on either newline convention; empty,
//! whitespace-only and `#`-prefixed lines carry no segment; each remaining
//! line is resolved against the base URL and given the next ordinal,
//! starting at zero.

use vstd::prelude::*;

use crate::resolve::resolve_of;
use crate::resolve::resolve_reference;

verus! {

pub const LF: u8 = 10;

pub const CR: u8 = 13;

pub const HASH: u8 = 35;

pub const SPACE: u8 = 32;

pub const TAB: u8 = 9;

/// One segment reference: the zero-based position in manifest encounter
/// order, and the absolute URL to fetch.
#[derive(Debug, Clone, PartialEq, Eq)]
pub struct SegmentRef {
    pub ordinal: usize,
    pub url: String,
}

/// Why a manifest is rejected: it lists no segment at all, or the
/// 1-based line `line` does not resolve to an absolute URL.
#[derive(Clone, Copy, Debug, PartialEq, Eq, Structural)]
pub enum ParseError {
    EmptyPlaylist,
    UnresolvableLine { line: usize },
}

/// The lines of `t`, split at each line feed; the line feed belongs to no
/// line. Text without a trailing line feed still ends a final line, and
/// empty text is one empty line.
pub open spec fn split_lines(t: Seq<u8>) -> Seq<Seq<u8>>
    decreases t.len(),
{
    if t.len() == 0 {
        seq![Seq::empty()]
    } else if t[0] == LF {
        seq![Seq::empty()] + split_lines(t.skip(1))
    } else {
        let rest = split_lines(t.skip(1));
        seq![seq![t[0]] + rest[0]] + rest.skip(1)
    }
}

/// A line of a manifest that used CRLF line ends keeps a trailing
/// carriage return after splitting; it is no part of the content.
pub open spec fn strip_cr(l: Seq<u8>) -> Seq<u8> {
    if l.len() > 0 && l.last() == CR {
        l.drop_last()
    } else {
        l
    }
}

pub open spec fn is_line_ws(b: u8) -> bool {
    b == SPACE || b == TAB || b == CR
}

/// Empty or whitespace-only: such a line carries no segment.
pub open spec fn is_blank(l: Seq<u8>) -> bool {
    forall|i: int| 0 <= i < l.len() ==> is_line_ws(#[trigger] l[i])
}

/// A line (already stripped of a trailing carriage return) that names a
/// segment: not blank and not a `#` tag or comment.
pub open spec fn is_segment_line(l: Seq<u8>) -> bool {
    !is_blank(l) && l[0] != HASH
}

/// Every line of `t` paired with its zero-based line index, stripped of a
/// trailing carriage return.
pub open spec fn numbered_lines(t: Seq<u8>) -> Seq<(int, Seq<u8>)> {
    split_lines(t).map(|i: int, l: Seq<u8>| (i, strip_cr(l)))
}

/// The segment-naming lines of `t`, in manifest order, each with its
/// zero-based line index.
pub open spec fn numbered_segment_lines(t: Seq<u8>) -> Seq<(int, Seq<u8>)> {
    numbered_lines(t).filter(|p: (int, Seq<u8>)| is_segment_line(p.1))
}

/// The mathematical content of one emitted reference.
pub open spec fn ref_view(s: SegmentRef) -> (int, Seq<char>) {
    (s.ordinal as int, s.url@)
}

pub open spec fn refs_view(v: Seq<SegmentRef>) -> Seq<(int, Seq<char>)> {
    v.map_values(|s: SegmentRef| ref_view(s))
}

pub open spec fn parse_result_view(r: Result<Vec<SegmentRef>, ParseError>) -> Result<
    Seq<(int, Seq<char>)>,
    ParseError,
> {
    match r {
        Ok(v) => Ok(refs_view(v@)),
        Err(e) => Err(e),
    }
}

/// What parsing `t` against `base` must return: one reference per segment
/// line, ordinals dense from zero, each URL the resolution of its line;
/// `EmptyPlaylist` exactly when no line names a segment; otherwise, if the
/// first segment line that does not resolve is at zero-based line index
/// `k`, the error names line `k + 1`.
pub open spec fn parse_post(
    t: Seq<u8>,
    base: Seq<char>,
    r: Result<Seq<(int, Seq<char>)>, ParseError>,
) -> bool {
    let segs = numbered_segment_lines(t);
    match r {
        Ok(refs) => {
            &&& segs.len() > 0
            &&& refs.len() == segs.len()
            &&& forall|i: int|
                0 <= i < segs.len() ==> resolve_of(base, (#[trigger] segs[i]).1) is Some
            &&& forall|i: int|
                0 <= i < refs.len() ==> #[trigger] refs[i] == (
                    i,
                    resolve_of(base, segs[i].1).unwrap(),
                )
        },
        Err(ParseError::EmptyPlaylist) => segs.len() == 0,
        Err(ParseError::UnresolvableLine { line }) => exists|k: int|
            {
                &&& 0 <= k < segs.len()
                &&& resolve_of(base, (#[trigger] segs[k]).1) is None
                &&& (forall|m: int| 0 <= m < k ==> resolve_of(base, (#[trigger] segs[m]).1) is Some)
                &&& line == segs[k].0 + 1
            },
    }
}

/// Parsing is idempotent: the parser's contract admits exactly one result
/// for a given manifest and base, so running it twice on identical input
/// yields identical reference lists.
pub proof fn lemma_parse_deterministic(
    t: Seq<u8>,
    base: Seq<char>,
    r1: Result<Seq<(int, Seq<char>)>, ParseError>,
    r2: Result<Seq<(int, Seq<char>)>, ParseError>,
)
    requires
        parse_post(t, base, r1),
        parse_post(t, base, r2),
    ensures
        r1 == r2,
{
    let segs = numbered_segment_lines(t);
    match (r1, r2) {
        (Ok(a), Ok(b)) => {
            assert(a =~= b);
        },
        (Err(ParseError::UnresolvableLine { line: l1 }), Err(
            ParseError::UnresolvableLine { line: l2 },
        )) => {
            let k1 = choose|k: int|
                {
                    &&& 0 <= k < segs.len()
                    &&& resolve_of(base, (#[trigger] segs[k]).1) is None
                    &&& (forall|m: int|
                        0 <= m < k ==> resolve_of(base, (#[trigger] segs[m]).1) is Some)
                    &&& l1 == segs[k].0 + 1
                };
            let k2 = choose|k: int|
                {
                    &&& 0 <= k < segs.len()
                    &&& resolve_of(base, (#[trigger] segs[k]).1) is None
                    &&& (forall|m: int|
                        0 <= m < k ==> resolve_of(base, (#[trigger] segs[m]).1) is Some)
                    &&& l2 == segs[k].0 + 1
                };
            assert(k1 == k2);
        },
        _ => {},
    }
}

/// Splitting yields at least one line.
pub proof fn lemma_split_lines_nonempty(t: Seq<u8>)
    ensures
        split_lines(t).len() >= 1,
    decreases t.len(),
{
    if t.len() == 0 {
    } else if t[0] == LF {
    } else {
        lemma_split_lines_nonempty(t.skip(1));
    }
}

/// Split the manifest bytes into lines at each line feed.
fn split_lines_exec(t: &[u8]) -> (r: Vec<Vec<u8>>)
    ensures
        r@.len() == split_lines(t@).len(),
        forall|j: int| 0 <= j < r@.len() ==> (#[trigger] r@[j])@ == split_lines(t@)[j],
{
    let mut lines: Vec<Vec<u8>> = Vec::new();
    lines.push(Vec::new());
    let mut i: usize = t.len();
    proof {
        assert(t@.skip(i as int) =~= Seq::<u8>::empty());
    }
    while i > 0
        invariant
            i <= t@.len(),
            lines@.len() == split_lines(t@.skip(i as int)).len(),
            forall|j: int|
                0 <= j < lines@.len() ==> (#[trigger] lines@[j])@ == split_lines(t@.skip(i as int))[j],
        decreases i,
    {
        i = i - 1;
        let ghost prev = t@.skip(i as int + 1);
        let ghost cur = t@.skip(i as int);
        proof {
            assert(cur.len() > 0);
            assert(cur[0] == t@[i as int]);
            assert(cur.skip(1) =~= prev);
            lemma_split_lines_nonempty(prev);
        }
        let ghost lines0 = lines@;
        if t[i] == LF {
            lines.insert(0, Vec::new());
            proof {
                assert(split_lines(cur) =~= seq![Seq::<u8>::empty()] + split_lines(prev));
                assert(lines@ =~= seq![lines@[0]] + lines0);
                assert forall|j: int| 0 <= j < lines@.len() implies (#[trigger] lines@[j])@
                    == split_lines(cur)[j] by {
                    if j > 0 {
                        assert(lines@[j] == lines0[j - 1]);
                        assert(split_lines(cur)[j] == split_lines(prev)[j - 1]);
                    }
                }
            }
        } else {
            let b = t[i];
            let mut first = lines.remove(0);
            let ghost first0 = first@;
            first.insert(0, b);
            lines.insert(0, first);
            proof {
                let rest = split_lines(prev);
                assert(split_lines(cur) =~= seq![seq![cur[0]] + rest[0]] + rest.skip(1));
                assert(first0 == lines0[0]@);
                assert(first@ =~= seq![b] + first0);
                assert(lines@ =~= seq![first] + lines0.skip(1));
                assert forall|j: int| 0 <= j < lines@.len() implies (#[trigger] lines@[j])@
                    == split_lines(cur)[j] by {
                    if j == 0 {
                        assert(lines@[0]@ == seq![cur[0]] + rest[0]);
                    } else {
                        assert(lines@[j] == lines0[j]);
                        assert(split_lines(cur)[j] == rest[j]);
                    }
                }
            }
        }
    }
    proof {
        assert(t@.skip(0) =~= t@);
    }
    lines
}

/// The content of one split line: the line without a trailing carriage
/// return.
fn line_content(line: &Vec<u8>) -> (r: Vec<u8>)
    ensures
        r@ == strip_cr(line@),
{
    let mut n = line.len();
    if n > 0 && line[n - 1] == CR {
        n = n - 1;
    }
    proof {
        assert(strip_cr(line@) =~= line@.subrange(0, n as int));
    }
    let mut content: Vec<u8> = Vec::new();
    let mut p: usize = 0;
    while p < n
        invariant
            p <= n,
            n <= line@.len(),
            content@ == line@.subrange(0, p as int),
        decreases n - p,
    {
        content.push(line[p]);
        proof {
            assert(content@ =~= line@.subrange(0, p as int + 1));
        }
        p = p + 1;
    }
    proof {
        assert(content@ == strip_cr(line@));
    }
    content
}

fn is_blank_exec(l: &Vec<u8>) -> (r: bool)
    ensures
        r == is_blank(l@),
{
    let mut p: usize = 0;
    while p < l.len()
        invariant
            p <= l@.len(),
            forall|i: int| 0 <= i < p ==> is_line_ws(#[trigger] l@[i]),
        decreases l@.len() - p,
    {
        let b = l[p];
        if !(b == SPACE || b == TAB || b == CR) {
            proof {
                assert(!is_line_ws(l@[p as int]));
            }
            return false;
        }
        p = p + 1;
    }
    true
}

/// Parse manifest bytes against the manifest's own URL: one reference per
/// segment line, ordinals assigned densely from zero in encounter order,
/// each URL the standard resolution of its line against `base`.
///
/// Returns `EmptyPlaylist` exactly when no line names a segment, and
/// `UnresolvableLine` naming the first (1-based) line that does not
/// resolve to an absolute URL.
pub fn parse_manifest(text: &[u8], base: &str) -> (r: Result<Vec<SegmentRef>, ParseError>)
    ensures
        parse_post(text@, base@, parse_result_view(r)),
{
    broadcast use vstd::seq_lib::group_seq_properties;

    let lines = split_lines_exec(text);
    let ghost mp = numbered_lines(text@);
    let ghost nsl = numbered_segment_lines(text@);
    let mut refs: Vec<SegmentRef> = Vec::new();
    let mut j: usize = 0;
    proof {
        assert(mp.take(0).len() == 0);
        assert(mp.take(0) =~= Seq::<(int, Seq<u8>)>::empty());
        Seq::<(int, Seq<u8>)>::empty().lemma_filter_len(|p: (int, Seq<u8>)| is_segment_line(p.1));
        assert(mp.take(0).filter(|p: (int, Seq<u8>)| is_segment_line(p.1)) =~= nsl.take(0));
    }
    while j < lines.len()
        invariant
            j <= lines@.len(),
            lines@.len() == split_lines(text@).len(),
            forall|jj: int|
                0 <= jj < lines@.len() ==> (#[trigger] lines@[jj])@ == split_lines(text@)[jj],
            mp == numbered_lines(text@),
            nsl == numbered_segment_lines(text@),
            refs@.len() <= nsl.len(),
            mp.take(j as int).filter(|p: (int, Seq<u8>)| is_segment_line(p.1)) == nsl.take(
                refs@.len() as int,
            ),
            forall|i: int|
                0 <= i < refs@.len() ==> resolve_of(base@, (#[trigger] nsl[i]).1) is Some,
            forall|i: int|
                0 <= i < refs@.len() ==> (#[trigger] refs@[i]).ordinal == i && refs@[i].url@
                    == resolve_of(base@, nsl[i].1).unwrap(),
        decreases lines@.len() - j,
    {
        let ghost c = refs@.len() as int;
        let ghost pred = |p: (int, Seq<u8>)| is_segment_line(p.1);
        proof {
            // The whole filtered sequence decomposes around position j.
            assert(mp =~= mp.take(j + 1) + mp.skip(j + 1));
            Seq::filter_distributes_over_add(mp.take(j + 1), mp.skip(j + 1), pred);
            mp.lemma_take_succ_push(j as int);
            mp.take(j as int).lemma_filter_push(mp[j as int], pred);
            assert(mp[j as int] == (j as int, strip_cr(split_lines(text@)[j as int])));
        }
        let content = line_content(&lines[j]);
        let blank = is_blank_exec(&content);
        let keep = if blank {
            false
        } else {
            proof {
                if content@.len() == 0 {
                    assert(is_blank(content@));
                }
            }
            content[0] != HASH
        };
        if keep {
            proof {
                assert(is_segment_line(mp[j as int].1));
                assert(nsl =~= nsl.take(c).push(mp[j as int]) + mp.skip(j + 1).filter(pred));
                assert(nsl[c] == mp[j as int]);
                assert(c < nsl.len());
            }
            match resolve_reference(base, &content) {
                Some(u) => {
                    let ord = refs.len();
                    refs.push(SegmentRef { ordinal: ord, url: u });
                    proof {
                        assert(nsl.take(c + 1) =~= nsl.take(c).push(nsl[c]));
                        assert(mp.take(j + 1).filter(pred) == nsl.take(c + 1));
                    }
                },
                None => {
                    proof {
                        assert(resolve_of(base@, (nsl[c]).1) is None);
                        assert(nsl[c].0 == j as int);
                        assert((0 <= c < nsl.len() && resolve_of(base@, (nsl[c]).1) is None && (
                        forall|m: int|
                            0 <= m < c ==> resolve_of(base@, (#[trigger] nsl[m]).1) is Some)
                            && (j + 1) as int == nsl[c].0 + 1));
                    }
                    return Err(ParseError::UnresolvableLine { line: j + 1 });
                },
            }
        } else {
            proof {
                assert(!is_segment_line(mp[j as int].1));
                assert(mp.take(j + 1).filter(pred) == nsl.take(c));
            }
        }
        j = j + 1;
    }
    proof {
        assert(mp.take(j as int) =~= mp);
        assert(nsl.take(refs@.len() as int) == nsl);
        assert(nsl.take(refs@.len() as int).len() == refs@.len());
    }
    if refs.len() == 0 {
        Err(ParseError::EmptyPlaylist)
    } else {
        proof {
            let rv = refs_view(refs@);
            assert forall|i: int| 0 <= i < rv.len() implies #[trigger] rv[i] == (
                i,
                resolve_of(base@, nsl[i].1).unwrap(),
            ) by {
                assert(rv[i] == ref_view(refs@[i]));
            }
        }
        Ok(refs)
    }
}

} // verus!
