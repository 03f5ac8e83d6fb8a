//! The fragment definition: two lists of 1-based atom indices, read from a
//! small structured text document.
//!
//! The document is line-oriented: `#` starts a comment, blank lines are
//! skipped, and every other line is `key = [ n, n, ... ]`.  Only the keys
//! `fragment1` and `fragment2` are recognized; lines with any other key are
//! ignored.  Both keys must be present, each exactly once.  The listed order
//! of the indices is preserved.

use vstd::prelude::*;
use crate::num::{find_byte, idx_val, parse_idx_token, find_byte_in_range};
use crate::scan::{is_ws, is_ws_byte, lines_of, split_lines, views_of, eq_at};
use crate::Error;

verus! {

/// Two ordered lists of 1-based atom indices into the report's numbering.
#[derive(Clone, Debug, PartialEq, Eq)]
pub struct Fragments {
    pub fragment1: Vec<usize>,
    pub fragment2: Vec<usize>,
}

impl Fragments {
    /// A fragment definition holding copies of the two given index lists.
    pub fn new(f1: &[usize], f2: &[usize]) -> (r: Self)
        ensures
            r.fragment1@ == f1@,
            r.fragment2@ == f2@,
    {
        Fragments {
            fragment1: vstd::slice::slice_to_vec(f1),
            fragment2: vstd::slice::slice_to_vec(f2),
        }
    }
}

/// Number of leading whitespace bytes.
pub open spec fn ws_prefix(s: Seq<u8>) -> nat
    decreases s.len(),
{
    if s.len() > 0 && is_ws(s[0]) {
        1 + ws_prefix(s.drop_first())
    } else {
        0
    }
}

/// Number of trailing whitespace bytes.
pub open spec fn ws_suffix(s: Seq<u8>) -> nat
    decreases s.len(),
{
    if s.len() > 0 && is_ws(s.last()) {
        1 + ws_suffix(s.drop_last())
    } else {
        0
    }
}

/// The sequence with leading and trailing whitespace removed.
pub open spec fn trim_spec(s: Seq<u8>) -> Seq<u8> {
    let c = s.skip(ws_prefix(s) as int);
    c.take(c.len() - ws_suffix(c))
}

/// Scanning justification for `ws_prefix`.
proof fn lemma_ws_prefix_scan(s: Seq<u8>, m: int)
    requires
        0 <= m <= s.len(),
        forall|k: int| 0 <= k < m ==> is_ws(#[trigger] s[k]),
        m == s.len() || !is_ws(s[m]),
    ensures
        ws_prefix(s) == m,
    decreases m,
{
    if m == 0 {
    } else {
        let s1 = s.drop_first();
        assert(forall|k: int| 0 <= k < m - 1 ==> #[trigger] s1[k] == s[k + 1]);
        assert(m - 1 < s1.len() ==> s1[m - 1] == s[m]);
        lemma_ws_prefix_scan(s1, m - 1);
    }
}

/// Scanning justification for `ws_suffix`.
proof fn lemma_ws_suffix_scan(s: Seq<u8>, m: int)
    requires
        0 <= m <= s.len(),
        forall|k: int| s.len() - m <= k < s.len() ==> is_ws(#[trigger] s[k]),
        m == s.len() || !is_ws(s[s.len() - m - 1]),
    ensures
        ws_suffix(s) == m,
    decreases m,
{
    if m == 0 {
    } else {
        let s1 = s.drop_last();
        assert(is_ws(s.last()));
        assert(forall|k: int| s1.len() - (m - 1) <= k < s1.len() ==> #[trigger] s1[k] == s[k]);
        lemma_ws_suffix_scan(s1, m - 1);
    }
}

/// The trimmed range of `t[from..to]`: `t[a..b]` equals the trim of the
/// original range.
pub fn trim_range(t: &[u8], from: usize, to: usize) -> (r: (usize, usize))
    requires
        from <= to <= t@.len(),
    ensures
        from <= r.0 <= r.1 <= to,
        t@.subrange(r.0 as int, r.1 as int) =~= trim_spec(t@.subrange(from as int, to as int)),
{
    let ghost sub = t@.subrange(from as int, to as int);
    let mut a: usize = from;
    while a < to && is_ws_byte(t[a])
        invariant
            from <= a <= to <= t@.len(),
            sub == t@.subrange(from as int, to as int),
            forall|k: int| 0 <= k < a - from ==> is_ws(#[trigger] sub[k]),
        decreases to - a,
    {
        assert(sub[a - from] == t@[a as int]);
        a += 1;
    }
    proof {
        if a < to {
            assert(sub[a - from] == t@[a as int]);
        }
        lemma_ws_prefix_scan(sub, a - from);
    }
    let ghost core = sub.skip(a - from);
    proof {
        assert(core =~= t@.subrange(a as int, to as int));
    }
    let mut b: usize = to;
    while b > a && is_ws_byte(t[b - 1])
        invariant
            a <= b <= to <= t@.len(),
            core == t@.subrange(a as int, to as int),
            forall|k: int| b - a <= k < core.len() ==> is_ws(#[trigger] core[k]),
        decreases b,
    {
        assert(core[b - 1 - a] == t@[b - 1]);
        b -= 1;
    }
    proof {
        if b > a {
            assert(core[b - 1 - a] == t@[b - 1]);
        }
        lemma_ws_suffix_scan(core, to - b);
        assert(core.take(core.len() - (to - b)) =~= t@.subrange(a as int, b as int));
    }
    (a, b)
}

/// A list entry: trimmed, it must be an index token whose value fits the
/// machine's word.
pub open spec fn entry_val(t: Seq<u8>) -> Option<int> {
    match idx_val(trim_spec(t)) {
        None => None,
        Some(v) => if v <= usize::MAX {
            Some(v)
        } else {
            None
        },
    }
}

/// The comma-separated entries of a nonempty list body.
pub open spec fn int_items(s: Seq<u8>) -> Option<Seq<int>>
    decreases s.len(),
    via int_items_dec
{
    match find_byte(s, 44) {
        None => match entry_val(s) {
            None => None,
            Some(v) => Some(seq![v]),
        },
        Some(k) => match entry_val(s.take(k)) {
            None => None,
            Some(v) => match int_items(s.skip(k + 1)) {
                None => None,
                Some(rest) => Some(seq![v] + rest),
            },
        },
    }
}

#[via_fn]
proof fn int_items_dec(s: Seq<u8>) {
    if find_byte(s, 44) is Some {
        crate::scan::lemma_find_byte_range(s, 44);
    }
}

/// The value of a `[ ... ]` list: its integer entries in order, or nothing
/// where the brackets or an entry are malformed.
pub open spec fn list_val(value: Seq<u8>) -> Option<Seq<int>> {
    let tv = trim_spec(value);
    if tv.len() >= 2 && tv[0] == 91 && tv.last() == 93 {
        let inner = tv.subrange(1, tv.len() - 1);
        if trim_spec(inner).len() == 0 {
            Some(Seq::empty())
        } else {
            int_items(inner)
        }
    } else {
        None
    }
}

/// A line up to its comment: everything before the first `#`.
pub open spec fn strip_comment(s: Seq<u8>) -> Seq<u8> {
    match find_byte(s, 35) {
        None => s,
        Some(k) => s.take(k),
    }
}

/// The literal `fragment1` as bytes.
pub open spec fn frag1_key() -> Seq<u8> {
    seq![102u8, 114u8, 97u8, 103u8, 109u8, 101u8, 110u8, 116u8, 49u8]
}

/// The literal `fragment2` as bytes.
pub open spec fn frag2_key() -> Seq<u8> {
    seq![102u8, 114u8, 97u8, 103u8, 109u8, 101u8, 110u8, 116u8, 50u8]
}

/// One pass over the document's lines from line `i`, with the lists read so
/// far.  A blank or comment line is skipped; an unrecognized key is ignored;
/// a line that is not an assignment, a duplicate key, or a malformed list is
/// fatal; at the end both keys must have been seen.
pub open spec fn frag_doc_fold(
    lines: Seq<Seq<u8>>,
    i: int,
    f1: Option<Seq<int>>,
    f2: Option<Seq<int>>,
) -> Result<(Seq<int>, Seq<int>), Error>
    decreases lines.len() - i when 0 <= i <= lines.len()
{
    if i >= lines.len() {
        if f1 is Some && f2 is Some {
            Ok((f1.unwrap(), f2.unwrap()))
        } else {
            Err(Error::StructuredParseFailure)
        }
    } else {
        let stripped = strip_comment(lines[i]);
        if trim_spec(stripped).len() == 0 {
            frag_doc_fold(lines, i + 1, f1, f2)
        } else {
            match find_byte(stripped, 61) {
                None => Err(Error::StructuredParseFailure),
                Some(k) => {
                    let key = trim_spec(stripped.take(k));
                    let value = stripped.skip(k + 1);
                    if key == frag1_key() {
                        if f1 is Some {
                            Err(Error::StructuredParseFailure)
                        } else {
                            match list_val(value) {
                                None => Err(Error::StructuredParseFailure),
                                Some(l) => frag_doc_fold(lines, i + 1, Some(l), f2),
                            }
                        }
                    } else if key == frag2_key() {
                        if f2 is Some {
                            Err(Error::StructuredParseFailure)
                        } else {
                            match list_val(value) {
                                None => Err(Error::StructuredParseFailure),
                                Some(l) => frag_doc_fold(lines, i + 1, f1, Some(l)),
                            }
                        }
                    } else {
                        frag_doc_fold(lines, i + 1, f1, f2)
                    }
                },
            }
        }
    }
}

/// What a fragment document denotes: the two index lists, or the failure.
pub open spec fn parse_fragments_spec(text: Seq<u8>) -> Result<(Seq<int>, Seq<int>), Error> {
    frag_doc_fold(lines_of(text), 0, None, None)
}

/// The integer values of an index list.
pub open spec fn ints_of(v: Seq<usize>) -> Seq<int> {
    Seq::new(v.len(), |i: int| v[i] as int)
}

/// The integer values of an index list not yet seen, if any.
pub open spec fn opt_ints(o: Option<Vec<usize>>) -> Option<Seq<int>> {
    match o {
        Some(v) => Some(ints_of(v@)),
        None => None,
    }
}

/// Reads a `[ n, n, ... ]` list out of `t[lo..hi]`.
fn parse_list(t: &[u8], lo: usize, hi: usize) -> (r: Option<Vec<usize>>)
    requires
        lo <= hi <= t@.len(),
    ensures
        ({
            let lv = list_val(t@.subrange(lo as int, hi as int));
            match r {
                Some(v) => lv == Some(ints_of(v@)),
                None => lv is None,
            }
        }),
{
    let ghost value = t@.subrange(lo as int, hi as int);
    let (a, b) = trim_range(t, lo, hi);
    let ghost tv = trim_spec(value);
    proof {
        assert(t@.subrange(a as int, b as int) == tv);
    }
    if b - a < 2 {
        return None;
    }
    assert(tv[0] == t@[a as int] && tv.last() == t@[b - 1]);
    if t[a] != 91 || t[b - 1] != 93 {
        return None;
    }
    let inner = vstd::slice::slice_to_vec(vstd::slice::slice_subrange(t, a + 1, b - 1));
    proof {
        assert(inner@ =~= tv.subrange(1, tv.len() - 1));
    }
    let (ia, ib) = trim_range(inner.as_slice(), 0, inner.len());
    proof {
        assert(inner@.subrange(0, inner@.len() as int) =~= inner@);
    }
    if ia == ib {
        assert(trim_spec(inner@).len() == 0);
        return Some(Vec::new());
    }
    assert(trim_spec(inner@).len() != 0);
    // comma-separated entries
    let n = inner.len();
    let mut out: Vec<usize> = Vec::new();
    let mut c: usize = 0;
    proof {
        assert(inner@.skip(0) =~= inner@);
        assert(ints_of(out@) =~= Seq::<int>::empty());
    }
    proof {
        assert(list_val(t@.subrange(lo as int, hi as int)) == int_items(inner@));
    }
    loop
        invariant
            c <= n == inner@.len(),
            list_val(t@.subrange(lo as int, hi as int)) == int_items(inner@),
            lo <= hi <= t@.len(),
            ({
                let rest = int_items(inner@.skip(c as int));
                match rest {
                    None => int_items(inner@) is None,
                    Some(rs) => int_items(inner@) == Some(ints_of(out@) + rs),
                }
            }),
        decreases n - c,
    {
        let ghost restseq = inner@.skip(c as int);
        let com = find_byte_in_range(inner.as_slice(), c, n, 44);
        match com {
            None => {
                // the final entry
                let (ea, eb) = trim_range(inner.as_slice(), c, n);
                let ghost entry = restseq;
                proof {
                    assert(inner@.subrange(ea as int, eb as int) =~= trim_spec(entry));
                }
                match parse_idx_token(vstd::slice::slice_subrange(inner.as_slice(), ea, eb)) {
                    None => {
                        assert(entry_val(entry) is None);
                        return None;
                    },
                    Some(v) => {
                        if v > usize::MAX as u64 {
                            assert(entry_val(entry) is None);
                            return None;
                        }
                        let ghost old_out = out@;
                        out.push(v as usize);
                        proof {
                            assert(entry_val(entry) == Some(v as int));
                            assert(int_items(restseq) == Some(seq![v as int]));
                            assert(ints_of(out@) =~= ints_of(old_out) + seq![v as int]);
                            assert(int_items(inner@) == Some(ints_of(out@)));
                        }
                        return Some(out);
                    },
                }
            },
            Some(k) => {
                let (ea, eb) = trim_range(inner.as_slice(), c, k);
                let ghost entry = restseq.take(k - c);
                proof {
                    assert(entry =~= inner@.subrange(c as int, k as int));
                    assert(inner@.subrange(ea as int, eb as int) =~= trim_spec(entry));
                }
                match parse_idx_token(vstd::slice::slice_subrange(inner.as_slice(), ea, eb)) {
                    None => {
                        assert(entry_val(entry) is None);
                        return None;
                    },
                    Some(v) => {
                        if v > usize::MAX as u64 {
                            assert(entry_val(entry) is None);
                            return None;
                        }
                        let ghost old_out = out@;
                        out.push(v as usize);
                        proof {
                            assert(entry_val(entry) == Some(v as int));
                            assert(restseq.skip(k - c + 1) =~= inner@.skip(k + 1));
                            assert(ints_of(out@) =~= ints_of(old_out) + seq![v as int]);
                            if int_items(inner@.skip(k + 1)) is Some {
                                assert(ints_of(old_out) + (seq![v as int] + int_items(
                                    inner@.skip(k + 1),
                                ).unwrap()) =~= ints_of(out@) + int_items(
                                    inner@.skip(k + 1),
                                ).unwrap());
                            }
                        }
                        c = k + 1;
                    },
                }
            },
        }
    }
}

/// Reads a fragment definition document.
///
/// Returns exactly what [`parse_fragments_spec`] denotes: the two index
/// lists with their listed values, count and order preserved, or
/// `StructuredParseFailure` exactly where the document is malformed or a
/// required key is missing.
pub fn parse_fragments(text: &[u8]) -> (r: Result<Fragments, Error>)
    ensures
        r is Ok ==> parse_fragments_spec(text@) == Ok::<(Seq<int>, Seq<int>), Error>(
            (ints_of(r.unwrap().fragment1@), ints_of(r.unwrap().fragment2@)),
        ),
        r is Err ==> parse_fragments_spec(text@) == Err::<(Seq<int>, Seq<int>), Error>(
            r.unwrap_err(),
        ),
{
    let lines = split_lines(text);
    let ghost lv = lines_of(text@);
    let f1key = frag1_key_bytes();
    let f2key = frag2_key_bytes();
    let mut f1: Option<Vec<usize>> = None;
    let mut f2: Option<Vec<usize>> = None;
    let nl = lines.len();
    let mut i: usize = 0;
    while i < nl
        invariant
            i <= nl == lines@.len(),
            lv == views_of(lines@),
            lv == lines_of(text@),
            f1key@ == frag1_key(),
            f2key@ == frag2_key(),
            frag_doc_fold(lv, 0, None, None) == frag_doc_fold(
                lv,
                i as int,
                opt_ints(f1),
                opt_ints(f2),
            ),
        decreases nl - i,
    {
        let line = lines[i].as_slice();
        proof {
            assert(lv[i as int] == lines@[i as int]@);
        }
        let n = line.len();
        let hi = match find_byte_in_range(line, 0, n, 35) {
            None => n,
            Some(k) => k,
        };
        let ghost stripped = strip_comment(line@);
        proof {
            assert(line@.subrange(0, n as int) =~= line@);
            assert(line@.subrange(0, hi as int) =~= stripped);
        }
        let (ta, tb) = trim_range(line, 0, hi);
        if ta == tb {
            assert(trim_spec(stripped).len() == 0);
            i += 1;
            continue ;
        }
        assert(trim_spec(stripped).len() != 0);
        let eq = match find_byte_in_range(line, 0, hi, 61) {
            None => {
                return Err(Error::StructuredParseFailure);
            },
            Some(k) => k,
        };
        let ghost key = trim_spec(stripped.take(eq - 0));
        let (ka, kb) = trim_range(line, 0, eq);
        proof {
            assert(stripped.take(eq as int) =~= line@.subrange(0, eq as int));
            assert(line@.subrange(ka as int, kb as int) =~= key);
        }
        let is1 = kb - ka == 9 && eq_at(line, f1key.as_slice(), ka);
        let is2 = !is1 && kb - ka == 9 && eq_at(line, f2key.as_slice(), ka);
        proof {
            if kb - ka == 9 {
                assert(line@.subrange(ka as int, ka + 9) =~= key);
            }
            assert(is1 == (key == frag1_key())) by {
                if kb - ka != 9 && key == frag1_key() {
                    assert(key.len() == 9);
                }
            }
            assert(is2 == (!is1 && key == frag2_key())) by {
                if kb - ka != 9 && key == frag2_key() {
                    assert(key.len() == 9);
                }
            }
            assert(stripped.skip(eq + 1) =~= line@.subrange(eq + 1, hi as int));
        }
        if is1 {
            if f1.is_some() {
                return Err(Error::StructuredParseFailure);
            }
            match parse_list(line, eq + 1, hi) {
                None => {
                    return Err(Error::StructuredParseFailure);
                },
                Some(v) => {
                    f1 = Some(v);
                },
            }
        } else if is2 {
            if f2.is_some() {
                return Err(Error::StructuredParseFailure);
            }
            match parse_list(line, eq + 1, hi) {
                None => {
                    return Err(Error::StructuredParseFailure);
                },
                Some(v) => {
                    f2 = Some(v);
                },
            }
        }
        i += 1;
    }
    match (f1, f2) {
        (Some(v1), Some(v2)) => Ok(Fragments { fragment1: v1, fragment2: v2 }),
        _ => Err(Error::StructuredParseFailure),
    }
}

/// The literal `fragment1` as a byte vector.
fn frag1_key_bytes() -> (v: Vec<u8>)
    ensures
        v@ == frag1_key(),
{
    let mut v: Vec<u8> = Vec::new();
    v.push(102);
    v.push(114);
    v.push(97);
    v.push(103);
    v.push(109);
    v.push(101);
    v.push(110);
    v.push(116);
    v.push(49);
    proof {
        assert(v@ =~= frag1_key());
    }
    v
}

/// The literal `fragment2` as a byte vector.
fn frag2_key_bytes() -> (v: Vec<u8>)
    ensures
        v@ == frag2_key(),
{
    let mut v: Vec<u8> = Vec::new();
    v.push(102);
    v.push(114);
    v.push(97);
    v.push(103);
    v.push(109);
    v.push(101);
    v.push(110);
    v.push(116);
    v.push(50);
    proof {
        assert(v@ =~= frag2_key());
    }
    v
}

} // verus!
