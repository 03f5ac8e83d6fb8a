//! Line-level scanning of the report text.
//!
//! The report is a plain-text document read as bytes.  This module splits it
//! into lines, tokenizes rows on ASCII whitespace, tests the anchor patterns
//! ("this literal, then later that literal, on one line"), and drives a
//! forward-only cursor over the lines: the [`ReportScanner`].

use vstd::prelude::*;
use crate::num::find_byte;
use crate::Error;

verus! {

/// ASCII whitespace, as the report format uses it to separate row tokens.
pub open spec fn is_ws(c: u8) -> bool {
    c == 32 || c == 9 || c == 10 || c == 13 || c == 12
}

/// The sequence of views of a sequence of byte vectors.
pub open spec fn views_of(s: Seq<Vec<u8>>) -> Seq<Seq<u8>> {
    Seq::new(s.len(), |i: int| s[i]@)
}

/// Length of the leading run of non-whitespace bytes.
pub open spec fn token_len(s: Seq<u8>) -> nat
    decreases s.len(),
{
    if s.len() == 0 || is_ws(s[0]) {
        0
    } else {
        1 + token_len(s.drop_first())
    }
}

pub proof fn lemma_token_len_facts(s: Seq<u8>)
    ensures
        token_len(s) <= s.len(),
        forall|k: int| 0 <= k < token_len(s) ==> !is_ws(#[trigger] s[k]),
        token_len(s) < s.len() ==> is_ws(s[token_len(s) as int]),
    decreases s.len(),
{
    if s.len() == 0 || is_ws(s[0]) {
    } else {
        lemma_token_len_facts(s.drop_first());
        assert(forall|k: int|
            0 <= k < s.len() - 1 ==> #[trigger] s.drop_first()[k] == s[k + 1]);
        assert forall|k: int| 0 <= k < token_len(s) implies !is_ws(#[trigger] s[k]) by {
            if k >= 1 {
                assert(s.drop_first()[k - 1] == s[k]);
            }
        }
    }
}

/// The whitespace-separated tokens of a line, in order.
pub open spec fn tokens_of(s: Seq<u8>) -> Seq<Seq<u8>>
    decreases s.len(),
    via tokens_of_dec
{
    if s.len() == 0 {
        Seq::empty()
    } else if is_ws(s[0]) {
        tokens_of(s.drop_first())
    } else {
        seq![s.take(token_len(s) as int)] + tokens_of(s.skip(token_len(s) as int))
    }
}

#[via_fn]
proof fn tokens_of_dec(s: Seq<u8>) {
    lemma_token_len_facts(s);
}

/// Scanning justification for `token_len`: a run of `m` non-whitespace bytes
/// closed by whitespace or the end is the leading token.
pub proof fn lemma_token_len_scan(s: Seq<u8>, m: int)
    requires
        0 <= m <= s.len(),
        forall|k: int| 0 <= k < m ==> !is_ws(#[trigger] s[k]),
        m == s.len() || is_ws(s[m]),
    ensures
        token_len(s) == m,
    decreases m,
{
    if m == 0 {
    } else {
        let s1 = s.drop_first();
        assert(forall|k: int| 0 <= k < m - 1 ==> #[trigger] s1[k] == s[k + 1]);
        assert(m - 1 < s1.len() ==> s1[m - 1] == s[m]);
        lemma_token_len_scan(s1, m - 1);
    }
}

/// True exactly when the byte is ASCII whitespace.
pub fn is_ws_byte(c: u8) -> (b: bool)
    ensures
        b == is_ws(c),
{
    c == 32 || c == 9 || c == 10 || c == 13 || c == 12
}

/// Splits a line into its whitespace-separated tokens.
pub fn tokenize(line: &[u8]) -> (r: Vec<Vec<u8>>)
    ensures
        views_of(r@) == tokens_of(line@),
{
    let n = line.len();
    let mut r: Vec<Vec<u8>> = Vec::new();
    let mut i: usize = 0;
    proof {
        assert(line@.skip(0) =~= line@);
        assert(views_of(r@) =~= Seq::<Seq<u8>>::empty());
    }
    while i < n
        invariant
            i <= n == line@.len(),
            tokens_of(line@) =~= views_of(r@) + tokens_of(line@.skip(i as int)),
        decreases n - i,
    {
        if is_ws_byte(line[i]) {
            proof {
                assert(line@.skip(i as int).drop_first() =~= line@.skip(i + 1));
            }
            i += 1;
        } else {
            let ghost rest = line@.skip(i as int);
            let mut j: usize = i + 1;
            while j < n && !is_ws_byte(line[j])
                invariant
                    i < j <= n == line@.len(),
                    rest == line@.skip(i as int),
                    forall|k: int| 0 <= k < j - i ==> !is_ws(#[trigger] rest[k]),
                decreases n - j,
            {
                assert(rest[j - i] == line@[j as int]);
                j += 1;
            }
            proof {
                if j < n {
                    assert(rest[j - i] == line@[j as int]);
                }
                lemma_token_len_scan(rest, j - i);
                assert(rest.take(j - i) =~= line@.subrange(i as int, j as int));
                assert(rest.skip(j - i) =~= line@.skip(j as int));
            }
            let tok = vstd::slice::slice_to_vec(vstd::slice::slice_subrange(line, i, j));
            let ghost old_r = r@;
            r.push(tok);
            proof {
                assert(views_of(r@) =~= views_of(old_r) + seq![tok@]);
                assert(tokens_of(rest) == seq![rest.take(j - i)] + tokens_of(rest.skip(j - i)));
            }
            i = j;
        }
    }
    assert(tokens_of(line@.skip(n as int)) =~= Seq::<Seq<u8>>::empty());
    assert(views_of(r@) =~= views_of(r@) + tokens_of(line@.skip(n as int)));
    r
}

/// A line with a trailing carriage return loses it.
pub open spec fn strip_cr(s: Seq<u8>) -> Seq<u8> {
    if s.len() > 0 && s.last() == 13 {
        s.drop_last()
    } else {
        s
    }
}

pub proof fn lemma_find_byte_range(s: Seq<u8>, b: u8)
    requires
        find_byte(s, b) is Some,
    ensures
        0 <= find_byte(s, b).unwrap() < s.len(),
        s[find_byte(s, b).unwrap()] == b,
    decreases s.len(),
{
    if s.len() > 0 && s[0] != b {
        lemma_find_byte_range(s.drop_first(), b);
    }
}

/// The lines of the text: split on newline, trailing carriage returns
/// stripped, and no empty final line after a terminating newline.
pub open spec fn lines_of(s: Seq<u8>) -> Seq<Seq<u8>>
    decreases s.len(),
    via lines_of_dec
{
    if s.len() == 0 {
        Seq::empty()
    } else {
        match find_byte(s, 10) {
            None => seq![strip_cr(s)],
            Some(k) => seq![strip_cr(s.take(k))] + lines_of(s.skip(k + 1)),
        }
    }
}

#[via_fn]
proof fn lines_of_dec(s: Seq<u8>) {
    if s.len() > 0 && find_byte(s, 10) is Some {
        lemma_find_byte_range(s, 10);
    }
}

/// Splits the report text into lines.
pub fn split_lines(text: &[u8]) -> (r: Vec<Vec<u8>>)
    ensures
        views_of(r@) == lines_of(text@),
{
    let n = text.len();
    let mut r: Vec<Vec<u8>> = Vec::new();
    let mut cur: usize = 0;
    proof {
        assert(text@.skip(0) =~= text@);
        assert(views_of(r@) =~= Seq::<Seq<u8>>::empty());
    }
    while cur < n
        invariant
            cur <= n == text@.len(),
            lines_of(text@) =~= views_of(r@) + lines_of(text@.skip(cur as int)),
        decreases n - cur,
    {
        let ghost rest = text@.skip(cur as int);
        let mut j: usize = cur;
        while j < n && text[j] != 10
            invariant
                cur <= j <= n == text@.len(),
                rest == text@.skip(cur as int),
                forall|k: int| 0 <= k < j - cur ==> #[trigger] rest[k] != 10,
            decreases n - j,
        {
            assert(rest[j - cur] == text@[j as int]);
            j += 1;
        }
        proof {
            if j < n {
                assert(rest[j - cur] == text@[j as int]);
            }
            crate::num::lemma_find_byte_scan(rest, 10, j - cur);
        }
        // the line body is text[cur..j], minus a trailing carriage return
        let end: usize = if j > cur && text[j - 1] == 13 {
            j - 1
        } else {
            j
        };
        proof {
            assert(rest.take(j - cur) =~= text@.subrange(cur as int, j as int));
            assert(strip_cr(rest.take(j - cur)) =~= text@.subrange(cur as int, end as int));
        }
        let line = vstd::slice::slice_to_vec(vstd::slice::slice_subrange(text, cur, end));
        let ghost old_r = r@;
        r.push(line);
        proof {
            assert(views_of(r@) =~= views_of(old_r) + seq![line@]);
        }
        if j < n {
            proof {
                assert(rest.skip(j - cur + 1) =~= text@.skip(j + 1));
                assert(lines_of(rest) == seq![strip_cr(rest.take(j - cur))] + lines_of(
                    rest.skip(j - cur + 1),
                ));
            }
            cur = j + 1;
        } else {
            proof {
                assert(lines_of(rest) == seq![strip_cr(rest)]);
                assert(rest.take(j - cur) =~= rest);
                assert(lines_of(text@.skip(n as int)) =~= Seq::<Seq<u8>>::empty());
            }
            cur = n;
        }
    }
    assert(lines_of(text@.skip(cur as int)) =~= Seq::<Seq<u8>>::empty());
    assert(views_of(r@) =~= views_of(r@) + lines_of(text@.skip(cur as int)));
    r
}

/// The pattern piece `pat` occurs in `line` starting at position `i`.
pub open spec fn contains_at(line: Seq<u8>, pat: Seq<u8>, i: int) -> bool {
    0 <= i && i + pat.len() <= line.len() && line.subrange(i, i + pat.len() as int) == pat
}

/// The pattern pieces all occur in the line, in order and without overlap,
/// the first no earlier than `from`.  This is the meaning of the report's
/// anchor lines: one literal, then later another, on one line.
pub open spec fn matches_from(line: Seq<u8>, pats: Seq<Seq<u8>>, from: int) -> bool
    decreases pats.len(),
{
    pats.len() == 0 || exists|i: int|
        from <= i && #[trigger] contains_at(line, pats[0], i) && matches_from(
            line,
            pats.skip(1),
            i + pats[0].len(),
        )
}

pub open spec fn line_matches(line: Seq<u8>, pats: Seq<Seq<u8>>) -> bool {
    matches_from(line, pats, 0)
}

/// An anchor that matches from a later position also matches from an earlier
/// one.
pub proof fn lemma_matches_monotone(line: Seq<u8>, pats: Seq<Seq<u8>>, a: int, b: int)
    requires
        a <= b,
        matches_from(line, pats, b),
    ensures
        matches_from(line, pats, a),
{
    if pats.len() > 0 {
        let i = choose|i: int|
            b <= i && #[trigger] contains_at(line, pats[0], i) && matches_from(
                line,
                pats.skip(1),
                i + pats[0].len(),
            );
        assert(a <= i && contains_at(line, pats[0], i) && matches_from(
            line,
            pats.skip(1),
            i + pats[0].len(),
        ));
    }
}

/// Byte-for-byte comparison of `pat` against `line` at position `at`.
pub fn eq_at(line: &[u8], pat: &[u8], at: usize) -> (b: bool)
    requires
        at + pat@.len() <= line@.len(),
    ensures
        b == contains_at(line@, pat@, at as int),
{
    let m = pat.len();
    let n = line.len();
    let mut j: usize = 0;
    while j < m
        invariant
            j <= m == pat@.len(),
            at + m <= n == line@.len(),
            forall|k: int| 0 <= k < j ==> #[trigger] line@[at + k] == pat@[k],
        decreases m - j,
    {
        if line[at + j] != pat[j] {
            assert(line@.subrange(at as int, at + m) != pat@) by {
                assert(line@.subrange(at as int, at + m)[j as int] == line@[at + j]);
            }
            return false;
        }
        j += 1;
    }
    assert forall|k: int| 0 <= k < m implies line@.subrange(at as int, at + m)[k] == pat@[k] by {
        assert(line@.subrange(at as int, at + m)[k] == line@[at + k]);
    }
    assert(line@.subrange(at as int, at + m) =~= pat@);
    true
}

/// First position at or after `from` where `pat` occurs in `line`.
pub fn find_pat_from(line: &[u8], pat: &[u8], from: usize) -> (r: Option<usize>)
    ensures
        match r {
            Some(e) => from <= e && contains_at(line@, pat@, e as int) && forall|k: int|
                from <= k < e ==> !contains_at(line@, pat@, k),
            None => forall|k: int| from <= k ==> !contains_at(line@, pat@, k),
        },
{
    let n = line.len();
    let m = pat.len();
    if m > n || from > n - m {
        assert(forall|k: int| from <= k ==> !contains_at(line@, pat@, k));
        return None;
    }
    if m == 0 {
        assert(contains_at(line@, pat@, from as int)) by {
            assert(line@.subrange(from as int, from as int) =~= pat@);
        }
        return Some(from);
    }
    let mut e: usize = from;
    while e <= n - m
        invariant
            from <= e <= n - m + 1,
            1 <= m <= n == line@.len(),
            m == pat@.len(),
            from <= n - m,
            forall|k: int| from <= k < e ==> !contains_at(line@, pat@, k),
        decreases n + 1 - m - e,
    {
        if eq_at(line, pat, e) {
            return Some(e);
        }
        e += 1;
    }
    assert(forall|k: int| from <= k ==> !contains_at(line@, pat@, k));
    None
}

/// Views of a list of pattern pieces.
pub open spec fn pat_views(ps: Seq<&[u8]>) -> Seq<Seq<u8>> {
    Seq::new(ps.len(), |i: int| ps[i]@)
}

/// Tests one line against an ordered anchor pattern.
pub fn matches_pats(line: &[u8], pats: &[&[u8]]) -> (b: bool)
    ensures
        b == line_matches(line@, pat_views(pats@)),
{
    let ghost pv = pat_views(pats@);
    let np = pats.len();
    let nline = line.len();
    let mut k: usize = 0;
    let mut cur: usize = 0;
    proof {
        assert(pv.skip(0) =~= pv);
    }
    while k < np
        invariant
            k <= np == pv.len(),
            pv == pat_views(pats@),
            nline == line@.len(),
            line_matches(line@, pv) <==> matches_from(line@, pv.skip(k as int), cur as int),
        decreases np - k,
    {
        let ghost pk = pv.skip(k as int);
        proof {
            assert(pk[0] == pv[k as int]);
            assert(pk.skip(1) =~= pv.skip(k + 1));
        }
        match find_pat_from(line, pats[k], cur) {
            None => {
                proof {
                    if matches_from(line@, pk, cur as int) {
                        let i = choose|i: int|
                            cur <= i && #[trigger] contains_at(line@, pk[0], i) && matches_from(
                                line@,
                                pk.skip(1),
                                i + pk[0].len(),
                            );
                        assert(contains_at(line@, pats@[k as int]@, i));
                    }
                }
                return false;
            },
            Some(e) => {
                proof {
                    let l = pk[0].len() as int;
                    if matches_from(line@, pk, cur as int) {
                        let i = choose|i: int|
                            cur <= i && #[trigger] contains_at(line@, pk[0], i) && matches_from(
                                line@,
                                pk.skip(1),
                                i + pk[0].len(),
                            );
                        assert(e <= i);
                        lemma_matches_monotone(line@, pk.skip(1), e + l, i + l);
                    }
                    if matches_from(line@, pv.skip(k + 1), e + l) {
                        assert(cur <= e && contains_at(line@, pk[0], e as int) && matches_from(
                            line@,
                            pk.skip(1),
                            e + pk[0].len(),
                        ));
                        assert(matches_from(line@, pk, cur as int));
                    }
                }
                let step = pats[k].len();
                assert(e + step <= nline);
                cur = e + step;
                k += 1;
            },
        }
    }
    assert(matches_from(line@, pv.skip(np as int), cur as int));
    true
}

/// The literal `total` as bytes.
pub open spec fn total_pat() -> Seq<u8> {
    seq![116u8, 111u8, 116u8, 97u8, 108u8]
}

/// A terminator line: it begins with the literal `total`.
pub open spec fn is_total_line(line: Seq<u8>) -> bool {
    line.len() >= 5 && line.subrange(0, 5) == total_pat()
}

/// Tests whether a line begins with the literal `total`.
pub fn is_total_row(line: &[u8]) -> (b: bool)
    ensures
        b == is_total_line(line@),
{
    if line.len() < 5 {
        return false;
    }
    let b = line[0] == 116 && line[1] == 111 && line[2] == 116 && line[3] == 97 && line[4] == 108;
    proof {
        if b {
            assert(line@.subrange(0, 5) =~= total_pat());
        } else {
            if line@.subrange(0, 5) == total_pat() {
                assert(line@[0] == line@.subrange(0, 5)[0]);
                assert(line@[1] == line@.subrange(0, 5)[1]);
                assert(line@[2] == line@.subrange(0, 5)[2]);
                assert(line@[3] == line@.subrange(0, 5)[3]);
                assert(line@[4] == line@.subrange(0, 5)[4]);
            }
        }
    }
    b
}

/// Index of the first line at or after `from` that matches the anchor.
pub open spec fn find_match_from(lines: Seq<Seq<u8>>, from: int, pats: Seq<Seq<u8>>) -> Option<
    int,
>
    decreases lines.len() - from when 0 <= from
{
    if from >= lines.len() {
        None
    } else if line_matches(lines[from], pats) {
        Some(from)
    } else {
        find_match_from(lines, from + 1, pats)
    }
}

/// Index of the first terminator line at or after `from`.
pub open spec fn find_total_from(lines: Seq<Seq<u8>>, from: int) -> Option<int>
    decreases lines.len() - from when 0 <= from
{
    if from >= lines.len() {
        None
    } else if is_total_line(lines[from]) {
        Some(from)
    } else {
        find_total_from(lines, from + 1)
    }
}

/// A stateful, forward-only cursor over the report's lines.  It never
/// re-reads from the start: every search begins at the current position.
pub struct ReportScanner {
    pub lines: Vec<Vec<u8>>,
    pub pos: usize,
}

impl ReportScanner {
    pub open spec fn wf(self) -> bool {
        self.pos <= self.lines.len()
    }

    /// The lines as mathematical sequences.
    pub open spec fn line_views(self) -> Seq<Seq<u8>> {
        views_of(self.lines@)
    }

    /// A scanner at the start of the given lines.
    pub fn new(lines: Vec<Vec<u8>>) -> (s: Self)
        ensures
            s.lines@ == lines@,
            s.pos == 0,
            s.wf(),
    {
        ReportScanner { lines, pos: 0 }
    }

    /// Consumes lines until one matches the anchor pattern; the cursor is
    /// left immediately after the matching line, whose index is returned.
    /// If no remaining line matches, the whole input is consumed and
    /// `PatternNotFound` is reported.
    pub fn advance_until(&mut self, pats: &[&[u8]]) -> (r: Result<usize, Error>)
        requires
            old(self).wf(),
        ensures
            final(self).lines@ == old(self).lines@,
            final(self).wf(),
            match r {
                Ok(i) => find_match_from(
                    old(self).line_views(),
                    old(self).pos as int,
                    pat_views(pats@),
                ) == Some(i as int) && final(self).pos == i + 1 && i < old(self).lines@.len(),
                Err(e) => e == Error::PatternNotFound && find_match_from(
                    old(self).line_views(),
                    old(self).pos as int,
                    pat_views(pats@),
                ) is None && final(self).pos == old(self).lines@.len(),
            },
    {
        let ghost glines = self.lines@;
        let ghost p0 = self.pos as int;
        let ghost lv = self.line_views();
        let ghost pv = pat_views(pats@);
        let n = self.lines.len();
        let mut i: usize = self.pos;
        while i < n
            invariant
                self.lines@ == glines,
                glines == old(self).lines@,
                self.pos == p0,
                p0 == old(self).pos as int,
                p0 <= i as int <= n as int,
                n == self.lines@.len(),
                lv == self.line_views(),
                lv == old(self).line_views(),
                pv == pat_views(pats@),
                find_match_from(lv, p0, pv) == find_match_from(lv, i as int, pv),
            decreases n - i,
        {
            let matched = matches_pats(self.lines[i].as_slice(), pats);
            assert(lv[i as int] == self.lines@[i as int]@);
            if matched {
                self.pos = i + 1;
                return Ok(i);
            }
            i += 1;
        }
        self.pos = n;
        Err(Error::PatternNotFound)
    }

    /// Consumes and returns all lines up to the first terminator line; the
    /// terminator itself is consumed as well.  If the input ends first, the
    /// whole input is consumed and `UnexpectedEof` is reported.
    pub fn take_rows_until_total(&mut self) -> (r: Result<Vec<Vec<u8>>, Error>)
        requires
            old(self).wf(),
        ensures
            final(self).lines@ == old(self).lines@,
            final(self).wf(),
            match r {
                Ok(rows) => {
                    &&& find_total_from(old(self).line_views(), old(self).pos as int) is Some
                    &&& views_of(rows@) == old(self).line_views().subrange(
                        old(self).pos as int,
                        find_total_from(old(self).line_views(), old(self).pos as int).unwrap(),
                    )
                    &&& final(self).pos == find_total_from(
                        old(self).line_views(),
                        old(self).pos as int,
                    ).unwrap() + 1
                },
                Err(e) => e == Error::UnexpectedEof && find_total_from(
                    old(self).line_views(),
                    old(self).pos as int,
                ) is None && final(self).pos == old(self).lines@.len(),
            },
    {
        let ghost glines = self.lines@;
        let ghost lv = self.line_views();
        let ghost p0 = self.pos as int;
        let n = self.lines.len();
        let mut rows: Vec<Vec<u8>> = Vec::new();
        let mut i: usize = self.pos;
        while i < n
            invariant
                self.lines@ == glines,
                glines == old(self).lines@,
                self.pos == p0,
                p0 == old(self).pos as int,
                p0 <= i as int <= n as int,
                n == self.lines@.len(),
                lv == self.line_views(),
                lv == old(self).line_views(),
                find_total_from(lv, p0) == find_total_from(lv, i as int),
                views_of(rows@) =~= lv.subrange(p0, i as int),
            decreases n - i,
        {
            assert(lv[i as int] == self.lines@[i as int]@);
            if is_total_row(self.lines[i].as_slice()) {
                self.pos = i + 1;
                return Ok(rows);
            }
            let line = vstd::slice::slice_to_vec(self.lines[i].as_slice());
            let ghost old_rows = rows@;
            rows.push(line);
            proof {
                assert(views_of(rows@) =~= views_of(old_rows) + seq![line@]);
                assert(views_of(old_rows) + seq![line@] =~= lv.subrange(p0, i + 1));
            }
            i += 1;
        }
        self.pos = n;
        Err(Error::UnexpectedEof)
    }
}

} // verus!
