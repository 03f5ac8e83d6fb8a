//! Extraction of one state's per-atom dipole table from the report.
//!
//! The extractor locates the requested state's transition-density section,
//! then the x, y and z sub-tables in that fixed order.  The x-block defines
//! the canonical atom numbering: its Nth data row becomes atom index N.  The
//! y- and z-blocks address atoms by the explicit 1-based index in their first
//! token, so their rows may come in any order; an index never seen in the
//! x-block is a fatal error.
//!
//! [`extract_lines`] is the mathematical description of the whole procedure;
//! [`parse_dipole_from_text`] is proved to return exactly its result.

use vstd::prelude::*;
use crate::Error;
use crate::num::{dec_val, idx_val, parse_dec_token, parse_idx_token};
use crate::scan::{
    find_match_from, find_total_from, lines_of, pat_views, split_lines, tokenize, tokens_of,
    views_of, ReportScanner,
};

verus! {

/// One atom's charge-weighted Cartesian dipole contribution, held in exact
/// fixed-point units of `10^-9`.  A component never written by its block
/// stays exactly zero.
#[derive(Clone, Copy, Debug, PartialEq, Eq, Structural)]
pub struct Dipole {
    pub x: i128,
    pub y: i128,
    pub z: i128,
}

impl Dipole {
    pub open spec fn as_triple(self) -> (int, int, int) {
        (self.x as int, self.y as int, self.z as int)
    }
}

impl Default for Dipole {
    /// A never-written dipole: exactly zero in every component.  An explicit
    /// zero stands in for the near-zero sentinel that a floating-point
    /// representation would need, since exact arithmetic keeps "never
    /// measured" and "measured as zero" from drifting apart.
    fn default() -> (d: Self)
        ensures
            d.x == 0 && d.y == 0 && d.z == 0,
    {
        Dipole { x: 0, y: 0, z: 0 }
    }
}

/// A dipole whose components are within the magnitude that one parsed
/// token can carry: below `10^9` whole units, exactly.
pub open spec fn wf_dip(d: Dipole) -> bool {
    &&& -1000000000000000000 < d.x < 1000000000000000000
    &&& -1000000000000000000 < d.y < 1000000000000000000
    &&& -1000000000000000000 < d.z < 1000000000000000000
}

/// The component triples of a dipole table.
pub open spec fn triples_of(s: Seq<Dipole>) -> Seq<(int, int, int)> {
    Seq::new(s.len(), |i: int| s[i].as_triple())
}

/// The literal `t-density` as bytes.
pub open spec fn tdensity_pat() -> Seq<u8> {
    seq![116u8, 45u8, 100u8, 101u8, 110u8, 115u8, 105u8, 116u8, 121u8]
}

/// The literal `dipole` as bytes.
pub open spec fn dipole_pat() -> Seq<u8> {
    seq![100u8, 105u8, 112u8, 111u8, 108u8, 101u8]
}

/// The anchor of a state's transition-density section: `t-density`, then
/// later the state label, on one line.
pub open spec fn state_anchor(label: Seq<u8>) -> Seq<Seq<u8>> {
    seq![tdensity_pat(), label]
}

/// The header anchor of one axis sub-table: the state label, then `dipole`,
/// then the axis letter, on one line.
pub open spec fn axis_anchor(label: Seq<u8>, axis: u8) -> Seq<Seq<u8>> {
    seq![label, dipole_pat(), seq![axis]]
}

/// An x-block data row: the 4th whitespace token is the component value.
pub open spec fn row_x_value(line: Seq<u8>) -> Result<int, Error> {
    let toks = tokens_of(line);
    if toks.len() < 4 {
        Err(Error::MalformedRow)
    } else {
        match dec_val(toks[3]) {
            None => Err(Error::MalformedRow),
            Some(v) => Ok(v),
        }
    }
}

/// The x-components read from the x-block rows, in file order; the first
/// malformed row is fatal.
pub open spec fn x_rows_values(rows: Seq<Seq<u8>>) -> Result<Seq<int>, Error>
    decreases rows.len(),
{
    if rows.len() == 0 {
        Ok(Seq::empty())
    } else {
        match x_rows_values(rows.drop_last()) {
            Err(e) => Err(e),
            Ok(vs) => match row_x_value(rows.last()) {
                Err(e) => Err(e),
                Ok(v) => Ok(vs.push(v)),
            },
        }
    }
}

/// A y- or z-block data row: the 1st token is the explicit 1-based atom
/// index, the 4th is the component value.
pub open spec fn row_yz(line: Seq<u8>) -> Result<(int, int), Error> {
    let toks = tokens_of(line);
    if toks.len() < 4 {
        Err(Error::MalformedRow)
    } else if dec_val(toks[3]) is None {
        Err(Error::MalformedRow)
    } else if idx_val(toks[0]) is None {
        Err(Error::MalformedRow)
    } else {
        Ok((idx_val(toks[0]).unwrap(), dec_val(toks[3]).unwrap()))
    }
}

/// Folds a block of y/z rows over one component column, front to back, a
/// later row overwriting an earlier one with the same index.  An index of
/// zero or beyond the column is fatal.
pub open spec fn apply_yz_rows(col: Seq<int>, rows: Seq<Seq<u8>>) -> Result<Seq<int>, Error>
    decreases rows.len(),
{
    if rows.len() == 0 {
        Ok(col)
    } else {
        match row_yz(rows.first()) {
            Err(e) => Err(e),
            Ok(iv) => if 1 <= iv.0 <= col.len() {
                apply_yz_rows(col.update(iv.0 - 1, iv.1), rows.drop_first())
            } else {
                Err(Error::UnknownAtomIndex)
            },
        }
    }
}

/// One y or z pass: the axis header, its rows up to the terminator, the fold
/// over the column; returns the new column and the line position after the
/// terminator.
pub open spec fn yz_pass(
    lines: Seq<Seq<u8>>,
    from: int,
    label: Seq<u8>,
    axis: u8,
    col: Seq<int>,
) -> Result<(Seq<int>, int), Error> {
    match find_match_from(lines, from, axis_anchor(label, axis)) {
        None => Err(Error::PatternNotFound),
        Some(h) => match find_total_from(lines, h + 1) {
            None => Err(Error::UnexpectedEof),
            Some(t) => match apply_yz_rows(col, lines.subrange(h + 1, t)) {
                Err(e) => Err(e),
                Ok(c) => Ok((c, t + 1)),
            },
        },
    }
}

/// The whole extraction, as a function of the report's lines: locate the
/// state section, then the x-block (whose row order defines the atom
/// numbering), then the y- and z-blocks keyed by explicit atom index.
pub open spec fn extract_lines(lines: Seq<Seq<u8>>, label: Seq<u8>) -> Result<
    Seq<(int, int, int)>,
    Error,
> {
    match find_match_from(lines, 0, state_anchor(label)) {
        None => Err(Error::PatternNotFound),
        Some(s0) => match find_match_from(lines, s0 + 1, axis_anchor(label, 120)) {
            None => Err(Error::PatternNotFound),
            Some(h1) => match find_total_from(lines, h1 + 1) {
                None => Err(Error::UnexpectedEof),
                Some(t1) => match x_rows_values(lines.subrange(h1 + 1, t1)) {
                    Err(e) => Err(e),
                    Ok(xs) => {
                        let zero = Seq::new(xs.len(), |i: int| 0int);
                        match yz_pass(lines, t1 + 1, label, 121, zero) {
                            Err(e) => Err(e),
                            Ok(yp) => match yz_pass(lines, yp.1, label, 122, zero) {
                                Err(e) => Err(e),
                                Ok(zp) => Ok(
                                    Seq::new(xs.len(), |i: int| (xs[i], yp.0[i], zp.0[i])),
                                ),
                            },
                        }
                    },
                },
            },
        },
    }
}

/// The full extraction of the report text, equal to [`extract_lines`] on the
/// text's lines.
pub open spec fn extract_text(text: Seq<u8>, label: Seq<u8>) -> Result<
    Seq<(int, int, int)>,
    Error,
> {
    extract_lines(lines_of(text), label)
}

/// An error in a prefix of the x-block is the error of the whole block.
proof fn lemma_x_rows_err_at(rows: Seq<Seq<u8>>, j: int, e: Error)
    requires
        0 <= j < rows.len(),
        x_rows_values(rows.take(j)) is Ok,
        row_x_value(rows[j]) == Err::<int, Error>(e),
    ensures
        x_rows_values(rows) == Err::<Seq<int>, Error>(e),
    decreases rows.len(),
{
    if j == rows.len() - 1 {
        assert(rows.take(j) =~= rows.drop_last());
        assert(rows.last() == rows[j]);
    } else {
        assert(rows.drop_last().take(j) =~= rows.take(j));
        assert(rows.drop_last()[j] == rows[j]);
        lemma_x_rows_err_at(rows.drop_last(), j, e);
    }
}

/// The y- and z-components of a dipole table, as columns.
pub open spec fn col_of(s: Seq<Dipole>, is_z: bool) -> Seq<int> {
    Seq::new(s.len(), |i: int| if is_z { s[i].z as int } else { s[i].y as int })
}

pub open spec fn xcol_of(s: Seq<Dipole>) -> Seq<int> {
    Seq::new(s.len(), |i: int| s[i].x as int)
}

/// Applies one axis block's rows to the table, writing the y components
/// (`is_z` false) or the z components (`is_z` true).  The other two
/// components of every atom are untouched.
fn apply_axis_rows(dips: &mut Vec<Dipole>, rows: &Vec<Vec<u8>>, is_z: bool) -> (r: Result<
    (),
    Error,
>)
    ensures
        final(dips)@.len() == old(dips)@.len(),
        xcol_of(final(dips)@) == xcol_of(old(dips)@),
        col_of(final(dips)@, !is_z) == col_of(old(dips)@, !is_z),
        (forall|i: int| 0 <= i < old(dips)@.len() ==> wf_dip(#[trigger] old(dips)@[i]))
            ==> (forall|i: int| 0 <= i < final(dips)@.len() ==> wf_dip(
            #[trigger] final(dips)@[i],
        )),
        match r {
            Ok(u) => apply_yz_rows(col_of(old(dips)@, is_z), views_of(rows@)) == Ok::<
                Seq<int>,
                Error,
            >(col_of(final(dips)@, is_z)),
            Err(e) => apply_yz_rows(col_of(old(dips)@, is_z), views_of(rows@)) == Err::<
                Seq<int>,
                Error,
            >(e),
        },
{
    let ghost rv = views_of(rows@);
    let ghost col0 = col_of(old(dips)@, is_z);
    let n = rows.len();
    let mut j: usize = 0;
    proof {
        assert(rv.skip(0) =~= rv);
    }
    while j < n
        invariant
            j <= n == rows@.len(),
            rv == views_of(rows@),
            col0 == col_of(old(dips)@, is_z),
            dips@.len() == old(dips)@.len(),
            xcol_of(dips@) == xcol_of(old(dips)@),
            col_of(dips@, !is_z) == col_of(old(dips)@, !is_z),
            (forall|i: int| 0 <= i < old(dips)@.len() ==> wf_dip(#[trigger] old(dips)@[i]))
                ==> (forall|i: int| 0 <= i < dips@.len() ==> wf_dip(#[trigger] dips@[i])),
            apply_yz_rows(col0, rv) == apply_yz_rows(col_of(dips@, is_z), rv.skip(j as int)),
        decreases n - j,
    {
        let ghost colcur = col_of(dips@, is_z);
        let ghost rest = rv.skip(j as int);
        proof {
            assert(rest.first() == rv[j as int]);
            assert(rest.drop_first() =~= rv.skip(j + 1));
            assert(rv[j as int] == rows@[j as int]@);
        }
        let toks = tokenize(rows[j].as_slice());
        let ghost tv = tokens_of(rows@[j as int]@);
        proof {
            assert(views_of(toks@) == tv);
            assert(toks@.len() == tv.len());
        }
        if toks.len() < 4 {
            assert(row_yz(rest.first()) == Err::<(int, int), Error>(Error::MalformedRow));
            return Err(Error::MalformedRow);
        }
        assert(toks@[3]@ == tv[3]);
        assert(toks@[0]@ == tv[0]);
        let v = match parse_dec_token(toks[3].as_slice()) {
            None => {
                assert(row_yz(rest.first()) == Err::<(int, int), Error>(Error::MalformedRow));
                return Err(Error::MalformedRow);
            },
            Some(v) => v,
        };
        let idx = match parse_idx_token(toks[0].as_slice()) {
            None => {
                assert(row_yz(rest.first()) == Err::<(int, int), Error>(Error::MalformedRow));
                return Err(Error::MalformedRow);
            },
            Some(i) => i,
        };
        assert(row_yz(rest.first()) == Ok::<(int, int), Error>((idx as int, v as int)));
        if idx == 0 || idx > dips.len() as u64 {
            assert(apply_yz_rows(colcur, rest) == Err::<Seq<int>, Error>(Error::UnknownAtomIndex));
            return Err(Error::UnknownAtomIndex);
        }
        let at = (idx - 1) as usize;
        let mut d = dips[at];
        if is_z {
            d.z = v as i128;
        } else {
            d.y = v as i128;
        }
        dips.set(at, d);
        proof {
            assert(col_of(dips@, is_z) =~= colcur.update(idx as int - 1, v as int));
            assert(xcol_of(dips@) =~= xcol_of(old(dips)@));
            assert(col_of(dips@, !is_z) =~= col_of(old(dips)@, !is_z));
            assert(apply_yz_rows(colcur, rest) == apply_yz_rows(
                col_of(dips@, is_z),
                rv.skip(j + 1),
            ));
        }
        j += 1;
    }
    proof {
        assert(rv.skip(n as int) =~= Seq::<Seq<u8>>::empty());
        assert(apply_yz_rows(col_of(dips@, is_z), rv.skip(n as int)) == Ok::<Seq<int>, Error>(
            col_of(dips@, is_z),
        ));
    }
    Ok(())
}

/// Produces the per-atom dipole table for one named electronic state.
///
/// The result is exactly what [`extract_text`] describes: `Ok` with the
/// table whose Nth entry is the Nth x-block row's atom, or the first error
/// the report's structure forces — `PatternNotFound` when an anchor never
/// matches, `UnexpectedEof` when a block's `total` terminator is missing,
/// `MalformedRow` when a data row does not parse, `UnknownAtomIndex` when a
/// y/z row addresses an atom the x-block never defined.
pub fn parse_dipole_from_text(text: &[u8], state_label: &[u8]) -> (r: Result<Vec<Dipole>, Error>)
    ensures
        r is Ok ==> extract_text(text@, state_label@) == Ok::<Seq<(int, int, int)>, Error>(
            triples_of(r.unwrap()@),
        ),
        r matches Ok(v) ==> forall|i: int| 0 <= i < v@.len() ==> wf_dip(#[trigger] v@[i]),
        r is Err ==> extract_text(text@, state_label@) == Err::<Seq<(int, int, int)>, Error>(
            r.unwrap_err(),
        ),
{
    let lines = split_lines(text);
    let ghost lv = lines_of(text@);
    let mut sc = ReportScanner::new(lines);
    proof {
        assert(sc.line_views() == lv);
    }
    // one byte vector per literal pattern piece
    let td = tdensity_bytes();
    let dp = dipole_bytes();
    let ax = byte_vec(120);
    let ay = byte_vec(121);
    let az = byte_vec(122);

    // locate the state's transition-density section
    let mut pats: Vec<&[u8]> = Vec::new();
    pats.push(td.as_slice());
    pats.push(state_label);
    proof {
        assert(pat_views(pats@) =~= state_anchor(state_label@));
    }
    let s0 = match sc.advance_until(pats.as_slice()) {
        Err(e) => {
            return Err(e);
        },
        Ok(i) => i,
    };

    // the x sub-table always comes first
    let mut patsx: Vec<&[u8]> = Vec::new();
    patsx.push(state_label);
    patsx.push(dp.as_slice());
    patsx.push(ax.as_slice());
    proof {
        assert(pat_views(patsx@) =~= axis_anchor(state_label@, 120));
    }
    let h1 = match sc.advance_until(patsx.as_slice()) {
        Err(e) => {
            return Err(e);
        },
        Ok(i) => i,
    };
    let ghost t1 = find_total_from(lv, h1 + 1);
    let rows_x = match sc.take_rows_until_total() {
        Err(e) => {
            return Err(e);
        },
        Ok(rows) => rows,
    };
    let ghost rvx = views_of(rows_x@);
    proof {
        assert(rvx == lv.subrange(h1 + 1, t1.unwrap()));
    }

    // the x rows, in file order, define the atom numbering
    let mut dips: Vec<Dipole> = Vec::new();
    let nx = rows_x.len();
    let mut j: usize = 0;
    proof {
        assert(rvx.take(0) =~= Seq::<Seq<u8>>::empty());
        assert(xcol_of(dips@) =~= Seq::<int>::empty());
    }
    while j < nx
        invariant
            j <= nx == rows_x@.len(),
            rvx == views_of(rows_x@),
            lv == lines_of(text@),
            find_match_from(lv, 0, state_anchor(state_label@)) == Some(s0 as int),
            find_match_from(lv, s0 + 1, axis_anchor(state_label@, 120)) == Some(h1 as int),
            find_total_from(lv, h1 + 1) == t1,
            t1 is Some,
            rvx == lv.subrange(h1 + 1, t1.unwrap()),
            dips@.len() == j,
            x_rows_values(rvx.take(j as int)) == Ok::<Seq<int>, Error>(xcol_of(dips@)),
            forall|k: int| 0 <= k < j ==> #[trigger] dips@[k].y == 0 && dips@[k].z == 0,
            forall|k: int| 0 <= k < j ==> wf_dip(#[trigger] dips@[k]),
        decreases nx - j,
    {
        let ghost pre = rvx.take(j as int);
        proof {
            assert(rvx.take(j + 1).drop_last() =~= pre);
            assert(rvx.take(j + 1).last() == rvx[j as int]);
            assert(rvx[j as int] == rows_x@[j as int]@);
        }
        let toks = tokenize(rows_x[j].as_slice());
        let ghost tv = tokens_of(rows_x@[j as int]@);
        proof {
            assert(views_of(toks@) == tv);
        }
        if toks.len() < 4 {
            proof {
                assert(row_x_value(rvx[j as int]) == Err::<int, Error>(Error::MalformedRow));
                assert(x_rows_values(rvx.take(j + 1)) == Err::<Seq<int>, Error>(
                    Error::MalformedRow,
                ));
                lemma_x_rows_err_at(rvx, j as int, Error::MalformedRow);
            }
            return Err(Error::MalformedRow);
        }
        assert(toks@[3]@ == tv[3]);
        match parse_dec_token(toks[3].as_slice()) {
            None => {
                proof {
                    assert(row_x_value(rvx[j as int]) == Err::<int, Error>(Error::MalformedRow));
                    lemma_x_rows_err_at(rvx, j as int, Error::MalformedRow);
                }
                return Err(Error::MalformedRow);
            },
            Some(v) => {
                let ghost old_dips = dips@;
                dips.push(Dipole { x: v as i128, y: 0, z: 0 });
                proof {
                    assert(row_x_value(rvx[j as int]) == Ok::<int, Error>(v as int));
                    assert(xcol_of(dips@) =~= xcol_of(old_dips).push(v as int));
                }
            },
        }
        j += 1;
    }
    proof {
        assert(rvx.take(nx as int) =~= rvx);
    }
    let ghost xs = xcol_of(dips@);
    let ghost zero = Seq::new(xs.len(), |i: int| 0int);
    proof {
        assert(col_of(dips@, false) =~= zero);
        assert(col_of(dips@, true) =~= zero);
    }

    // y pass, then z pass, each keyed by explicit atom index
    let mut patsy: Vec<&[u8]> = Vec::new();
    patsy.push(state_label);
    patsy.push(dp.as_slice());
    patsy.push(ay.as_slice());
    proof {
        assert(pat_views(patsy@) =~= axis_anchor(state_label@, 121));
    }
    let hy = match sc.advance_until(patsy.as_slice()) {
        Err(e) => {
            return Err(e);
        },
        Ok(i) => i,
    };
    let rows_y = match sc.take_rows_until_total() {
        Err(e) => {
            return Err(e);
        },
        Ok(rows) => rows,
    };
    match apply_axis_rows(&mut dips, &rows_y, false) {
        Err(e) => {
            return Err(e);
        },
        Ok(u) => {},
    }
    let ghost dips_after_y = dips@;
    proof {
        assert(col_of(dips_after_y, true) =~= zero);
    }

    let mut patsz: Vec<&[u8]> = Vec::new();
    patsz.push(state_label);
    patsz.push(dp.as_slice());
    patsz.push(az.as_slice());
    proof {
        assert(pat_views(patsz@) =~= axis_anchor(state_label@, 122));
    }
    let hz = match sc.advance_until(patsz.as_slice()) {
        Err(e) => {
            return Err(e);
        },
        Ok(i) => i,
    };
    let rows_z = match sc.take_rows_until_total() {
        Err(e) => {
            return Err(e);
        },
        Ok(rows) => rows,
    };
    match apply_axis_rows(&mut dips, &rows_z, true) {
        Err(e) => {
            return Err(e);
        },
        Ok(u) => {},
    }
    proof {
        assert(xcol_of(dips@) == xs);
        assert(col_of(dips@, false) == col_of(dips_after_y, false));
        assert(triples_of(dips@) =~= Seq::new(
            xs.len(),
            |i: int| (xs[i], col_of(dips_after_y, false)[i], col_of(dips@, true)[i]),
        ));
    }
    Ok(dips)
}

/// The literal `t-density` as a byte vector.
fn tdensity_bytes() -> (v: Vec<u8>)
    ensures
        v@ == tdensity_pat(),
{
    let mut v: Vec<u8> = Vec::new();
    v.push(116);
    v.push(45);
    v.push(100);
    v.push(101);
    v.push(110);
    v.push(115);
    v.push(105);
    v.push(116);
    v.push(121);
    proof {
        assert(v@ =~= tdensity_pat());
    }
    v
}

/// The literal `dipole` as a byte vector.
fn dipole_bytes() -> (v: Vec<u8>)
    ensures
        v@ == dipole_pat(),
{
    let mut v: Vec<u8> = Vec::new();
    v.push(100);
    v.push(105);
    v.push(112);
    v.push(111);
    v.push(108);
    v.push(101);
    proof {
        assert(v@ =~= dipole_pat());
    }
    v
}

/// A one-byte vector.
fn byte_vec(b: u8) -> (v: Vec<u8>)
    ensures
        v@ == seq![b],
{
    let mut v: Vec<u8> = Vec::new();
    v.push(b);
    proof {
        assert(v@ =~= seq![b]);
    }
    v
}


/// The parsed (index, value) pairs of a block whose rows all parse.
pub open spec fn rows_pairs(rows: Seq<Seq<u8>>) -> Seq<(int, int)> {
    Seq::new(rows.len(), |k: int| row_yz(rows[k])->Ok_0)
}

/// Every row of the block parses.
pub open spec fn all_rows_ok(rows: Seq<Seq<u8>>) -> bool {
    forall|k: int| 0 <= k < rows.len() ==> (#[trigger] row_yz(rows[k])) is Ok
}

/// No pair addresses the atom with 1-based index `idx`.
pub open spec fn no_pair_for(pairs: Seq<(int, int)>, idx: int) -> bool {
    forall|k: int| 0 <= k < pairs.len() ==> (#[trigger] pairs[k]).0 != idx
}

/// The value that the last pair addressing `idx` plants, or `dflt` if none
/// does.
pub open spec fn last_val(pairs: Seq<(int, int)>, idx: int, dflt: int) -> int
    decreases pairs.len(),
{
    if pairs.len() == 0 {
        dflt
    } else {
        last_val(
            pairs.drop_first(),
            idx,
            if pairs.first().0 == idx {
                pairs.first().1
            } else {
                dflt
            },
        )
    }
}

proof fn lemma_last_val_absent(pairs: Seq<(int, int)>, idx: int, dflt: int)
    requires
        no_pair_for(pairs, idx),
    ensures
        last_val(pairs, idx, dflt) == dflt,
    decreases pairs.len(),
{
    if pairs.len() > 0 {
        assert(pairs[0].0 != idx);
        assert(forall|k: int|
            0 <= k < pairs.len() - 1 ==> #[trigger] pairs.drop_first()[k] == pairs[k + 1]);
        lemma_last_val_absent(pairs.drop_first(), idx, dflt);
    }
}

/// The fold of a block whose rows parse and stay in range succeeds, and each
/// atom's final component is the value of the last row addressing it.
proof fn lemma_apply_yz_last_val(col: Seq<int>, rows: Seq<Seq<u8>>)
    requires
        all_rows_ok(rows),
        forall|k: int|
            0 <= k < rows.len() ==> 1 <= (#[trigger] rows_pairs(rows)[k]).0 <= col.len(),
    ensures
        apply_yz_rows(col, rows) is Ok,
        apply_yz_rows(col, rows).unwrap().len() == col.len(),
        forall|i: int|
            0 <= i < col.len() ==> #[trigger] apply_yz_rows(col, rows).unwrap()[i] == last_val(
                rows_pairs(rows),
                i + 1,
                col[i],
            ),
    decreases rows.len(),
{
    if rows.len() > 0 {
        let pairs = rows_pairs(rows);
        let p0 = pairs[0];
        assert(row_yz(rows[0]) is Ok);
        assert(p0 == row_yz(rows.first())->Ok_0);
        let col1 = col.update(p0.0 - 1, p0.1);
        let rest = rows.drop_first();
        assert(forall|k: int| 0 <= k < rest.len() ==> #[trigger] rest[k] == rows[k + 1]);
        assert(forall|k: int|
            0 <= k < rest.len() ==> (#[trigger] rows_pairs(rest)[k]) == pairs[k + 1]);
        assert(rows_pairs(rest) =~= pairs.drop_first());
        lemma_apply_yz_last_val(col1, rest);
        assert(apply_yz_rows(col, rows) == apply_yz_rows(col1, rest));
        assert forall|i: int| 0 <= i < col.len() implies #[trigger] apply_yz_rows(
            col,
            rows,
        ).unwrap()[i] == last_val(pairs, i + 1, col[i]) by {
            assert(apply_yz_rows(col1, rest).unwrap()[i] == last_val(
                rows_pairs(rest),
                i + 1,
                col1[i],
            ));
            if p0.0 == i + 1 {
                assert(col1[i] == p0.1);
            } else {
                assert(col1[i] == col[i]);
            }
        }
    }
}

proof fn lemma_last_val_unique(pairs: Seq<(int, int)>, k: int, dflt: int)
    requires
        0 <= k < pairs.len(),
        forall|k1: int, k2: int|
            0 <= k1 < k2 < pairs.len() ==> (#[trigger] pairs[k1]).0 != (#[trigger] pairs[k2]).0,
    ensures
        last_val(pairs, pairs[k].0, dflt) == pairs[k].1,
    decreases pairs.len(),
{
    let rest = pairs.drop_first();
    assert(forall|j: int| 0 <= j < rest.len() ==> #[trigger] rest[j] == pairs[j + 1]);
    if k == 0 {
        assert(no_pair_for(rest, pairs[0].0));
        lemma_last_val_absent(rest, pairs[0].0, pairs[0].1);
    } else {
        assert(pairs[0].0 != pairs[k].0);
        assert(rest[k - 1] == pairs[k]);
        lemma_last_val_unique(rest, k - 1, dflt);
    }
}

/// Round-trip law for one axis block: when every row parses, every row's
/// atom index lies within the table, and the indices are pairwise distinct —
/// as when one block lists the same atoms as the x-block, in any order — the
/// fold succeeds, each row's value lands exactly at that row's atom,
/// wherever the row stands in the block, and an atom no row addresses keeps
/// its previous component.  The reconstruction is keyed by atom index alone,
/// never by row position.
pub proof fn lemma_yz_block_order_irrelevant(col: Seq<int>, rows: Seq<Seq<u8>>)
    requires
        all_rows_ok(rows),
        forall|k: int|
            0 <= k < rows.len() ==> 1 <= (#[trigger] rows_pairs(rows)[k]).0 <= col.len(),
        forall|k1: int, k2: int|
            0 <= k1 < k2 < rows.len() ==> (#[trigger] rows_pairs(rows)[k1]).0 != (
            #[trigger] rows_pairs(rows)[k2]).0,
    ensures
        apply_yz_rows(col, rows) is Ok,
        apply_yz_rows(col, rows).unwrap().len() == col.len(),
        forall|k: int|
            0 <= k < rows.len() ==> #[trigger] apply_yz_rows(col, rows).unwrap()[rows_pairs(
                rows,
            )[k].0 - 1] == rows_pairs(rows)[k].1,
        forall|i: int|
            0 <= i < col.len() && no_pair_for(rows_pairs(rows), i + 1)
                ==> #[trigger] apply_yz_rows(col, rows).unwrap()[i] == col[i],
{
    let pairs = rows_pairs(rows);
    lemma_apply_yz_last_val(col, rows);
    assert forall|k: int| 0 <= k < rows.len() implies #[trigger] apply_yz_rows(
        col,
        rows,
    ).unwrap()[pairs[k].0 - 1] == pairs[k].1 by {
        let i = pairs[k].0 - 1;
        lemma_last_val_unique(pairs, k, col[i]);
        assert(apply_yz_rows(col, rows).unwrap()[i] == last_val(pairs, i + 1, col[i]));
    }
    assert forall|i: int|
        0 <= i < col.len() && no_pair_for(pairs, i + 1) implies #[trigger] apply_yz_rows(
        col,
        rows,
    ).unwrap()[i] == col[i] by {
        lemma_last_val_absent(pairs, i + 1, col[i]);
    }
}

} // verus!
