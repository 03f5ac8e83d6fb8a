//! Mapping the fragment index lists onto the dipole table, and the exact
//! arithmetic of the aggregation.
//!
//! Sums and dot products are exact integer arithmetic on the `10^-9`
//! fixed-point components.  The square root and the inverse cosine of the
//! final geometry are irrational and stay with the caller; everything the
//! angle depends on — the dot product and the squared lengths — is computed
//! and proved here.

use vstd::prelude::*;
use crate::Error;
use crate::extract::{wf_dip, Dipole};

verus! {

pub open spec fn sum_x(s: Seq<Dipole>) -> int
    decreases s.len(),
{
    if s.len() == 0 {
        0
    } else {
        sum_x(s.drop_last()) + s.last().x
    }
}

pub open spec fn sum_y(s: Seq<Dipole>) -> int
    decreases s.len(),
{
    if s.len() == 0 {
        0
    } else {
        sum_y(s.drop_last()) + s.last().y
    }
}

pub open spec fn sum_z(s: Seq<Dipole>) -> int
    decreases s.len(),
{
    if s.len() == 0 {
        0
    } else {
        sum_z(s.drop_last()) + s.last().z
    }
}

/// The sum of an empty vector sequence is the exact zero vector, not a
/// near-zero sentinel.
pub proof fn lemma_sum_empty()
    ensures
        sum_x(Seq::<Dipole>::empty()) == 0,
        sum_y(Seq::<Dipole>::empty()) == 0,
        sum_z(Seq::<Dipole>::empty()) == 0,
{
}

/// Looks up each fragment atom index in the dipole table, in the listed
/// order.  An index of zero or beyond the table — an atom the x-block never
/// defined — is a fatal `UnknownAtomIndex`, never silently skipped.
pub fn map_dips_to_fragment(frag: &[usize], dips: &[Dipole]) -> (r: Result<Vec<Dipole>, Error>)
    ensures
        r is Ok <==> (forall|k: int|
            0 <= k < frag@.len() ==> 1 <= #[trigger] frag@[k] <= dips@.len()),
        r matches Ok(sel) ==> sel@.len() == frag@.len() && forall|k: int|
            0 <= k < frag@.len() ==> sel@[k] == dips@[#[trigger] frag@[k] - 1],
        r matches Err(e) ==> e == Error::UnknownAtomIndex,
{
    let n = frag.len();
    let nd = dips.len();
    let mut sel: Vec<Dipole> = Vec::new();
    let mut j: usize = 0;
    while j < n
        invariant
            j <= n == frag@.len(),
            nd == dips@.len(),
            sel@.len() == j,
            forall|k: int| 0 <= k < j ==> 1 <= #[trigger] frag@[k] <= dips@.len(),
            forall|k: int| 0 <= k < j ==> sel@[k] == dips@[#[trigger] frag@[k] - 1],
        decreases n - j,
    {
        let idx = frag[j];
        if idx == 0 || idx > nd {
            assert(!(1 <= frag@[j as int] <= dips@.len()));
            return Err(Error::UnknownAtomIndex);
        }
        sel.push(dips[idx - 1]);
        j += 1;
    }
    Ok(sel)
}

/// Component-wise exact sum of a list of dipole vectors, starting from the
/// exact zero vector.
pub fn sum(dips: &[Dipole]) -> (t: Dipole)
    requires
        forall|k: int| 0 <= k < dips@.len() ==> wf_dip(#[trigger] dips@[k]),
    ensures
        t.x == sum_x(dips@),
        t.y == sum_y(dips@),
        t.z == sum_z(dips@),
{
    let n = dips.len();
    let mut ax: i128 = 0;
    let mut ay: i128 = 0;
    let mut az: i128 = 0;
    let mut j: usize = 0;
    proof {
        assert(dips@.take(0) =~= Seq::<Dipole>::empty());
    }
    while j < n
        invariant
            j <= n == dips@.len(),
            forall|k: int| 0 <= k < dips@.len() ==> wf_dip(#[trigger] dips@[k]),
            ax == sum_x(dips@.take(j as int)),
            ay == sum_y(dips@.take(j as int)),
            az == sum_z(dips@.take(j as int)),
            -(j as int) * 1000000000000000000 <= ax <= (j as int) * 1000000000000000000,
            -(j as int) * 1000000000000000000 <= ay <= (j as int) * 1000000000000000000,
            -(j as int) * 1000000000000000000 <= az <= (j as int) * 1000000000000000000,
        decreases n - j,
    {
        let ghost pre = dips@.take(j as int);
        proof {
            assert(dips@.take(j + 1).drop_last() =~= pre);
            assert(dips@.take(j + 1).last() == dips@[j as int]);
            assert(wf_dip(dips@[j as int]));
        }
        let d = dips[j];
        ax = ax + d.x;
        ay = ay + d.y;
        az = az + d.z;
        j += 1;
    }
    proof {
        assert(dips@.take(n as int) =~= dips@);
    }
    Dipole { x: ax, y: ay, z: az }
}

/// The exact inner product of two dipole vectors.
pub open spec fn dot_spec(a: Dipole, b: Dipole) -> int {
    a.x * b.x + a.y * b.y + a.z * b.z
}

/// The exact squared Euclidean length of a dipole vector.
pub open spec fn norm_sq_spec(a: Dipole) -> int {
    dot_spec(a, a)
}

/// A vector whose components are small enough for an exact `i128` dot
/// product: four times what a single parsed component can carry, so any
/// total whose components stay within that many whole units qualifies.
pub open spec fn dot_bounded(a: Dipole) -> bool {
    &&& -4000000000000000000 <= a.x <= 4000000000000000000
    &&& -4000000000000000000 <= a.y <= 4000000000000000000
    &&& -4000000000000000000 <= a.z <= 4000000000000000000
}

/// Exact dot product of two vectors; the angle between two fragment dipoles
/// is the inverse cosine of `dot / sqrt(norm_sq * norm_sq)`, which the
/// caller finishes in floating point.
pub fn dot_prd(v1: &Dipole, v2: &Dipole) -> (r: i128)
    requires
        dot_bounded(*v1),
        dot_bounded(*v2),
    ensures
        r == dot_spec(*v1, *v2),
{
    proof {
        lemma_prod_bound(v1.x as int, v2.x as int);
        lemma_prod_bound(v1.y as int, v2.y as int);
        lemma_prod_bound(v1.z as int, v2.z as int);
    }
    v1.x * v2.x + v1.y * v2.y + v1.z * v2.z
}

/// The exact squared length of a vector.
pub fn norm_sq(v: &Dipole) -> (r: i128)
    requires
        dot_bounded(*v),
    ensures
        r == norm_sq_spec(*v),
{
    dot_prd(v, v)
}

proof fn lemma_prod_bound(a: int, b: int)
    requires
        -4000000000000000000 <= a <= 4000000000000000000,
        -4000000000000000000 <= b <= 4000000000000000000,
    ensures
        -16000000000000000000000000000000000000 <= a * b <= 16000000000000000000000000000000000000,
{
    assert(-16000000000000000000000000000000000000 <= a * b
        <= 16000000000000000000000000000000000000) by (nonlinear_arith)
        requires
            -4000000000000000000 <= a <= 4000000000000000000,
            -4000000000000000000 <= b <= 4000000000000000000,
    ;
}

/// The angle of any nonzero vector with itself is zero degrees: its cosine
/// ratio is exactly `+1` — the dot product is positive and its square equals
/// the product of the two squared lengths, so `dot / (|v| * |v|) == 1` and
/// the inverse cosine is `0`.
pub proof fn lemma_angle_with_self(v: Dipole)
    requires
        v.x != 0 || v.y != 0 || v.z != 0,
    ensures
        dot_spec(v, v) > 0,
        dot_spec(v, v) * dot_spec(v, v) == norm_sq_spec(v) * norm_sq_spec(v),
{
    assert(v.x * v.x >= 0 && v.y * v.y >= 0 && v.z * v.z >= 0) by (nonlinear_arith);
    if v.x != 0 {
        assert(v.x * v.x > 0) by (nonlinear_arith)
            requires
                v.x != 0,
        ;
    } else if v.y != 0 {
        assert(v.y * v.y > 0) by (nonlinear_arith)
            requires
                v.y != 0,
        ;
    } else {
        assert(v.z * v.z > 0) by (nonlinear_arith)
            requires
                v.z != 0,
        ;
    }
}

/// The angle of any nonzero vector with its negation is 180 degrees: its
/// cosine ratio is exactly `-1` — the dot product is negative and its square
/// equals the product of the two squared lengths, so `dot / (|v| * |-v|)
/// == -1` and the inverse cosine is `pi`, that is 180 degrees.
pub proof fn lemma_angle_with_opposite(v: Dipole, w: Dipole)
    requires
        v.x != 0 || v.y != 0 || v.z != 0,
        w.x == -v.x,
        w.y == -v.y,
        w.z == -v.z,
    ensures
        dot_spec(v, w) < 0,
        dot_spec(v, w) == -norm_sq_spec(v),
        dot_spec(v, w) * dot_spec(v, w) == norm_sq_spec(v) * norm_sq_spec(w),
{
    assert(v.x * w.x == -(v.x * v.x) && v.y * w.y == -(v.y * v.y) && v.z * w.z == -(v.z
        * v.z)) by (nonlinear_arith)
        requires
            w.x == -v.x && w.y == -v.y && w.z == -v.z,
    ;
    assert(w.x * w.x == v.x * v.x && w.y * w.y == v.y * v.y && w.z * w.z == v.z
        * v.z) by (nonlinear_arith)
        requires
            w.x == -v.x && w.y == -v.y && w.z == -v.z,
    ;
    lemma_angle_with_self(v);
    assert(dot_spec(v, w) == -norm_sq_spec(v));
    assert((-norm_sq_spec(v)) * (-norm_sq_spec(v)) == norm_sq_spec(v) * norm_sq_spec(
        v,
    )) by (nonlinear_arith);
}

} // verus!
