use effmu::agg::{dot_prd, map_dips_to_fragment, norm_sq, sum};
use effmu::extract::{parse_dipole_from_text, Dipole};
use effmu::frag::parse_fragments;
use effmu::num::FRAC_DIGITS;
use effmu::Error;

const UNIT: i128 = 1_000_000_000;

fn to_f64(units: i128) -> f64 {
    units as f64 / 1e9
}

fn length_of(v: &Dipole) -> f64 {
    (norm_sq(v) as f64).sqrt() / 1e9
}

fn angle_degrees(v1: &Dipole, v2: &Dipole) -> f64 {
    let dot = dot_prd(v1, v2) as f64;
    let denom = (norm_sq(v1) as f64).sqrt() * (norm_sq(v2) as f64).sqrt();
    let ratio = (dot / denom).clamp(-1.0, 1.0);
    ratio.acos() * 180.0 / std::f64::consts::PI
}

#[test]
fn sum_of_empty_is_exact_zero() {
    let t = sum(&[]);
    assert_eq!(t, Dipole::default());
    assert_eq!(t, Dipole { x: 0, y: 0, z: 0 });
    assert_eq!(UNIT, 10i128.pow(FRAC_DIGITS as u32));
}

#[test]
fn sum_adds_componentwise() {
    let a = Dipole { x: UNIT, y: 2 * UNIT, z: -UNIT };
    let b = Dipole { x: UNIT, y: -2 * UNIT, z: 3 * UNIT };
    let t = sum(&[a, b]);
    assert_eq!(t, Dipole { x: 2 * UNIT, y: 0, z: 2 * UNIT });
}

#[test]
fn angle_with_self_is_zero_degrees() {
    let v = Dipole { x: 3 * UNIT, y: -4 * UNIT, z: 12 * UNIT };
    let a = angle_degrees(&v, &v);
    assert!(a.abs() < 1e-6, "angle was {a}");
}

#[test]
fn angle_with_negation_is_180_degrees() {
    let v = Dipole { x: 3 * UNIT, y: -4 * UNIT, z: 12 * UNIT };
    let w = Dipole { x: -v.x, y: -v.y, z: -v.z };
    let a = angle_degrees(&v, &w);
    assert!((a - 180.0).abs() < 1e-6, "angle was {a}");
}

#[test]
fn mapping_unknown_fragment_index_fails() {
    let table = vec![Dipole { x: UNIT, y: 0, z: 0 }];
    let r = map_dips_to_fragment(&[1, 2], &table);
    assert_eq!(r.unwrap_err(), Error::UnknownAtomIndex);
    let r0 = map_dips_to_fragment(&[0], &table);
    assert_eq!(r0.unwrap_err(), Error::UnknownAtomIndex);
}

#[test]
fn mapping_preserves_listed_order() {
    let table = vec![
        Dipole { x: UNIT, y: 0, z: 0 },
        Dipole { x: 2 * UNIT, y: 0, z: 0 },
        Dipole { x: 3 * UNIT, y: 0, z: 0 },
    ];
    let sel = map_dips_to_fragment(&[3, 1], &table).unwrap();
    assert_eq!(sel.len(), 2);
    assert_eq!(sel[0], table[2]);
    assert_eq!(sel[1], table[0]);
}

#[test]
fn end_to_end_two_atoms() {
    // fragment 1 holds atom 1 = (1,0,0); fragment 2 holds atom 2 = (0,1,0)
    let frag_doc = "fragment1=[1]\nfragment2=[2]\n";
    let report = "\
t-density 2a\n\
2a dipole x\n\
1 a 0 1.0\n\
2 b 0 0.0\n\
total\n\
2a dipole y\n\
1 a 0 0.0\n\
2 b 0 1.0\n\
total\n\
2a dipole z\n\
1 a 0 0.0\n\
2 b 0 0.0\n\
total\n";
    let frags = parse_fragments(frag_doc.as_bytes()).unwrap();
    let table = parse_dipole_from_text(report.as_bytes(), "2a".as_bytes()).unwrap();
    let sel1 = map_dips_to_fragment(&frags.fragment1, &table).unwrap();
    let sel2 = map_dips_to_fragment(&frags.fragment2, &table).unwrap();
    let t1 = sum(&sel1);
    let t2 = sum(&sel2);
    assert_eq!(t1, Dipole { x: UNIT, y: 0, z: 0 });
    assert_eq!(t2, Dipole { x: 0, y: UNIT, z: 0 });
    let grand = sum(&[t1, t2]);
    assert_eq!(grand, Dipole { x: UNIT, y: UNIT, z: 0 });
    assert!((length_of(&t1) - 1.0).abs() < 1e-9);
    assert!((length_of(&t2) - 1.0).abs() < 1e-9);
    let a = angle_degrees(&t1, &t2);
    assert!((a - 90.0).abs() < 1e-9, "angle was {a}");
    assert_eq!(to_f64(grand.x), 1.0);
}
