use effmu::extract::{parse_dipole_from_text, Dipole};
use effmu::frag::{parse_fragments, Fragments};
use effmu::num::{parse_dec_token, parse_idx_token};
use effmu::Error;

fn report_2a() -> String {
    let mut s = String::new();
    s.push_str("some header text\n");
    s.push_str("  t-density for state  1a\n");
    s.push_str("  1a  dipole  x\n");
    s.push_str("  1  c  1.0  0.5\n");
    s.push_str("total 0.5\n");
    s.push_str("  1a  dipole  y\n");
    s.push_str("  1  c  1.0  0.5\n");
    s.push_str("total 0.5\n");
    s.push_str("  1a  dipole  z\n");
    s.push_str("  1  c  1.0  0.5\n");
    s.push_str("total 0.5\n");
    s.push_str("  t-density for state  2a\n");
    s.push_str("  2a  dipole  x\n");
    s.push_str("  1  c  1.000  -0.00877\n");
    s.push_str("  2  h  1.000  0.00123\n");
    s.push_str("total        -0.00754\n");
    s.push_str("  2a  dipole  y\n");
    s.push_str("  2  h  1.000  0.00456\n");
    s.push_str("  1  c  1.000  -0.00950\n");
    s.push_str("total        -0.00494\n");
    s.push_str("  2a  dipole  z\n");
    s.push_str("  1  c  1.000  -0.01102\n");
    s.push_str("  2  h  1.000  0.00789\n");
    s.push_str("total        -0.00313\n");
    s
}

#[test]
fn test_parse_fragment_toml_file() {
    let frags: Fragments = parse_fragments(
        "\n        fragment1=[1,2,3]\n        fragment2=[4,5,6]".as_bytes(),
    )
    .unwrap();
    let expected = Fragments::new(&[1_usize, 2, 3], &[4_usize, 5, 6]);
    assert_eq!(frags, expected)
}

#[test]
fn test_parse_dipole_from_prp() {
    // the fixture section for state 2a, atom 1 = (-0.00877, -0.00950, -0.01102)
    let text = report_2a();
    let line = parse_dipole_from_text(text.as_bytes(), "2a".as_bytes()).unwrap();
    assert_eq!(
        line[0],
        Dipole {
            x: -8770000,
            y: -9500000,
            z: -11020000
        }
    )
}

#[test]
fn extract_skips_earlier_state_sections() {
    let text = report_2a();
    let table = parse_dipole_from_text(text.as_bytes(), "2a".as_bytes()).unwrap();
    assert_eq!(table.len(), 2);
    // the y-block listed atom 2 before atom 1; values are keyed by index
    assert_eq!(
        table[1],
        Dipole {
            x: 1230000,
            y: 4560000,
            z: 7890000
        }
    );
}

#[test]
fn extract_reorders_rows_by_atom_index() {
    // x defines three atoms in file order; y and z list them shuffled
    let text = "\
t-density 3b\n\
3b dipole x\n\
1 a 0 1.5\n\
2 b 0 2.5\n\
3 c 0 3.5\n\
total\n\
3b dipole y\n\
3 c 0 30.0\n\
1 a 0 10.0\n\
2 b 0 20.0\n\
total\n\
3b dipole z\n\
2 b 0 200.0\n\
3 c 0 300.0\n\
1 a 0 100.0\n\
total\n";
    let table = parse_dipole_from_text(text.as_bytes(), "3b".as_bytes()).unwrap();
    assert_eq!(table.len(), 3);
    assert_eq!(table[0], Dipole { x: 1500000000, y: 10000000000, z: 100000000000 });
    assert_eq!(table[1], Dipole { x: 2500000000, y: 20000000000, z: 200000000000 });
    assert_eq!(table[2], Dipole { x: 3500000000, y: 30000000000, z: 300000000000 });
}

#[test]
fn extract_missing_terminator_is_unexpected_eof() {
    let text = "t-density 2a\n2a dipole x\n1 c 0 1.0\n";
    let r = parse_dipole_from_text(text.as_bytes(), "2a".as_bytes());
    assert_eq!(r.unwrap_err(), Error::UnexpectedEof);
}

#[test]
fn extract_missing_terminator_in_y_block_is_unexpected_eof() {
    let text = "t-density 2a\n2a dipole x\n1 c 0 1.0\ntotal\n2a dipole y\n1 c 0 1.0\n";
    let r = parse_dipole_from_text(text.as_bytes(), "2a".as_bytes());
    assert_eq!(r.unwrap_err(), Error::UnexpectedEof);
}

#[test]
fn extract_unknown_atom_index_in_y_block() {
    let text =
        "t-density 2a\n2a dipole x\n1 c 0 1.0\ntotal\n2a dipole y\n2 c 0 1.0\ntotal\n2a dipole z\n1 c 0 1.0\ntotal\n";
    let r = parse_dipole_from_text(text.as_bytes(), "2a".as_bytes());
    assert_eq!(r.unwrap_err(), Error::UnknownAtomIndex);
}

#[test]
fn extract_zero_atom_index_is_unknown() {
    let text =
        "t-density 2a\n2a dipole x\n1 c 0 1.0\ntotal\n2a dipole y\n0 c 0 1.0\ntotal\n2a dipole z\n1 c 0 1.0\ntotal\n";
    let r = parse_dipole_from_text(text.as_bytes(), "2a".as_bytes());
    assert_eq!(r.unwrap_err(), Error::UnknownAtomIndex);
}

#[test]
fn extract_unknown_state_is_pattern_not_found() {
    let text = report_2a();
    let r = parse_dipole_from_text(text.as_bytes(), "9z".as_bytes());
    assert_eq!(r.unwrap_err(), Error::PatternNotFound);
}

#[test]
fn extract_malformed_value_token() {
    let text = "t-density 2a\n2a dipole x\n1 c 0 abc\ntotal\n";
    let r = parse_dipole_from_text(text.as_bytes(), "2a".as_bytes());
    assert_eq!(r.unwrap_err(), Error::MalformedRow);
}

#[test]
fn extract_short_row_is_malformed() {
    let text = "t-density 2a\n2a dipole x\n1 c 1.0\ntotal\n";
    let r = parse_dipole_from_text(text.as_bytes(), "2a".as_bytes());
    assert_eq!(r.unwrap_err(), Error::MalformedRow);
}

#[test]
fn decimal_tokens_exact_values() {
    assert_eq!(parse_dec_token("1.5".as_bytes()), Some(1500000000));
    assert_eq!(parse_dec_token("-0.25".as_bytes()), Some(-250000000));
    assert_eq!(parse_dec_token("+3".as_bytes()), Some(3000000000));
    assert_eq!(parse_dec_token("007".as_bytes()), Some(7000000000));
    assert_eq!(parse_dec_token(".5".as_bytes()), Some(500000000));
    assert_eq!(parse_dec_token("1.".as_bytes()), Some(1000000000));
    assert_eq!(parse_dec_token("0.123456789123".as_bytes()), Some(123456789));
}

#[test]
fn decimal_tokens_rejected() {
    assert_eq!(parse_dec_token("".as_bytes()), None);
    assert_eq!(parse_dec_token("-".as_bytes()), None);
    assert_eq!(parse_dec_token(".".as_bytes()), None);
    assert_eq!(parse_dec_token("1.2.3".as_bytes()), None);
    assert_eq!(parse_dec_token("abc".as_bytes()), None);
    assert_eq!(parse_dec_token("1e5".as_bytes()), None);
    assert_eq!(parse_dec_token("1234567890".as_bytes()), None);
}

#[test]
fn index_tokens() {
    assert_eq!(parse_idx_token("12".as_bytes()), Some(12));
    assert_eq!(parse_idx_token("+7".as_bytes()), Some(7));
    assert_eq!(parse_idx_token("007".as_bytes()), Some(7));
    assert_eq!(parse_idx_token("".as_bytes()), None);
    assert_eq!(parse_idx_token("-1".as_bytes()), None);
    assert_eq!(parse_idx_token("1.5".as_bytes()), None);
}

#[test]
fn fragments_with_comments_and_unknown_keys() {
    let text = "# a comment line\ntitle = \"x\"\nfragment1 = [ 2 , 1 ]\n\nfragment2 = []\n";
    let frags = parse_fragments(text.as_bytes()).unwrap();
    assert_eq!(frags.fragment1, vec![2, 1]);
    assert_eq!(frags.fragment2, Vec::<usize>::new());
}

#[test]
fn fragments_missing_key_fails() {
    let r = parse_fragments("fragment1=[1]\n".as_bytes());
    assert_eq!(r.unwrap_err(), Error::StructuredParseFailure);
}

#[test]
fn fragments_duplicate_key_fails() {
    let r = parse_fragments("fragment1=[1]\nfragment2=[2]\nfragment1=[3]\n".as_bytes());
    assert_eq!(r.unwrap_err(), Error::StructuredParseFailure);
}

#[test]
fn fragments_malformed_line_fails() {
    let r = parse_fragments("fragment1=[1]\nnonsense line\nfragment2=[2]\n".as_bytes());
    assert_eq!(r.unwrap_err(), Error::StructuredParseFailure);
    let r2 = parse_fragments("fragment1=[1,x]\nfragment2=[2]\n".as_bytes());
    assert_eq!(r2.unwrap_err(), Error::StructuredParseFailure);
}
