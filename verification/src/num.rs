//! Exact fixed-point reading of the report's numeric tokens.
//!
//! Components are held in integer units of `10^-9`: the token `-0.00877`
//! becomes the mantissa `-8770000`.  The grammar accepted here is an optional
//! sign, a digit run, and an optional fraction after one `.`; at least one
//! digit must be present.  Up to nine significant integer digits are
//! supported, and fraction digits beyond the ninth are truncated.

use vstd::prelude::*;

verus! {

/// Number of fraction digits kept: one unit is `10^-FRAC_DIGITS`.
pub const FRAC_DIGITS: u64 = 9;

pub open spec fn pow10(e: nat) -> int
    decreases e,
{
    if e == 0 {
        1
    } else {
        10 * pow10((e - 1) as nat)
    }
}

pub open spec fn is_digit(c: u8) -> bool {
    48 <= c <= 57
}

pub open spec fn all_digits(s: Seq<u8>) -> bool {
    forall|k: int| 0 <= k < s.len() ==> is_digit(#[trigger] s[k])
}

/// The number written by a digit run, most significant digit first.
pub open spec fn digits_val(s: Seq<u8>) -> int
    decreases s.len(),
{
    if s.len() == 0 {
        0
    } else {
        digits_val(s.drop_last()) * 10 + (s.last() - 48)
    }
}

/// The digit run with its leading zeros removed.
pub open spec fn strip_zeros(s: Seq<u8>) -> Seq<u8>
    decreases s.len(),
{
    if s.len() > 0 && s[0] == 48 {
        strip_zeros(s.drop_first())
    } else {
        s
    }
}

/// Position of the first occurrence of `b`, if any.
pub open spec fn find_byte(s: Seq<u8>, b: u8) -> Option<int>
    decreases s.len(),
{
    if s.len() == 0 {
        None
    } else if s[0] == b {
        Some(0int)
    } else {
        match find_byte(s.drop_first(), b) {
            None => None,
            Some(i) => Some(i + 1),
        }
    }
}

/// Value of a fraction-digit run, scaled to `10^-9` units; digits beyond the
/// ninth are truncated.
pub open spec fn frac_val(fp: Seq<u8>) -> int {
    if fp.len() <= 9 {
        digits_val(fp) * pow10((9 - fp.len()) as nat)
    } else {
        digits_val(fp.take(9))
    }
}

/// A digit run acceptable as the integer part of a value: nonempty is not
/// required here, but all bytes are digits and at most nine of them are
/// significant.
pub open spec fn int_run_ok(s: Seq<u8>) -> bool {
    all_digits(s) && strip_zeros(s).len() <= 9
}

/// The exact scaled value of a decimal token, or `None` where the token does
/// not fit the accepted grammar.
pub open spec fn dec_val(t: Seq<u8>) -> Option<int> {
    let has_sign = t.len() > 0 && (t[0] == 43 || t[0] == 45);
    let sign: int = if t.len() > 0 && t[0] == 45 {
        -1
    } else {
        1
    };
    let body = if has_sign {
        t.drop_first()
    } else {
        t
    };
    match find_byte(body, 46) {
        None => if body.len() >= 1 && int_run_ok(body) {
            Some(sign * (digits_val(body) * pow10(9)))
        } else {
            None
        },
        Some(d) => {
            let ip = body.take(d);
            let fp = body.skip(d + 1);
            if ip.len() + fp.len() >= 1 && int_run_ok(ip) && all_digits(fp) {
                Some(sign * (digits_val(ip) * pow10(9) + frac_val(fp)))
            } else {
                None
            }
        },
    }
}

/// The value of an atom-index token: an optional `+`, then digits, with at
/// most nineteen of them significant.
pub open spec fn idx_val(t: Seq<u8>) -> Option<int> {
    let body = if t.len() > 0 && t[0] == 43 {
        t.drop_first()
    } else {
        t
    };
    if body.len() >= 1 && all_digits(body) && strip_zeros(body).len() <= 19 {
        Some(digits_val(body))
    } else {
        None
    }
}

pub proof fn lemma_pow10_pos(e: nat)
    ensures
        pow10(e) >= 1,
    decreases e,
{
    if e > 0 {
        lemma_pow10_pos((e - 1) as nat);
    }
}

pub proof fn lemma_pow10_mono(a: nat, b: nat)
    requires
        a <= b,
    ensures
        pow10(a) <= pow10(b),
    decreases b,
{
    if a < b {
        lemma_pow10_mono(a, (b - 1) as nat);
        lemma_pow10_pos((b - 1) as nat);
    }
}

pub proof fn lemma_pow10_adds(a: nat, b: nat)
    ensures
        pow10(a + b) == pow10(a) * pow10(b),
    decreases a,
{
    if a == 0 {
    } else {
        lemma_pow10_adds((a - 1) as nat, b);
        assert(pow10(a + b) == 10 * pow10((a + b - 1) as nat));
        assert(10 * (pow10((a - 1) as nat) * pow10(b)) == (10 * pow10((a - 1) as nat)) * pow10(
            b,
        )) by (nonlinear_arith);
    }
}

pub proof fn lemma_digits_val_bound(s: Seq<u8>)
    requires
        all_digits(s),
    ensures
        0 <= digits_val(s) < pow10(s.len()),
    decreases s.len(),
{
    if s.len() > 0 {
        assert(all_digits(s.drop_last())) by {
            assert(forall|k: int|
                0 <= k < s.len() - 1 ==> #[trigger] s.drop_last()[k] == s[k]);
        }
        lemma_digits_val_bound(s.drop_last());
        assert(pow10(s.len()) == 10 * pow10((s.len() - 1) as nat));
    }
}

/// Removing one leading zero does not change the number written.
proof fn lemma_leading_zero(s: Seq<u8>)
    requires
        s.len() > 0,
        s[0] == 48,
    ensures
        digits_val(s) == digits_val(s.drop_first()),
    decreases s.len(),
{
    if s.len() == 1 {
        assert(s.drop_first().len() == 0);
        assert(s.drop_last().len() == 0);
        assert(digits_val(s.drop_last()) == 0);
        assert(digits_val(s.drop_first()) == 0);
        assert(s.last() == 48);
        assert(digits_val(s) == digits_val(s.drop_last()) * 10 + (s.last() - 48));
    } else {
        assert(s.drop_last()[0] == 48);
        lemma_leading_zero(s.drop_last());
        assert(s.drop_last().drop_first() =~= s.drop_first().drop_last());
        assert(s.drop_first().last() == s.last());
        assert(digits_val(s) == digits_val(s.drop_last()) * 10 + (s.last() - 48));
        assert(s.drop_first().len() > 0);
        assert(digits_val(s.drop_first()) == digits_val(s.drop_first().drop_last()) * 10 + (
        s.drop_first().last() - 48));
        assert(digits_val(s.drop_last().drop_first()) == digits_val(s.drop_first().drop_last()));
        assert(digits_val(s.drop_first()) == digits_val(s.drop_last()) * 10 + (s.last() - 48));
    }
}

pub proof fn lemma_strip_zeros_val(s: Seq<u8>)
    ensures
        digits_val(strip_zeros(s)) == digits_val(s),
        strip_zeros(s).len() <= s.len(),
        all_digits(s) ==> all_digits(strip_zeros(s)),
    decreases s.len(),
{
    if s.len() > 0 && s[0] == 48 {
        lemma_leading_zero(s);
        lemma_strip_zeros_val(s.drop_first());
        if all_digits(s) {
            assert(forall|k: int|
                0 <= k < s.len() - 1 ==> #[trigger] s.drop_first()[k] == s[k + 1]);
        }
    }
}

/// A digit run with at most nine significant digits writes a number below
/// `10^9`.
pub proof fn lemma_int_run_bound(s: Seq<u8>)
    requires
        int_run_ok(s),
    ensures
        0 <= digits_val(s) < pow10(9),
{
    lemma_strip_zeros_val(s);
    lemma_digits_val_bound(strip_zeros(s));
    lemma_pow10_mono(strip_zeros(s).len() as nat, 9);
}

/// A fraction run scales to less than one whole unit, `10^9` ninths.
pub proof fn lemma_frac_val_bound(fp: Seq<u8>)
    requires
        all_digits(fp),
    ensures
        0 <= frac_val(fp) < pow10(9),
{
    if fp.len() <= 9 {
        lemma_digits_val_bound(fp);
        lemma_pow10_adds(fp.len() as nat, (9 - fp.len()) as nat);
        lemma_pow10_pos((9 - fp.len()) as nat);
        assert(digits_val(fp) * pow10((9 - fp.len()) as nat) <= (pow10(fp.len() as nat) - 1)
            * pow10((9 - fp.len()) as nat)) by (nonlinear_arith)
            requires
                digits_val(fp) <= pow10(fp.len() as nat) - 1,
                pow10((9 - fp.len()) as nat) >= 1,
        ;
        assert((pow10(fp.len() as nat) - 1) * pow10((9 - fp.len()) as nat) == pow10(
            fp.len() as nat,
        ) * pow10((9 - fp.len()) as nat) - pow10((9 - fp.len()) as nat)) by (nonlinear_arith);
        assert(digits_val(fp) * pow10((9 - fp.len()) as nat) >= 0) by (nonlinear_arith)
            requires
                digits_val(fp) >= 0,
                pow10((9 - fp.len()) as nat) >= 1,
        ;
    } else {
        assert(all_digits(fp.take(9))) by {
            assert(forall|k: int| 0 <= k < 9 ==> #[trigger] fp.take(9)[k] == fp[k]);
        }
        lemma_digits_val_bound(fp.take(9));
    }
}

/// Scanning justification for `find_byte`: if the first `m` bytes are not
/// `b`, the first occurrence is at `m` or nowhere.
pub proof fn lemma_find_byte_scan(s: Seq<u8>, b: u8, m: int)
    requires
        0 <= m <= s.len(),
        forall|k: int| 0 <= k < m ==> #[trigger] s[k] != b,
        m == s.len() || s[m] == b,
    ensures
        m == s.len() ==> find_byte(s, b) is None,
        m < s.len() ==> find_byte(s, b) == Some(m),
    decreases m,
{
    if m == 0 {
        if s.len() == 0 {
        } else {
            assert(s[0] == b);
        }
    } else {
        assert(s[0] != b);
        let s1 = s.drop_first();
        assert(forall|k: int| 0 <= k < m - 1 ==> #[trigger] s1[k] == s[k + 1]);
        assert(m - 1 < s1.len() ==> s1[m - 1] == s[m]);
        lemma_find_byte_scan(s1, b, m - 1);
    }
}

/// Scanning justification for `strip_zeros`: if exactly the first `m` bytes
/// are zeros, the stripped run is the rest.
pub proof fn lemma_strip_zeros_scan(s: Seq<u8>, m: int)
    requires
        0 <= m <= s.len(),
        forall|k: int| 0 <= k < m ==> #[trigger] s[k] == 48,
        m == s.len() || s[m] != 48,
    ensures
        strip_zeros(s) =~= s.skip(m),
    decreases m,
{
    if m == 0 {
    } else {
        let s1 = s.drop_first();
        assert(forall|k: int| 0 <= k < m - 1 ==> #[trigger] s1[k] == s[k + 1]);
        lemma_strip_zeros_scan(s1, m - 1);
        assert(s1.skip(m - 1) =~= s.skip(m));
    }
}

/// True exactly when every byte of `t[from..to]` is a decimal digit.
pub fn all_digits_range(t: &[u8], from: usize, to: usize) -> (b: bool)
    requires
        from <= to <= t@.len(),
    ensures
        b == all_digits(t@.subrange(from as int, to as int)),
{
    let ghost sub = t@.subrange(from as int, to as int);
    let mut j: usize = from;
    while j < to
        invariant
            from <= j <= to <= t@.len(),
            sub == t@.subrange(from as int, to as int),
            forall|k: int| 0 <= k < j - from ==> is_digit(#[trigger] sub[k]),
        decreases to - j,
    {
        let c = t[j];
        assert(sub[j - from] == c);
        if !(48 <= c && c <= 57) {
            assert(!is_digit(sub[j - from]));
            return false;
        }
        j += 1;
    }
    true
}

/// First position at or after `from` (up to `to`) whose byte is not `0`.
pub fn skip_zeros_range(t: &[u8], from: usize, to: usize) -> (m: usize)
    requires
        from <= to <= t@.len(),
    ensures
        from <= m <= to,
        strip_zeros(t@.subrange(from as int, to as int)) =~= t@.subrange(m as int, to as int),
{
    let ghost sub = t@.subrange(from as int, to as int);
    let mut m: usize = from;
    while m < to && t[m] == 48
        invariant
            from <= m <= to <= t@.len(),
            sub == t@.subrange(from as int, to as int),
            forall|k: int| 0 <= k < m - from ==> #[trigger] sub[k] == 48,
        decreases to - m,
    {
        assert(sub[m - from] == t@[m as int]);
        m += 1;
    }
    proof {
        if m < to {
            assert(sub[m - from] == t@[m as int]);
        }
        lemma_strip_zeros_scan(sub, m - from);
        assert(sub.skip(m - from) =~= t@.subrange(m as int, to as int));
    }
    m
}

/// The number written by the digit run `t[from..to]`.
pub fn digits_value_range(t: &[u8], from: usize, to: usize) -> (v: u64)
    requires
        from <= to <= t@.len(),
        to - from <= 19,
        all_digits(t@.subrange(from as int, to as int)),
    ensures
        v == digits_val(t@.subrange(from as int, to as int)),
        v < pow10((to - from) as nat),
{
    let ghost sub = t@.subrange(from as int, to as int);
    proof {
        lemma_digits_val_bound(sub);
    }
    let mut v: u64 = 0;
    let mut j: usize = from;
    while j < to
        invariant
            from <= j <= to <= t@.len(),
            to - from <= 19,
            sub == t@.subrange(from as int, to as int),
            all_digits(sub),
            v == digits_val(sub.take(j - from)),
            v < pow10((j - from) as nat),
        decreases to - j,
    {
        let ghost pre = sub.take(j - from);
        proof {
            assert(all_digits(pre)) by {
                assert(forall|k: int| 0 <= k < pre.len() ==> #[trigger] pre[k] == sub[k]);
            }
            lemma_pow10_mono((j - from) as nat, 18);
            assert(pow10(18) == 1000000000000000000) by {
                reveal_with_fuel(pow10, 19);
            }
        }
        let c = t[j];
        assert(sub[j - from] == c);
        assert(is_digit(c));
        v = v * 10 + ((c - 48) as u64);
        proof {
            let post = sub.take(j + 1 - from);
            assert(post.drop_last() =~= pre);
            assert(post.last() == sub[j - from]);
            assert(pow10((j + 1 - from) as nat) == 10 * pow10((j - from) as nat));
        }
        j += 1;
    }
    assert(sub.take(to - from) =~= sub);
    v
}

/// Position of the first `b` in `t[from..to]`, reported relative to `t`.
pub fn find_byte_in_range(t: &[u8], from: usize, to: usize, b: u8) -> (r: Option<usize>)
    requires
        from <= to <= t@.len(),
    ensures
        ({
            let sub = t@.subrange(from as int, to as int);
            match r {
                Some(dj) => from <= dj < to && find_byte(sub, b) == Some(dj - from),
                None => find_byte(sub, b) is None,
            }
        }),
{
    let ghost sub = t@.subrange(from as int, to as int);
    let mut j: usize = from;
    while j < to
        invariant
            from <= j <= to <= t@.len(),
            sub == t@.subrange(from as int, to as int),
            forall|k: int| 0 <= k < j - from ==> #[trigger] sub[k] != b,
        decreases to - j,
    {
        let c = t[j];
        assert(sub[j - from] == c);
        if c == b {
            proof {
                lemma_find_byte_scan(sub, b, j - from);
            }
            return Some(j);
        }
        j += 1;
    }
    proof {
        lemma_find_byte_scan(sub, b, to - from);
    }
    None
}

/// Reads a decimal token into `10^-9` fixed-point units.
///
/// Returns exactly the value that [`dec_val`] gives the token, and `None`
/// exactly where the token is outside the accepted grammar.
#[verifier::rlimit(50)]
pub fn parse_dec_token(t: &[u8]) -> (r: Option<i64>)
    ensures
        r is Some <==> dec_val(t@) is Some,
        r matches Some(v) ==> dec_val(t@) == Some(v as int) && -1000000000000000000 < v
            < 1000000000000000000,
{
    let n = t.len();
    let mut start: usize = 0;
    let mut neg = false;
    if n > 0 && (t[0] == 43 || t[0] == 45) {
        neg = t[0] == 45;
        start = 1;
    }
    let ghost body = t@.subrange(start as int, n as int);
    proof {
        if start == 1 {
            assert(body =~= t@.drop_first());
        } else {
            assert(body =~= t@);
        }
        assert(pow10(9) == 1000000000) by {
            reveal_with_fuel(pow10, 10);
        }
        assert(pow10(9) * pow10(9) == 1000000000000000000) by (nonlinear_arith)
            requires
                pow10(9) == 1000000000,
        ;
    }
    let dot = find_byte_in_range(t, start, n, 46);
    match dot {
        None => {
            if n == start {
                return None;
            }
            if !all_digits_range(t, start, n) {
                return None;
            }
            let m = skip_zeros_range(t, start, n);
            if n - m > 9 {
                return None;
            }
            proof {
                lemma_strip_zeros_val(body);
                assert(t@.subrange(m as int, n as int).len() == n - m);
            }
            let v = digits_value_range(t, m, n);
            proof {
                lemma_int_run_bound(body);
                assert(digits_val(body) * pow10(9) < pow10(9) * pow10(9)) by (nonlinear_arith)
                    requires
                        0 <= digits_val(body) < pow10(9),
                        pow10(9) >= 1,
                ;
                assert(digits_val(body) * pow10(9) >= 0) by (nonlinear_arith)
                    requires
                        digits_val(body) >= 0,
                        pow10(9) >= 1,
                ;
            }
            let scaled: u64 = v * 1000000000;
            assert(scaled == digits_val(body) * pow10(9));
            proof {
                assert(scaled < 1000000000000000000);
                if neg {
                    assert(dec_val(t@) == Some(-1 * (digits_val(body) * pow10(9))));
                } else {
                    assert(dec_val(t@) == Some(digits_val(body) * pow10(9)));
                }
            }
            if neg {
                let out: i64 = -(scaled as i64);
                assert(out as int == -1 * (digits_val(body) * pow10(9)));
                Some(out)
            } else {
                let out: i64 = scaled as i64;
                assert(out as int == digits_val(body) * pow10(9));
                Some(out)
            }
        },
        Some(dj) => {
            let ghost ip = body.take(dj - start);
            let ghost fp = body.skip(dj - start + 1);
            proof {
                assert(ip =~= t@.subrange(start as int, dj as int));
                assert(fp =~= t@.subrange(dj + 1, n as int));
            }
            if dj == start && dj + 1 == n {
                // the token is only a dot (after any sign)
                return None;
            }
            if !all_digits_range(t, start, dj) {
                return None;
            }
            if !all_digits_range(t, dj + 1, n) {
                return None;
            }
            let m = skip_zeros_range(t, start, dj);
            if dj - m > 9 {
                return None;
            }
            proof {
                lemma_strip_zeros_val(ip);
                assert(t@.subrange(m as int, dj as int).len() == dj - m);
            }
            let ipv = digits_value_range(t, m, dj);
            proof {
                lemma_int_run_bound(ip);
                lemma_frac_val_bound(fp);
                assert(digits_val(ip) * pow10(9) <= (pow10(9) - 1) * pow10(9)) by (nonlinear_arith)
                    requires
                        0 <= digits_val(ip) <= pow10(9) - 1,
                        pow10(9) >= 1,
                ;
                assert((pow10(9) - 1) * pow10(9) == pow10(9) * pow10(9) - pow10(9))
                    by (nonlinear_arith);
                assert(digits_val(ip) * pow10(9) >= 0) by (nonlinear_arith)
                    requires
                        digits_val(ip) >= 0,
                        pow10(9) >= 1,
                ;
            }
            let fv: u64 = if n - (dj + 1) <= 9 {
                let raw = digits_value_range(t, dj + 1, n);
                let scale = pow10_u64((9 - (n - (dj + 1))) as u64);
                proof {
                    lemma_pow10_adds((n - (dj + 1)) as nat, (9 - (n - (dj + 1))) as nat);
                    lemma_pow10_pos((9 - (n - (dj + 1))) as nat);
                    assert(digits_val(fp) * pow10((9 - fp.len()) as nat) < pow10(fp.len() as nat)
                        * pow10((9 - fp.len()) as nat)) by (nonlinear_arith)
                        requires
                            0 <= digits_val(fp) < pow10(fp.len() as nat),
                            pow10((9 - fp.len()) as nat) >= 1,
                    ;
                }
                raw * scale
            } else {
                proof {
                    assert(fp.take(9) =~= t@.subrange(dj + 1, dj + 10));
                    assert(all_digits(fp.take(9))) by {
                        assert(forall|k: int|
                            0 <= k < 9 ==> #[trigger] fp.take(9)[k] == fp[k]);
                    }
                }
                digits_value_range(t, dj + 1, dj + 10)
            };
            assert(fv == frac_val(fp));
            assert(0 <= frac_val(fp) < pow10(9));
            let scaled: u64 = ipv * 1000000000 + fv;
            assert(scaled == digits_val(ip) * pow10(9) + frac_val(fp));
            if neg {
                Some(-(scaled as i64))
            } else {
                Some(scaled as i64)
            }
        },
    }
}

/// `10^e` for small exponents.
pub fn pow10_u64(e: u64) -> (r: u64)
    requires
        e <= 19,
    ensures
        r == pow10(e as nat),
{
    proof {
        assert(pow10(19) == 10000000000000000000) by {
            reveal_with_fuel(pow10, 20);
        }
    }
    let mut r: u64 = 1;
    let mut i: u64 = 0;
    while i < e
        invariant
            i <= e <= 19,
            r == pow10(i as nat),
            pow10(19) == 10000000000000000000,
        decreases e - i,
    {
        proof {
            lemma_pow10_mono((i + 1) as nat, 19);
            assert(pow10((i + 1) as nat) == 10 * pow10(i as nat));
        }
        r = r * 10;
        i += 1;
    }
    r
}

/// Reads an atom-index token.
///
/// Returns exactly the value that [`idx_val`] gives the token, and `None`
/// exactly where the token is outside the accepted grammar.
pub fn parse_idx_token(t: &[u8]) -> (r: Option<u64>)
    ensures
        r is Some <==> idx_val(t@) is Some,
        r is Some ==> r.unwrap() == idx_val(t@).unwrap(),
{
    let n = t.len();
    let mut start: usize = 0;
    if n > 0 && t[0] == 43 {
        start = 1;
    }
    let ghost body = t@.subrange(start as int, n as int);
    proof {
        if start == 1 {
            assert(body =~= t@.drop_first());
        } else {
            assert(body =~= t@);
        }
    }
    if n == start {
        return None;
    }
    if !all_digits_range(t, start, n) {
        return None;
    }
    let m = skip_zeros_range(t, start, n);
    if n - m > 19 {
        return None;
    }
    proof {
        lemma_strip_zeros_val(body);
        assert(t@.subrange(m as int, n as int).len() == n - m);
    }
    let v = digits_value_range(t, m, n);
    Some(v)
}

} // verus!
