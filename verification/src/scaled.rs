//! Decimal numbers of the persistence format.
//!
//! Every number in a group document is a non-negative amount of
//! micro-units: one unit is written `1.0`, half a unit `0.5`.  The
//! canonical rendering is the minimal integer part, a dot, and the
//! fraction digits with trailing zeros removed (at least one digit, so a
//! whole number ends in `.0`).  Parsing accepts up to twelve integer and
//! six fraction digits.

use vstd::prelude::*;

use crate::text::{
    digit_run_len, digit_run_len_exec, dec_min, dec_width, dec_width_exec, fixed_r, is_dec_digit,
    lemma_dec_width_bound, lemma_digit_run_of, lemma_fixed_r_digits, lemma_fixed_r_len,
    lemma_fixed_r_parse, lemma_pow_r_add, lemma_pow_r_increases, lemma_pow_r_pos,
    lemma_parse_fixed_r_bound, parse_fixed_r, parse_fixed_r_exec, pow_r, pow_r_exec, write_fixed_r,
};
use vstd::arithmetic::div_mod::{lemma_breakdown, lemma_div_denominator};

verus! {

/// Number of micro-units in one unit.
pub const SCALE_MICRO: u64 = 1_000_000;

/// Largest amount of micro-units a document number may carry: twelve
/// integer digits and six fraction digits.
pub const MAX_SCALED: u64 = 999_999_999_999_999_999;

/// Removes trailing `'0'` characters.
pub open spec fn strip_zeros(s: Seq<char>) -> Seq<char>
    decreases s.len(),
{
    if s.len() > 0 && s.last() == '0' {
        strip_zeros(s.drop_last())
    } else {
        s
    }
}

/// The canonical fraction digits of `f` micro-units within one unit.
pub open spec fn frac_digits(f: int) -> Seq<char> {
    if f == 0 {
        seq!['0']
    } else {
        strip_zeros(fixed_r(10, f, 6))
    }
}

/// The canonical rendering of `m` micro-units.
pub open spec fn ser_scaled(m: int) -> Seq<char> {
    dec_min(m / (SCALE_MICRO as int)) + seq!['.'] + frac_digits(m % (SCALE_MICRO as int))
}

/// Reads a scaled number at `i`: a run of integer digits, a dot, and a
/// run of fraction digits; yields the micro-unit value and the position
/// just past the last fraction digit.
pub open spec fn parse_scaled(s: Seq<char>, i: int) -> Option<(int, int)> {
    let li = digit_run_len(s, i) as int;
    if li == 0 || li > 12 {
        None
    } else {
        match parse_fixed_r(s, i, 10, li as nat) {
            Some(q) => {
                let j = i + li;
                if j < s.len() && s[j] == '.' {
                    let lf = digit_run_len(s, j + 1) as int;
                    if lf == 0 || lf > 6 {
                        None
                    } else {
                        match parse_fixed_r(s, j + 1, 10, lf as nat) {
                            Some(f) => Some(
                                (
                                    q * (SCALE_MICRO as int) + f * pow_r(10, (6 - lf) as nat),
                                    j + 1 + lf,
                                ),
                            ),
                            None => None,
                        }
                    }
                } else {
                    None
                }
            },
            None => None,
        }
    }
}

pub proof fn lemma_pow10_literals()
    ensures
        pow_r(10, 6) == 1_000_000,
        pow_r(10, 12) == 1_000_000_000_000,
        pow_r(10, 18) == 1_000_000_000_000_000_000,
{
    reveal_with_fuel(pow_r, 19);
}

/// A successfully parsed scaled number lies within the supported range.
pub proof fn lemma_parse_scaled_bound(s: Seq<char>, i: int)
    requires
        parse_scaled(s, i) is Some,
    ensures
        0 <= parse_scaled(s, i).unwrap().0 <= MAX_SCALED as int,
        i < parse_scaled(s, i).unwrap().1 <= s.len(),
{
    let li = digit_run_len(s, i) as int;
    let q = parse_fixed_r(s, i, 10, li as nat).unwrap();
    let j = i + li;
    let lf = digit_run_len(s, j + 1) as int;
    let f = parse_fixed_r(s, j + 1, 10, lf as nat).unwrap();
    lemma_parse_fixed_r_bound(s, i, 10, li as nat);
    lemma_parse_fixed_r_bound(s, j + 1, 10, lf as nat);
    lemma_pow_r_increases(10, li as nat, 12);
    lemma_pow10_literals();
    lemma_pow_r_pos(10, (6 - lf) as nat);
    lemma_pow_r_add(10, lf as nat, (6 - lf) as nat);
    assert(f * pow_r(10, (6 - lf) as nat) <= (pow_r(10, lf as nat) - 1) * pow_r(
        10,
        (6 - lf) as nat,
    )) by (nonlinear_arith)
        requires
            f <= pow_r(10, lf as nat) - 1,
            pow_r(10, (6 - lf) as nat) >= 1,
    ;
    assert((pow_r(10, lf as nat) - 1) * pow_r(10, (6 - lf) as nat) == pow_r(10, lf as nat) * pow_r(
        10,
        (6 - lf) as nat,
    ) - pow_r(10, (6 - lf) as nat)) by (nonlinear_arith);
    assert(q * 1_000_000 <= (pow_r(10, 12) - 1) * 1_000_000) by (nonlinear_arith)
        requires
            q <= pow_r(10, 12) - 1,
    ;
    assert(0 <= q * 1_000_000) by (nonlinear_arith)
        requires
            q >= 0,
    ;
    assert(0 <= f * pow_r(10, (6 - lf) as nat)) by (nonlinear_arith)
        requires
            f >= 0,
            pow_r(10, (6 - lf) as nat) >= 1,
    ;
    assert(digit_run_len(s, i) <= s.len() - i) by {
        lemma_digit_run_le(s, i);
    }
    assert(digit_run_len(s, j + 1) <= s.len() - j - 1) by {
        lemma_digit_run_le(s, j + 1);
    }
}

pub proof fn lemma_digit_run_le(s: Seq<char>, i: int)
    requires
        i <= s.len(),
    ensures
        i + digit_run_len(s, i) <= s.len(),
    decreases s.len() - i,
{
    if 0 <= i && i < s.len() && is_dec_digit(s[i]) {
        lemma_digit_run_le(s, i + 1);
    }
}

/// Parses a scaled number, matching [`parse_scaled`] exactly.
pub fn parse_scaled_exec(s: &Vec<char>, i: usize) -> (res: Option<(u64, usize)>)
    requires
        i <= s@.len(),
    ensures
        match res {
            Some(p) => parse_scaled(s@, i as int) == Some((p.0 as int, p.1 as int)) && i < p.1
                <= s@.len() && p.0 <= MAX_SCALED,
            None => parse_scaled(s@, i as int) is None,
        },
{
    let slen = s.len();
    let li = digit_run_len_exec(s, i);
    if li == 0 || li > 12 {
        return None;
    }
    proof {
        assert(i + li <= slen);
    }
    let q128 = match parse_fixed_r_exec(s, i, 10, li) {
        Some(v) => v,
        None => {
            return None;
        },
    };
    proof {
        lemma_parse_fixed_r_bound(s@, i as int, 10, li as nat);
        lemma_pow_r_increases(10, li as nat, 12);
        lemma_pow10_literals();
    }
    let q = q128 as u64;
    let j = i + li;
    if j >= s.len() {
        return None;
    }
    if s[j] != '.' {
        return None;
    }
    let lf = digit_run_len_exec(s, j + 1);
    if lf == 0 || lf > 6 {
        return None;
    }
    let fwide = match parse_fixed_r_exec(s, j + 1, 10, lf) {
        Some(v) => v,
        None => {
            return None;
        },
    };
    proof {
        lemma_parse_fixed_r_bound(s@, j as int + 1, 10, lf as nat);
        lemma_pow_r_increases(10, lf as nat, 6);
        lemma_pow_r_pos(10, (6 - lf) as nat);
        lemma_pow_r_add(10, lf as nat, (6 - lf) as nat);
        assert((fwide as int) * pow_r(10, (6 - lf) as nat) < pow_r(10, lf as nat) * pow_r(
            10,
            (6 - lf) as nat,
        )) by (nonlinear_arith)
            requires
                (fwide as int) < pow_r(10, lf as nat),
                0 <= fwide as int,
                pow_r(10, (6 - lf) as nat) >= 1,
        ;
        assert((q as int) * 1_000_000 <= (pow_r(10, 12) - 1) * 1_000_000) by (nonlinear_arith)
            requires
                (q as int) <= pow_r(10, 12) - 1,
        ;
        assert(0 <= (q as int) * 1_000_000) by (nonlinear_arith)
            requires
                0 <= q as int,
        ;
        assert(0 <= (fwide as int) * pow_r(10, (6 - lf) as nat)) by (nonlinear_arith)
            requires
                0 <= fwide as int,
                pow_r(10, (6 - lf) as nat) >= 1,
        ;
        lemma_pow_r_increases(10, (6 - lf) as nat, 6);
        assert(pow_r(10, lf as nat) * pow_r(10, (6 - lf) as nat) == pow_r(10, 6));
    }
    let f = fwide as u64;
    let p = pow_r_exec(10, 6 - lf) as u64;
    let m = q * SCALE_MICRO + f * p;
    Some((m, j + 1 + lf))
}

/// Writing helper facts about the fraction digits.
pub proof fn lemma_strip_zeros_len(s: Seq<char>)
    ensures
        strip_zeros(s).len() <= s.len(),
    decreases s.len(),
{
    if s.len() > 0 && s.last() == '0' {
        lemma_strip_zeros_len(s.drop_last());
    }
}

/// The last digit of a fixed-width rendering is the value's last digit.
pub proof fn lemma_fixed_r_back(r: int, v: int, n: nat)
    requires
        r == 10 || r == 16,
        0 <= v,
        n >= 1,
    ensures
        fixed_r(r, v, n) == fixed_r(r, v / r, (n - 1) as nat).push(crate::text::digit_char(v % r)),
    decreases n,
{
    lemma_fixed_r_len(r, v, n);
    lemma_fixed_r_len(r, v / r, (n - 1) as nat);
    if n == 1 {
        assert(pow_r(r, 0) == 1);
        assert(v / 1 == v);
        assert(fixed_r(r, v, 1) =~= fixed_r(r, v / r, 0).push(crate::text::digit_char(v % r)));
    } else {
        let p = pow_r(r, (n - 2) as nat);
        lemma_pow_r_pos(r, (n - 2) as nat);
        assert(pow_r(r, (n - 1) as nat) == r * p);
        lemma_breakdown(v, r, p);
        // v % (r * p) == r * ((v / r) % p) + v % r
        assert(0 <= v % r < r);
        assert(0 <= v % (r * p)) by (nonlinear_arith)
            requires
                0 < r * p,
                0 <= v,
        ;
        lemma_fixed_r_back(r, v % (r * p), (n - 1) as nat);
        // (v % (r*p)) / r == (v / r) % p and (v % (r*p)) % r == v % r
        assert((r * ((v / r) % p) + v % r) / r == (v / r) % p + (v % r) / r) by (nonlinear_arith)
            requires
                r >= 2,
                0 <= (v / r) % p,
                0 <= v % r < r,
        ;
        assert((v % r) / r == 0);
        assert((r * ((v / r) % p) + v % r) % r == v % r) by (nonlinear_arith)
            requires
                r >= 2,
                0 <= (v / r) % p,
                0 <= v % r < r,
        ;
        lemma_div_denominator(v, r, p);
        // v / (r * p) == (v / r) / p, so the leading digits agree
        assert((v / r) / p == v / (r * p));
        assert((v / r) / p % r == v / (r * p) % r);
        assert(fixed_r(r, v, n) == seq![crate::text::digit_char(v / (r * p) % r)] + fixed_r(
            r,
            v % (r * p),
            (n - 1) as nat,
        ));
        assert(fixed_r(r, v / r, (n - 1) as nat) == seq![
            crate::text::digit_char((v / r) / p % r),
        ] + fixed_r(r, (v / r) % p, (n - 2) as nat));
        assert(fixed_r(r, v, n) =~= fixed_r(r, v / r, (n - 1) as nat).push(
            crate::text::digit_char(v % r),
        ));
    }
}

/// How the stripped fraction digits relate to the fraction value: they
/// are a non-empty digit string whose value, scaled back up by the
/// removed width, is the fraction itself.
pub proof fn lemma_frac_parse(s: Seq<char>, i: int, f: int, w: nat)
    requires
        0 < f < pow_r(10, w),
        w >= 1,
        0 <= i,
        i + strip_zeros(fixed_r(10, f, w)).len() <= s.len(),
        s.subrange(i, i + strip_zeros(fixed_r(10, f, w)).len() as int) == strip_zeros(
            fixed_r(10, f, w),
        ),
        i + strip_zeros(fixed_r(10, f, w)).len() == s.len() || !is_dec_digit(
            s[i + strip_zeros(fixed_r(10, f, w)).len() as int],
        ),
    ensures
        1 <= strip_zeros(fixed_r(10, f, w)).len() <= w,
        digit_run_len(s, i) == strip_zeros(fixed_r(10, f, w)).len(),
        parse_fixed_r(s, i, 10, strip_zeros(fixed_r(10, f, w)).len()) matches Some(u) && u * pow_r(
            10,
            (w - strip_zeros(fixed_r(10, f, w)).len()) as nat,
        ) == f,
    decreases w,
{
    let fd = strip_zeros(fixed_r(10, f, w));
    lemma_fixed_r_back(10, f, w);
    if f % 10 == 0 {
        // the full rendering ends in '0', which strip_zeros removes
        assert(crate::text::digit_char(f % 10) == '0');
        assert(fixed_r(10, f, w).last() == '0');
        assert(fixed_r(10, f, w).drop_last() =~= fixed_r(10, f / 10, (w - 1) as nat));
        assert(fd == strip_zeros(fixed_r(10, f / 10, (w - 1) as nat)));
        assert(f >= 10) by (nonlinear_arith)
            requires
                f % 10 == 0,
                f > 0,
        ;
        assert(0 < f / 10) by (nonlinear_arith)
            requires
                f >= 10,
        ;
        assert(f / 10 < pow_r(10, (w - 1) as nat)) by (nonlinear_arith)
            requires
                f < pow_r(10, w),
                pow_r(10, w) == 10 * pow_r(10, (w - 1) as nat),
        ;
        assert(w - 1 >= 1) by {
            if w == 1 {
                assert(pow_r(10, 1) == 10) by {
                    reveal_with_fuel(pow_r, 2);
                }
            }
        }
        lemma_frac_parse(s, i, f / 10, (w - 1) as nat);
        let u = parse_fixed_r(s, i, 10, fd.len()).unwrap();
        assert(u * pow_r(10, ((w - 1) - fd.len()) as nat) == f / 10);
        lemma_pow_r_add(10, ((w - 1) - fd.len()) as nat, 1);
        assert(pow_r(10, 1) == 10) by {
            reveal_with_fuel(pow_r, 2);
        }
        assert(pow_r(10, (w - fd.len()) as nat) == pow_r(10, ((w - 1) - fd.len()) as nat) * 10);
        assert(u * pow_r(10, (w - fd.len()) as nat) == (u * pow_r(
            10,
            ((w - 1) - fd.len()) as nat,
        )) * 10) by (nonlinear_arith)
            requires
                pow_r(10, (w - fd.len()) as nat) == pow_r(10, ((w - 1) - fd.len()) as nat) * 10,
        ;
        assert((f / 10) * 10 == f) by (nonlinear_arith)
            requires
                f % 10 == 0,
                f >= 0,
        ;
    } else {
        // the last digit is not '0', so nothing is stripped
        crate::text::lemma_digit_char_val(10, f % 10);
        assert(fixed_r(10, f, w).last() == crate::text::digit_char(f % 10));
        assert(crate::text::digit_char(f % 10) != '0') by {
            if f % 10 != 0 {
                assert(crate::text::digit_val(crate::text::digit_char(f % 10)) == f % 10);
            }
        }
        assert(fd == fixed_r(10, f, w));
        lemma_fixed_r_digits(10, f, w);
        assert forall|k: int| i <= k < i + w implies is_dec_digit(#[trigger] s[k]) by {
            assert(s[k] == s.subrange(i, i + w as int)[k - i]);
        }
        lemma_digit_run_of(s, i, w);
        lemma_fixed_r_parse(s, i, 10, f, w);
        assert(f * pow_r(10, 0) == f);
    }
}

/// Appends the canonical rendering of `m` micro-units to `out`.
pub fn write_scaled(out: &mut Vec<char>, m: u64)
    requires
        m <= MAX_SCALED,
    ensures
        final(out)@ == old(out)@ + ser_scaled(m as int),
{
    proof {
        lemma_pow10_literals();
    }
    let q = m / SCALE_MICRO;
    let f = m % SCALE_MICRO;
    let w = dec_width_exec(q);
    proof {
        lemma_dec_width_bound(q as int, 12);
    }
    write_fixed_r(out, 10, q as u128, w);
    out.push('.');
    let ghost before_frac = out@;
    if f == 0 {
        out.push('0');
    } else {
        let mut tmp: Vec<char> = Vec::new();
        write_fixed_r(&mut tmp, 10, f as u128, 6);
        proof {
            lemma_strip_nonempty(f as int, 6);
            lemma_strip_zeros_len(tmp@);
        }
        while tmp[tmp.len() - 1] == '0'
            invariant
                tmp@.len() >= 1,
                strip_zeros(tmp@) == strip_zeros(fixed_r(10, f as int, 6)),
                strip_zeros(fixed_r(10, f as int, 6)).len() >= 1,
            decreases tmp@.len(),
        {
            let _ = tmp.pop();
            proof {
                lemma_strip_zeros_len(tmp@);
                assert(strip_zeros(tmp@) == strip_zeros(fixed_r(10, f as int, 6)));
            }
        }
        proof {
            assert(strip_zeros(tmp@) == tmp@);
        }
        let mut k: usize = 0;
        let n = tmp.len();
        while k < n
            invariant
                k <= n,
                n == tmp@.len(),
                out@ == before_frac + tmp@.take(k as int),
            decreases n - k,
        {
            out.push(tmp[k]);
            proof {
                assert((before_frac + tmp@.take(k as int)).push(tmp@[k as int]) =~= before_frac
                    + tmp@.take(k as int + 1));
            }
            k = k + 1;
        }
        proof {
            assert(tmp@.take(tmp@.len() as int) =~= tmp@);
        }
    }
    proof {
        assert(out@ =~= old(out)@ + ser_scaled(m as int));
    }
}

/// A positive fraction keeps at least one digit after stripping.
pub proof fn lemma_strip_nonempty(f: int, w: nat)
    requires
        0 < f < pow_r(10, w),
        w >= 1,
    ensures
        strip_zeros(fixed_r(10, f, w)).len() >= 1,
        strip_zeros(fixed_r(10, f, w)).len() == 0 || strip_zeros(fixed_r(10, f, w)).last() != '0',
    decreases w,
{
    lemma_fixed_r_back(10, f, w);
    if f % 10 == 0 {
        assert(crate::text::digit_char(f % 10) == '0');
        assert(fixed_r(10, f, w).drop_last() =~= fixed_r(10, f / 10, (w - 1) as nat));
        assert(f >= 10) by (nonlinear_arith)
            requires
                f % 10 == 0,
                f > 0,
        ;
        assert(0 < f / 10) by (nonlinear_arith)
            requires
                f >= 10,
        ;
        assert(f / 10 < pow_r(10, (w - 1) as nat)) by (nonlinear_arith)
            requires
                f < pow_r(10, w),
                pow_r(10, w) == 10 * pow_r(10, (w - 1) as nat),
        ;
        assert(w >= 2) by {
            if w == 1 {
                assert(pow_r(10, 1) == 10) by {
                    reveal_with_fuel(pow_r, 2);
                }
            }
        }
        lemma_strip_nonempty(f / 10, (w - 1) as nat);
    } else {
        crate::text::lemma_digit_char_val(10, f % 10);
        assert(fixed_r(10, f, w).last() == crate::text::digit_char(f % 10));
        assert(crate::text::digit_char(f % 10) != '0') by {
            assert(crate::text::digit_val(crate::text::digit_char(f % 10)) == f % 10);
        }
        lemma_fixed_r_len(10, f, w);
    }
}

/// Parsing a canonically rendered number recovers the value, provided it
/// is followed by the end of input or a non-digit.
pub proof fn lemma_scaled_round_trip(s: Seq<char>, i: int, m: int)
    requires
        0 <= m <= MAX_SCALED as int,
        0 <= i,
        i + ser_scaled(m).len() <= s.len(),
        s.subrange(i, i + ser_scaled(m).len() as int) == ser_scaled(m),
        i + ser_scaled(m).len() == s.len() || !is_dec_digit(s[i + ser_scaled(m).len() as int]),
    ensures
        parse_scaled(s, i) == Some((m, i + ser_scaled(m).len() as int)),
{
    lemma_pow10_literals();
    let q = m / 1_000_000;
    let f = m % 1_000_000;
    let wq = dec_width(q);
    let qd = dec_min(q);
    let fd = frac_digits(f);
    let total = ser_scaled(m);
    assert(q < pow_r(10, 12)) by (nonlinear_arith)
        requires
            m <= 999_999_999_999_999_999,
            0 <= m,
            q == m / 1_000_000,
            pow_r(10, 12) == 1_000_000_000_000,
    ;
    lemma_dec_width_bound(q, 12);
    lemma_fixed_r_len(10, q, wq);
    lemma_fixed_r_digits(10, q, wq);
    assert(total =~= qd + seq!['.'] + fd);
    assert(total.len() == wq + 1 + fd.len());
    // the integer digit run
    assert forall|k: int| i <= k < i + wq implies is_dec_digit(#[trigger] s[k]) by {
        assert(s[k] == s.subrange(i, i + total.len() as int)[k - i]);
        assert(total[k - i] == qd[k - i]);
    }
    assert(s[i + wq as int] == total[wq as int]);
    assert(total[wq as int] == '.');
    assert(!is_dec_digit('.'));
    lemma_digit_run_of(s, i, wq);
    assert(s.subrange(i, i + wq as int) =~= qd) by {
        assert forall|k: int| 0 <= k < wq implies s.subrange(i, i + wq as int)[k] == qd[k] by {
            assert(s.subrange(i, i + wq as int)[k] == s.subrange(i, i + total.len() as int)[k]);
        }
    }
    assert(1 <= wq <= 12);
    lemma_fixed_r_parse(s, i, 10, q, wq);
    let j = i + wq as int;
    // the fraction digit run
    let fl = fd.len() as int;
    assert(s.subrange(j + 1, j + 1 + fl) =~= fd) by {
        assert forall|k: int| 0 <= k < fl implies s.subrange(j + 1, j + 1 + fl)[k] == fd[k] by {
            assert(s.subrange(j + 1, j + 1 + fl)[k] == s.subrange(i, i + total.len() as int)[
                wq + 1 + k
            ]);
            assert(total[wq + 1 + k] == fd[k]);
        }
    }
    if f == 0 {
        assert(fd =~= seq!['0']);
        assert(s[j + 1] == s.subrange(j + 1, j + 1 + fl)[0]);
        assert(s[j + 1] == '0');
        assert(is_dec_digit('0'));
        lemma_digit_run_of(s, j + 1, 1);
        assert(parse_fixed_r(s, j + 2, 10, 0) == Some(0int));
        assert(parse_fixed_r(s, j + 1, 10, 1) == Some(
            crate::text::digit_val(s[j + 1]) * pow_r(10, 0) + 0,
        ));
        assert(crate::text::digit_val('0') == 0);
        assert(parse_scaled(s, i) == Some((m, i + total.len() as int))) by {
            assert(q * 1_000_000 + 0 * pow_r(10, 5) == m) by (nonlinear_arith)
                requires
                    q == m / 1_000_000,
                    f == m % 1_000_000,
                    f == 0,
                    0 <= m,
            ;
        }
    } else {
        assert(0 < f < pow_r(10, 6));
        assert(fd == strip_zeros(fixed_r(10, f, 6)));
        lemma_frac_parse(s, j + 1, f, 6);
        let u = parse_fixed_r(s, j + 1, 10, fd.len()).unwrap();
        assert(u * pow_r(10, (6 - fd.len()) as nat) == f);
        assert(q * 1_000_000 + f == m) by (nonlinear_arith)
            requires
                q == m / 1_000_000,
                f == m % 1_000_000,
                0 <= m,
        ;
    }
}

} // verus!
