//! Character-level building blocks of the persistence format: digit
//! classification, fixed-width digit strings in decimal and hexadecimal,
//! maximal digit runs, and the bridge between `String` and `Vec<char>`.

use vstd::prelude::*;

verus! {

// ----------------------------------------------------------------------
// Character classes and digit values
// ----------------------------------------------------------------------

pub open spec fn is_dec_digit(c: char) -> bool {
    48 <= c as u32 && c as u32 <= 57
}

pub open spec fn is_hex_digit(c: char) -> bool {
    is_dec_digit(c) || (97 <= c as u32 && c as u32 <= 102)
}

/// Digit accepted under radix `r` (10 or 16).
pub open spec fn is_digit_r(r: int, c: char) -> bool {
    if r == 10 {
        is_dec_digit(c)
    } else {
        is_hex_digit(c)
    }
}

/// Numeric value of a decimal or lowercase hexadecimal digit character.
pub open spec fn digit_val(c: char) -> int {
    if is_dec_digit(c) {
        c as u32 - 48
    } else {
        c as u32 - 87
    }
}

/// The character for digit value `d` (0..=15), lowercase for 10..=15.
pub open spec fn digit_char(d: int) -> char {
    if d == 0 {
        '0'
    } else if d == 1 {
        '1'
    } else if d == 2 {
        '2'
    } else if d == 3 {
        '3'
    } else if d == 4 {
        '4'
    } else if d == 5 {
        '5'
    } else if d == 6 {
        '6'
    } else if d == 7 {
        '7'
    } else if d == 8 {
        '8'
    } else if d == 9 {
        '9'
    } else if d == 10 {
        'a'
    } else if d == 11 {
        'b'
    } else if d == 12 {
        'c'
    } else if d == 13 {
        'd'
    } else if d == 14 {
        'e'
    } else {
        'f'
    }
}

pub proof fn lemma_digit_char_val(r: int, d: int)
    requires
        r == 10 || r == 16,
        0 <= d < r,
    ensures
        is_digit_r(r, digit_char(d)),
        digit_val(digit_char(d)) == d,
        digit_char(d) != '"' && digit_char(d) != '\\' && digit_char(d) != ',' && digit_char(d)
            != ']' && digit_char(d) != '}' && digit_char(d) != '.' && digit_char(d) != '/',
{
}

pub fn digit_char_exec(d: u32) -> (c: char)
    requires
        d < 16,
    ensures
        c == digit_char(d as int),
{
    match d {
        0 => '0',
        1 => '1',
        2 => '2',
        3 => '3',
        4 => '4',
        5 => '5',
        6 => '6',
        7 => '7',
        8 => '8',
        9 => '9',
        10 => 'a',
        11 => 'b',
        12 => 'c',
        13 => 'd',
        14 => 'e',
        _ => 'f',
    }
}

// ----------------------------------------------------------------------
// Powers of the radix
// ----------------------------------------------------------------------

pub open spec fn pow_r(r: int, n: nat) -> int
    decreases n,
{
    if n == 0 {
        1
    } else {
        r * pow_r(r, (n - 1) as nat)
    }
}

pub proof fn lemma_pow_r_pos(r: int, n: nat)
    requires
        r >= 1,
    ensures
        pow_r(r, n) >= 1,
    decreases n,
{
    if n > 0 {
        lemma_pow_r_pos(r, (n - 1) as nat);
        assert(r * pow_r(r, (n - 1) as nat) >= 1) by (nonlinear_arith)
            requires
                r >= 1,
                pow_r(r, (n - 1) as nat) >= 1,
        ;
    }
}

pub proof fn lemma_pow_r_increases(r: int, m: nat, n: nat)
    requires
        r >= 1,
        m <= n,
    ensures
        pow_r(r, m) <= pow_r(r, n),
    decreases n,
{
    if m < n && n > 0 {
        lemma_pow_r_increases(r, m, (n - 1) as nat);
        lemma_pow_r_pos(r, (n - 1) as nat);
        assert(pow_r(r, (n - 1) as nat) <= r * pow_r(r, (n - 1) as nat)) by (nonlinear_arith)
            requires
                r >= 1,
                pow_r(r, (n - 1) as nat) >= 1,
        ;
    }
}

pub proof fn lemma_pow_r_add(r: int, a: nat, b: nat)
    ensures
        pow_r(r, a + b) == pow_r(r, a) * pow_r(r, b),
    decreases a,
{
    if a == 0 {
        assert(pow_r(r, b) == 1 * pow_r(r, b));
    } else {
        lemma_pow_r_add(r, (a - 1) as nat, b);
        assert(pow_r(r, a + b) == r * pow_r(r, (a + b - 1) as nat));
        assert(r * (pow_r(r, (a - 1) as nat) * pow_r(r, b)) == (r * pow_r(r, (a - 1) as nat))
            * pow_r(r, b)) by (nonlinear_arith);
    }
}

pub proof fn lemma_pow10_19_fits()
    ensures
        pow_r(10, 19) == 10_000_000_000_000_000_000,
{
    reveal_with_fuel(pow_r, 20);
}

pub proof fn lemma_pow16_32_bound()
    ensures
        pow_r(16, 32) == 0x1_0000_0000_0000_0000_0000_0000_0000_0000,
{
    reveal_with_fuel(pow_r, 33);
}

pub proof fn lemma_pow16_31_fits()
    ensures
        pow_r(16, 31) == 0x1000_0000_0000_0000_0000_0000_0000_0000,
{
    reveal_with_fuel(pow_r, 32);
}

/// Executable power of the radix, as `u128`; bounded so it cannot overflow.
pub fn pow_r_exec(r: u128, n: usize) -> (p: u128)
    requires
        (r == 10 && n <= 19) || (r == 16 && n <= 31),
    ensures
        p as int == pow_r(r as int, n as nat),
    decreases n,
{
    if n == 0 {
        1
    } else {
        let q = pow_r_exec(r, n - 1);
        proof {
            assert(pow_r(r as int, n as nat) == (r as int) * pow_r(r as int, (n - 1) as nat));
            if r == 10 {
                lemma_pow10_19_fits();
                lemma_pow_r_increases(10, n as nat, 19);
            } else {
                lemma_pow16_31_fits();
                lemma_pow_r_increases(16, n as nat, 31);
            }
        }
        r * q
    }
}

// ----------------------------------------------------------------------
// Fixed-width digit strings, most significant digit first
// ----------------------------------------------------------------------

/// The `n`-digit rendering of `v` under radix `r`, zero-padded on the left.
pub open spec fn fixed_r(r: int, v: int, n: nat) -> Seq<char>
    decreases n,
{
    if n == 0 {
        Seq::empty()
    } else {
        seq![digit_char(v / pow_r(r, (n - 1) as nat) % r)] + fixed_r(
            r,
            v % pow_r(r, (n - 1) as nat),
            (n - 1) as nat,
        )
    }
}

pub proof fn lemma_fixed_r_len(r: int, v: int, n: nat)
    ensures
        fixed_r(r, v, n).len() == n,
    decreases n,
{
    if n > 0 {
        lemma_fixed_r_len(r, v % pow_r(r, (n - 1) as nat), (n - 1) as nat);
    }
}

/// Every character of a fixed-width rendering is a digit of the radix.
pub proof fn lemma_fixed_r_digits(r: int, v: int, n: nat)
    requires
        r == 10 || r == 16,
        0 <= v,
    ensures
        fixed_r(r, v, n).len() == n,
        forall|k: int| 0 <= k < n ==> is_digit_r(r, #[trigger] fixed_r(r, v, n)[k]),
    decreases n,
{
    lemma_fixed_r_len(r, v, n);
    if n > 0 {
        let p = pow_r(r, (n - 1) as nat);
        lemma_pow_r_pos(r, (n - 1) as nat);
        let q = v / p;
        assert(q >= 0) by (nonlinear_arith)
            requires
                v >= 0,
                p >= 1,
                q == v / p,
        ;
        let d = q % r;
        assert(0 <= d < r) by (nonlinear_arith)
            requires
                r >= 2,
                q >= 0,
                d == q % r,
        ;
        lemma_digit_char_val(r, d);
        assert(0 <= v % p) by (nonlinear_arith)
            requires
                p >= 1,
        ;
        lemma_fixed_r_digits(r, v % p, (n - 1) as nat);
        assert forall|k: int| 0 <= k < n implies is_digit_r(r, #[trigger] fixed_r(r, v, n)[k]) by {
            if k > 0 {
                assert(fixed_r(r, v, n)[k] == fixed_r(r, v % p, (n - 1) as nat)[k - 1]);
            }
        }
    }
}

/// Appends the fixed-width rendering of `v` to `out`.
pub fn write_fixed_r(out: &mut Vec<char>, r: u128, v: u128, n: usize)
    requires
        (r == 10 && n <= 19) || (r == 16 && n <= 32),
        (v as int) < pow_r(r as int, n as nat),
    ensures
        final(out)@ == old(out)@ + fixed_r(r as int, v as int, n as nat),
    decreases n,
{
    if n == 0 {
        assert(out@ =~= out@ + fixed_r(r as int, v as int, 0));
    } else {
        let ghost prefix = out@;
        let p = pow_r_exec(r, n - 1);
        proof {
            lemma_pow_r_pos(r as int, (n - 1) as nat);
            assert(v / p < r) by (nonlinear_arith)
                requires
                    p >= 1,
                    (v as int) < (r as int) * (p as int),
            ;
            assert(v % p < p) by (nonlinear_arith)
                requires
                    p >= 1,
            ;
        }
        let d = v / p;
        out.push(digit_char_exec(d as u32));
        proof {
            assert(d as int == (v as int) / (p as int) % (r as int)) by (nonlinear_arith)
                requires
                    p >= 1,
                    r >= 2,
                    d == v / p,
                    d < r,
            ;
        }
        write_fixed_r(out, r, v % p, n - 1);
        proof {
            assert(out@ =~= prefix + fixed_r(r as int, v as int, n as nat));
        }
    }
}

/// Reads exactly `n` digit characters starting at `i`, most significant
/// first; `None` if any of them is missing or not a digit of the radix.
pub open spec fn parse_fixed_r(s: Seq<char>, i: int, r: int, n: nat) -> Option<int>
    decreases n,
{
    if n == 0 {
        Some(0)
    } else if 0 <= i && i < s.len() && is_digit_r(r, s[i]) {
        match parse_fixed_r(s, i + 1, r, (n - 1) as nat) {
            Some(rest) => Some(digit_val(s[i]) * pow_r(r, (n - 1) as nat) + rest),
            None => None,
        }
    } else {
        None
    }
}

pub proof fn lemma_parse_fixed_r_bound(s: Seq<char>, i: int, r: int, n: nat)
    requires
        r == 10 || r == 16,
        parse_fixed_r(s, i, r, n) is Some,
    ensures
        0 <= parse_fixed_r(s, i, r, n).unwrap() < pow_r(r, n),
    decreases n,
{
    if n > 0 {
        let p = pow_r(r, (n - 1) as nat);
        lemma_pow_r_pos(r, (n - 1) as nat);
        lemma_parse_fixed_r_bound(s, i + 1, r, (n - 1) as nat);
        let d = digit_val(s[i]);
        assert(0 <= d < r);
        let rest = parse_fixed_r(s, i + 1, r, (n - 1) as nat).unwrap();
        assert(d * p + rest < r * p) by (nonlinear_arith)
            requires
                0 <= d,
                d <= r - 1,
                0 <= rest < p,
                p >= 1,
        ;
    }
}

pub proof fn lemma_parse_fixed_r_some_len(s: Seq<char>, i: int, r: int, n: nat)
    requires
        parse_fixed_r(s, i, r, n) is Some,
        n > 0,
    ensures
        0 <= i,
        i + n <= s.len(),
    decreases n,
{
    if n > 1 {
        lemma_parse_fixed_r_some_len(s, i + 1, r, (n - 1) as nat);
    }
}

pub fn parse_fixed_r_exec(s: &Vec<char>, i: usize, r: u128, n: usize) -> (res: Option<u128>)
    requires
        (r == 10 && n <= 19) || (r == 16 && n <= 32),
    ensures
        match res {
            Some(v) => parse_fixed_r(s@, i as int, r as int, n as nat) == Some(v as int),
            None => parse_fixed_r(s@, i as int, r as int, n as nat) is None,
        },
    decreases n,
{
    if n == 0 {
        return Some(0);
    }
    if i >= s.len() {
        return None;
    }
    let u = s[i] as u32;
    let dec = 48 <= u && u <= 57;
    let hexl = 97 <= u && u <= 102;
    let ok = if r == 10 {
        dec
    } else {
        dec || hexl
    };
    if !ok {
        return None;
    }
    let d: u128 = if dec {
        (u - 48) as u128
    } else {
        (u - 87) as u128
    };
    match parse_fixed_r_exec(s, i + 1, r, n - 1) {
        Some(rest) => {
            proof {
                lemma_parse_fixed_r_bound(s@, i + 1, r as int, (n - 1) as nat);
                lemma_pow_r_pos(r as int, (n - 1) as nat);
                if r == 10 {
                    lemma_pow10_19_fits();
                    lemma_pow_r_increases(10, n as nat, 19);
                } else {
                    lemma_pow16_32_bound();
                    lemma_pow_r_increases(16, n as nat, 32);
                }
                assert((d as int) * pow_r(r as int, (n - 1) as nat) + (rest as int) < (r as int)
                    * pow_r(r as int, (n - 1) as nat)) by (nonlinear_arith)
                    requires
                        0 <= d as int,
                        d as int <= r as int - 1,
                        0 <= rest as int,
                        (rest as int) < pow_r(r as int, (n - 1) as nat),
                        pow_r(r as int, (n - 1) as nat) >= 1,
                ;
                assert((r as int) * pow_r(r as int, (n - 1) as nat) == pow_r(r as int, n as nat));
            }
            let p = pow_r_exec(r, n - 1);
            Some(d * p + rest)
        },
        None => None,
    }
}

/// Parsing recovers the value a fixed-width rendering was written from.
pub proof fn lemma_fixed_r_parse(s: Seq<char>, i: int, r: int, v: int, n: nat)
    requires
        r == 10 || r == 16,
        0 <= v < pow_r(r, n),
        0 <= i,
        i + n <= s.len(),
        s.subrange(i, i + n as int) == fixed_r(r, v, n),
    ensures
        parse_fixed_r(s, i, r, n) == Some(v),
    decreases n,
{
    if n > 0 {
        let p = pow_r(r, (n - 1) as nat);
        lemma_pow_r_pos(r, (n - 1) as nat);
        let d = v / p;
        assert(0 <= d < r) by (nonlinear_arith)
            requires
                0 <= v,
                v < r * p,
                p >= 1,
                d == v / p,
        ;
        assert(d % r == d) by (nonlinear_arith)
            requires
                0 <= d < r,
        ;
        lemma_digit_char_val(r, d);
        assert(s[i] == fixed_r(r, v, n)[0]);
        assert(s[i] == digit_char(d));
        lemma_fixed_r_len(r, v % p, (n - 1) as nat);
        assert(0 <= v % p < p) by (nonlinear_arith)
            requires
                0 <= v,
                p >= 1,
        ;
        assert(s.subrange(i + 1, i + n as int) =~= fixed_r(r, v % p, (n - 1) as nat)) by {
            assert forall|k: int| 0 <= k < n - 1 implies #[trigger] s.subrange(i + 1, i + n as int)[k]
                == fixed_r(r, v % p, (n - 1) as nat)[k] by {
                assert(s.subrange(i + 1, i + n as int)[k] == s.subrange(i, i + n as int)[k + 1]);
                assert(fixed_r(r, v, n)[k + 1] == fixed_r(r, v % p, (n - 1) as nat)[k]);
            }
        }
        lemma_fixed_r_parse(s, i + 1, r, v % p, (n - 1) as nat);
        assert(d * p + v % p == v) by (nonlinear_arith)
            requires
                d == v / p,
                p >= 1,
        ;
    } else {
        assert(parse_fixed_r(s, i, r, 0) == Some(0int));
    }
}

// ----------------------------------------------------------------------
// Minimal decimal renderings and digit runs
// ----------------------------------------------------------------------

/// Number of decimal digits in the minimal rendering of `v`.
pub open spec fn dec_width(v: int) -> nat
    decreases v,
{
    if v < 10 {
        1
    } else {
        1 + dec_width(v / 10)
    }
}

/// Minimal decimal rendering of `v` (no leading zeros; `0` is `"0"`).
pub open spec fn dec_min(v: int) -> Seq<char> {
    fixed_r(10, v, dec_width(v))
}

pub proof fn lemma_dec_width_bound(v: int, n: nat)
    requires
        0 <= v < pow_r(10, n),
        n >= 1,
    ensures
        dec_width(v) <= n,
        v < pow_r(10, dec_width(v)),
    decreases n,
{
    if v < 10 {
        assert(pow_r(10, 1) == 10) by {
            reveal_with_fuel(pow_r, 2);
        }
    } else {
        assert(n >= 2) by {
            if n == 1 {
                reveal_with_fuel(pow_r, 2);
            }
        }
        assert(v / 10 < pow_r(10, (n - 1) as nat)) by (nonlinear_arith)
            requires
                v < pow_r(10, n),
                pow_r(10, n) == 10 * pow_r(10, (n - 1) as nat),
        ;
        lemma_dec_width_bound(v / 10, (n - 1) as nat);
        assert(v < 10 * pow_r(10, dec_width(v / 10))) by (nonlinear_arith)
            requires
                v / 10 < pow_r(10, dec_width(v / 10)),
                v >= 10,
        ;
    }
}

pub fn dec_width_exec(v: u64) -> (n: usize)
    ensures
        n == dec_width(v as int),
        n >= 1,
    decreases v,
{
    if v < 10 {
        1
    } else {
        let rest = dec_width_exec(v / 10);
        proof {
            lemma_dec_width_le_19(v as int);
        }
        1 + rest
    }
}

pub proof fn lemma_dec_width_le_19(v: int)
    requires
        0 <= v <= u64::MAX,
    ensures
        dec_width(v) <= 20,
{
    assert(pow_r(10, 20) == 100_000_000_000_000_000_000) by {
        reveal_with_fuel(pow_r, 21);
    }
    lemma_dec_width_bound(v, 20);
}

/// Length of the maximal run of decimal digits starting at `i`.
pub open spec fn digit_run_len(s: Seq<char>, i: int) -> nat
    decreases s.len() - i,
{
    if 0 <= i && i < s.len() && is_dec_digit(s[i]) {
        1 + digit_run_len(s, i + 1)
    } else {
        0
    }
}

pub fn digit_run_len_exec(s: &Vec<char>, i: usize) -> (n: usize)
    requires
        i <= s@.len(),
    ensures
        n == digit_run_len(s@, i as int),
        i + n <= s@.len(),
    decreases s@.len() - i,
{
    if i < s.len() {
        let u = s[i] as u32;
        if 48 <= u && u <= 57 {
            let rest = digit_run_len_exec(s, i + 1);
            return 1 + rest;
        }
    }
    0
}

/// A run of digits followed by a non-digit is exactly that run.
pub proof fn lemma_digit_run_of(s: Seq<char>, i: int, n: nat)
    requires
        0 <= i,
        i + n <= s.len(),
        forall|k: int| i <= k < i + n ==> is_dec_digit(#[trigger] s[k]),
        i + n == s.len() || !is_dec_digit(s[i + n]),
    ensures
        digit_run_len(s, i) == n,
    decreases n,
{
    if n > 0 {
        lemma_digit_run_of(s, i + 1, (n - 1) as nat);
    }
}

// ----------------------------------------------------------------------
// Strings and character vectors
// ----------------------------------------------------------------------

/// Relies on `String::push`: appends the given character to the string.
#[verifier::external_body]
fn push_char(s: &mut String, c: char)
    ensures
        final(s)@ == old(s)@.push(c),
{
    s.push(c);
}

/// Collects the characters of `s` into a `String`.
pub fn chars_to_string(s: &Vec<char>) -> (r: String)
    ensures
        r@ == s@,
{
    let mut r = String::new();
    let mut k: usize = 0;
    while k < s.len()
        invariant
            k <= s@.len(),
            r@ == s@.take(k as int),
        decreases s@.len() - k,
    {
        push_char(&mut r, s[k]);
        proof {
            assert(s@.take(k as int).push(s@[k as int]) =~= s@.take(k as int + 1));
        }
        k = k + 1;
    }
    proof {
        assert(s@.take(s@.len() as int) =~= s@);
    }
    r
}

/// Collects the characters of `s` into a vector.
pub fn string_to_chars(s: &str) -> (r: Vec<char>)
    ensures
        r@ == s@,
{
    let n = s.unicode_len();
    let mut r: Vec<char> = Vec::new();
    let mut k: usize = 0;
    while k < n
        invariant
            k <= n,
            n == s@.len(),
            r@ == s@.take(k as int),
        decreases n - k,
    {
        r.push(s.get_char(k));
        proof {
            assert(s@.take(k as int).push(s@[k as int]) =~= s@.take(k as int + 1));
        }
        k = k + 1;
    }
    proof {
        assert(s@.take(s@.len() as int) =~= s@);
    }
    r
}

/// Appends the characters of `lit` to `out`.
pub fn push_str_chars(out: &mut Vec<char>, lit: &str)
    ensures
        final(out)@ == old(out)@ + lit@,
{
    let n = lit.unicode_len();
    let mut k: usize = 0;
    while k < n
        invariant
            k <= n,
            n == lit@.len(),
            out@ == old(out)@ + lit@.take(k as int),
        decreases n - k,
    {
        out.push(lit.get_char(k));
        proof {
            assert((old(out)@ + lit@.take(k as int)).push(lit@[k as int]) =~= old(out)@
                + lit@.take(k as int + 1));
        }
        k = k + 1;
    }
    proof {
        assert(lit@.take(lit@.len() as int) =~= lit@);
    }
}

/// A piece of a known subrange is the matching piece of the whole.
pub proof fn lemma_subrange_extract(s: Seq<char>, i: int, whole: Seq<char>, a: int, b: int)
    requires
        0 <= i,
        i + whole.len() <= s.len(),
        s.subrange(i, i + whole.len()) == whole,
        0 <= a <= b <= whole.len(),
    ensures
        s.subrange(i + a, i + b) == whole.subrange(a, b),
{
    assert forall|k: int| 0 <= k < b - a implies #[trigger] s.subrange(i + a, i + b)[k]
        == whole.subrange(a, b)[k] by {
        assert(s.subrange(i + a, i + b)[k] == s[i + a + k]);
        assert(s.subrange(i, i + whole.len())[a + k] == s[i + a + k]);
    }
    assert(s.subrange(i + a, i + b) =~= whole.subrange(a, b));
}

/// `lit` occurs in `s` at position `i`.
pub open spec fn match_lit(s: Seq<char>, i: int, lit: Seq<char>) -> bool {
    0 <= i && i + lit.len() <= s.len() && s.subrange(i, i + lit.len()) == lit
}

/// Checks whether `lit` occurs at position `i`; on success returns the
/// position just past it.
pub fn expect_str(s: &Vec<char>, i: usize, lit: &str) -> (res: Option<usize>)
    ensures
        match res {
            Some(j) => match_lit(s@, i as int, lit@) && j == i + lit@.len() && j <= s@.len(),
            None => !match_lit(s@, i as int, lit@),
        },
{
    let n = lit.unicode_len();
    if i > s.len() || n > s.len() - i {
        return None;
    }
    let mut k: usize = 0;
    while k < n
        invariant
            k <= n,
            n == lit@.len(),
            i + n <= s@.len(),
            i + n <= usize::MAX,
            forall|t: int| 0 <= t < k ==> s@[i + t] == lit@[t],
        decreases n - k,
    {
        if s[i + k] != lit.get_char(k) {
            proof {
                assert(s@.subrange(i as int, i as int + lit@.len())[k as int] == s@[i + k]);
            }
            return None;
        }
        k = k + 1;
    }
    proof {
        assert(s@.subrange(i as int, i as int + lit@.len()) =~= lit@);
    }
    Some(i + n)
}

} // verus!
