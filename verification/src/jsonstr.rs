//! JSON string bodies.
//!
//! Names and emoji are arbitrary unicode text.  Inside a document they
//! are written between quotes with the canonical escapes: `\"`, `\\`,
//! `\n`, `\r`, `\t`, and `\u00XX` for the remaining control characters;
//! every other character stands for itself.  The parser reads a body up
//! to an unescaped quote and leaves the position on that quote.

use vstd::prelude::*;

use crate::text::{digit_char, digit_val, is_hex_digit, lemma_digit_char_val};

verus! {

pub open spec fn is_control(c: char) -> bool {
    (c as u32) < 32
}

/// The canonical escape of one character.
pub open spec fn esc(c: char) -> Seq<char> {
    if c == '"' {
        seq!['\\', '"']
    } else if c == '\\' {
        seq!['\\', '\\']
    } else if c == '\n' {
        seq!['\\', 'n']
    } else if c == '\r' {
        seq!['\\', 'r']
    } else if c == '\t' {
        seq!['\\', 't']
    } else if is_control(c) {
        seq!['\\', 'u', '0', '0', digit_char(c as u32 as int / 16), digit_char(c as u32 as int % 16)]
    } else {
        seq![c]
    }
}

/// The body of a JSON string: each character escaped in order.
pub open spec fn ser_str_body(v: Seq<char>) -> Seq<char>
    decreases v.len(),
{
    if v.len() == 0 {
        Seq::empty()
    } else {
        esc(v[0]) + ser_str_body(v.skip(1))
    }
}

/// The control character with code `v`.
pub open spec fn control_char(v: int) -> char {
    if v == 0 {
        '\u{0}'
    } else if v == 1 {
        '\u{1}'
    } else if v == 2 {
        '\u{2}'
    } else if v == 3 {
        '\u{3}'
    } else if v == 4 {
        '\u{4}'
    } else if v == 5 {
        '\u{5}'
    } else if v == 6 {
        '\u{6}'
    } else if v == 7 {
        '\u{7}'
    } else if v == 8 {
        '\u{8}'
    } else if v == 9 {
        '\u{9}'
    } else if v == 10 {
        '\u{a}'
    } else if v == 11 {
        '\u{b}'
    } else if v == 12 {
        '\u{c}'
    } else if v == 13 {
        '\u{d}'
    } else if v == 14 {
        '\u{e}'
    } else if v == 15 {
        '\u{f}'
    } else if v == 16 {
        '\u{10}'
    } else if v == 17 {
        '\u{11}'
    } else if v == 18 {
        '\u{12}'
    } else if v == 19 {
        '\u{13}'
    } else if v == 20 {
        '\u{14}'
    } else if v == 21 {
        '\u{15}'
    } else if v == 22 {
        '\u{16}'
    } else if v == 23 {
        '\u{17}'
    } else if v == 24 {
        '\u{18}'
    } else if v == 25 {
        '\u{19}'
    } else if v == 26 {
        '\u{1a}'
    } else if v == 27 {
        '\u{1b}'
    } else if v == 28 {
        '\u{1c}'
    } else if v == 29 {
        '\u{1d}'
    } else if v == 30 {
        '\u{1e}'
    } else {
        '\u{1f}'
    }
}

pub proof fn lemma_control_char_code(v: int)
    requires
        0 <= v < 32,
    ensures
        control_char(v) as u32 == v,
        is_control(control_char(v)),
{
}

/// Every control character is recovered from its code.
pub proof fn lemma_control_char_inverse(c: char)
    requires
        is_control(c),
    ensures
        control_char(c as u32 as int) == c,
{
    lemma_control_char_code(c as u32 as int);
    assert(control_char(c as u32 as int) as u32 == c as u32);
    assert(control_char(c as u32 as int) == c) by {
        let d = control_char(c as u32 as int);
        assert(d as u32 == c as u32);
        assert(d as int == c as int);
    }
}

pub fn control_char_exec(v: u32) -> (c: char)
    requires
        v < 32,
    ensures
        c == control_char(v as int),
{
    match v {
        0 => '\u{0}',
        1 => '\u{1}',
        2 => '\u{2}',
        3 => '\u{3}',
        4 => '\u{4}',
        5 => '\u{5}',
        6 => '\u{6}',
        7 => '\u{7}',
        8 => '\u{8}',
        9 => '\u{9}',
        10 => '\u{a}',
        11 => '\u{b}',
        12 => '\u{c}',
        13 => '\u{d}',
        14 => '\u{e}',
        15 => '\u{f}',
        16 => '\u{10}',
        17 => '\u{11}',
        18 => '\u{12}',
        19 => '\u{13}',
        20 => '\u{14}',
        21 => '\u{15}',
        22 => '\u{16}',
        23 => '\u{17}',
        24 => '\u{18}',
        25 => '\u{19}',
        26 => '\u{1a}',
        27 => '\u{1b}',
        28 => '\u{1c}',
        29 => '\u{1d}',
        30 => '\u{1e}',
        _ => '\u{1f}',
    }
}

/// Appends the escape of one character to `out`.
pub fn push_esc(out: &mut Vec<char>, c: char)
    ensures
        final(out)@ == old(out)@ + esc(c),
{
    if c == '"' {
        out.push('\\');
        out.push('"');
    } else if c == '\\' {
        out.push('\\');
        out.push('\\');
    } else if c == '\n' {
        out.push('\\');
        out.push('n');
    } else if c == '\r' {
        out.push('\\');
        out.push('r');
    } else if c == '\t' {
        out.push('\\');
        out.push('t');
    } else {
        let u = c as u32;
        if u < 32 {
            out.push('\\');
            out.push('u');
            out.push('0');
            out.push('0');
            out.push(crate::text::digit_char_exec(u / 16));
            out.push(crate::text::digit_char_exec(u % 16));
        } else {
            out.push(c);
        }
    }
    proof {
        assert(out@ =~= old(out)@ + esc(c));
    }
}

/// Appending one character appends its escape.
pub proof fn lemma_ser_str_body_push(v: Seq<char>, c: char)
    ensures
        ser_str_body(v.push(c)) == ser_str_body(v) + esc(c),
    decreases v.len(),
{
    if v.len() == 0 {
        assert(v.push(c)[0] == c);
        assert(v.push(c).skip(1) =~= Seq::<char>::empty());
        assert(v =~= Seq::<char>::empty());
        assert(ser_str_body(Seq::<char>::empty()) == Seq::<char>::empty());
        assert(ser_str_body(v.push(c)) == esc(c) + ser_str_body(Seq::<char>::empty()));
        assert(ser_str_body(v.push(c)) =~= ser_str_body(v) + esc(c));
    } else {
        assert(v.push(c).skip(1) =~= v.skip(1).push(c));
        lemma_ser_str_body_push(v.skip(1), c);
        assert(v.push(c)[0] == v[0]);
        assert(ser_str_body(v.push(c)) == esc(v[0]) + ser_str_body(v.skip(1).push(c)));
        assert(esc(v[0]) + (ser_str_body(v.skip(1)) + esc(c)) =~= (esc(v[0]) + ser_str_body(
            v.skip(1),
        )) + esc(c));
    }
}

/// Appends the escaped body of `v` to `out`.
pub fn write_str_body(out: &mut Vec<char>, v: &Vec<char>)
    ensures
        final(out)@ == old(out)@ + ser_str_body(v@),
{
    let mut k: usize = 0;
    let n = v.len();
    while k < n
        invariant
            k <= n,
            n == v@.len(),
            out@ == old(out)@ + ser_str_body(v@.take(k as int)),
        decreases n - k,
    {
        push_esc(out, v[k]);
        proof {
            assert(v@.take(k as int).push(v@[k as int]) =~= v@.take(k as int + 1));
            lemma_ser_str_body_push(v@.take(k as int), v@[k as int]);
            assert((old(out)@ + ser_str_body(v@.take(k as int))) + esc(v@[k as int]) =~= old(out)@
                + (ser_str_body(v@.take(k as int)) + esc(v@[k as int])));
        }
        k = k + 1;
    }
    proof {
        assert(v@.take(v@.len() as int) =~= v@);
    }
}

// ----------------------------------------------------------------------
// Parsing
// ----------------------------------------------------------------------

/// Attaches one decoded character in front of a parse result.
pub open spec fn prepend_parse(c: char, r: Option<(Seq<char>, int)>) -> Option<(Seq<char>, int)> {
    match r {
        Some(p) => Some((seq![c] + p.0, p.1)),
        None => None,
    }
}

/// Reads a string body starting at `i` up to an unescaped quote; yields
/// the decoded text and the position of that quote.
pub open spec fn parse_str_body(s: Seq<char>, i: int) -> Option<(Seq<char>, int)>
    decreases s.len() - i,
{
    if i < 0 || i >= s.len() {
        None
    } else if s[i] == '"' {
        Some((Seq::empty(), i))
    } else if s[i] == '\\' {
        if i + 1 < s.len() {
            let e = s[i + 1];
            if e == '"' {
                prepend_parse('"', parse_str_body(s, i + 2))
            } else if e == '\\' {
                prepend_parse('\\', parse_str_body(s, i + 2))
            } else if e == 'n' {
                prepend_parse('\n', parse_str_body(s, i + 2))
            } else if e == 'r' {
                prepend_parse('\r', parse_str_body(s, i + 2))
            } else if e == 't' {
                prepend_parse('\t', parse_str_body(s, i + 2))
            } else if e == 'u' {
                if i + 5 < s.len() && s[i + 2] == '0' && s[i + 3] == '0' && is_hex_digit(s[i + 4])
                    && is_hex_digit(s[i + 5]) {
                    let v = digit_val(s[i + 4]) * 16 + digit_val(s[i + 5]);
                    if v < 32 {
                        prepend_parse(control_char(v), parse_str_body(s, i + 6))
                    } else {
                        None
                    }
                } else {
                    None
                }
            } else {
                None
            }
        } else {
            None
        }
    } else if is_control(s[i]) {
        None
    } else {
        prepend_parse(s[i], parse_str_body(s, i + 1))
    }
}

/// On success the final position carries the closing quote.
pub proof fn lemma_parse_str_body_pos(s: Seq<char>, i: int)
    requires
        parse_str_body(s, i) is Some,
    ensures
        i <= parse_str_body(s, i).unwrap().1 < s.len(),
        s[parse_str_body(s, i).unwrap().1] == '"',
    decreases s.len() - i,
{
    if s[i] == '"' {
    } else if s[i] == '\\' {
        let e = s[i + 1];
        if e == 'u' {
            lemma_parse_str_body_pos(s, i + 6);
        } else {
            lemma_parse_str_body_pos(s, i + 2);
        }
    } else {
        lemma_parse_str_body_pos(s, i + 1);
    }
}

pub proof fn lemma_prepend_assoc(a: Seq<char>, c: char, r: Option<(Seq<char>, int)>)
    ensures
        (match prepend_parse(c, r) {
            Some(p) => Some((a + p.0, p.1)),
            None => None,
        }) == (match r {
            Some(p) => Some::<(Seq<char>, int)>((a.push(c) + p.0, p.1)),
            None => None,
        }),
{
    match r {
        Some(p) => {
            assert(a + (seq![c] + p.0) =~= a.push(c) + p.0);
        },
        None => {},
    }
}

/// Parses a string body, matching [`parse_str_body`] exactly.
pub fn parse_str_body_exec(s: &Vec<char>, start: usize) -> (res: Option<(Vec<char>, usize)>)
    requires
        start <= s@.len(),
    ensures
        match res {
            Some(p) => parse_str_body(s@, start as int) == Some((p.0@, p.1 as int)) && start <= p.1
                < s@.len() && s@[p.1 as int] == '"',
            None => parse_str_body(s@, start as int) is None,
        },
{
    let slen = s.len();
    let mut acc: Vec<char> = Vec::new();
    let mut pos: usize = start;
    while pos < slen
        invariant
            start <= pos <= slen,
            slen == s@.len(),
            parse_str_body(s@, start as int) == (match parse_str_body(s@, pos as int) {
                Some(p) => Some((acc@ + p.0, p.1)),
                None => None,
            }),
        decreases slen - pos,
    {
        let c = s[pos];
        if c == '"' {
            proof {
                assert(parse_str_body(s@, pos as int) == Some((Seq::<char>::empty(), pos as int)));
                assert(acc@ + Seq::<char>::empty() =~= acc@);
                lemma_parse_str_body_pos(s@, start as int);
            }
            return Some((acc, pos));
        }
        if c == '\\' {
            if pos + 1 >= slen {
                return None;
            }
            let e = s[pos + 1];
            if e == '"' {
                proof {
                    lemma_prepend_assoc(acc@, '"', parse_str_body(s@, pos as int + 2));
                }
                acc.push('"');
                pos = pos + 2;
            } else if e == '\\' {
                proof {
                    lemma_prepend_assoc(acc@, '\\', parse_str_body(s@, pos as int + 2));
                }
                acc.push('\\');
                pos = pos + 2;
            } else if e == 'n' {
                proof {
                    lemma_prepend_assoc(acc@, '\n', parse_str_body(s@, pos as int + 2));
                }
                acc.push('\n');
                pos = pos + 2;
            } else if e == 'r' {
                proof {
                    lemma_prepend_assoc(acc@, '\r', parse_str_body(s@, pos as int + 2));
                }
                acc.push('\r');
                pos = pos + 2;
            } else if e == 't' {
                proof {
                    lemma_prepend_assoc(acc@, '\t', parse_str_body(s@, pos as int + 2));
                }
                acc.push('\t');
                pos = pos + 2;
            } else if e == 'u' {
                if slen - pos <= 5 {
                    return None;
                }
                if s[pos + 2] != '0' || s[pos + 3] != '0' {
                    return None;
                }
                let h1 = s[pos + 4] as u32;
                let h2 = s[pos + 5] as u32;
                let d1ok = (48 <= h1 && h1 <= 57) || (97 <= h1 && h1 <= 102);
                let d2ok = (48 <= h2 && h2 <= 57) || (97 <= h2 && h2 <= 102);
                if !d1ok || !d2ok {
                    return None;
                }
                let v1: u32 = if 48 <= h1 && h1 <= 57 {
                    h1 - 48
                } else {
                    h1 - 87
                };
                let v2: u32 = if 48 <= h2 && h2 <= 57 {
                    h2 - 48
                } else {
                    h2 - 87
                };
                let v = v1 * 16 + v2;
                if v >= 32 {
                    return None;
                }
                let cc = control_char_exec(v);
                proof {
                    lemma_prepend_assoc(acc@, cc, parse_str_body(s@, pos as int + 6));
                }
                acc.push(cc);
                pos = pos + 6;
            } else {
                return None;
            }
        } else {
            let u = c as u32;
            if u < 32 {
                return None;
            }
            proof {
                lemma_prepend_assoc(acc@, c, parse_str_body(s@, pos as int + 1));
            }
            acc.push(c);
            pos = pos + 1;
        }
    }
    None
}

/// Parsing recovers the text a body was written from, given the closing
/// quote that follows it.
pub proof fn lemma_str_body_round_trip(s: Seq<char>, i: int, v: Seq<char>)
    requires
        0 <= i,
        i + ser_str_body(v).len() < s.len(),
        s.subrange(i, i + ser_str_body(v).len() as int) == ser_str_body(v),
        s[i + ser_str_body(v).len() as int] == '"',
    ensures
        parse_str_body(s, i) == Some((v, i + ser_str_body(v).len() as int)),
    decreases v.len(),
{
    let whole = ser_str_body(v);
    let ln = whole.len() as int;
    if v.len() == 0 {
        assert(s[i] == '"');
        assert(parse_str_body(s, i) == Some((Seq::<char>::empty(), i)));
        assert(Seq::<char>::empty() =~= v);
    } else {
        let c0 = v[0];
        let e0 = esc(c0);
        let rest = ser_str_body(v.skip(1));
        assert(whole == e0 + rest);
        let el = e0.len() as int;
        // the escape unit occupies s[i .. i + el]
        assert forall|k: int| 0 <= k < el implies s[i + k] == e0[k] by {
            assert(s.subrange(i, i + ln)[k] == s[i + k]);
            assert(whole[k] == e0[k]);
        }
        // the tail occupies the rest, still followed by the quote
        crate::text::lemma_subrange_extract(s, i, whole, el, ln);
        assert(whole.subrange(el, ln) =~= rest);
        lemma_str_body_round_trip(s, i + el, v.skip(1));
        let tail_res = parse_str_body(s, i + el);
        assert(tail_res == Some((v.skip(1), i + ln)));
        assert(seq![c0] + v.skip(1) =~= v);
        if c0 == '"' {
            assert(s[i] == '\\' && s[i + 1] == '"');
            assert(parse_str_body(s, i) == prepend_parse('"', parse_str_body(s, i + 2)));
        } else if c0 == '\\' {
            assert(s[i] == '\\' && s[i + 1] == '\\');
        } else if c0 == '\n' {
            assert(s[i] == '\\' && s[i + 1] == 'n');
        } else if c0 == '\r' {
            assert(s[i] == '\\' && s[i + 1] == 'r');
        } else if c0 == '\t' {
            assert(s[i] == '\\' && s[i + 1] == 't');
        } else if is_control(c0) {
            let code = c0 as u32 as int;
            assert(s[i] == '\\' && s[i + 1] == 'u' && s[i + 2] == '0' && s[i + 3] == '0');
            assert(s[i + 4] == digit_char(code / 16));
            assert(s[i + 5] == digit_char(code % 16));
            assert(0 <= code < 32);
            lemma_digit_char_val(16, code / 16);
            lemma_digit_char_val(16, code % 16);
            assert(digit_val(s[i + 4]) * 16 + digit_val(s[i + 5]) == code);
            lemma_control_char_inverse(c0);
            assert(parse_str_body(s, i) == prepend_parse(c0, parse_str_body(s, i + 6)));
        } else {
            assert(s[i] == c0);
            assert(s[i] != '"' && s[i] != '\\' && !is_control(s[i]));
            assert(parse_str_body(s, i) == prepend_parse(c0, parse_str_body(s, i + 1)));
        }
    }
}

} // verus!
