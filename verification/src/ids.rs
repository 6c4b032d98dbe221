//! Entity identifiers.
//!
//! Every transaction and every group carries an opaque 128-bit id,
//! generated once at creation and rendered in documents and filenames as
//! the usual hyphenated lowercase hexadecimal form
//! (8-4-4-4-12 digits, 36 characters in all).

use vstd::prelude::*;

use crate::text::{
    chars_to_string, fixed_r, lemma_fixed_r_len, lemma_fixed_r_parse, lemma_parse_fixed_r_bound,
    lemma_parse_fixed_r_some_len, lemma_pow16_32_bound, lemma_pow_r_pos, parse_fixed_r,
    parse_fixed_r_exec, pow_r, pow_r_exec, write_fixed_r,
};
use vstd::arithmetic::div_mod::lemma_fundamental_div_mod;

verus! {

/// Relies on `uuid::Uuid::new_v4` (via `Uuid::as_u128`): draws a random
/// version-4 UUID.  The value depends on the process's randomness source,
/// so nothing is promised of it.
#[verifier::external_body]
pub(crate) fn fresh_id() -> u128 {
    uuid::Uuid::new_v4().as_u128()
}

/// The hyphenated lowercase rendering of an id.
pub open spec fn uuid_chars(id: int) -> Seq<char> {
    let p24 = pow_r(16, 24);
    let p20 = pow_r(16, 20);
    let p16 = pow_r(16, 16);
    let p12 = pow_r(16, 12);
    fixed_r(16, id / p24, 8) + seq!['-'] + fixed_r(16, id % p24 / p20, 4) + seq!['-'] + fixed_r(
        16,
        id % p20 / p16,
        4,
    ) + seq!['-'] + fixed_r(16, id % p16 / p12, 4) + seq!['-'] + fixed_r(16, id % p12, 12)
}

pub proof fn lemma_uuid_chars_len(id: int)
    ensures
        uuid_chars(id).len() == 36,
{
    let p24 = pow_r(16, 24);
    let p20 = pow_r(16, 20);
    let p16 = pow_r(16, 16);
    let p12 = pow_r(16, 12);
    lemma_fixed_r_len(16, id / p24, 8);
    lemma_fixed_r_len(16, id % p24 / p20, 4);
    lemma_fixed_r_len(16, id % p20 / p16, 4);
    lemma_fixed_r_len(16, id % p16 / p12, 4);
    lemma_fixed_r_len(16, id % p12, 12);
}

/// Reads a hyphenated id at `i`; yields the value and the position just
/// past its 36 characters.
pub open spec fn parse_uuid(s: Seq<char>, i: int) -> Option<(int, int)> {
    match parse_fixed_r(s, i, 16, 8) {
        Some(a) => {
            if i + 8 < s.len() && s[i + 8] == '-' {
                match parse_fixed_r(s, i + 9, 16, 4) {
                    Some(b) => {
                        if i + 13 < s.len() && s[i + 13] == '-' {
                            match parse_fixed_r(s, i + 14, 16, 4) {
                                Some(c) => {
                                    if i + 18 < s.len() && s[i + 18] == '-' {
                                        match parse_fixed_r(s, i + 19, 16, 4) {
                                            Some(d) => {
                                                if i + 23 < s.len() && s[i + 23] == '-' {
                                                    match parse_fixed_r(s, i + 24, 16, 12) {
                                                        Some(e) => Some(
                                                            (
                                                                a * pow_r(16, 24) + b * pow_r(
                                                                    16,
                                                                    20,
                                                                ) + c * pow_r(16, 16) + d * pow_r(
                                                                    16,
                                                                    12,
                                                                ) + e,
                                                                i + 36,
                                                            ),
                                                        ),
                                                        None => None,
                                                    }
                                                } else {
                                                    None
                                                }
                                            },
                                            None => None,
                                        }
                                    } else {
                                        None
                                    }
                                },
                                None => None,
                            }
                        } else {
                            None
                        }
                    },
                    None => None,
                }
            } else {
                None
            }
        },
        None => None,
    }
}

pub proof fn lemma_pow16_segments()
    ensures
        pow_r(16, 8) * pow_r(16, 24) == pow_r(16, 32),
        pow_r(16, 4) * pow_r(16, 20) == pow_r(16, 24),
        pow_r(16, 4) * pow_r(16, 16) == pow_r(16, 20),
        pow_r(16, 4) * pow_r(16, 12) == pow_r(16, 16),
        pow_r(16, 24) >= 1,
        pow_r(16, 20) >= 1,
        pow_r(16, 16) >= 1,
        pow_r(16, 12) >= 1,
{
    crate::text::lemma_pow_r_add(16, 8, 24);
    crate::text::lemma_pow_r_add(16, 4, 20);
    crate::text::lemma_pow_r_add(16, 4, 16);
    crate::text::lemma_pow_r_add(16, 4, 12);
    lemma_pow_r_pos(16, 24);
    lemma_pow_r_pos(16, 20);
    lemma_pow_r_pos(16, 16);
    lemma_pow_r_pos(16, 12);
}

/// A parsed id fits in 128 bits.
pub proof fn lemma_parse_uuid_bound(s: Seq<char>, i: int)
    requires
        parse_uuid(s, i) is Some,
    ensures
        0 <= parse_uuid(s, i).unwrap().0 < pow_r(16, 32),
        parse_uuid(s, i).unwrap().1 == i + 36,
        0 <= i,
        i + 36 <= s.len(),
{
    lemma_pow16_segments();
    let a = parse_fixed_r(s, i, 16, 8).unwrap();
    let b = parse_fixed_r(s, i + 9, 16, 4).unwrap();
    let c = parse_fixed_r(s, i + 14, 16, 4).unwrap();
    let d = parse_fixed_r(s, i + 19, 16, 4).unwrap();
    let e = parse_fixed_r(s, i + 24, 16, 12).unwrap();
    lemma_parse_fixed_r_bound(s, i, 16, 8);
    lemma_parse_fixed_r_bound(s, i + 9, 16, 4);
    lemma_parse_fixed_r_bound(s, i + 14, 16, 4);
    lemma_parse_fixed_r_bound(s, i + 19, 16, 4);
    lemma_parse_fixed_r_bound(s, i + 24, 16, 12);
    lemma_parse_fixed_r_some_len(s, i, 16, 8);
    lemma_parse_fixed_r_some_len(s, i + 24, 16, 12);
    assert(a * pow_r(16, 24) + b * pow_r(16, 20) + c * pow_r(16, 16) + d * pow_r(16, 12) + e
        < pow_r(16, 32)) by (nonlinear_arith)
        requires
            0 <= a < pow_r(16, 8),
            0 <= b < pow_r(16, 4),
            0 <= c < pow_r(16, 4),
            0 <= d < pow_r(16, 4),
            0 <= e < pow_r(16, 12),
            pow_r(16, 8) * pow_r(16, 24) == pow_r(16, 32),
            pow_r(16, 4) * pow_r(16, 20) == pow_r(16, 24),
            pow_r(16, 4) * pow_r(16, 16) == pow_r(16, 20),
            pow_r(16, 4) * pow_r(16, 12) == pow_r(16, 16),
            pow_r(16, 24) >= 1,
            pow_r(16, 20) >= 1,
            pow_r(16, 16) >= 1,
            pow_r(16, 12) >= 1,
    ;
    assert(0 <= a * pow_r(16, 24) + b * pow_r(16, 20) + c * pow_r(16, 16) + d * pow_r(16, 12) + e)
        by (nonlinear_arith)
        requires
            0 <= a,
            0 <= b,
            0 <= c,
            0 <= d,
            0 <= e,
            pow_r(16, 24) >= 1,
            pow_r(16, 20) >= 1,
            pow_r(16, 16) >= 1,
            pow_r(16, 12) >= 1,
    ;
}

/// Appends the rendering of `id` to `out`.
pub fn write_uuid(out: &mut Vec<char>, id: u128)
    ensures
        final(out)@ == old(out)@ + uuid_chars(id as int),
{
    proof {
        lemma_pow16_segments();
        lemma_pow16_32_bound();
    }
    let p24 = pow_r_exec(16, 24);
    let p20 = pow_r_exec(16, 20);
    let p16v = pow_r_exec(16, 16);
    let p12 = pow_r_exec(16, 12);
    proof {
        assert((id as int) / (p24 as int) < pow_r(16, 8)) by (nonlinear_arith)
            requires
                0 <= id as int,
                (id as int) < pow_r(16, 8) * (p24 as int),
                (p24 as int) >= 1,
        ;
        assert((id as int) % (p24 as int) / (p20 as int) < pow_r(16, 4)) by (nonlinear_arith)
            requires
                0 <= id as int,
                (p24 as int) == pow_r(16, 4) * (p20 as int),
                (p20 as int) >= 1,
                (p24 as int) >= 1,
        ;
        assert((id as int) % (p20 as int) / (p16v as int) < pow_r(16, 4)) by (nonlinear_arith)
            requires
                0 <= id as int,
                (p20 as int) == pow_r(16, 4) * (p16v as int),
                (p16v as int) >= 1,
                (p20 as int) >= 1,
        ;
        assert((id as int) % (p16v as int) / (p12 as int) < pow_r(16, 4)) by (nonlinear_arith)
            requires
                0 <= id as int,
                (p16v as int) == pow_r(16, 4) * (p12 as int),
                (p12 as int) >= 1,
                (p16v as int) >= 1,
        ;
        assert((id as int) % (p12 as int) < pow_r(16, 12)) by (nonlinear_arith)
            requires
                0 <= id as int,
                (p12 as int) == pow_r(16, 12),
                (p12 as int) >= 1,
        ;
    }
    let ghost start = out@;
    write_fixed_r(out, 16, id / p24, 8);
    out.push('-');
    write_fixed_r(out, 16, id % p24 / p20, 4);
    out.push('-');
    write_fixed_r(out, 16, id % p20 / p16v, 4);
    out.push('-');
    write_fixed_r(out, 16, id % p16v / p12, 4);
    out.push('-');
    write_fixed_r(out, 16, id % p12, 12);
    proof {
        assert(out@ =~= start + uuid_chars(id as int));
    }
}

/// The rendering of an id as a fresh `String`.
pub fn id_string(id: u128) -> (r: String)
    ensures
        r@ == uuid_chars(id as int),
{
    let mut v: Vec<char> = Vec::new();
    write_uuid(&mut v, id);
    chars_to_string(&v)
}

/// Parses a hyphenated id, matching [`parse_uuid`] exactly.
pub fn parse_uuid_exec(s: &Vec<char>, i: usize) -> (res: Option<(u128, usize)>)
    ensures
        match res {
            Some(p) => parse_uuid(s@, i as int) == Some((p.0 as int, p.1 as int)) && p.1 == i + 36
                && p.1 <= s@.len(),
            None => parse_uuid(s@, i as int) is None,
        },
{
    let slen = s.len();
    let a = match parse_fixed_r_exec(s, i, 16, 8) {
        Some(v) => v,
        None => {
            return None;
        },
    };
    proof {
        lemma_parse_fixed_r_some_len(s@, i as int, 16, 8);
    }
    if i + 8 >= slen {
        return None;
    }
    if s[i + 8] != '-' {
        return None;
    }
    let b = match parse_fixed_r_exec(s, i + 9, 16, 4) {
        Some(v) => v,
        None => {
            return None;
        },
    };
    proof {
        lemma_parse_fixed_r_some_len(s@, i as int + 9, 16, 4);
    }
    if i + 13 >= slen {
        return None;
    }
    if s[i + 13] != '-' {
        return None;
    }
    let c = match parse_fixed_r_exec(s, i + 14, 16, 4) {
        Some(v) => v,
        None => {
            return None;
        },
    };
    proof {
        lemma_parse_fixed_r_some_len(s@, i as int + 14, 16, 4);
    }
    if i + 18 >= slen {
        return None;
    }
    if s[i + 18] != '-' {
        return None;
    }
    let d = match parse_fixed_r_exec(s, i + 19, 16, 4) {
        Some(v) => v,
        None => {
            return None;
        },
    };
    proof {
        lemma_parse_fixed_r_some_len(s@, i as int + 19, 16, 4);
    }
    if i + 23 >= slen {
        return None;
    }
    if s[i + 23] != '-' {
        return None;
    }
    let e = match parse_fixed_r_exec(s, i + 24, 16, 12) {
        Some(v) => v,
        None => {
            return None;
        },
    };
    proof {
        lemma_parse_fixed_r_some_len(s@, i as int + 24, 16, 12);
        lemma_parse_uuid_bound(s@, i as int);
        lemma_pow16_segments();
        lemma_pow16_32_bound();
        lemma_parse_fixed_r_bound(s@, i as int, 16, 8);
        lemma_parse_fixed_r_bound(s@, i as int + 9, 16, 4);
        lemma_parse_fixed_r_bound(s@, i as int + 14, 16, 4);
        lemma_parse_fixed_r_bound(s@, i as int + 19, 16, 4);
        lemma_parse_fixed_r_bound(s@, i as int + 24, 16, 12);
    }
    let p24 = pow_r_exec(16, 24);
    let p20 = pow_r_exec(16, 20);
    let p16v = pow_r_exec(16, 16);
    let p12 = pow_r_exec(16, 12);
    let id = a * p24 + b * p20 + c * p16v + d * p12 + e;
    Some((id, i + 36))
}

/// Parsing recovers the id a rendering was written from.
pub proof fn lemma_uuid_round_trip(s: Seq<char>, i: int, id: int)
    requires
        0 <= id < pow_r(16, 32),
        0 <= i,
        i + 36 <= s.len(),
        s.subrange(i, i + 36) == uuid_chars(id),
    ensures
        parse_uuid(s, i) == Some((id, i + 36)),
{
    lemma_pow16_segments();
    let p24 = pow_r(16, 24);
    let p20 = pow_r(16, 20);
    let p16 = pow_r(16, 16);
    let p12 = pow_r(16, 12);
    let a = id / p24;
    let b = id % p24 / p20;
    let c = id % p20 / p16;
    let d = id % p16 / p12;
    let e = id % p12;
    let u = uuid_chars(id);
    lemma_fixed_r_len(16, a, 8);
    lemma_fixed_r_len(16, b, 4);
    lemma_fixed_r_len(16, c, 4);
    lemma_fixed_r_len(16, d, 4);
    lemma_fixed_r_len(16, e, 12);
    assert(a < pow_r(16, 8)) by (nonlinear_arith)
        requires
            0 <= id,
            id < pow_r(16, 8) * p24,
            p24 >= 1,
            a == id / p24,
    ;
    assert(0 <= a) by (nonlinear_arith)
        requires
            0 <= id,
            p24 >= 1,
            a == id / p24,
    ;
    assert(0 <= b < pow_r(16, 4)) by (nonlinear_arith)
        requires
            0 <= id,
            p24 == pow_r(16, 4) * p20,
            p20 >= 1,
            p24 >= 1,
            b == id % p24 / p20,
    ;
    assert(0 <= c < pow_r(16, 4)) by (nonlinear_arith)
        requires
            0 <= id,
            p20 == pow_r(16, 4) * p16,
            p16 >= 1,
            p20 >= 1,
            c == id % p20 / p16,
    ;
    assert(0 <= d < pow_r(16, 4)) by (nonlinear_arith)
        requires
            0 <= id,
            p16 == pow_r(16, 4) * p12,
            p12 >= 1,
            p16 >= 1,
            d == id % p16 / p12,
    ;
    assert(0 <= e < pow_r(16, 12)) by (nonlinear_arith)
        requires
            0 <= id,
            p12 == pow_r(16, 12),
            p12 >= 1,
            e == id % p12,
    ;
    assert(s.subrange(i, i + 8) =~= fixed_r(16, a, 8)) by {
        assert forall|k: int| 0 <= k < 8 implies #[trigger] s.subrange(i, i + 8)[k] == fixed_r(
            16,
            a,
            8,
        )[k] by {
            assert(s.subrange(i, i + 8)[k] == s.subrange(i, i + 36)[k]);
            assert(u[k] == fixed_r(16, a, 8)[k]);
        }
    }
    lemma_fixed_r_parse(s, i, 16, a, 8);
    assert(s[i + 8] == s.subrange(i, i + 36)[8]);
    assert(u[8] == '-');
    assert(s.subrange(i + 9, i + 13) =~= fixed_r(16, b, 4)) by {
        assert forall|k: int| 0 <= k < 4 implies #[trigger] s.subrange(i + 9, i + 13)[k] == fixed_r(
            16,
            b,
            4,
        )[k] by {
            assert(s.subrange(i + 9, i + 13)[k] == s.subrange(i, i + 36)[9 + k]);
            assert(u[9 + k] == fixed_r(16, b, 4)[k]);
        }
    }
    lemma_fixed_r_parse(s, i + 9, 16, b, 4);
    assert(s[i + 13] == s.subrange(i, i + 36)[13]);
    assert(u[13] == '-');
    assert(s.subrange(i + 14, i + 18) =~= fixed_r(16, c, 4)) by {
        assert forall|k: int| 0 <= k < 4 implies #[trigger] s.subrange(i + 14, i + 18)[k]
            == fixed_r(16, c, 4)[k] by {
            assert(s.subrange(i + 14, i + 18)[k] == s.subrange(i, i + 36)[14 + k]);
            assert(u[14 + k] == fixed_r(16, c, 4)[k]);
        }
    }
    lemma_fixed_r_parse(s, i + 14, 16, c, 4);
    assert(s[i + 18] == s.subrange(i, i + 36)[18]);
    assert(u[18] == '-');
    assert(s.subrange(i + 19, i + 23) =~= fixed_r(16, d, 4)) by {
        assert forall|k: int| 0 <= k < 4 implies #[trigger] s.subrange(i + 19, i + 23)[k]
            == fixed_r(16, d, 4)[k] by {
            assert(s.subrange(i + 19, i + 23)[k] == s.subrange(i, i + 36)[19 + k]);
            assert(u[19 + k] == fixed_r(16, d, 4)[k]);
        }
    }
    lemma_fixed_r_parse(s, i + 19, 16, d, 4);
    assert(s[i + 23] == s.subrange(i, i + 36)[23]);
    assert(u[23] == '-');
    assert(s.subrange(i + 24, i + 36) =~= fixed_r(16, e, 12)) by {
        assert forall|k: int| 0 <= k < 12 implies #[trigger] s.subrange(i + 24, i + 36)[k]
            == fixed_r(16, e, 12)[k] by {
            assert(s.subrange(i + 24, i + 36)[k] == s.subrange(i, i + 36)[24 + k]);
            assert(u[24 + k] == fixed_r(16, e, 12)[k]);
        }
    }
    lemma_fixed_r_parse(s, i + 24, 16, e, 12);
    lemma_fundamental_div_mod(id, p24);
    lemma_fundamental_div_mod(id % p24, p20);
    lemma_fundamental_div_mod(id % p20, p16);
    lemma_fundamental_div_mod(id % p16, p12);
    // id % p24 % p20 == id % p20, and so on down the segments
    lemma_mod_shrink(id, 16, 24, 20);
    lemma_mod_shrink(id, 16, 20, 16);
    lemma_mod_shrink(id, 16, 16, 12);
    assert(a * p24 + b * p20 + c * p16 + d * p12 + e == id);
}

/// Reducing modulo a smaller power absorbs a larger one.
pub proof fn lemma_mod_shrink(x: int, r: int, big: nat, small: nat)
    requires
        0 <= x,
        r >= 2,
        small <= big,
    ensures
        x % pow_r(r, big) % pow_r(r, small) == x % pow_r(r, small),
{
    crate::text::lemma_pow_r_add(r, (big - small) as nat, small);
    lemma_pow_r_pos(r, (big - small) as nat);
    lemma_pow_r_pos(r, small);
    lemma_pow_r_pos(r, big);
    let pb = pow_r(r, big);
    let ps = pow_r(r, small);
    let q = pow_r(r, (big - small) as nat);
    lemma_fundamental_div_mod(x, pb);
    // x = pb * (x / pb) + x % pb, and pb is a multiple of ps
    let k = q * (x / pb);
    assert(pb * (x / pb) == ps * k) by (nonlinear_arith)
        requires
            pb == q * ps,
            k == q * (x / pb),
    ;
    assert(ps * (-k) == -(ps * k)) by (nonlinear_arith);
    assert(x % pb == ps * (-k) + x);
    assert((ps * (-k) + x) % ps == x % ps) by {
        vstd::arithmetic::div_mod::lemma_mod_multiples_vanish(-k, x, ps);
    }
}

} // verus!
