//! The group document.
//!
//! A group is persisted as one JSON object:
//! `{"id":"…","name":"…","emoji":"…","color":[r,g,b,a],"transactions":[…]}`.
//! The serializer renders the canonical document; the parser reads it
//! back and rejects anything else with a parse error.  Parsing what was
//! serialized recovers the group exactly ([`lemma_group_round_trip`]).

use vstd::prelude::*;

use crate::group::{
    txs_view, unique_tx_ids, wf_color, wf_group, Color, Group, GroupV,
};
use crate::ids::{parse_uuid, parse_uuid_exec, uuid_chars, write_uuid};
use crate::jsonstr::{parse_str_body, parse_str_body_exec, ser_str_body, write_str_body};
use crate::scaled::{parse_scaled, parse_scaled_exec, ser_scaled, write_scaled, SCALE_MICRO};
use crate::text::{
    chars_to_string, expect_str, match_lit, push_str_chars, string_to_chars, lemma_subrange_extract,
};
use crate::transaction::{
    lemma_parse_tx_wf, lemma_tx_round_trip, lit_name, lit_obj_id, parse_tx, parse_tx_exec, ser_tx,
    wf_tx, Transaction, TransactionV,
};
use crate::DataError;

verus! {

pub open spec fn lit_emoji() -> Seq<char> {
    "\",\"emoji\":\""@
}

pub open spec fn lit_color() -> Seq<char> {
    "\",\"color\":["@
}

pub open spec fn lit_transactions() -> Seq<char> {
    "],\"transactions\":["@
}

// ----------------------------------------------------------------------
// Color
// ----------------------------------------------------------------------

/// The four channels, comma separated (the brackets belong to the
/// surrounding literals).
pub open spec fn ser_color(c: Color) -> Seq<char> {
    ser_scaled(c.red as int) + seq![','] + ser_scaled(c.green as int) + seq![','] + ser_scaled(
        c.blue as int,
    ) + seq![','] + ser_scaled(c.alpha as int)
}

pub open spec fn parse_color(s: Seq<char>, i: int) -> Option<(Color, int)> {
    match parse_scaled(s, i) {
        Some(p1) => {
            if p1.0 <= SCALE_MICRO as int && p1.1 < s.len() && s[p1.1] == ',' {
                match parse_scaled(s, p1.1 + 1) {
                    Some(p2) => {
                        if p2.0 <= SCALE_MICRO as int && p2.1 < s.len() && s[p2.1] == ',' {
                            match parse_scaled(s, p2.1 + 1) {
                                Some(p3) => {
                                    if p3.0 <= SCALE_MICRO as int && p3.1 < s.len() && s[p3.1]
                                        == ',' {
                                        match parse_scaled(s, p3.1 + 1) {
                                            Some(p4) => {
                                                if p4.0 <= SCALE_MICRO as int {
                                                    Some(
                                                        (
                                                            Color {
                                                                red: p1.0 as u32,
                                                                green: p2.0 as u32,
                                                                blue: p3.0 as u32,
                                                                alpha: p4.0 as u32,
                                                            },
                                                            p4.1,
                                                        ),
                                                    )
                                                } else {
                                                    None
                                                }
                                            },
                                            None => None,
                                        }
                                    } else {
                                        None
                                    }
                                },
                                None => None,
                            }
                        } else {
                            None
                        }
                    },
                    None => None,
                }
            } else {
                None
            }
        },
        None => None,
    }
}

/// Appends the channels of `c` to `out`.
pub fn write_color(out: &mut Vec<char>, c: &Color)
    requires
        wf_color(*c),
    ensures
        final(out)@ == old(out)@ + ser_color(*c),
{
    proof {
        crate::scaled::lemma_pow10_literals();
    }
    let ghost start = out@;
    write_scaled(out, c.red as u64);
    out.push(',');
    write_scaled(out, c.green as u64);
    out.push(',');
    write_scaled(out, c.blue as u64);
    out.push(',');
    write_scaled(out, c.alpha as u64);
    proof {
        assert(out@ =~= start + ser_color(*c));
    }
}

/// Parses the four channels, matching [`parse_color`] exactly.
pub fn parse_color_exec(s: &Vec<char>, i: usize) -> (res: Option<(Color, usize)>)
    requires
        i <= s@.len(),
    ensures
        match res {
            Some(p) => parse_color(s@, i as int) == Some((p.0, p.1 as int)) && p.1 <= s@.len()
                && wf_color(p.0),
            None => parse_color(s@, i as int) is None,
        },
{
    let (r1, j1) = match parse_scaled_exec(s, i) {
        Some(p) => p,
        None => {
            return None;
        },
    };
    if r1 > SCALE_MICRO || j1 >= s.len() {
        return None;
    }
    if s[j1] != ',' {
        return None;
    }
    let (r2, j2) = match parse_scaled_exec(s, j1 + 1) {
        Some(p) => p,
        None => {
            return None;
        },
    };
    if r2 > SCALE_MICRO || j2 >= s.len() {
        return None;
    }
    if s[j2] != ',' {
        return None;
    }
    let (r3, j3) = match parse_scaled_exec(s, j2 + 1) {
        Some(p) => p,
        None => {
            return None;
        },
    };
    if r3 > SCALE_MICRO || j3 >= s.len() {
        return None;
    }
    if s[j3] != ',' {
        return None;
    }
    let (r4, j4) = match parse_scaled_exec(s, j3 + 1) {
        Some(p) => p,
        None => {
            return None;
        },
    };
    if r4 > SCALE_MICRO {
        return None;
    }
    Some(
        (
            Color { red: r1 as u32, green: r2 as u32, blue: r3 as u32, alpha: r4 as u32 },
            j4,
        ),
    )
}

/// Parsing recovers the color a rendering was written from, given a
/// non-digit delimiter after it.
pub proof fn lemma_color_round_trip(s: Seq<char>, i: int, c: Color)
    requires
        wf_color(c),
        0 <= i,
        i + ser_color(c).len() <= s.len(),
        s.subrange(i, i + ser_color(c).len() as int) == ser_color(c),
        i + ser_color(c).len() == s.len() || !crate::text::is_dec_digit(
            s[i + ser_color(c).len() as int],
        ),
    ensures
        parse_color(s, i) == Some((c, i + ser_color(c).len() as int)),
{
    let whole = ser_color(c);
    let ln = whole.len() as int;
    let s1 = ser_scaled(c.red as int);
    let s2 = ser_scaled(c.green as int);
    let s3 = ser_scaled(c.blue as int);
    let s4 = ser_scaled(c.alpha as int);
    let o1 = s1.len() as int;
    let o2 = o1 + 1;
    let o3 = o2 + s2.len() as int;
    let o4 = o3 + 1;
    let o5 = o4 + s3.len() as int;
    let o6 = o5 + 1;
    assert(ln == o6 + s4.len());
    assert(whole.subrange(0, o1) =~= s1);
    assert(whole.subrange(o2, o3) =~= s2);
    assert(whole.subrange(o4, o5) =~= s3);
    assert(whole.subrange(o6, ln) =~= s4);
    lemma_subrange_extract(s, i, whole, 0, o1);
    lemma_subrange_extract(s, i, whole, o2, o3);
    lemma_subrange_extract(s, i, whole, o4, o5);
    lemma_subrange_extract(s, i, whole, o6, ln);
    assert(s[i + o1] == whole[o1]);
    assert(whole[o1] == ',');
    assert(s[i + o3] == whole[o3]);
    assert(whole[o3] == ',');
    assert(s[i + o5] == whole[o5]);
    assert(whole[o5] == ',');
    crate::scaled::lemma_pow10_literals();
    crate::scaled::lemma_scaled_round_trip(s, i, c.red as int);
    crate::scaled::lemma_scaled_round_trip(s, i + o2, c.green as int);
    crate::scaled::lemma_scaled_round_trip(s, i + o4, c.blue as int);
    crate::scaled::lemma_scaled_round_trip(s, i + o6, c.alpha as int);
}

// ----------------------------------------------------------------------
// The transaction list
// ----------------------------------------------------------------------

/// The items after the first one, each preceded by a comma, closed by
/// the bracket.
pub open spec fn ser_tx_tail(ts: Seq<TransactionV>) -> Seq<char>
    decreases ts.len(),
{
    if ts.len() == 0 {
        seq![']']
    } else {
        seq![','] + ser_tx(ts[0]) + ser_tx_tail(ts.skip(1))
    }
}

/// The whole list body including the closing bracket (the opening
/// bracket belongs to the preceding literal).
pub open spec fn ser_tx_list(ts: Seq<TransactionV>) -> Seq<char> {
    if ts.len() == 0 {
        seq![']']
    } else {
        ser_tx(ts[0]) + ser_tx_tail(ts.skip(1))
    }
}

pub open spec fn parse_tx_tail(s: Seq<char>, i: int) -> Option<(Seq<TransactionV>, int)>
    decreases s.len() - i,
    via parse_tx_tail_dec
{
    if i < 0 || i >= s.len() {
        None
    } else if s[i] == ']' {
        Some((Seq::empty(), i + 1))
    } else if s[i] == ',' {
        match parse_tx(s, i + 1) {
            Some(pt) => match parse_tx_tail(s, pt.1) {
                Some(pl) => Some((seq![pt.0] + pl.0, pl.1)),
                None => None,
            },
            None => None,
        }
    } else {
        None
    }
}

#[via_fn]
proof fn parse_tx_tail_dec(s: Seq<char>, i: int) {
    if !(i < 0 || i >= s.len()) && s[i] != ']' && s[i] == ',' {
        if parse_tx(s, i + 1) is Some {
            lemma_parse_tx_wf(s, i + 1);
        }
    }
}

pub open spec fn parse_tx_list(s: Seq<char>, i: int) -> Option<(Seq<TransactionV>, int)> {
    if 0 <= i && i < s.len() && s[i] == ']' {
        Some((Seq::empty(), i + 1))
    } else {
        match parse_tx(s, i) {
            Some(pt) => match parse_tx_tail(s, pt.1) {
                Some(pl) => Some((seq![pt.0] + pl.0, pl.1)),
                None => None,
            },
            None => None,
        }
    }
}

/// Appends the tail of the list, the items of `txs` from `k` on.
#[verifier::rlimit(100)]
#[verifier::spinoff_prover]
fn write_tx_tail(out: &mut Vec<char>, txs: &Vec<Transaction>, k: usize)
    requires
        k <= txs@.len(),
        forall|j: int| 0 <= j < txs@.len() ==> (#[trigger] txs@[j]).wf(),
    ensures
        final(out)@ == old(out)@ + ser_tx_tail(txs_view(txs@).skip(k as int)),
    decreases txs@.len() - k,
{
    let ghost start = out@;
    if k == txs.len() {
        out.push(']');
        proof {
            assert(txs_view(txs@).skip(k as int) =~= Seq::<TransactionV>::empty());
            assert(out@ =~= start + ser_tx_tail(Seq::<TransactionV>::empty()));
        }
    } else {
        out.push(',');
        crate::transaction::write_tx(out, &txs[k]);
        write_tx_tail(out, txs, k + 1);
        proof {
            let v = txs_view(txs@);
            assert(v.skip(k as int)[0] == v[k as int]);
            assert(v.skip(k as int).skip(1) =~= v.skip(k as int + 1));
            assert(v[k as int] == txs@[k as int]@);
            assert(out@ =~= start + ser_tx_tail(v.skip(k as int)));
        }
    }
}

/// Appends the whole list body.
pub fn write_tx_list(out: &mut Vec<char>, txs: &Vec<Transaction>)
    requires
        forall|j: int| 0 <= j < txs@.len() ==> (#[trigger] txs@[j]).wf(),
    ensures
        final(out)@ == old(out)@ + ser_tx_list(txs_view(txs@)),
{
    let ghost start = out@;
    if txs.len() == 0 {
        out.push(']');
        proof {
            assert(out@ =~= start + ser_tx_list(txs_view(txs@)));
        }
    } else {
        crate::transaction::write_tx(out, &txs[0]);
        write_tx_tail(out, txs, 1);
        proof {
            let v = txs_view(txs@);
            assert(v[0] == txs@[0]@);
            assert(out@ =~= start + ser_tx_list(v));
        }
    }
}

/// Parses the list body, matching [`parse_tx_list`] exactly.
pub fn parse_tx_list_exec(s: &Vec<char>, i: usize) -> (res: Option<(Vec<Transaction>, usize)>)
    ensures
        match res {
            Some(p) => parse_tx_list(s@, i as int) == Some((txs_view(p.0@), p.1 as int)) && p.1
                <= s@.len() && (forall|k: int|
                0 <= k < p.0@.len() ==> (#[trigger] p.0@[k]).wf()),
            None => parse_tx_list(s@, i as int) is None,
        },
{
    let slen = s.len();
    if i < slen {
        if s[i] == ']' {
            let empty: Vec<Transaction> = Vec::new();
            proof {
                assert(txs_view(empty@) =~= Seq::<TransactionV>::empty());
            }
            return Some((empty, i + 1));
        }
    }
    let (t0, mut pos) = match parse_tx_exec(s, i) {
        Some(p) => p,
        None => {
            return None;
        },
    };
    let mut acc: Vec<Transaction> = Vec::new();
    acc.push(t0);
    proof {
        assert(txs_view(acc@) =~= seq![acc@[0]@]);
    }
    while pos < slen
        invariant
            pos <= slen,
            slen == s@.len(),
            forall|k: int| 0 <= k < acc@.len() ==> (#[trigger] acc@[k]).wf(),
            parse_tx_list(s@, i as int) == (match parse_tx_tail(s@, pos as int) {
                Some(pl) => Some((txs_view(acc@) + pl.0, pl.1)),
                None => None,
            }),
        decreases slen - pos,
    {
        let c = s[pos];
        if c == ']' {
            proof {
                assert(parse_tx_tail(s@, pos as int) == Some(
                    (Seq::<TransactionV>::empty(), pos as int + 1),
                ));
                assert(txs_view(acc@) + Seq::<TransactionV>::empty() =~= txs_view(acc@));
            }
            return Some((acc, pos + 1));
        }
        if c != ',' {
            return None;
        }
        match parse_tx_exec(s, pos + 1) {
            Some(p) => {
                let ghost accold = acc@;
                let ghost tv = p.0@;
                proof {
                    crate::group::lemma_txs_view_push(accold, p.0);
                }
                acc.push(p.0);
                pos = p.1;
                proof {
                    if parse_tx_tail(s@, pos as int) is Some {
                        let pl = parse_tx_tail(s@, pos as int).unwrap();
                        assert(txs_view(accold) + (seq![tv] + pl.0) =~= txs_view(acc@) + pl.0);
                    }
                }
            },
            None => {
                return None;
            },
        }
    }
    None
}

/// Parsing recovers the items a tail was written from.
#[verifier::rlimit(100)]
#[verifier::spinoff_prover]
pub proof fn lemma_tx_tail_round_trip(s: Seq<char>, i: int, ts: Seq<TransactionV>)
    requires
        forall|k: int| 0 <= k < ts.len() ==> wf_tx(#[trigger] ts[k]),
        0 <= i,
        i + ser_tx_tail(ts).len() <= s.len(),
        s.subrange(i, i + ser_tx_tail(ts).len() as int) == ser_tx_tail(ts),
    ensures
        parse_tx_tail(s, i) == Some((ts, i + ser_tx_tail(ts).len() as int)),
    decreases ts.len(),
{
    let whole = ser_tx_tail(ts);
    let ln = whole.len() as int;
    if ts.len() == 0 {
        assert(s[i] == '"' || true);
        assert(s[i] == whole[0]);
        assert(whole[0] == ']');
        assert(parse_tx_tail(s, i) == Some((Seq::<TransactionV>::empty(), i + 1)));
        assert(Seq::<TransactionV>::empty() =~= ts);
    } else {
        let t0 = ts[0];
        let tx0 = ser_tx(t0);
        let rest = ser_tx_tail(ts.skip(1));
        let o1 = 1 + tx0.len() as int;
        assert(ln == o1 + rest.len());
        assert(s[i] == whole[0]);
        assert(whole[0] == ',');
        assert(whole.subrange(1, o1) =~= tx0);
        assert(whole.subrange(o1, ln) =~= rest);
        lemma_subrange_extract(s, i, whole, 1, o1);
        lemma_subrange_extract(s, i, whole, o1, ln);
        assert(wf_tx(t0));
        lemma_tx_round_trip(s, i + 1, t0);
        assert forall|k: int| 0 <= k < ts.skip(1).len() implies wf_tx(#[trigger] ts.skip(1)[k]) by {
            assert(ts.skip(1)[k] == ts[k + 1]);
        }
        lemma_tx_tail_round_trip(s, i + o1, ts.skip(1));
        assert(seq![t0] + ts.skip(1) =~= ts);
    }
}

/// Parsing recovers the items a list body was written from.
#[verifier::rlimit(100)]
#[verifier::spinoff_prover]
pub proof fn lemma_tx_list_round_trip(s: Seq<char>, i: int, ts: Seq<TransactionV>)
    requires
        forall|k: int| 0 <= k < ts.len() ==> wf_tx(#[trigger] ts[k]),
        0 <= i,
        i + ser_tx_list(ts).len() <= s.len(),
        s.subrange(i, i + ser_tx_list(ts).len() as int) == ser_tx_list(ts),
    ensures
        parse_tx_list(s, i) == Some((ts, i + ser_tx_list(ts).len() as int)),
{
    let whole = ser_tx_list(ts);
    let ln = whole.len() as int;
    if ts.len() == 0 {
        assert(s[i] == whole[0]);
        assert(whole[0] == ']');
        assert(Seq::<TransactionV>::empty() =~= ts);
    } else {
        let t0 = ts[0];
        let tx0 = ser_tx(t0);
        let rest = ser_tx_tail(ts.skip(1));
        let o1 = tx0.len() as int;
        assert(ln == o1 + rest.len());
        assert(whole.subrange(0, o1) =~= tx0);
        assert(whole.subrange(o1, ln) =~= rest);
        lemma_subrange_extract(s, i, whole, 0, o1);
        lemma_subrange_extract(s, i, whole, o1, ln);
        assert(wf_tx(t0));
        lemma_tx_round_trip(s, i, t0);
        // the first character is the brace that opens the transaction,
        // so the empty-list branch is not taken
        assert(lit_obj_id()[0] == '{' && lit_obj_id().len() == 7) by {
            reveal_strlit("{\"id\":\"");
        }
        assert(s[i] == whole[0]);
        assert(whole[0] == tx0[0]);
        assert(tx0[0] == lit_obj_id()[0]);
        assert forall|k: int| 0 <= k < ts.skip(1).len() implies wf_tx(#[trigger] ts.skip(1)[k]) by {
            assert(ts.skip(1)[k] == ts[k + 1]);
        }
        lemma_tx_tail_round_trip(s, i + o1, ts.skip(1));
        assert(seq![t0] + ts.skip(1) =~= ts);
    }
}

// ----------------------------------------------------------------------
// The whole document
// ----------------------------------------------------------------------

/// The document of one group.
pub open spec fn ser_group(g: GroupV) -> Seq<char> {
    lit_obj_id() + uuid_chars(g.id as int) + lit_name() + ser_str_body(g.name) + lit_emoji()
        + ser_str_body(g.emoji) + lit_color() + ser_color(g.color) + lit_transactions()
        + ser_tx_list(g.transactions) + seq!['}']
}

/// Reads one group object at `i`.
pub open spec fn parse_group(s: Seq<char>, i: int) -> Option<(GroupV, int)> {
    if match_lit(s, i, lit_obj_id()) {
        match parse_uuid(s, i + lit_obj_id().len()) {
            Some(pid) => {
                if match_lit(s, pid.1, lit_name()) {
                    match parse_str_body(s, pid.1 + lit_name().len()) {
                        Some(pn) => {
                            if pn.0.len() > 0 && match_lit(s, pn.1, lit_emoji()) {
                                match parse_str_body(s, pn.1 + lit_emoji().len()) {
                                    Some(pe) => {
                                        if pe.0.len() > 0 && match_lit(s, pe.1, lit_color()) {
                                            match parse_color(s, pe.1 + lit_color().len()) {
                                                Some(pc) => {
                                                    if match_lit(s, pc.1, lit_transactions()) {
                                                        match parse_tx_list(
                                                            s,
                                                            pc.1 + lit_transactions().len(),
                                                        ) {
                                                            Some(pl) => {
                                                                if unique_tx_ids(pl.0) && pl.1
                                                                    < s.len() && s[pl.1] == '}' {
                                                                    Some(
                                                                        (
                                                                            GroupV {
                                                                                id: pid.0 as u128,
                                                                                name: pn.0,
                                                                                emoji: pe.0,
                                                                                color: pc.0,
                                                                                transactions: pl.0,
                                                                            },
                                                                            pl.1 + 1,
                                                                        ),
                                                                    )
                                                                } else {
                                                                    None
                                                                }
                                                            },
                                                            None => None,
                                                        }
                                                    } else {
                                                        None
                                                    }
                                                },
                                                None => None,
                                            }
                                        } else {
                                            None
                                        }
                                    },
                                    None => None,
                                }
                            } else {
                                None
                            }
                        },
                        None => None,
                    }
                } else {
                    None
                }
            },
            None => None,
        }
    } else {
        None
    }
}

/// A whole text is one group document when the object fills it exactly.
pub open spec fn parse_group_doc(s: Seq<char>) -> Option<GroupV> {
    match parse_group(s, 0) {
        Some(p) => {
            if p.1 == s.len() {
                Some(p.0)
            } else {
                None
            }
        },
        None => None,
    }
}

/// Whether two transactions of the list share an id.
pub fn check_unique_ids(txs: &Vec<Transaction>) -> (r: bool)
    ensures
        r == unique_tx_ids(txs_view(txs@)),
{
    let n = txs.len();
    let mut a: usize = 0;
    while a < n
        invariant
            a <= n,
            n == txs@.len(),
            forall|j: int, k: int|
                0 <= j < k < txs@.len() && j < a ==> (#[trigger] txs@[j])@.id != (#[trigger] txs@[k])@.id,
        decreases n - a,
    {
        let mut b: usize = a + 1;
        while b < n
            invariant
                a < b <= n || (a + 1 == b && b > n),
                a < n,
                n == txs@.len(),
                forall|j: int, k: int|
                    0 <= j < k < txs@.len() && j < a ==> (#[trigger] txs@[j])@.id != (
                    #[trigger] txs@[k])@.id,
                forall|k: int| a < k < b ==> txs@[a as int]@.id != (#[trigger] txs@[k])@.id,
            decreases n - b,
        {
            if txs[a].id == txs[b].id {
                proof {
                    assert(txs_view(txs@)[a as int].id == txs_view(txs@)[b as int].id);
                }
                return false;
            }
            b = b + 1;
        }
        a = a + 1;
    }
    proof {
        assert forall|j: int, k: int| 0 <= j < k < txs_view(txs@).len() implies (
        #[trigger] txs_view(txs@)[j]).id != (#[trigger] txs_view(txs@)[k]).id by {
            assert(txs@[j]@.id != txs@[k]@.id);
        }
    }
    true
}

/// Appends the document of `g` to `out`.
#[verifier::rlimit(100)]
#[verifier::spinoff_prover]
pub fn write_group(out: &mut Vec<char>, g: &Group)
    requires
        g.wf(),
    ensures
        final(out)@ == old(out)@ + ser_group(g@),
{
    let ghost start = out@;
    push_str_chars(out, "{\"id\":\"");
    write_uuid(out, g.id);
    push_str_chars(out, "\",\"name\":\"");
    let namev = string_to_chars(g.name.as_str());
    write_str_body(out, &namev);
    push_str_chars(out, "\",\"emoji\":\"");
    let emojiv = string_to_chars(g.emoji.as_str());
    write_str_body(out, &emojiv);
    push_str_chars(out, "\",\"color\":[");
    write_color(out, &g.color);
    push_str_chars(out, "],\"transactions\":[");
    proof {
        assert forall|j: int| 0 <= j < g.transactions@.len() implies (
        #[trigger] g.transactions@[j]).wf() by {
            assert(g@.transactions[j] == g.transactions@[j]@);
        }
    }
    write_tx_list(out, &g.transactions);
    out.push('}');
    proof {
        assert(out@ =~= start + ser_group(g@));
    }
}

/// Parses one group object, matching [`parse_group`] exactly.
pub fn parse_group_exec(s: &Vec<char>, i: usize) -> (res: Option<(Group, usize)>)
    ensures
        match res {
            Some(p) => parse_group(s@, i as int) == Some((p.0@, p.1 as int)) && p.0.wf() && p.1
                <= s@.len(),
            None => parse_group(s@, i as int) is None,
        },
{
    let i1 = match expect_str(s, i, "{\"id\":\"") {
        Some(j) => j,
        None => {
            return None;
        },
    };
    let (id, i2) = match parse_uuid_exec(s, i1) {
        Some(p) => p,
        None => {
            return None;
        },
    };
    let i3 = match expect_str(s, i2, "\",\"name\":\"") {
        Some(j) => j,
        None => {
            return None;
        },
    };
    let (namev, i4) = match parse_str_body_exec(s, i3) {
        Some(p) => p,
        None => {
            return None;
        },
    };
    if namev.len() == 0 {
        return None;
    }
    let i5 = match expect_str(s, i4, "\",\"emoji\":\"") {
        Some(j) => j,
        None => {
            return None;
        },
    };
    let (emojiv, i6) = match parse_str_body_exec(s, i5) {
        Some(p) => p,
        None => {
            return None;
        },
    };
    if emojiv.len() == 0 {
        return None;
    }
    let i7 = match expect_str(s, i6, "\",\"color\":[") {
        Some(j) => j,
        None => {
            return None;
        },
    };
    let (color, i8) = match parse_color_exec(s, i7) {
        Some(p) => p,
        None => {
            return None;
        },
    };
    let i9 = match expect_str(s, i8, "],\"transactions\":[") {
        Some(j) => j,
        None => {
            return None;
        },
    };
    let (txs, i10) = match parse_tx_list_exec(s, i9) {
        Some(p) => p,
        None => {
            return None;
        },
    };
    if !check_unique_ids(&txs) {
        return None;
    }
    if i10 >= s.len() {
        return None;
    }
    if s[i10] != '}' {
        return None;
    }
    let g = Group {
        id,
        name: chars_to_string(&namev),
        emoji: chars_to_string(&emojiv),
        color,
        transactions: txs,
    };
    Some((g, i10 + 1))
}

impl Group {
    /// Executable form of [`Group::wf`], for callers that hold a group
    /// whose provenance they cannot vouch for.
    pub fn valid(&self) -> (r: bool)
        ensures
            r == self.wf(),
    {
        if self.name.as_str().is_empty() {
            return false;
        }
        if self.emoji.as_str().is_empty() {
            return false;
        }
        if self.color.red > SCALE_MICRO as u32 || self.color.green > SCALE_MICRO as u32
            || self.color.blue > SCALE_MICRO as u32 || self.color.alpha > SCALE_MICRO as u32 {
            return false;
        }
        let n = self.transactions.len();
        let mut k: usize = 0;
        while k < n
            invariant
                k <= n,
                n == self.transactions@.len(),
                forall|j: int| 0 <= j < k ==> wf_tx((#[trigger] self.transactions@[j])@),
            decreases n - k,
        {
            let t = &self.transactions[k];
            if t.name.as_str().is_empty() || t.amount < 1 || t.amount > crate::scaled::MAX_SCALED
                || !t.date.valid() {
                proof {
                    assert(!wf_tx(self@.transactions[k as int]));
                }
                return false;
            }
            k = k + 1;
        }
        proof {
            assert forall|j: int| 0 <= j < self@.transactions.len() implies wf_tx(
                #[trigger] self@.transactions[j],
            ) by {
                assert(self@.transactions[j] == self.transactions@[j]@);
            }
        }
        check_unique_ids(&self.transactions)
    }

    /// The group's document, ready to be written to its file.
    pub fn to_json(&self) -> (r: String)
        requires
            self.wf(),
        ensures
            r@ == ser_group(self@),
    {
        let mut out: Vec<char> = Vec::new();
        write_group(&mut out, self);
        chars_to_string(&out)
    }

    /// Reads a group back from document text.  Exactly the canonical
    /// documents are accepted: on success the result is well-formed and
    /// is the one group whose document the text is; anything else is a
    /// parse error.
    pub fn from_json(s: &str) -> (res: Result<Group, DataError>)
        ensures
            match res {
                Ok(g) => g.wf() && parse_group_doc(s@) == Some(g@),
                Err(e) => e == DataError::ParseError && parse_group_doc(s@) is None,
            },
    {
        let v = string_to_chars(s);
        match parse_group_exec(&v, 0) {
            Some(p) => {
                if p.1 == v.len() {
                    Ok(p.0)
                } else {
                    Err(DataError::ParseError)
                }
            },
            None => Err(DataError::ParseError),
        }
    }
}

/// Where each piece of a group document lies.
#[verifier::rlimit(100)]
#[verifier::spinoff_prover]
proof fn lemma_ser_group_layout(
    g: GroupV,
    o1: int,
    o2: int,
    o3: int,
    o4: int,
    o5: int,
    o6: int,
    o7: int,
    o8: int,
    o9: int,
    o10: int,
)
    requires
        o1 == lit_obj_id().len(),
        o2 == o1 + 36,
        o3 == o2 + lit_name().len(),
        o4 == o3 + ser_str_body(g.name).len(),
        o5 == o4 + lit_emoji().len(),
        o6 == o5 + ser_str_body(g.emoji).len(),
        o7 == o6 + lit_color().len(),
        o8 == o7 + ser_color(g.color).len(),
        o9 == o8 + lit_transactions().len(),
        o10 == o9 + ser_tx_list(g.transactions).len(),
    ensures
        ser_group(g).len() == o10 + 1,
        ser_group(g).subrange(0, o1) == lit_obj_id(),
        ser_group(g).subrange(o1, o2) == uuid_chars(g.id as int),
        ser_group(g).subrange(o2, o3) == lit_name(),
        ser_group(g).subrange(o3, o4) == ser_str_body(g.name),
        ser_group(g).subrange(o4, o5) == lit_emoji(),
        ser_group(g).subrange(o5, o6) == ser_str_body(g.emoji),
        ser_group(g).subrange(o6, o7) == lit_color(),
        ser_group(g).subrange(o7, o8) == ser_color(g.color),
        ser_group(g).subrange(o8, o9) == lit_transactions(),
        ser_group(g).subrange(o9, o10) == ser_tx_list(g.transactions),
        ser_group(g)[o10] == '}',
{
    crate::ids::lemma_uuid_chars_len(g.id as int);
    let whole = ser_group(g);
    assert(whole.subrange(0, o1) =~= lit_obj_id());
    assert(whole.subrange(o1, o2) =~= uuid_chars(g.id as int));
    assert(whole.subrange(o2, o3) =~= lit_name());
    assert(whole.subrange(o3, o4) =~= ser_str_body(g.name));
    assert(whole.subrange(o4, o5) =~= lit_emoji());
    assert(whole.subrange(o5, o6) =~= ser_str_body(g.emoji));
    assert(whole.subrange(o6, o7) =~= lit_color());
    assert(whole.subrange(o7, o8) =~= ser_color(g.color));
    assert(whole.subrange(o8, o9) =~= lit_transactions());
    assert(whole.subrange(o9, o10) =~= ser_tx_list(g.transactions));
}

/// Parsing recovers the group a document was written from.
#[verifier::rlimit(100)]
#[verifier::spinoff_prover]
pub proof fn lemma_group_parse_at(s: Seq<char>, i: int, g: GroupV)
    requires
        wf_group(g),
        0 <= i,
        i + ser_group(g).len() <= s.len(),
        s.subrange(i, i + ser_group(g).len() as int) == ser_group(g),
    ensures
        parse_group(s, i) == Some((g, i + ser_group(g).len() as int)),
{
    reveal_strlit("\",\"emoji\":\"");
    reveal_strlit("\",\"color\":[");
    reveal_strlit("],\"transactions\":[");
    crate::text::lemma_pow16_32_bound();
    let whole = ser_group(g);
    let ln = whole.len() as int;
    let uu = uuid_chars(g.id as int);
    let nb = ser_str_body(g.name);
    let eb = ser_str_body(g.emoji);
    let cb = ser_color(g.color);
    let lb = ser_tx_list(g.transactions);
    crate::ids::lemma_uuid_chars_len(g.id as int);
    let o1 = lit_obj_id().len() as int;
    let o2 = o1 + 36;
    let o3 = o2 + lit_name().len() as int;
    let o4 = o3 + nb.len() as int;
    let o5 = o4 + lit_emoji().len() as int;
    let o6 = o5 + eb.len() as int;
    let o7 = o6 + lit_color().len() as int;
    let o8 = o7 + cb.len() as int;
    let o9 = o8 + lit_transactions().len() as int;
    let o10 = o9 + lb.len() as int;
    lemma_ser_group_layout(g, o1, o2, o3, o4, o5, o6, o7, o8, o9, o10);
    assert(ln == o10 + 1);
    lemma_subrange_extract(s, i, whole, 0, o1);
    lemma_subrange_extract(s, i, whole, o1, o2);
    lemma_subrange_extract(s, i, whole, o2, o3);
    lemma_subrange_extract(s, i, whole, o3, o4);
    lemma_subrange_extract(s, i, whole, o4, o5);
    lemma_subrange_extract(s, i, whole, o5, o6);
    lemma_subrange_extract(s, i, whole, o6, o7);
    lemma_subrange_extract(s, i, whole, o7, o8);
    lemma_subrange_extract(s, i, whole, o8, o9);
    lemma_subrange_extract(s, i, whole, o9, o10);
    assert(match_lit(s, i, lit_obj_id()));
    crate::ids::lemma_uuid_round_trip(s, i + o1, g.id as int);
    assert(match_lit(s, i + o2, lit_name()));
    // the name body is followed by the quote that opens lit_emoji
    assert(s[i + o4] == s.subrange(i + o4, i + o5)[0]);
    assert(lit_emoji()[0] == '"');
    crate::jsonstr::lemma_str_body_round_trip(s, i + o3, g.name);
    assert(match_lit(s, i + o4, lit_emoji()));
    // the emoji body is followed by the quote that opens lit_color
    assert(s[i + o6] == s.subrange(i + o6, i + o7)[0]);
    assert(lit_color()[0] == '"');
    crate::jsonstr::lemma_str_body_round_trip(s, i + o5, g.emoji);
    assert(match_lit(s, i + o6, lit_color()));
    // the color is followed by the bracket that opens lit_transactions
    assert(s[i + o8] == s.subrange(i + o8, i + o9)[0]);
    assert(lit_transactions()[0] == ']');
    assert(!crate::text::is_dec_digit(']'));
    lemma_color_round_trip(s, i + o7, g.color);
    assert(match_lit(s, i + o8, lit_transactions()));
    lemma_tx_list_round_trip(s, i + o9, g.transactions);
    assert(s[i + o10] == whole[o10]);
    assert(whole[o10] == '}');
    let parsed = parse_group(s, i).unwrap();
    assert(parsed.0 =~= g);
    assert(parsed.1 == i + ln);
}

/// Saving and loading a group is the identity: parsing the document of
/// any well-formed group yields that group back.
#[verifier::rlimit(100)]
#[verifier::spinoff_prover]
pub proof fn lemma_group_round_trip(g: GroupV)
    requires
        wf_group(g),
    ensures
        parse_group_doc(ser_group(g)) == Some(g),
{
    let s = ser_group(g);
    assert(s.subrange(0, s.len() as int) =~= s);
    lemma_group_parse_at(s, 0, g);
}

} // verus!
