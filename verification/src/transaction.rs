//! Transactions: one recorded money movement.
//!
//! A transaction has an opaque id, a non-empty display name, a kind
//! (expense or income), a positive amount in micro-units, and a
//! timestamp.  The sign of an amount is never stored: it is derived
//! from the kind on read.  Within a group document a transaction is one
//! JSON object with the fields `id`, `name`, `tr_type`, `amount` and
//! `date`.

use vstd::prelude::*;

use crate::datetime::{parse_datetime, parse_datetime_exec, ser_datetime, write_datetime, DateTime};
use crate::ids::{fresh_id, parse_uuid, parse_uuid_exec, uuid_chars, write_uuid};
use crate::jsonstr::{parse_str_body, parse_str_body_exec, ser_str_body, write_str_body};
use crate::scaled::{parse_scaled, parse_scaled_exec, ser_scaled, write_scaled, MAX_SCALED};
use crate::text::{
    chars_to_string, expect_str, match_lit, push_str_chars, string_to_chars, lemma_subrange_extract,
};

verus! {

/// The kind of a money movement.
#[derive(Clone, Copy, Debug, PartialEq, Eq, Structural)]
pub enum TransactionType {
    EXPENSE,
    INCOME,
}

/// The document spelling of a kind.
pub open spec fn kind_chars(t: TransactionType) -> Seq<char> {
    match t {
        TransactionType::EXPENSE => "EXPENSE"@,
        TransactionType::INCOME => "INCOME"@,
    }
}

pub fn transaction_type_to_string(tr_type: &TransactionType) -> (r: String)
    ensures
        r@ == kind_chars(*tr_type),
{
    match tr_type {
        TransactionType::EXPENSE => "EXPENSE".to_owned(),
        TransactionType::INCOME => "INCOME".to_owned(),
    }
}

pub fn transaction_type_from_string(tr_str: &str) -> (r: TransactionType)
    requires
        tr_str@ == kind_chars(TransactionType::EXPENSE) || tr_str@ == kind_chars(
            TransactionType::INCOME,
        ),
    ensures
        kind_chars(r) == tr_str@,
{
    let v = string_to_chars(tr_str);
    match expect_str(&v, 0, "EXPENSE") {
        Some(j) => {
            proof {
                reveal_strlit("EXPENSE");
                reveal_strlit("INCOME");
            }
            TransactionType::EXPENSE
        },
        None => {
            proof {
                reveal_strlit("EXPENSE");
                reveal_strlit("INCOME");
                if tr_str@ == kind_chars(TransactionType::EXPENSE) {
                    assert(v@.subrange(0, 7) =~= "EXPENSE"@);
                    assert(match_lit(v@, 0, "EXPENSE"@));
                }
            }
            TransactionType::INCOME
        },
    }
}

/// The mathematical content of a transaction.
#[verifier::ext_equal]
pub struct TransactionV {
    pub id: u128,
    pub name: Seq<char>,
    pub tr_type: TransactionType,
    pub amount: u64,
    pub date: DateTime,
}

/// What every transaction of the library observes: a non-empty name, a
/// positive bounded amount, and a well-formed timestamp.
pub open spec fn wf_tx(t: TransactionV) -> bool {
    t.name.len() > 0 && 0 < t.amount <= MAX_SCALED && t.date.wf()
}

/// One recorded money movement.
#[derive(Debug)]
pub struct Transaction {
    pub id: u128,
    pub name: String,
    pub tr_type: TransactionType,
    pub amount: u64,
    pub date: DateTime,
}

impl View for Transaction {
    type V = TransactionV;

    open spec fn view(&self) -> TransactionV {
        TransactionV {
            id: self.id,
            name: self.name@,
            tr_type: self.tr_type,
            amount: self.amount,
            date: self.date,
        }
    }
}

impl Transaction {
    pub open spec fn wf(self) -> bool {
        wf_tx(self@)
    }

    /// Creates a transaction with a fresh id.  Callers supply a
    /// non-empty name, a positive amount and a valid timestamp; the
    /// constructor does not re-check them.
    pub fn new(name: &str, tr_type: TransactionType, amount: u64, date: DateTime) -> (r:
        Transaction)
        requires
            name@.len() > 0,
            0 < amount <= MAX_SCALED,
            date.wf(),
        ensures
            r.wf(),
            r.name@ == name@,
            r.tr_type == tr_type,
            r.amount == amount,
            r.date == date,
    {
        Transaction { id: fresh_id(), name: name.to_owned(), tr_type, amount, date }
    }

    pub fn id(&self) -> (r: u128)
        ensures
            r == self.id,
    {
        self.id
    }

    pub fn name(&self) -> (r: String)
        ensures
            r@ == self.name@,
    {
        self.name.clone()
    }

    pub fn amount(&self) -> (r: u64)
        ensures
            r == self.amount,
    {
        self.amount
    }

    pub fn tr_type(&self) -> (r: TransactionType)
        ensures
            r == self.tr_type,
    {
        self.tr_type
    }

    pub fn date(&self) -> (r: DateTime)
        ensures
            r == self.date,
    {
        self.date
    }

    pub fn set_name(&mut self, name: &str)
        requires
            name@.len() > 0,
        ensures
            final(self)@ == (TransactionV { name: name@, ..old(self)@ }),
    {
        self.name = name.to_owned();
    }

    pub fn change_tr_type(&mut self, tr_type: TransactionType)
        ensures
            final(self)@ == (TransactionV { tr_type, ..old(self)@ }),
    {
        self.tr_type = tr_type;
    }

    pub fn set_amount(&mut self, amount: u64)
        requires
            0 < amount <= MAX_SCALED,
        ensures
            final(self)@ == (TransactionV { amount, ..old(self)@ }),
    {
        self.amount = amount;
    }

    pub fn set_date(&mut self, date: DateTime)
        requires
            date.wf(),
        ensures
            final(self)@ == (TransactionV { date, ..old(self)@ }),
    {
        self.date = date;
    }

    /// The amount with its sign: negative exactly for an expense, and
    /// equal in magnitude to the stored amount.
    pub fn signed_amount(&self) -> (r: i64)
        requires
            self.wf(),
        ensures
            r as int == (if self.tr_type == TransactionType::EXPENSE {
                -(self.amount as int)
            } else {
                self.amount as int
            }),
            (r < 0) <==> (self.tr_type == TransactionType::EXPENSE),
            (if r >= 0 {
                r as int
            } else {
                -(r as int)
            }) == self.amount as int,
    {
        match self.tr_type {
            TransactionType::EXPENSE => -(self.amount as i64),
            TransactionType::INCOME => self.amount as i64,
        }
    }

    /// The human label of the date relative to `now`: `Today, <time>`,
    /// `Yesterday, <time>`, or a short date with the time, the time in
    /// the requested clock style.
    pub fn relative_date(&self, now: &DateTime, twelve_hour: bool) -> (r: String)
        requires
            self.wf(),
            now.wf(),
        ensures
            r@ == crate::datetime::relative_label(self.date, *now, twelve_hour),
    {
        let v = self.date.relative_chars(now, twelve_hour);
        chars_to_string(&v)
    }
}

// ----------------------------------------------------------------------
// Document form
// ----------------------------------------------------------------------

pub open spec fn lit_obj_id() -> Seq<char> {
    "{\"id\":\""@
}

pub open spec fn lit_name() -> Seq<char> {
    "\",\"name\":\""@
}

pub open spec fn lit_tr_type() -> Seq<char> {
    "\",\"tr_type\":\""@
}

pub open spec fn lit_amount() -> Seq<char> {
    "\",\"amount\":"@
}

pub open spec fn lit_date() -> Seq<char> {
    ",\"date\":\""@
}

pub open spec fn lit_obj_end() -> Seq<char> {
    "\"}"@
}

/// The document form of one transaction.
pub open spec fn ser_tx(t: TransactionV) -> Seq<char> {
    lit_obj_id() + uuid_chars(t.id as int) + lit_name() + ser_str_body(t.name) + lit_tr_type()
        + kind_chars(t.tr_type) + lit_amount() + ser_scaled(t.amount as int) + lit_date()
        + ser_datetime(t.date) + lit_obj_end()
}

/// The tail of a transaction object once id, name and kind are known.
pub open spec fn parse_tx_after_kind(
    s: Seq<char>,
    id: int,
    name: Seq<char>,
    knd: TransactionType,
    i6: int,
) -> Option<(TransactionV, int)> {
    if match_lit(s, i6, lit_amount()) {
        let i7 = i6 + lit_amount().len();
        match parse_scaled(s, i7) {
            Some(pm) => {
                if pm.0 >= 1 && match_lit(s, pm.1, lit_date()) {
                    let i9 = pm.1 + lit_date().len();
                    match parse_datetime(s, i9) {
                        Some(pd) => {
                            if match_lit(s, pd.1, lit_obj_end()) {
                                Some(
                                    (
                                        TransactionV {
                                            id: id as u128,
                                            name,
                                            tr_type: knd,
                                            amount: pm.0 as u64,
                                            date: pd.0,
                                        },
                                        pd.1 + lit_obj_end().len(),
                                    ),
                                )
                            } else {
                                None
                            }
                        },
                        None => None,
                    }
                } else {
                    None
                }
            },
            None => None,
        }
    } else {
        None
    }
}

/// Reads one transaction object at `i`.
pub open spec fn parse_tx(s: Seq<char>, i: int) -> Option<(TransactionV, int)> {
    if match_lit(s, i, lit_obj_id()) {
        match parse_uuid(s, i + lit_obj_id().len()) {
            Some(pid) => {
                if match_lit(s, pid.1, lit_name()) {
                    match parse_str_body(s, pid.1 + lit_name().len()) {
                        Some(pn) => {
                            if pn.0.len() > 0 && match_lit(s, pn.1, lit_tr_type()) {
                                let i5 = pn.1 + lit_tr_type().len();
                                if match_lit(s, i5, kind_chars(TransactionType::EXPENSE)) {
                                    parse_tx_after_kind(
                                        s,
                                        pid.0,
                                        pn.0,
                                        TransactionType::EXPENSE,
                                        i5 + kind_chars(TransactionType::EXPENSE).len(),
                                    )
                                } else if match_lit(s, i5, kind_chars(TransactionType::INCOME)) {
                                    parse_tx_after_kind(
                                        s,
                                        pid.0,
                                        pn.0,
                                        TransactionType::INCOME,
                                        i5 + kind_chars(TransactionType::INCOME).len(),
                                    )
                                } else {
                                    None
                                }
                            } else {
                                None
                            }
                        },
                        None => None,
                    }
                } else {
                    None
                }
            },
            None => None,
        }
    } else {
        None
    }
}

/// A parsed transaction observes the invariants and ends within bounds.
pub proof fn lemma_parse_tx_wf(s: Seq<char>, i: int)
    requires
        parse_tx(s, i) is Some,
    ensures
        wf_tx(parse_tx(s, i).unwrap().0),
        i < parse_tx(s, i).unwrap().1 <= s.len(),
{
    let pid = parse_uuid(s, i + lit_obj_id().len()).unwrap();
    let pn = parse_str_body(s, pid.1 + lit_name().len()).unwrap();
    let i5 = pn.1 + lit_tr_type().len();
    crate::ids::lemma_parse_uuid_bound(s, i + lit_obj_id().len());
    crate::jsonstr::lemma_parse_str_body_pos(s, pid.1 + lit_name().len());
    if match_lit(s, i5, kind_chars(TransactionType::EXPENSE)) {
        lemma_parse_tx_after_kind_wf(
            s,
            pid.0,
            pn.0,
            TransactionType::EXPENSE,
            i5 + kind_chars(TransactionType::EXPENSE).len(),
        );
    } else {
        lemma_parse_tx_after_kind_wf(
            s,
            pid.0,
            pn.0,
            TransactionType::INCOME,
            i5 + kind_chars(TransactionType::INCOME).len(),
        );
    }
}

proof fn lemma_parse_tx_after_kind_wf(
    s: Seq<char>,
    id: int,
    name: Seq<char>,
    knd: TransactionType,
    i6: int,
)
    requires
        parse_tx_after_kind(s, id, name, knd, i6) is Some,
        name.len() > 0,
    ensures
        wf_tx(parse_tx_after_kind(s, id, name, knd, i6).unwrap().0),
        parse_tx_after_kind(s, id, name, knd, i6).unwrap().1 <= s.len(),
{
    let i7 = i6 + lit_amount().len();
    crate::scaled::lemma_parse_scaled_bound(s, i7);
}

/// Appends the document form of `t` to `out`.
pub fn write_tx(out: &mut Vec<char>, t: &Transaction)
    requires
        t.wf(),
    ensures
        final(out)@ == old(out)@ + ser_tx(t@),
{
    let ghost start = out@;
    push_str_chars(out, "{\"id\":\"");
    write_uuid(out, t.id);
    push_str_chars(out, "\",\"name\":\"");
    let namev = string_to_chars(t.name.as_str());
    write_str_body(out, &namev);
    push_str_chars(out, "\",\"tr_type\":\"");
    match t.tr_type {
        TransactionType::EXPENSE => push_str_chars(out, "EXPENSE"),
        TransactionType::INCOME => push_str_chars(out, "INCOME"),
    }
    push_str_chars(out, "\",\"amount\":");
    write_scaled(out, t.amount);
    push_str_chars(out, ",\"date\":\"");
    write_datetime(out, &t.date);
    push_str_chars(out, "\"}");
    proof {
        assert(out@ =~= start + ser_tx(t@));
    }
}

/// Parses one transaction object, matching [`parse_tx`] exactly.
pub fn parse_tx_exec(s: &Vec<char>, i: usize) -> (res: Option<(Transaction, usize)>)
    ensures
        match res {
            Some(p) => parse_tx(s@, i as int) == Some((p.0@, p.1 as int)) && p.0.wf() && i < p.1
                <= s@.len(),
            None => parse_tx(s@, i as int) is None,
        },
{
    let i1 = match expect_str(s, i, "{\"id\":\"") {
        Some(j) => j,
        None => {
            return None;
        },
    };
    let (id, i2) = match parse_uuid_exec(s, i1) {
        Some(p) => p,
        None => {
            return None;
        },
    };
    let i3 = match expect_str(s, i2, "\",\"name\":\"") {
        Some(j) => j,
        None => {
            return None;
        },
    };
    let (namev, i4) = match parse_str_body_exec(s, i3) {
        Some(p) => p,
        None => {
            return None;
        },
    };
    if namev.len() == 0 {
        return None;
    }
    let i5 = match expect_str(s, i4, "\",\"tr_type\":\"") {
        Some(j) => j,
        None => {
            return None;
        },
    };
    let (knd, i6) = match expect_str(s, i5, "EXPENSE") {
        Some(j) => (TransactionType::EXPENSE, j),
        None => {
            match expect_str(s, i5, "INCOME") {
                Some(j) => (TransactionType::INCOME, j),
                None => {
                    return None;
                },
            }
        },
    };
    let i7 = match expect_str(s, i6, "\",\"amount\":") {
        Some(j) => j,
        None => {
            return None;
        },
    };
    let (m, i8) = match parse_scaled_exec(s, i7) {
        Some(p) => p,
        None => {
            return None;
        },
    };
    if m < 1 {
        return None;
    }
    let i9 = match expect_str(s, i8, ",\"date\":\"") {
        Some(j) => j,
        None => {
            return None;
        },
    };
    let (d, i10) = match parse_datetime_exec(s, i9) {
        Some(p) => p,
        None => {
            return None;
        },
    };
    let end = match expect_str(s, i10, "\"}") {
        Some(j) => j,
        None => {
            return None;
        },
    };
    let t = Transaction {
        id,
        name: chars_to_string(&namev),
        tr_type: knd,
        amount: m,
        date: d,
    };
    Some((t, end))
}

/// Parsing recovers the transaction a document form was written from.
#[verifier::rlimit(100)]
#[verifier::spinoff_prover]
pub proof fn lemma_tx_round_trip(s: Seq<char>, i: int, t: TransactionV)
    requires
        wf_tx(t),
        0 <= i,
        i + ser_tx(t).len() <= s.len(),
        s.subrange(i, i + ser_tx(t).len() as int) == ser_tx(t),
    ensures
        parse_tx(s, i) == Some((t, i + ser_tx(t).len() as int)),
{
    reveal_strlit("{\"id\":\"");
    reveal_strlit("\",\"name\":\"");
    reveal_strlit("\",\"tr_type\":\"");
    reveal_strlit("\",\"amount\":");
    reveal_strlit(",\"date\":\"");
    reveal_strlit("\"}");
    reveal_strlit("EXPENSE");
    reveal_strlit("INCOME");
    crate::text::lemma_pow16_32_bound();
    let whole = ser_tx(t);
    let ln = whole.len() as int;
    let uu = uuid_chars(t.id as int);
    let nb = ser_str_body(t.name);
    let kc = kind_chars(t.tr_type);
    let am = ser_scaled(t.amount as int);
    let dt = ser_datetime(t.date);
    crate::ids::lemma_uuid_chars_len(t.id as int);
    let o1 = lit_obj_id().len() as int;
    let o2 = o1 + 36;
    let o3 = o2 + lit_name().len() as int;
    let o4 = o3 + nb.len() as int;
    let o5 = o4 + lit_tr_type().len() as int;
    let o6 = o5 + kc.len() as int;
    let o7 = o6 + lit_amount().len() as int;
    let o8 = o7 + am.len() as int;
    let o9 = o8 + lit_date().len() as int;
    let o10 = o9 + dt.len() as int;
    assert(ln == o10 + lit_obj_end().len());
    // each piece occupies its own window of `whole`
    assert(whole.subrange(0, o1) =~= lit_obj_id());
    assert(whole.subrange(o1, o2) =~= uu);
    assert(whole.subrange(o2, o3) =~= lit_name());
    assert(whole.subrange(o3, o4) =~= nb);
    assert(whole.subrange(o4, o5) =~= lit_tr_type());
    assert(whole.subrange(o5, o6) =~= kc);
    assert(whole.subrange(o6, o7) =~= lit_amount());
    assert(whole.subrange(o7, o8) =~= am);
    assert(whole.subrange(o8, o9) =~= lit_date());
    assert(whole.subrange(o9, o10) =~= dt);
    assert(whole.subrange(o10, ln) =~= lit_obj_end());
    lemma_subrange_extract(s, i, whole, 0, o1);
    lemma_subrange_extract(s, i, whole, o1, o2);
    lemma_subrange_extract(s, i, whole, o2, o3);
    lemma_subrange_extract(s, i, whole, o3, o4);
    lemma_subrange_extract(s, i, whole, o4, o5);
    lemma_subrange_extract(s, i, whole, o5, o6);
    lemma_subrange_extract(s, i, whole, o6, o7);
    lemma_subrange_extract(s, i, whole, o7, o8);
    lemma_subrange_extract(s, i, whole, o8, o9);
    lemma_subrange_extract(s, i, whole, o9, o10);
    lemma_subrange_extract(s, i, whole, o10, ln);
    assert(match_lit(s, i, lit_obj_id()));
    crate::ids::lemma_uuid_round_trip(s, i + o1, t.id as int);
    assert(match_lit(s, i + o2, lit_name()));
    // the name body is followed by the quote that opens lit_tr_type
    assert(s[i + o4] == s.subrange(i + o4, i + o5)[0]);
    assert(lit_tr_type()[0] == '"') by {
        reveal_strlit("\",\"tr_type\":\"");
    }
    crate::jsonstr::lemma_str_body_round_trip(s, i + o3, t.name);
    assert(match_lit(s, i + o4, lit_tr_type()));
    // the kind
    if t.tr_type == TransactionType::EXPENSE {
        assert(match_lit(s, i + o5, kind_chars(TransactionType::EXPENSE)));
    } else {
        assert(match_lit(s, i + o5, kind_chars(TransactionType::INCOME)));
        // the EXPENSE branch cannot match: the first characters differ
        assert(!match_lit(s, i + o5, kind_chars(TransactionType::EXPENSE))) by {
            reveal_strlit("EXPENSE");
            reveal_strlit("INCOME");
            assert(s[i + o5] == s.subrange(i + o5, i + o6)[0]);
            assert(s[i + o5] == 'I');
            if match_lit(s, i + o5, "EXPENSE"@) {
                assert(s.subrange(i + o5, i + o5 + 7)[0] == 'E');
            }
        }
    }
    assert(match_lit(s, i + o6, lit_amount()));
    // the amount is followed by the comma that opens lit_date
    assert(s[i + o8] == s.subrange(i + o8, i + o9)[0]);
    assert(lit_date()[0] == ',') by {
        reveal_strlit(",\"date\":\"");
    }
    assert(!crate::text::is_dec_digit(',')) by {
        reveal_strlit(",\"date\":\"");
    }
    crate::scaled::lemma_scaled_round_trip(s, i + o7, t.amount as int);
    assert(match_lit(s, i + o8, lit_date()));
    crate::datetime::lemma_datetime_round_trip(s, i + o9, t.date);
    assert(match_lit(s, i + o10, lit_obj_end()));
    let parsed = parse_tx(s, i).unwrap();
    assert(parsed.0 =~= t);
    assert(parsed.1 == i + ln);
}

} // verus!
