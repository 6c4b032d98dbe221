//! Groups: named, colored, emoji-tagged budget categories owning an
//! ordered collection of transactions.
//!
//! A group is the unit of persistence: it is written as one JSON
//! document with the fields `id`, `name`, `emoji`, `color` (four
//! normalized channels) and `transactions`, and its filename is derived
//! from its id.  All transaction mutations go through the group, which
//! keeps transaction ids unique and insertion order authoritative.

use vstd::prelude::*;

use crate::ids::{fresh_id, uuid_chars, write_uuid};
use crate::scaled::SCALE_MICRO;
use crate::text::{chars_to_string, push_str_chars};
use crate::transaction::{wf_tx, Transaction, TransactionV};
use crate::DataError;

verus! {

/// A color as four normalized channels, each in micro-units of the
/// range zero to one (one million is fully saturated).
#[derive(Clone, Copy, Debug, PartialEq, Eq, Structural)]
pub struct Color {
    pub red: u32,
    pub green: u32,
    pub blue: u32,
    pub alpha: u32,
}

pub open spec fn wf_color(c: Color) -> bool {
    c.red <= SCALE_MICRO && c.green <= SCALE_MICRO && c.blue <= SCALE_MICRO && c.alpha
        <= SCALE_MICRO
}

impl Color {
    /// Range-checks the four channels.
    pub fn new(red: u32, green: u32, blue: u32, alpha: u32) -> (res: Result<Color, DataError>)
        ensures
            match res {
                Ok(c) => c == (Color { red, green, blue, alpha }) && wf_color(c),
                Err(e) => e == DataError::ValidationError && !wf_color(
                    Color { red, green, blue, alpha },
                ),
            },
    {
        let c = Color { red, green, blue, alpha };
        if red <= SCALE_MICRO as u32 && green <= SCALE_MICRO as u32 && blue <= SCALE_MICRO as u32
            && alpha <= SCALE_MICRO as u32 {
            Ok(c)
        } else {
            Err(DataError::ValidationError)
        }
    }
}

/// The views of a sequence of transactions.
pub open spec fn txs_view(v: Seq<Transaction>) -> Seq<TransactionV> {
    v.map_values(|t: Transaction| t@)
}

/// No two transactions share an id.
pub open spec fn unique_tx_ids(ts: Seq<TransactionV>) -> bool {
    forall|j: int, k: int| 0 <= j < k < ts.len() ==> ts[j].id != ts[k].id
}

/// The mathematical content of a group.
#[verifier::ext_equal]
pub struct GroupV {
    pub id: u128,
    pub name: Seq<char>,
    pub emoji: Seq<char>,
    pub color: Color,
    pub transactions: Seq<TransactionV>,
}

/// What every group of the library observes.
pub open spec fn wf_group(g: GroupV) -> bool {
    g.name.len() > 0 && g.emoji.len() > 0 && wf_color(g.color) && (forall|k: int|
        0 <= k < g.transactions.len() ==> wf_tx(#[trigger] g.transactions[k])) && unique_tx_ids(
        g.transactions,
    )
}

/// A budget category owning its transactions.
#[derive(Debug)]
pub struct Group {
    pub id: u128,
    pub name: String,
    pub emoji: String,
    pub color: Color,
    pub transactions: Vec<Transaction>,
}

impl View for Group {
    type V = GroupV;

    open spec fn view(&self) -> GroupV {
        GroupV {
            id: self.id,
            name: self.name@,
            emoji: self.emoji@,
            color: self.color,
            transactions: txs_view(self.transactions@),
        }
    }
}

/// Position of the first transaction with the given id, or the length
/// of the sequence if there is none.
pub open spec fn first_idx(ts: Seq<TransactionV>, id: u128) -> int
    decreases ts.len(),
{
    if ts.len() == 0 {
        0
    } else if ts[0].id == id {
        0
    } else {
        1 + first_idx(ts.skip(1), id)
    }
}

/// A position with no earlier match and a match (or the end) at it is
/// the first index.
pub proof fn lemma_first_idx_is(ts: Seq<TransactionV>, id: u128, j: int)
    requires
        0 <= j <= ts.len(),
        forall|k: int| 0 <= k < j ==> (#[trigger] ts[k]).id != id,
        j == ts.len() || ts[j].id == id,
    ensures
        first_idx(ts, id) == j,
    decreases ts.len(),
{
    if ts.len() > 0 {
        if j == 0 && ts[0].id == id {
        } else {
            assert(ts[0].id != id);
            assert forall|k: int| 0 <= k < j - 1 implies (#[trigger] ts.skip(1)[k]).id != id by {
                assert(ts.skip(1)[k] == ts[k + 1]);
            }
            if j < ts.len() {
                assert(ts.skip(1)[j - 1] == ts[j]);
            }
            lemma_first_idx_is(ts.skip(1), id, j - 1);
        }
    }
}

pub proof fn lemma_txs_view_push(v: Seq<Transaction>, t: Transaction)
    ensures
        txs_view(v.push(t)) == txs_view(v).push(t@),
{
    assert forall|i: int| 0 <= i < v.len() + 1 implies #[trigger] txs_view(v.push(t))[i]
        == txs_view(v).push(t@)[i] by {
        if i < v.len() {
            assert(v.push(t)[i] == v[i]);
        } else {
            assert(v.push(t)[i] == t);
        }
    }
    assert(txs_view(v.push(t)) =~= txs_view(v).push(t@));
}

pub proof fn lemma_txs_view_remove(v: Seq<Transaction>, k: int)
    requires
        0 <= k < v.len(),
    ensures
        txs_view(v.remove(k)) == txs_view(v).remove(k),
{
    assert forall|i: int| 0 <= i < v.len() - 1 implies #[trigger] txs_view(v.remove(k))[i]
        == txs_view(v).remove(k)[i] by {
        if i < k {
            assert(v.remove(k)[i] == v[i]);
        } else {
            assert(v.remove(k)[i] == v[i + 1]);
        }
    }
    assert(txs_view(v.remove(k)) =~= txs_view(v).remove(k));
}

impl Group {
    pub open spec fn wf(self) -> bool {
        wf_group(self@)
    }

    /// Creates a group with a fresh id and no transactions.  Callers
    /// supply a non-empty name and emoji and a valid color.
    pub fn new(emoji: &str, color: Color, name: &str) -> (r: Group)
        requires
            emoji@.len() > 0,
            name@.len() > 0,
            wf_color(color),
        ensures
            r.wf(),
            r.emoji@ == emoji@,
            r.name@ == name@,
            r.color == color,
            r.transactions@.len() == 0,
    {
        let g = Group {
            id: fresh_id(),
            name: name.to_owned(),
            emoji: emoji.to_owned(),
            color,
            transactions: Vec::new(),
        };
        proof {
            assert(txs_view(g.transactions@) =~= Seq::<TransactionV>::empty());
        }
        g
    }

    pub fn id(&self) -> (r: u128)
        ensures
            r == self.id,
    {
        self.id
    }

    pub fn name(&self) -> (r: String)
        ensures
            r@ == self.name@,
    {
        self.name.clone()
    }

    pub fn emoji(&self) -> (r: String)
        ensures
            r@ == self.emoji@,
    {
        self.emoji.clone()
    }

    pub fn color(&self) -> (r: Color)
        ensures
            r == self.color,
    {
        self.color
    }

    pub fn set_name(&mut self, name: &str)
        requires
            name@.len() > 0,
        ensures
            final(self)@ == (GroupV { name: name@, ..old(self)@ }),
    {
        self.name = name.to_owned();
    }

    pub fn set_emoji(&mut self, emoji: &str)
        requires
            emoji@.len() > 0,
        ensures
            final(self)@ == (GroupV { emoji: emoji@, ..old(self)@ }),
    {
        self.emoji = emoji.to_owned();
    }

    pub fn set_color(&mut self, color: &Color)
        requires
            wf_color(*color),
        ensures
            final(self)@ == (GroupV { color: *color, ..old(self)@ }),
    {
        self.color = *color;
    }

    /// The name of the group's file: its id followed by `.json`, free
    /// of path separators.
    pub fn filename(&self) -> (r: String)
        ensures
            r@ == uuid_chars(self.id as int) + ".json"@,
            forall|k: int| 0 <= k < r@.len() ==> r@[k] != '/',
    {
        let mut v: Vec<char> = Vec::new();
        write_uuid(&mut v, self.id);
        push_str_chars(&mut v, ".json");
        proof {
            lemma_uuid_chars_no_separator(self.id as int);
            crate::ids::lemma_uuid_chars_len(self.id as int);
            reveal_strlit(".json");
            assert forall|k: int| 0 <= k < v@.len() implies v@[k] != '/' by {
                if k < 36 {
                    assert(v@[k] == uuid_chars(self.id as int)[k]);
                } else {
                    assert(v@[k] == ".json"@[k - 36]);
                }
            }
        }
        chars_to_string(&v)
    }

    /// Appends a transaction.  The caller supplies one whose id is not
    /// in the group yet; the order of the existing transactions is
    /// kept, with the new one at the end.
    pub fn new_transaction(&mut self, transaction: Transaction)
        requires
            old(self).wf(),
            transaction.wf(),
            forall|k: int| 0 <= k < old(self)@.transactions.len() ==> (#[trigger] old(
                self,
            )@.transactions[k]).id != transaction.id,
        ensures
            final(self).wf(),
            final(self)@.transactions == old(self)@.transactions.push(transaction@),
            final(self)@.id == old(self)@.id,
            final(self)@.name == old(self)@.name,
            final(self)@.emoji == old(self)@.emoji,
            final(self)@.color == old(self)@.color,
    {
        let ghost told = self@.transactions;
        let ghost vold = self.transactions@;
        self.transactions.push(transaction);
        proof {
            lemma_txs_view_push(vold, transaction);
            assert(txs_view(self.transactions@) == told.push(transaction@));
            let ts = self@.transactions;
            assert forall|j: int, k: int| 0 <= j < k < ts.len() implies ts[j].id != ts[k].id by {
                if k < ts.len() - 1 {
                    assert(ts[j] == told[j] && ts[k] == told[k]);
                } else {
                    assert(ts[j] == told[j]);
                }
            }
        }
    }

    /// Looks a transaction up by id: the first match in order, if any.
    pub fn find_transaction(&self, transaction_id: u128) -> (r: Option<&Transaction>)
        ensures
            match r {
                Some(t) => first_idx(self@.transactions, transaction_id) < self@.transactions.len()
                    && t@ == self@.transactions[first_idx(self@.transactions, transaction_id)],
                None => first_idx(self@.transactions, transaction_id) == self@.transactions.len(),
            },
    {
        let ghost ts = self@.transactions;
        let n = self.transactions.len();
        let mut k: usize = 0;
        while k < n
            invariant
                k <= n,
                n == self.transactions@.len(),
                ts == self@.transactions,
                ts.len() == n,
                forall|j: int| 0 <= j < k ==> (#[trigger] ts[j]).id != transaction_id,
            decreases n - k,
        {
            if self.transactions[k].id == transaction_id {
                proof {
                    lemma_first_idx_is(ts, transaction_id, k as int);
                }
                return Some(&self.transactions[k]);
            }
            k = k + 1;
        }
        proof {
            lemma_first_idx_is(ts, transaction_id, n as int);
        }
        None
    }

    /// Removes the first transaction with the given id and returns it;
    /// the relative order of the remaining transactions is unchanged.
    /// An absent id is reported and leaves the group unmodified.
    pub fn delete_transaction(&mut self, transaction_id: u128) -> (res: Result<
        Transaction,
        DataError,
    >)
        requires
            old(self).wf(),
        ensures
            final(self).wf(),
            match res {
                Ok(t) => {
                    &&& first_idx(old(self)@.transactions, transaction_id) < old(
                        self,
                    )@.transactions.len()
                    &&& t@ == old(self)@.transactions[first_idx(
                        old(self)@.transactions,
                        transaction_id,
                    )]
                    &&& final(self)@.transactions == old(self)@.transactions.remove(
                        first_idx(old(self)@.transactions, transaction_id),
                    )
                    &&& final(self)@.id == old(self)@.id
                    &&& final(self)@.name == old(self)@.name
                    &&& final(self)@.emoji == old(self)@.emoji
                    &&& final(self)@.color == old(self)@.color
                },
                Err(e) => {
                    &&& e == DataError::NotFoundError
                    &&& first_idx(old(self)@.transactions, transaction_id) == old(
                        self,
                    )@.transactions.len()
                    &&& final(self)@ == old(self)@
                },
            },
    {
        let ghost ts = self@.transactions;
        let n = self.transactions.len();
        let mut k: usize = 0;
        while k < n
            invariant
                k <= n,
                *self == *old(self),
                old(self).wf(),
                n == self.transactions@.len(),
                ts == self@.transactions,
                ts.len() == n,
                forall|j: int| 0 <= j < k ==> (#[trigger] ts[j]).id != transaction_id,
            decreases n - k,
        {
            if self.transactions[k].id == transaction_id {
                proof {
                    lemma_first_idx_is(ts, transaction_id, k as int);
                }
                let ghost vold = self.transactions@;
                let removed = self.transactions.remove(k);
                proof {
                    lemma_txs_view_remove(vold, k as int);
                    assert(txs_view(self.transactions@) == ts.remove(k as int));
                    let nts = self@.transactions;
                    assert forall|a: int, b: int| 0 <= a < b < nts.len() implies nts[a].id
                        != nts[b].id by {
                        let a0 = if a < k {
                            a
                        } else {
                            a + 1
                        };
                        let b0 = if b < k {
                            b
                        } else {
                            b + 1
                        };
                        assert(0 <= a0 < ts.len() && 0 <= b0 < ts.len() && a0 < b0);
                        assert(nts[a] == ts[a0]);
                        assert(nts[b] == ts[b0]);
                        assert(ts[a0].id != ts[b0].id);
                    }
                    assert forall|a: int| 0 <= a < self@.transactions.len() implies wf_tx(
                        #[trigger] self@.transactions[a],
                    ) by {
                        let a0 = if a < k {
                            a
                        } else {
                            a + 1
                        };
                        assert(0 <= a0 < ts.len());
                        assert(self@.transactions[a] == ts[a0]);
                        assert(wf_tx(ts[a0]));
                    }
                }
                return Ok(removed);
            }
            k = k + 1;
        }
        proof {
            lemma_first_idx_is(ts, transaction_id, n as int);
        }
        Err(DataError::NotFoundError)
    }

    /// An owned copy with the same content.
    pub fn duplicate(&self) -> (r: Group)
        ensures
            r@ == self@,
    {
        let mut txs: Vec<Transaction> = Vec::new();
        let n = self.transactions.len();
        let mut k: usize = 0;
        while k < n
            invariant
                k <= n,
                n == self.transactions@.len(),
                txs_view(txs@) == txs_view(self.transactions@).take(k as int),
            decreases n - k,
        {
            let t = &self.transactions[k];
            let copy = Transaction {
                id: t.id,
                name: t.name.clone(),
                tr_type: t.tr_type,
                amount: t.amount,
                date: t.date,
            };
            let ghost txsold = txs@;
            txs.push(copy);
            proof {
                assert(copy@ =~= self.transactions@[k as int]@);
                lemma_txs_view_push(txsold, copy);
                assert(txs_view(txsold).push(copy@) =~= txs_view(self.transactions@).take(
                    k as int + 1,
                ));
            }
            k = k + 1;
        }
        let r = Group {
            id: self.id,
            name: self.name.clone(),
            emoji: self.emoji.clone(),
            color: self.color,
            transactions: txs,
        };
        proof {
            assert(txs_view(self.transactions@).take(n as int) =~= txs_view(self.transactions@));
            assert(r@ =~= self@);
        }
        r
    }
}

/// No character of an id rendering is a path separator.
pub proof fn lemma_uuid_chars_no_separator(id: int)
    ensures
        forall|k: int| 0 <= k < uuid_chars(id).len() ==> uuid_chars(id)[k] != '/',
{
    let p24 = crate::text::pow_r(16, 24);
    let p20 = crate::text::pow_r(16, 20);
    let p16 = crate::text::pow_r(16, 16);
    let p12 = crate::text::pow_r(16, 12);
    crate::ids::lemma_pow16_segments();
    crate::ids::lemma_uuid_chars_len(id);
    lemma_fixed_no_separator(id / p24, 8);
    lemma_fixed_no_separator(id % p24 / p20, 4);
    lemma_fixed_no_separator(id % p20 / p16, 4);
    lemma_fixed_no_separator(id % p16 / p12, 4);
    lemma_fixed_no_separator(id % p12, 12);
    assert forall|k: int| 0 <= k < uuid_chars(id).len() implies uuid_chars(id)[k] != '/' by {
        crate::text::lemma_fixed_r_len(16, id / p24, 8);
        crate::text::lemma_fixed_r_len(16, id % p24 / p20, 4);
        crate::text::lemma_fixed_r_len(16, id % p20 / p16, 4);
        crate::text::lemma_fixed_r_len(16, id % p16 / p12, 4);
        crate::text::lemma_fixed_r_len(16, id % p12, 12);
    }
}

proof fn lemma_fixed_no_separator(v: int, n: nat)
    ensures
        forall|k: int| 0 <= k < crate::text::fixed_r(16, v, n).len() ==> crate::text::fixed_r(
            16,
            v,
            n,
        )[k] != '/',
    decreases n,
{
    if n > 0 {
        let p = crate::text::pow_r(16, (n - 1) as nat);
        lemma_fixed_no_separator(v % p, (n - 1) as nat);
        crate::text::lemma_fixed_r_len(16, v % p, (n - 1) as nat);
        assert forall|k: int| 0 <= k < crate::text::fixed_r(16, v, n).len() implies crate::text::fixed_r(
            16,
            v,
            n,
        )[k] != '/' by {
            if k == 0 {
                let d = v / p % 16;
                assert(crate::text::fixed_r(16, v, n)[0] == crate::text::digit_char(d));
                assert(crate::text::digit_char(d) != '/') by {
                    if 0 <= d < 16 {
                        crate::text::lemma_digit_char_val(16, d);
                    }
                }
            } else {
                assert(crate::text::fixed_r(16, v, n)[k] == crate::text::fixed_r(
                    16,
                    v % p,
                    (n - 1) as nat,
                )[k - 1]);
            }
        }
    }
}

} // verus!
