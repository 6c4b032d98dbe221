//! Calendar timestamps.
//!
//! A transaction's date is kept as plain calendar components together
//! with a fixed offset from UTC in minutes, and is persisted in the
//! round-trippable form `YYYY-MM-DDTHH:MM:SS` followed by `Z` or a
//! `+HH:MM`/`-HH:MM` offset.

use vstd::prelude::*;

use crate::text::{
    fixed_r, lemma_fixed_r_len, lemma_fixed_r_parse, lemma_parse_fixed_r_bound,
    lemma_parse_fixed_r_some_len, lemma_subrange_extract, parse_fixed_r, parse_fixed_r_exec, pow_r,
    write_fixed_r,
};

verus! {

/// A timestamp with time zone: calendar date, wall-clock time, and the
/// zone's offset from UTC in minutes.
#[derive(Clone, Copy, Debug, PartialEq, Eq, Structural)]
pub struct DateTime {
    pub year: u16,
    pub month: u8,
    pub day: u8,
    pub hour: u8,
    pub minute: u8,
    pub second: u8,
    pub offset_minutes: i32,
}

pub open spec fn is_leap_year(y: int) -> bool {
    y % 4 == 0 && (y % 100 != 0 || y % 400 == 0)
}

pub open spec fn days_in_month(y: int, m: int) -> int {
    if m == 2 {
        if is_leap_year(y) {
            29
        } else {
            28
        }
    } else if m == 4 || m == 6 || m == 9 || m == 11 {
        30
    } else {
        31
    }
}

impl DateTime {
    /// The component ranges every timestamp of the library observes.
    pub open spec fn wf(self) -> bool {
        self.year <= 9999 && 1 <= self.month <= 12 && 1 <= self.day <= days_in_month(
            self.year as int,
            self.month as int,
        ) && self.hour <= 23 && self.minute <= 59 && self.second <= 59 && -1439
            <= self.offset_minutes <= 1439
    }

    /// Range-checks the components; the only way a timestamp is built
    /// from outside input.
    pub fn new(
        year: u16,
        month: u8,
        day: u8,
        hour: u8,
        minute: u8,
        second: u8,
        offset_minutes: i32,
    ) -> (res: Result<DateTime, crate::DataError>)
        ensures
            match res {
                Ok(d) => d.wf() && d == (DateTime { year, month, day, hour, minute, second, offset_minutes }),
                Err(e) => e == crate::DataError::ValidationError && !(DateTime {
                    year,
                    month,
                    day,
                    hour,
                    minute,
                    second,
                    offset_minutes,
                }).wf(),
            },
    {
        let d = DateTime { year, month, day, hour, minute, second, offset_minutes };
        if d.valid() {
            Ok(d)
        } else {
            Err(crate::DataError::ValidationError)
        }
    }

    /// Executable form of [`DateTime::wf`].
    pub fn valid(&self) -> (r: bool)
        ensures
            r == self.wf(),
    {
        self.year <= 9999 && 1 <= self.month && self.month <= 12 && 1 <= self.day && self.day
            <= days_in_month_exec(self.year, self.month) && self.hour <= 23 && self.minute <= 59
            && self.second <= 59 && -1439 <= self.offset_minutes && self.offset_minutes <= 1439
    }
}

pub fn days_in_month_exec(y: u16, m: u8) -> (d: u8)
    ensures
        d as int == days_in_month(y as int, m as int),
{
    if m == 2 {
        if y % 4 == 0 && (y % 100 != 0 || y % 400 == 0) {
            29
        } else {
            28
        }
    } else if m == 4 || m == 6 || m == 9 || m == 11 {
        30
    } else {
        31
    }
}

// ----------------------------------------------------------------------
// Rendering and parsing
// ----------------------------------------------------------------------

/// `Z` for UTC, otherwise a signed `HH:MM` offset.
pub open spec fn ser_offset(off: int) -> Seq<char> {
    if off == 0 {
        seq!['Z']
    } else {
        let a = if off < 0 {
            -off
        } else {
            off
        };
        (if off < 0 {
            seq!['-']
        } else {
            seq!['+']
        }) + fixed_r(10, a / 60, 2) + seq![':'] + fixed_r(10, a % 60, 2)
    }
}

pub open spec fn ser_datetime(d: DateTime) -> Seq<char> {
    fixed_r(10, d.year as int, 4) + seq!['-'] + fixed_r(10, d.month as int, 2) + seq!['-']
        + fixed_r(10, d.day as int, 2) + seq!['T'] + fixed_r(10, d.hour as int, 2) + seq![':']
        + fixed_r(10, d.minute as int, 2) + seq![':'] + fixed_r(10, d.second as int, 2)
        + ser_offset(d.offset_minutes as int)
}

pub proof fn lemma_ser_datetime_len(d: DateTime)
    ensures
        ser_datetime(d).len() == 19 + ser_offset(d.offset_minutes as int).len(),
        ser_offset(d.offset_minutes as int).len() == if d.offset_minutes == 0 {
            1int
        } else {
            6int
        },
{
    let off = d.offset_minutes as int;
    lemma_fixed_r_len(10, d.year as int, 4);
    lemma_fixed_r_len(10, d.month as int, 2);
    lemma_fixed_r_len(10, d.day as int, 2);
    lemma_fixed_r_len(10, d.hour as int, 2);
    lemma_fixed_r_len(10, d.minute as int, 2);
    lemma_fixed_r_len(10, d.second as int, 2);
    if off != 0 {
        let a = if off < 0 {
            -off
        } else {
            off
        };
        lemma_fixed_r_len(10, a / 60, 2);
        lemma_fixed_r_len(10, a % 60, 2);
    }
}

pub open spec fn parse_offset(s: Seq<char>, i: int) -> Option<(int, int)> {
    if 0 <= i && i < s.len() && s[i] == 'Z' {
        Some((0, i + 1))
    } else if 0 <= i && i < s.len() && (s[i] == '+' || s[i] == '-') {
        match parse_fixed_r(s, i + 1, 10, 2) {
            Some(oh) => {
                if i + 3 < s.len() && s[i + 3] == ':' {
                    match parse_fixed_r(s, i + 4, 10, 2) {
                        Some(om) => {
                            let total = oh * 60 + om;
                            if total <= 1439 {
                                Some(
                                    (
                                        if s[i] == '-' {
                                            -total
                                        } else {
                                            total
                                        },
                                        i + 6,
                                    ),
                                )
                            } else {
                                None
                            }
                        },
                        None => None,
                    }
                } else {
                    None
                }
            },
            None => None,
        }
    } else {
        None
    }
}

pub open spec fn parse_datetime(s: Seq<char>, i: int) -> Option<(DateTime, int)> {
    match parse_fixed_r(s, i, 10, 4) {
        Some(y) => {
            if i + 4 < s.len() && s[i + 4] == '-' {
                match parse_fixed_r(s, i + 5, 10, 2) {
                    Some(mo) => {
                        if i + 7 < s.len() && s[i + 7] == '-' {
                            match parse_fixed_r(s, i + 8, 10, 2) {
                                Some(d) => {
                                    if i + 10 < s.len() && s[i + 10] == 'T' {
                                        match parse_fixed_r(s, i + 11, 10, 2) {
                                            Some(h) => {
                                                if i + 13 < s.len() && s[i + 13] == ':' {
                                                    match parse_fixed_r(s, i + 14, 10, 2) {
                                                        Some(mi) => {
                                                            if i + 16 < s.len() && s[i + 16]
                                                                == ':' {
                                                                match parse_fixed_r(
                                                                    s,
                                                                    i + 17,
                                                                    10,
                                                                    2,
                                                                ) {
                                                                    Some(sec) => match parse_offset(
                                                                        s,
                                                                        i + 19,
                                                                    ) {
                                                                        Some(p) => {
                                                                            let dt = DateTime {
                                                                                year: y as u16,
                                                                                month: mo as u8,
                                                                                day: d as u8,
                                                                                hour: h as u8,
                                                                                minute: mi as u8,
                                                                                second: sec as u8,
                                                                                offset_minutes: p.0 as i32,
                                                                            };
                                                                            if dt.wf() {
                                                                                Some((dt, p.1))
                                                                            } else {
                                                                                None
                                                                            }
                                                                        },
                                                                        None => None,
                                                                    },
                                                                    None => None,
                                                                }
                                                            } else {
                                                                None
                                                            }
                                                        },
                                                        None => None,
                                                    }
                                                } else {
                                                    None
                                                }
                                            },
                                            None => None,
                                        }
                                    } else {
                                        None
                                    }
                                },
                                None => None,
                            }
                        } else {
                            None
                        }
                    },
                    None => None,
                }
            } else {
                None
            }
        },
        None => None,
    }
}

/// Appends the rendering of `d` to `out`.
#[verifier::rlimit(60)]
pub fn write_datetime(out: &mut Vec<char>, d: &DateTime)
    requires
        d.wf(),
    ensures
        final(out)@ == old(out)@ + ser_datetime(*d),
{
    proof {
        reveal_with_fuel(pow_r, 5);
    }
    let ghost start = out@;
    write_fixed_r(out, 10, d.year as u128, 4);
    out.push('-');
    write_fixed_r(out, 10, d.month as u128, 2);
    out.push('-');
    write_fixed_r(out, 10, d.day as u128, 2);
    out.push('T');
    write_fixed_r(out, 10, d.hour as u128, 2);
    out.push(':');
    write_fixed_r(out, 10, d.minute as u128, 2);
    out.push(':');
    write_fixed_r(out, 10, d.second as u128, 2);
    let off = d.offset_minutes;
    if off == 0 {
        out.push('Z');
    } else {
        let a: i32 = if off < 0 {
            -off
        } else {
            off
        };
        if off < 0 {
            out.push('-');
        } else {
            out.push('+');
        }
        write_fixed_r(out, 10, (a / 60) as u128, 2);
        out.push(':');
        write_fixed_r(out, 10, (a % 60) as u128, 2);
    }
    proof {
        assert(out@ =~= start + ser_datetime(*d));
    }
}

/// Parses a timestamp, matching [`parse_datetime`] exactly.
pub fn parse_datetime_exec(s: &Vec<char>, i: usize) -> (res: Option<(DateTime, usize)>)
    ensures
        match res {
            Some(p) => parse_datetime(s@, i as int) == Some((p.0, p.1 as int)) && i < p.1
                <= s@.len() && p.0.wf(),
            None => parse_datetime(s@, i as int) is None,
        },
{
    proof {
        reveal_with_fuel(pow_r, 5);
    }
    let slen = s.len();
    let y = match parse_fixed_r_exec(s, i, 10, 4) {
        Some(v) => v,
        None => {
            return None;
        },
    };
    proof {
        lemma_parse_fixed_r_some_len(s@, i as int, 10, 4);
        lemma_parse_fixed_r_bound(s@, i as int, 10, 4);
    }
    if i + 4 >= slen || s[i + 4] != '-' {
        return None;
    }
    let mo = match parse_fixed_r_exec(s, i + 5, 10, 2) {
        Some(v) => v,
        None => {
            return None;
        },
    };
    proof {
        lemma_parse_fixed_r_some_len(s@, i as int + 5, 10, 2);
        lemma_parse_fixed_r_bound(s@, i as int + 5, 10, 2);
    }
    if i + 7 >= slen || s[i + 7] != '-' {
        return None;
    }
    let d = match parse_fixed_r_exec(s, i + 8, 10, 2) {
        Some(v) => v,
        None => {
            return None;
        },
    };
    proof {
        lemma_parse_fixed_r_some_len(s@, i as int + 8, 10, 2);
        lemma_parse_fixed_r_bound(s@, i as int + 8, 10, 2);
    }
    if i + 10 >= slen || s[i + 10] != 'T' {
        return None;
    }
    let h = match parse_fixed_r_exec(s, i + 11, 10, 2) {
        Some(v) => v,
        None => {
            return None;
        },
    };
    proof {
        lemma_parse_fixed_r_some_len(s@, i as int + 11, 10, 2);
        lemma_parse_fixed_r_bound(s@, i as int + 11, 10, 2);
    }
    if i + 13 >= slen || s[i + 13] != ':' {
        return None;
    }
    let mi = match parse_fixed_r_exec(s, i + 14, 10, 2) {
        Some(v) => v,
        None => {
            return None;
        },
    };
    proof {
        lemma_parse_fixed_r_some_len(s@, i as int + 14, 10, 2);
        lemma_parse_fixed_r_bound(s@, i as int + 14, 10, 2);
    }
    if i + 16 >= slen || s[i + 16] != ':' {
        return None;
    }
    let sec = match parse_fixed_r_exec(s, i + 17, 10, 2) {
        Some(v) => v,
        None => {
            return None;
        },
    };
    proof {
        lemma_parse_fixed_r_some_len(s@, i as int + 17, 10, 2);
        lemma_parse_fixed_r_bound(s@, i as int + 17, 10, 2);
    }
    // offset
    if i + 19 >= slen {
        return None;
    }
    let offc = s[i + 19];
    let (off, end): (i32, usize) = if offc == 'Z' {
        (0, i + 20)
    } else if offc == '+' || offc == '-' {
        let oh = match parse_fixed_r_exec(s, i + 20, 10, 2) {
            Some(v) => v,
            None => {
                return None;
            },
        };
        proof {
            lemma_parse_fixed_r_some_len(s@, i as int + 20, 10, 2);
            lemma_parse_fixed_r_bound(s@, i as int + 20, 10, 2);
        }
        if i + 22 >= slen || s[i + 22] != ':' {
            return None;
        }
        let om = match parse_fixed_r_exec(s, i + 23, 10, 2) {
            Some(v) => v,
            None => {
                return None;
            },
        };
        proof {
            lemma_parse_fixed_r_some_len(s@, i as int + 23, 10, 2);
            lemma_parse_fixed_r_bound(s@, i as int + 23, 10, 2);
        }
        let total = (oh as u32) * 60 + (om as u32);
        if total > 1439 {
            return None;
        }
        if offc == '-' {
            (-(total as i32), i + 25)
        } else {
            (total as i32, i + 25)
        }
    } else {
        return None;
    };
    let dt = DateTime {
        year: y as u16,
        month: mo as u8,
        day: d as u8,
        hour: h as u8,
        minute: mi as u8,
        second: sec as u8,
        offset_minutes: off,
    };
    if dt.valid() {
        Some((dt, end))
    } else {
        None
    }
}

/// Parsing recovers the timestamp a rendering was written from.
pub proof fn lemma_datetime_round_trip(s: Seq<char>, i: int, d: DateTime)
    requires
        d.wf(),
        0 <= i,
        i + ser_datetime(d).len() <= s.len(),
        s.subrange(i, i + ser_datetime(d).len() as int) == ser_datetime(d),
    ensures
        parse_datetime(s, i) == Some((d, i + ser_datetime(d).len() as int)),
{
    reveal_with_fuel(pow_r, 5);
    lemma_ser_datetime_len(d);
    let whole = ser_datetime(d);
    let ln = whole.len() as int;
    let off = d.offset_minutes as int;
    lemma_fixed_r_len(10, d.year as int, 4);
    lemma_fixed_r_len(10, d.month as int, 2);
    lemma_fixed_r_len(10, d.day as int, 2);
    lemma_fixed_r_len(10, d.hour as int, 2);
    lemma_fixed_r_len(10, d.minute as int, 2);
    lemma_fixed_r_len(10, d.second as int, 2);
    // year
    lemma_subrange_extract(s, i, whole, 0, 4);
    assert(whole.subrange(0, 4) =~= fixed_r(10, d.year as int, 4));
    lemma_fixed_r_parse(s, i, 10, d.year as int, 4);
    assert(s[i + 4] == whole[4]);
    // month
    lemma_subrange_extract(s, i, whole, 5, 7);
    assert(whole.subrange(5, 7) =~= fixed_r(10, d.month as int, 2));
    lemma_fixed_r_parse(s, i + 5, 10, d.month as int, 2);
    assert(s[i + 7] == whole[7]);
    // day
    lemma_subrange_extract(s, i, whole, 8, 10);
    assert(whole.subrange(8, 10) =~= fixed_r(10, d.day as int, 2));
    lemma_fixed_r_parse(s, i + 8, 10, d.day as int, 2);
    assert(s[i + 10] == whole[10]);
    // hour
    lemma_subrange_extract(s, i, whole, 11, 13);
    assert(whole.subrange(11, 13) =~= fixed_r(10, d.hour as int, 2));
    lemma_fixed_r_parse(s, i + 11, 10, d.hour as int, 2);
    assert(s[i + 13] == whole[13]);
    // minute
    lemma_subrange_extract(s, i, whole, 14, 16);
    assert(whole.subrange(14, 16) =~= fixed_r(10, d.minute as int, 2));
    lemma_fixed_r_parse(s, i + 14, 10, d.minute as int, 2);
    assert(s[i + 16] == whole[16]);
    // second
    lemma_subrange_extract(s, i, whole, 17, 19);
    assert(whole.subrange(17, 19) =~= fixed_r(10, d.second as int, 2));
    lemma_fixed_r_parse(s, i + 17, 10, d.second as int, 2);
    // offset
    if off == 0 {
        assert(s[i + 19] == whole[19]);
        assert(whole[19] == 'Z');
        assert(parse_offset(s, i + 19) == Some((0int, i + 20)));
    } else {
        let a = if off < 0 {
            -off
        } else {
            off
        };
        lemma_fixed_r_len(10, a / 60, 2);
        lemma_fixed_r_len(10, a % 60, 2);
        assert(s[i + 19] == whole[19]);
        assert(whole[19] == if off < 0 {
            '-'
        } else {
            '+'
        });
        lemma_subrange_extract(s, i, whole, 20, 22);
        assert(whole.subrange(20, 22) =~= fixed_r(10, a / 60, 2));
        assert(a / 60 < 100);
        lemma_fixed_r_parse(s, i + 20, 10, a / 60, 2);
        assert(s[i + 22] == whole[22]);
        assert(whole[22] == ':');
        lemma_subrange_extract(s, i, whole, 23, 25);
        assert(whole.subrange(23, 25) =~= fixed_r(10, a % 60, 2));
        lemma_fixed_r_parse(s, i + 23, 10, a % 60, 2);
        assert((a / 60) * 60 + a % 60 == a);
        assert(parse_offset(s, i + 19) == Some((off, i + 25)));
    }
    let parsed = parse_datetime(s, i).unwrap().0;
    assert(parsed == d);
}

// ----------------------------------------------------------------------
// Human-readable labels
// ----------------------------------------------------------------------

/// The calendar day after `(y, m, d)`.
pub open spec fn next_ymd(y: int, m: int, d: int) -> (int, int, int) {
    if d < days_in_month(y, m) {
        (y, m, d + 1)
    } else if m < 12 {
        (y, m + 1, 1)
    } else {
        (y + 1, 1, 1)
    }
}

pub open spec fn same_day(d: DateTime, now: DateTime) -> bool {
    d.year == now.year && d.month == now.month && d.day == now.day
}

pub open spec fn day_before(d: DateTime, now: DateTime) -> bool {
    next_ymd(d.year as int, d.month as int, d.day as int) == (
        now.year as int,
        now.month as int,
        now.day as int,
    )
}

/// The time part of a label: `hh:mm:ss AM`/`PM` in twelve-hour style,
/// `hh:mm` otherwise.
pub open spec fn time_label(d: DateTime, twelve_hour: bool) -> Seq<char> {
    if twelve_hour {
        let h12 = if d.hour as int % 12 == 0 {
            12int
        } else {
            d.hour as int % 12
        };
        fixed_r(10, h12, 2) + seq![':'] + fixed_r(10, d.minute as int, 2) + seq![':'] + fixed_r(
            10,
            d.second as int,
            2,
        ) + seq![' '] + (if d.hour < 12 {
            "AM"@
        } else {
            "PM"@
        })
    } else {
        fixed_r(10, d.hour as int, 2) + seq![':'] + fixed_r(10, d.minute as int, 2)
    }
}

/// The day part of a label: `Today`, `Yesterday`, or a short
/// `mm/dd/yy` date.
pub open spec fn day_label(d: DateTime, now: DateTime) -> Seq<char> {
    if same_day(d, now) {
        "Today"@
    } else if day_before(d, now) {
        "Yesterday"@
    } else {
        fixed_r(10, d.month as int, 2) + seq!['/'] + fixed_r(10, d.day as int, 2) + seq!['/']
            + fixed_r(10, d.year as int % 100, 2)
    }
}

/// The whole label: day part, a comma and space, time part.
pub open spec fn relative_label(d: DateTime, now: DateTime, twelve_hour: bool) -> Seq<char> {
    day_label(d, now) + ", "@ + time_label(d, twelve_hour)
}

impl DateTime {
    /// Renders the label described by [`relative_label`].
    pub fn relative_chars(&self, now: &DateTime, twelve_hour: bool) -> (r: Vec<char>)
        requires
            self.wf(),
            now.wf(),
        ensures
            r@ == relative_label(*self, *now, twelve_hour),
    {
        proof {
            reveal_with_fuel(pow_r, 5);
        }
        let mut out: Vec<char> = Vec::new();
        let sd = self.year == now.year && self.month == now.month && self.day == now.day;
        let dim = days_in_month_exec(self.year, self.month);
        let nxt: (u16, u8, u8) = if self.day < dim {
            (self.year, self.month, self.day + 1)
        } else if self.month < 12 {
            (self.year, self.month + 1, 1)
        } else {
            (self.year + 1, 1, 1)
        };
        let db = nxt.0 == now.year && nxt.1 == now.month && nxt.2 == now.day;
        proof {
            assert(db == day_before(*self, *now));
        }
        if sd {
            crate::text::push_str_chars(&mut out, "Today");
        } else if db {
            crate::text::push_str_chars(&mut out, "Yesterday");
        } else {
            write_fixed_r(&mut out, 10, self.month as u128, 2);
            out.push('/');
            write_fixed_r(&mut out, 10, self.day as u128, 2);
            out.push('/');
            write_fixed_r(&mut out, 10, (self.year % 100) as u128, 2);
        }
        proof {
            assert(out@ =~= day_label(*self, *now));
        }
        crate::text::push_str_chars(&mut out, ", ");
        let ghost mid = out@;
        if twelve_hour {
            let h12: u8 = if self.hour % 12 == 0 {
                12
            } else {
                self.hour % 12
            };
            write_fixed_r(&mut out, 10, h12 as u128, 2);
            out.push(':');
            write_fixed_r(&mut out, 10, self.minute as u128, 2);
            out.push(':');
            write_fixed_r(&mut out, 10, self.second as u128, 2);
            out.push(' ');
            if self.hour < 12 {
                crate::text::push_str_chars(&mut out, "AM");
            } else {
                crate::text::push_str_chars(&mut out, "PM");
            }
        } else {
            write_fixed_r(&mut out, 10, self.hour as u128, 2);
            out.push(':');
            write_fixed_r(&mut out, 10, self.minute as u128, 2);
        }
        proof {
            assert(out@ =~= relative_label(*self, *now, twelve_hour));
        }
        out
    }
}

} // verus!
