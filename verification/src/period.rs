//! Year-month values: parsing `YYYY` / `YYYY-MM`, display, and the Unix times that bound a month.

use vstd::prelude::*;
use crate::calendar::{
    days_in_month, is_valid_month, lemma_month_length, lemma_month_start_order, month_precedes,
    month_start_seconds, next_month, MAX_YEAR, MIN_YEAR,
};
use crate::text::{
    all_digit_bytes, ascii_bytes, decimal_digits, digits_value, lemma_ascii_encoding,
    lemma_decimal_digits_read_back, lemma_four_digits, pow10, push_signed_decimal,
    push_zero_padded, read_digits, signed_decimal, zero_padded,
};

verus! {

/// A year-month value parsed from `YYYY` or `YYYY-MM`.
#[derive(Debug, Clone, Copy, PartialEq, Eq, PartialOrd, Ord, Structural)]
pub struct YearMonth {
    pub year: i32,
    pub month: u32,
}

/// Wrapper for `--to`: bare YYYY expands to December.
#[derive(Debug, Clone, Copy)]
pub struct YearMonthEnd(pub YearMonth);

/// Calls chrono's `NaiveDate::from_ymd_opt(year, month, 1)`, then `and_hms_opt(0, 0, 0)`,
/// `and_utc()` and `timestamp()`. Claims that, for a year chrono represents and a month
/// from 1 to 12, the date exists and the result is the Unix time of its first second in
/// the proleptic Gregorian calendar.
#[verifier::external_body]
fn utc_month_start(year: i32, month: u32) -> (ts: i64)
    requires
        MIN_YEAR <= year <= MAX_YEAR,
        is_valid_month(month as int),
    ensures
        ts == month_start_seconds(year as int, month as int),
{
    chrono::NaiveDate::from_ymd_opt(year, month, 1).unwrap().and_hms_opt(0, 0, 0).unwrap().and_utc().timestamp()
}

/// An error message: `prefix`, then the text that was refused.
pub open spec fn message(prefix: &str, s: Seq<char>) -> Seq<char> {
    prefix@ + s
}

/// What parsing `s` gives, with `default_month` for a bare year: `Ok` with the value, or
/// `Err` with the message. `YYYY` is four ASCII digits; `YYYY-MM` is four ASCII digits,
/// `-`, and two ASCII digits that spell a month from 1 to 12.
pub open spec fn year_month_from_text(s: Seq<char>, default_month: u32) -> Result<YearMonth, Seq<char>> {
    let b = vstd::utf8::encode_utf8(s);
    if b.len() == 4 {
        if all_digit_bytes(b) {
            Ok(YearMonth { year: digits_value(b) as i32, month: default_month })
        } else {
            Err(message("invalid year: ", s))
        }
    } else if b.len() == 7 && b[4] == 45 {
        let year_bytes = b.subrange(0, 4);
        let month_bytes = b.subrange(5, 7);
        if !all_digit_bytes(year_bytes) {
            Err(message("invalid year in: ", s))
        } else if !all_digit_bytes(month_bytes) {
            Err(message("invalid month in: ", s))
        } else if 1 <= digits_value(month_bytes) <= 12 {
            Ok(YearMonth { year: digits_value(year_bytes) as i32, month: digits_value(month_bytes) as u32 })
        } else {
            Err(message("month must be 01–12, got: ", s))
        }
    } else {
        Err(message("expected YYYY or YYYY-MM, got: ", s))
    }
}

/// `prefix` followed by `s`, as a new string.
fn error_message(prefix: &str, s: &str) -> (msg: String)
    ensures
        msg@ == message(prefix, s@),
{
    let mut msg = String::from_str(prefix);
    msg.append(s);
    msg
}

/// Parses `YYYY` (the month is then `default_month`) or `YYYY-MM`.
pub fn parse_year_month(s: &str, default_month: u32) -> (res: Result<YearMonth, String>)
    ensures
        match res {
            Ok(ym) => year_month_from_text(s@, default_month) == Ok::<YearMonth, Seq<char>>(ym),
            Err(e) => year_month_from_text(s@, default_month) == Err::<YearMonth, Seq<char>>(e@),
        },
{
    let b = s.as_bytes();
    let len = b.len();
    proof {
        reveal_with_fuel(pow10, 5);
    }
    if len == 4 {
        assert(b@.subrange(0, 4) =~= b@);
        match read_digits(b, 0, 4) {
            Some(y) => Ok(YearMonth { year: y as i32, month: default_month }),
            None => Err(error_message("invalid year: ", s)),
        }
    } else if len == 7 && b[4] == 45 {
        match read_digits(b, 0, 4) {
            None => Err(error_message("invalid year in: ", s)),
            Some(y) => match read_digits(b, 5, 7) {
                None => Err(error_message("invalid month in: ", s)),
                Some(m) => {
                    if 1 <= m && m <= 12 {
                        Ok(YearMonth { year: y as i32, month: m as u32 })
                    } else {
                        Err(error_message("month must be 01–12, got: ", s))
                    }
                },
            },
        }
    } else {
        Err(error_message("expected YYYY or YYYY-MM, got: ", s))
    }
}


impl YearMonth {
    /// The month is one of the twelve.
    pub open spec fn is_valid(self) -> bool {
        is_valid_month(self.month as int)
    }

    /// The first second of this month can be computed: a valid month in a year the date
    /// library represents.
    pub open spec fn has_start(self) -> bool {
        MIN_YEAR <= self.year <= MAX_YEAR && is_valid_month(self.month as int)
    }

    /// The first second after this month can be computed: the month that follows (month 0
    /// is followed by January of the same year) is a valid month in a year the date
    /// library represents.
    pub open spec fn has_end(self) -> bool {
        &&& MIN_YEAR <= self.year <= MAX_YEAR
        &&& self.month <= 12
        &&& (self.month == 12 ==> self.year < MAX_YEAR)
    }

    /// The month after this one, as (year, month).
    pub open spec fn following(self) -> (int, int) {
        next_month(self.year as int, self.month as int)
    }

    /// `YYYY-MM` as Rust's `"{}-{:02}"` renders year and month.
    pub open spec fn text(self) -> Seq<char> {
        signed_decimal(self.year as int) + seq!['-'] + zero_padded(self.month as nat, 2)
    }

    /// First second of this month as a Unix timestamp.
    pub fn start_timestamp(self) -> (ts: i64)
        requires
            self.has_start(),
        ensures
            ts == month_start_seconds(self.year as int, self.month as int),
    {
        utc_month_start(self.year, self.month)
    }

    /// First second of the month *after* this one (exclusive end for API range).
    pub fn end_timestamp(self) -> (ts: i64)
        requires
            self.has_end(),
        ensures
            ts == month_start_seconds(self.following().0, self.following().1),
    {
        let (year, month) = if self.month == 12 {
            (self.year + 1, 1)
        } else {
            (self.year, self.month + 1)
        };
        utc_month_start(year, month)
    }

    /// `YYYY-MM`: the year as Rust prints an `i32`, then the month zero-padded to two digits.
    pub fn to_string(&self) -> (s: String)
        ensures
            s@ == self.text(),
    {
        let mut s = String::new();
        push_signed_decimal(&mut s, self.year as i64);
        s.append("-");
        proof {
            reveal_strlit("-");
        }
        push_zero_padded(&mut s, self.month as u64, 2);
        assert(s@ =~= self.text());
        s
    }
}

/// Parses `--from`: bare YYYY expands to January.
impl std::str::FromStr for YearMonth {
    type Err = String;

    fn from_str(s: &str) -> (res: Result<Self, Self::Err>)
        ensures
            match res {
                Ok(ym) => year_month_from_text(s@, 1) == Ok::<YearMonth, Seq<char>>(ym),
                Err(e) => year_month_from_text(s@, 1) == Err::<YearMonth, Seq<char>>(e@),
            },
    {
        parse_year_month(s, 1)
    }
}

/// Parses `--to`: bare YYYY expands to December.
impl std::str::FromStr for YearMonthEnd {
    type Err = String;

    fn from_str(s: &str) -> (res: Result<Self, Self::Err>)
        ensures
            match res {
                Ok(end) => year_month_from_text(s@, 12) == Ok::<YearMonth, Seq<char>>(end.0),
                Err(e) => year_month_from_text(s@, 12) == Err::<YearMonth, Seq<char>>(e@),
            },
    {
        match parse_year_month(s, 12) {
            Ok(ym) => Ok(YearMonthEnd(ym)),
            Err(e) => Err(e),
        }
    }
}


/// A month ends after it begins: the first second after it comes `days_in_month` days of
/// seconds after its first second.
pub proof fn lemma_end_after_start(ym: YearMonth)
    requires
        ym.has_start(),
    ensures
        month_start_seconds(ym.following().0, ym.following().1) == month_start_seconds(
            ym.year as int,
            ym.month as int,
        ) + 86400 * days_in_month(ym.year as int, ym.month as int),
        month_start_seconds(ym.following().0, ym.following().1) > month_start_seconds(
            ym.year as int,
            ym.month as int,
        ),
{
    lemma_month_length(ym.year as int, ym.month as int);
}

/// Year-months are ordered chronologically: by year, then by month (the order of the
/// fields, which the derived `Ord` follows) is the order of their first seconds, and equal
/// year-months are the ones that start together.
pub proof fn lemma_order_is_chronological(a: YearMonth, b: YearMonth)
    requires
        a.is_valid(),
        b.is_valid(),
    ensures
        month_precedes(a.year as int, a.month as int, b.year as int, b.month as int)
            <==> month_start_seconds(a.year as int, a.month as int) < month_start_seconds(
            b.year as int,
            b.month as int,
        ),
        a == b <==> month_start_seconds(a.year as int, a.month as int) == month_start_seconds(
            b.year as int,
            b.month as int,
        ),
{
    lemma_month_start_order(a.year as int, a.month as int, b.year as int, b.month as int);
}

/// The `YYYY-MM` text of a year-month with a four-digit year parses back to it.
pub proof fn lemma_text_parses_back(ym: YearMonth, default_month: u32)
    requires
        1000 <= ym.year <= 9999,
        ym.is_valid(),
    ensures
        year_month_from_text(ym.text(), default_month) == Ok::<YearMonth, Seq<char>>(ym),
{
    let y = ym.year as nat;
    let m = ym.month as nat;
    let yd = decimal_digits(y);
    let md = zero_padded(m, 2);
    let t = ym.text();
    lemma_four_digits(y);
    lemma_decimal_digits_read_back(y);
    lemma_decimal_digits_read_back(m);
    assert(signed_decimal(ym.year as int) == yd);
    assert(t =~= yd + seq!['-'] + md);
    if m < 10 {
        assert(decimal_digits(m) =~= seq![crate::text::digit_char(m as int)]);
        assert(md =~= seq!['0', crate::text::digit_char(m as int)]);
    } else {
        assert(decimal_digits(m / 10) =~= seq![crate::text::digit_char(1)]);
        assert(md.len() == 2);
    }
    assert(crate::text::digits_or_dash(t)) by {
        assert forall|i: int| 0 <= i < t.len() implies ('0' <= #[trigger] t[i] <= '9' || t[i] == '-') by {
            if i < 4 {
                assert(t[i] == yd[i]);
            } else if i > 4 {
                assert(t[i] == md[i - 5]);
                if m >= 10 {
                    assert(md[i - 5] == decimal_digits(m)[i - 5]);
                }
            }
        }
    }
    lemma_ascii_encoding(t);
    let b = ascii_bytes(t);
    assert(b.len() == 7);
    assert(b[4] == 45);
    assert(b.subrange(0, 4) =~= ascii_bytes(yd));
    let mb = b.subrange(5, 7);
    assert(mb =~= ascii_bytes(md));
    if m < 10 {
        assert(mb =~= seq![48u8, (48 + m) as u8]);
        assert(mb.drop_last() =~= seq![48u8]);
        assert(mb.drop_last().drop_last() =~= Seq::<u8>::empty());
        assert(digits_value(Seq::<u8>::empty()) == 0);
        assert(digits_value(mb.drop_last()) == 0);
        assert(mb.last() == (48 + m) as u8);
        assert(digits_value(mb) == m);
        assert(all_digit_bytes(mb));
    } else {
        assert(mb =~= ascii_bytes(decimal_digits(m)));
    }
    assert(all_digit_bytes(mb) && digits_value(mb) == m);
}

}
