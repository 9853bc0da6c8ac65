//! Emissions records, and the decisions around reading them from the AWS Sustainability API
//! and from the AWS CLI's JSON output.

use vstd::prelude::*;
use vstd::utf8::{decode_utf8, encode_utf8, encode_utf8_decode_utf8, is_char_boundary};
use crate::calendar::{
    is_valid_month, lemma_month_of_second_unique, lemma_month_start_order, month_precedes,
    month_start_seconds, next_month, MAX_YEAR, MIN_YEAR,
};
use crate::period::YearMonth;
use crate::text::{push_signed_decimal, signed_decimal, str_equal, zero_padded};

verus! {

/// One record of estimated emissions: a month (`YYYY-MM`), a region, a service, and the
/// location-based and market-based emissions. `V` is the type of the emissions values,
/// which the library carries and never computes with.
#[derive(Debug, Clone)]
pub struct EmissionsResult<V> {
    pub month: String,
    pub region: String,
    pub service: String,
    pub lbm: V,
    pub mbm: V,
}

/// One entry of `Results` in the AWS CLI's JSON output: `TimePeriod.Start`, the
/// `DimensionsValues` object and the `Value` of each entry of `EmissionsValues`, each
/// object as its (key, value) pairs.
#[derive(Debug)]
pub struct CliResult<V> {
    pub time_period_start: String,
    pub dimensions_values: Vec<(String, String)>,
    pub emissions_values: Vec<(String, V)>,
}

/// The AWS CLI's JSON output of `get-estimated-carbon-emissions`.
#[derive(Debug)]
pub struct CliOutput<V> {
    pub results: Vec<CliResult<V>>,
}

/// The value under the first pair of `pairs` whose key is `key`.
pub open spec fn lookup<T>(pairs: Seq<(String, T)>, key: Seq<char>) -> Option<T>
    decreases pairs.len(),
{
    if pairs.len() == 0 {
        None
    } else if pairs[0].0@ == key {
        Some(pairs[0].1)
    } else {
        lookup(pairs.drop_first(), key)
    }
}

/// The text of a looked-up dimension, empty when the dimension is absent.
pub open spec fn text_or_empty(value: Option<String>) -> Seq<char> {
    match value {
        Some(s) => s@,
        None => seq![],
    }
}

/// The month (`YYYY-MM`) of a `TimePeriod.Start` such as `2025-01-01T00:00:00+00:00`: its
/// first seven bytes, when it has seven and they end on a character boundary.
pub open spec fn start_month(start: Seq<char>) -> Option<Seq<char>> {
    let b = encode_utf8(start);
    if b.len() >= 7 && is_char_boundary(b, 7) {
        Some(decode_utf8(b.subrange(0, 7)))
    } else {
        None
    }
}

/// The error for a `TimePeriod.Start` that has no month.
pub open spec fn bad_start_message(start: Seq<char>) -> Seq<char> {
    "unexpected TimePeriod.Start format: "@ + start
}

/// `record` is what the CLI result `r` becomes, with `missing` for absent emissions.
pub open spec fn record_matches<V>(record: EmissionsResult<V>, r: CliResult<V>, missing: V) -> bool {
    &&& start_month(r.time_period_start@) == Some(record.month@)
    &&& record.region@ == text_or_empty(lookup(r.dimensions_values@, "REGION"@))
    &&& record.service@ == text_or_empty(lookup(r.dimensions_values@, "SERVICE"@))
    &&& record.lbm == match lookup(r.emissions_values@, "TOTAL_LBM_CARBON_EMISSIONS"@) {
        Some(v) => v,
        None => missing,
    }
    &&& record.mbm == match lookup(r.emissions_values@, "TOTAL_MBM_CARBON_EMISSIONS"@) {
        Some(v) => v,
        None => missing,
    }
}

/// The index of the first pair of `pairs` whose key is `key`.
fn find_key<T>(pairs: &Vec<(String, T)>, key: &str) -> (found: Option<usize>)
    ensures
        match found {
            Some(i) => i < pairs@.len() && lookup(pairs@, key@) == Some(pairs@[i as int].1),
            None => lookup(pairs@, key@) is None,
        },
{
    let mut i: usize = 0;
    assert(pairs@.skip(0) =~= pairs@);
    while i < pairs.len()
        invariant
            0 <= i <= pairs@.len(),
            lookup(pairs@, key@) == lookup(pairs@.skip(i as int), key@),
        decreases pairs@.len() - i,
    {
        assert(pairs@.skip(i as int)[0] == pairs@[i as int]);
        assert(pairs@.skip(i as int).drop_first() =~= pairs@.skip(i + 1));
        if str_equal(pairs[i].0.as_str(), key) {
            return Some(i);
        }
        i = i + 1;
    }
    None
}

/// The month of a `TimePeriod.Start`: its first seven bytes, when it has seven and they end
/// on a character boundary.
pub fn month_of_start(start: &str) -> (month: Option<String>)
    ensures
        match month {
            Some(m) => start_month(start@) == Some(m@),
            None => start_month(start@) is None,
        },
{
    let b = start.as_bytes();
    if b.len() >= 7 && start.is_char_boundary(7) {
        let (head, _tail) = start.split_at(7);
        proof {
            encode_utf8_decode_utf8(head@);
        }
        Some(String::from_str(head))
    } else {
        None
    }
}

/// Turns one CLI result into a record, or `None` when its `TimePeriod.Start` has no month.
fn record_from_cli<V: Copy>(r: &CliResult<V>, missing: V) -> (record: Option<EmissionsResult<V>>)
    ensures
        match record {
            Some(rec) => record_matches(rec, *r, missing),
            None => start_month(r.time_period_start@) is None,
        },
{
    let month = match month_of_start(r.time_period_start.as_str()) {
        Some(m) => m,
        None => return None,
    };
    let region = match find_key(&r.dimensions_values, "REGION") {
        Some(i) => r.dimensions_values[i].1.clone(),
        None => String::new(),
    };
    let service = match find_key(&r.dimensions_values, "SERVICE") {
        Some(i) => r.dimensions_values[i].1.clone(),
        None => String::new(),
    };
    let lbm = match find_key(&r.emissions_values, "TOTAL_LBM_CARBON_EMISSIONS") {
        Some(i) => r.emissions_values[i].1,
        None => missing,
    };
    let mbm = match find_key(&r.emissions_values, "TOTAL_MBM_CARBON_EMISSIONS") {
        Some(i) => r.emissions_values[i].1,
        None => missing,
    };
    Some(EmissionsResult { month, region, service, lbm, mbm })
}

/// Converts the AWS CLI's output into records: the month from the first seven bytes of
/// `TimePeriod.Start`, the region and service from `DimensionsValues` (empty when absent),
/// and the location-based and market-based totals from `EmissionsValues` (`missing` when
/// absent). Fails on the first result whose `TimePeriod.Start` has no month.
pub fn results_from_cli<V: Copy>(cli: &CliOutput<V>, missing: V) -> (res: Result<
    Vec<EmissionsResult<V>>,
    String,
>)
    ensures
        res is Ok <==> forall|i: int|
            0 <= i < cli.results@.len() ==> (#[trigger] start_month(
                cli.results@[i].time_period_start@,
            )) is Some,
        res matches Ok(records) ==> {
            &&& records@.len() == cli.results@.len()
            &&& forall|i: int|
                0 <= i < records@.len() ==> record_matches(
                    #[trigger] records@[i],
                    cli.results@[i],
                    missing,
                )
        },
        res matches Err(e) ==> exists|k: int|
            0 <= k < cli.results@.len() && (#[trigger] start_month(
                cli.results@[k].time_period_start@,
            )) is None && e@ == bad_start_message(cli.results@[k].time_period_start@) && forall|
                j: int,
            |
                0 <= j < k ==> (#[trigger] start_month(
                    cli.results@[j].time_period_start@,
                )) is Some,
{
    let mut records: Vec<EmissionsResult<V>> = Vec::new();
    let mut i: usize = 0;
    while i < cli.results.len()
        invariant
            0 <= i <= cli.results@.len(),
            records@.len() == i,
            forall|j: int|
                0 <= j < i ==> (#[trigger] start_month(cli.results@[j].time_period_start@)) is Some,
            forall|j: int|
                0 <= j < i ==> record_matches(#[trigger] records@[j], cli.results@[j], missing),
        decreases cli.results@.len() - i,
    {
        match record_from_cli(&cli.results[i], missing) {
            Some(rec) => {
                records.push(rec);
            },
            None => {
                let mut msg = String::from_str("unexpected TimePeriod.Start format: ");
                msg.append(cli.results[i].time_period_start.as_str());
                return Err(msg);
            },
        }
        i = i + 1;
    }
    Ok(records)
}


/// How chrono's `%Y` writes a year: four digits, zero-padded, for years 0 to 9999; other
/// years with a sign and at least four digits.
pub open spec fn chrono_year_text(year: int) -> Seq<char> {
    if 0 <= year <= 9999 {
        zero_padded(year as nat, 4)
    } else if year < 0 {
        seq!['-'] + zero_padded((-year) as nat, 4)
    } else {
        seq!['+'] + zero_padded(year as nat, 4)
    }
}

/// The `YYYY-MM` label of a month, as chrono's pattern `%Y-%m` writes it.
pub open spec fn chrono_month_label(year: int, month: int) -> Seq<char> {
    chrono_year_text(year) + seq!['-'] + zero_padded(month as nat, 2)
}

/// The seconds that chrono's UTC dates can hold.
pub open spec fn in_date_range(secs: int) -> bool {
    month_start_seconds(MIN_YEAR as int, 1) <= secs < month_start_seconds(MAX_YEAR + 1, 1)
}

/// `secs` falls within the UTC month (`year`, `month`).
pub open spec fn second_in_month(secs: int, year: int, month: int) -> bool {
    &&& MIN_YEAR <= year <= MAX_YEAR
    &&& is_valid_month(month)
    &&& month_start_seconds(year, month) <= secs
    &&& secs < month_start_seconds(next_month(year, month).0, next_month(year, month).1)
}

/// The UTC month that holds `secs`.
pub open spec fn utc_month_of(secs: int) -> (int, int) {
    choose|ym: (int, int)| second_in_month(secs, ym.0, ym.1)
}

/// The month label of an API result whose time period starts at `start_secs` (no time
/// period: empty). A start outside chrono's dates counts as the Unix epoch, January 1970.
pub open spec fn api_month_text(start_secs: Option<i64>) -> Seq<char> {
    match start_secs {
        None => seq![],
        Some(secs) => if in_date_range(secs as int) {
            chrono_month_label(utc_month_of(secs as int).0, utc_month_of(secs as int).1)
        } else {
            chrono_month_label(1970, 1)
        },
    }
}

/// Calls chrono's `DateTime::from_timestamp(secs, 0)` and, when that gives a date, renders
/// its `naive_utc()` with `format(pattern)`. Claims, for the pattern `%Y-%m`, that a date
/// comes back exactly for the seconds within the years chrono represents, and that the
/// label then names the UTC month holding `secs`: the year as `%Y` writes years, `-`, and
/// the month as two digits.
#[verifier::external_body]
fn utc_month_label(secs: i64, pattern: &str) -> (label: Option<String>)
    requires
        pattern@ == "%Y-%m"@,
    ensures
        label is Some <==> in_date_range(secs as int),
        label matches Some(l) ==> exists|y: int, m: int|
            second_in_month(secs as int, y, m) && l@ == chrono_month_label(y, m),
{
    match chrono::DateTime::from_timestamp(secs, 0) {
        Some(dt) => Some(dt.naive_utc().format(pattern).to_string()),
        None => None,
    }
}

/// The Unix epoch lies within chrono's dates, in January 1970.
proof fn lemma_epoch_month()
    ensures
        in_date_range(0),
        second_in_month(0, 1970, 1),
{
    assert(month_start_seconds(1970, 1) == 0);
    lemma_month_start_order(MIN_YEAR as int, 1, 1970, 1);
    lemma_month_start_order(1970, 1, MAX_YEAR + 1, 1);
    lemma_month_start_order(1970, 1, 1970, 2);
    assert(month_precedes(MIN_YEAR as int, 1, 1970, 1));
}

/// The `YYYY-MM` label of the UTC month in which an API result's time period starts (no time
/// period: empty; a start outside chrono's dates: the Unix epoch's month).
pub fn month_label_of(start_secs: Option<i64>) -> (label: String)
    ensures
        label@ == api_month_text(start_secs),
{
    match start_secs {
        None => String::new(),
        Some(secs) => {
            let found = utc_month_label(secs, "%Y-%m");
            match found {
                Some(l) => {
                    proof {
                        let (y, m) = choose|y: int, m: int|
                            second_in_month(secs as int, y, m) && l@ == chrono_month_label(y, m);
                        let ym = utc_month_of(secs as int);
                        assert(second_in_month(secs as int, ym.0, ym.1));
                        lemma_month_of_second_unique(secs as int, y, m, ym.0, ym.1);
                    }
                    l
                },
                None => {
                    proof {
                        lemma_epoch_month();
                    }
                    let epoch = utc_month_label(0, "%Y-%m");
                    let l = epoch.unwrap();
                    proof {
                        let (y, m) = choose|y: int, m: int|
                            second_in_month(0, y, m) && l@ == chrono_month_label(y, m);
                        lemma_month_of_second_unique(0, y, m, 1970, 1);
                    }
                    l
                },
            }
        },
    }
}

/// Turns one result of the Sustainability API into a record: the month in which its time
/// period starts, the region and service (empty when absent), and the two totals (`missing`
/// when absent).
pub fn result_from_api<V: Copy>(
    start_secs: Option<i64>,
    region: Option<String>,
    service: Option<String>,
    lbm: Option<V>,
    mbm: Option<V>,
    missing: V,
) -> (record: EmissionsResult<V>)
    ensures
        record.month@ == api_month_text(start_secs),
        record.region@ == text_or_empty(region),
        record.service@ == text_or_empty(service),
        record.lbm == (match lbm {
            Some(v) => v,
            None => missing,
        }),
        record.mbm == (match mbm {
            Some(v) => v,
            None => missing,
        }),
{
    let month = month_label_of(start_secs);
    let region = match region {
        Some(r) => r,
        None => String::new(),
    };
    let service = match service {
        Some(s) => s,
        None => String::new(),
    };
    let lbm = match lbm {
        Some(v) => v,
        None => missing,
    };
    let mbm = match mbm {
        Some(v) => v,
        None => missing,
    };
    EmissionsResult { month, region, service, lbm, mbm }
}

/// The message refusing a range whose start comes after its end.
pub open spec fn reversed_range_message(from: YearMonth, to: YearMonth) -> Seq<char> {
    "--from ("@ + from.text() + ") must not be after --to ("@ + to.text() + ")"@
}

/// The time window of a query from the month `from` to the month `to`, both included: the
/// first second of `from` and the first second after `to`. Refuses a `from` after `to`.
pub fn query_window(from: YearMonth, to: YearMonth) -> (res: Result<(i64, i64), String>)
    requires
        !month_precedes(to.year as int, to.month as int, from.year as int, from.month as int)
            ==> from.has_start() && to.has_end(),
    ensures
        res is Err <==> month_precedes(
            to.year as int,
            to.month as int,
            from.year as int,
            from.month as int,
        ),
        res matches Err(e) ==> e@ == reversed_range_message(from, to),
        res matches Ok(w) ==> w.0 == month_start_seconds(from.year as int, from.month as int)
            && w.1 == month_start_seconds(to.following().0, to.following().1),
{
    if to.year < from.year || (to.year == from.year && to.month < from.month) {
        let mut msg = String::from_str("--from (");
        msg.append(from.to_string().as_str());
        msg.append(") must not be after --to (");
        msg.append(to.to_string().as_str());
        msg.append(")");
        return Err(msg);
    }
    Ok((from.start_timestamp(), to.end_timestamp()))
}


/// The next step while reading the pages of a query's results.
pub enum PageStep {
    /// Request a page, with the token that names it (none for the first page).
    Request(Option<String>),
    /// Every page has been read.
    Finished,
}

impl PageStep {
    /// The first page is requested without a token.
    pub fn first() -> (step: Self)
        ensures
            step matches PageStep::Request(t) && t is None,
    {
        PageStep::Request(None)
    }

    /// After a page: request the page that the response names, or finish when it names none.
    pub fn after_page(next_token: Option<String>) -> (step: Self)
        ensures
            match next_token {
                Some(t) => step matches PageStep::Request(r) && r == Some(t),
                None => step is Finished,
            },
    {
        match next_token {
            Some(t) => PageStep::Request(Some(t)),
            None => PageStep::Finished,
        }
    }
}

/// The report's title for a live query of `profile` from `from` to `to`: the profile and the
/// year when the range is one whole year, else the profile and both months.
pub open spec fn query_title_text(profile: Seq<char>, from: YearMonth, to: YearMonth) -> Seq<char> {
    if from.year == to.year && from.month == 1 && to.month == 12 {
        profile + " \u{2014} "@ + signed_decimal(from.year as int)
    } else {
        profile + " \u{2014} "@ + from.text() + "\u{2013}"@ + to.text()
    }
}

/// The report's title for a live query of `profile` from `from` to `to`.
pub fn query_title(profile: &str, from: YearMonth, to: YearMonth) -> (title: String)
    ensures
        title@ == query_title_text(profile@, from, to),
{
    let mut title = String::from_str(profile);
    title.append(" \u{2014} ");
    if from.year == to.year && from.month == 1 && to.month == 12 {
        push_signed_decimal(&mut title, from.year as i64);
    } else {
        title.append(from.to_string().as_str());
        title.append("\u{2013}");
        title.append(to.to_string().as_str());
    }
    title
}

/// A query window that is not refused is not empty: the month `to` ends after the month
/// `from` begins.
pub proof fn lemma_query_window_nonempty(from: YearMonth, to: YearMonth)
    requires
        from.is_valid(),
        to.is_valid(),
        !month_precedes(to.year as int, to.month as int, from.year as int, from.month as int),
    ensures
        month_start_seconds(from.year as int, from.month as int) < month_start_seconds(
            to.following().0,
            to.following().1,
        ),
{
    lemma_month_start_order(from.year as int, from.month as int, to.year as int, to.month as int);
    crate::calendar::lemma_month_length(to.year as int, to.month as int);
}

/// For a four-digit year, the label an API result gets for a period starting at the first
/// second of a month is that month's `YYYY-MM` text, as a parsed `--from` or `--to` shows.
pub proof fn lemma_api_label_is_month_text(ym: YearMonth)
    requires
        1000 <= ym.year <= 9999,
        ym.is_valid(),
        month_start_seconds(ym.year as int, ym.month as int) <= i64::MAX,
    ensures
        api_month_text(Some(month_start_seconds(ym.year as int, ym.month as int) as i64))
            == ym.text(),
{
    let y = ym.year as int;
    let m = ym.month as int;
    let secs = month_start_seconds(y, m);
    crate::calendar::lemma_month_length(y, m);
    assert(second_in_month(secs, y, m));
    lemma_month_start_order(MIN_YEAR as int, 1, y, m);
    lemma_month_start_order(next_month(y, m).0, next_month(y, m).1, MAX_YEAR + 1, 1);
    if next_month(y, m) != (MAX_YEAR + 1, 1int) {
        assert(month_precedes(next_month(y, m).0, next_month(y, m).1, MAX_YEAR + 1, 1));
    }
    assert(in_date_range(secs));
    let witness = (y, m);
    assert(second_in_month(secs, witness.0, witness.1));
    let found = utc_month_of(secs);
    assert(second_in_month(secs, found.0, found.1));
    lemma_month_of_second_unique(secs, y, m, found.0, found.1);
    crate::text::lemma_four_digits(y as nat);
    assert(zero_padded(y as nat, 4) == crate::text::decimal_digits(y as nat));
    assert(signed_decimal(y) == crate::text::decimal_digits(y as nat));
}

/// The live-query title names a single year only for a whole calendar year: a range whose
/// months lie in different years is titled by both months, and so is any range within one
/// year that does not run from January to December.
pub proof fn lemma_query_title_names_both_months(profile: Seq<char>, from: YearMonth, to: YearMonth)
    ensures
        from.year != to.year ==> query_title_text(profile, from, to) == profile + " \u{2014} "@
            + from.text() + "\u{2013}"@ + to.text(),
        from.month != 1 || to.month != 12 ==> query_title_text(profile, from, to) == profile
            + " \u{2014} "@ + from.text() + "\u{2013}"@ + to.text(),
        from.year == to.year && from.month == 1 && to.month == 12 ==> query_title_text(
            profile,
            from,
            to,
        ) == profile + " \u{2014} "@ + signed_decimal(from.year as int),
{
}
}
