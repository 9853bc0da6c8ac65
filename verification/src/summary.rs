//! Summaries of emissions records: grouping by key, ranking, cell text and the report title.

use vstd::prelude::*;
use crate::aws::EmissionsResult;
use crate::text::{lemma_bytes_lt_transitive, str_equal, str_less, str_lt};
use vstd::utf8::{decode_utf8, encode_utf8, encode_utf8_decode_utf8, is_char_boundary};

verus! {

/// The month texts of `results`, in order.
pub open spec fn month_texts<V>(results: Seq<EmissionsResult<V>>) -> Seq<Seq<char>> {
    results.map_values(|r: EmissionsResult<V>| r.month@)
}

/// The first of `texts` in Rust's string order (the earliest of equal ones is kept).
pub open spec fn earliest(texts: Seq<Seq<char>>) -> Seq<char>
    decreases texts.len(),
{
    if texts.len() <= 1 {
        texts[0]
    } else {
        let m = earliest(texts.drop_last());
        if str_lt(texts.last(), m) { texts.last() } else { m }
    }
}

/// The last of `texts` in Rust's string order (the earliest of equal ones is kept).
pub open spec fn latest(texts: Seq<Seq<char>>) -> Seq<char>
    decreases texts.len(),
{
    if texts.len() <= 1 {
        texts[0]
    } else {
        let m = latest(texts.drop_last());
        if str_lt(m, texts.last()) { texts.last() } else { m }
    }
}

/// The text of the first four bytes of `month`.
pub open spec fn year_part(month: Seq<char>) -> Seq<char> {
    decode_utf8(encode_utf8(month).subrange(0, 4))
}

/// Both `first` and `last` begin with four bytes that end on a character boundary, so that
/// a year can be cut from each.
pub open spec fn has_year_parts(first: Seq<char>, last: Seq<char>) -> bool {
    &&& encode_utf8(first).len() >= 4
    &&& encode_utf8(last).len() >= 4
    &&& is_char_boundary(encode_utf8(first), 4)
    &&& is_char_boundary(encode_utf8(last), 4)
}

/// The title for a range from `first` to `last`: one year when both start with the same
/// four bytes, `first–last` years when they differ, `fallback` when a year cannot be cut
/// from either (shorter than four bytes, or the fourth byte inside a character).
pub open spec fn range_title(first: Seq<char>, last: Seq<char>, fallback: Seq<char>) -> Seq<char> {
    if has_year_parts(first, last) {
        if year_part(first) == year_part(last) {
            year_part(first)
        } else {
            year_part(first) + seq!['\u{2013}'] + year_part(last)
        }
    } else {
        fallback
    }
}

/// The title for the months `texts`: `fallback` when there are none, else the range title
/// of the earliest and the latest month.
pub open spec fn title_for(texts: Seq<Seq<char>>, fallback: Seq<char>) -> Seq<char> {
    if texts.len() == 0 {
        fallback
    } else {
        range_title(earliest(texts), latest(texts), fallback)
    }
}

/// The first four bytes of `s`, as a string.
fn first_four_bytes(s: &str) -> (part: String)
    requires
        encode_utf8(s@).len() >= 4,
        is_char_boundary(encode_utf8(s@), 4),
    ensures
        part@ == year_part(s@),
{
    let (head, _tail) = s.split_at(4);
    proof {
        encode_utf8_decode_utf8(head@);
    }
    String::from_str(head)
}

/// Derives a title from the year range covered by `results`, falling back to
/// `fallback` when the range cannot be determined.
pub fn year_range_title<V>(results: &[EmissionsResult<V>], fallback: &str) -> (title: String)
    ensures
        title@ == title_for(month_texts(results@), fallback@),
{
    let ghost texts = month_texts(results@);
    let n = results.len();
    if n == 0 {
        return String::from_str(fallback);
    }
    let mut lo: usize = 0;
    let mut hi: usize = 0;
    let mut i: usize = 1;
    assert(texts.take(1).len() == 1);
    while i < n
        invariant
            1 <= i <= n,
            n == results@.len(),
            texts == month_texts(results@),
            lo < i,
            hi < i,
            texts[lo as int] == earliest(texts.take(i as int)),
            texts[hi as int] == latest(texts.take(i as int)),
        decreases n - i,
    {
        assert(texts.take(i + 1).drop_last() =~= texts.take(i as int));
        assert(texts.take(i + 1).last() == texts[i as int]);
        if str_less(results[i].month.as_str(), results[lo].month.as_str()) {
            lo = i;
        }
        if str_less(results[hi].month.as_str(), results[i].month.as_str()) {
            hi = i;
        }
        i = i + 1;
    }
    assert(texts.take(n as int) =~= texts);
    let first = results[lo].month.as_str();
    let last = results[hi].month.as_str();
    assert(first@ == earliest(texts));
    assert(last@ == latest(texts));
    if first.as_bytes().len() >= 4 && last.as_bytes().len() >= 4 && first.is_char_boundary(4)
        && last.is_char_boundary(4) {
        let first_year = first_four_bytes(first);
        let last_year = first_four_bytes(last);
        if str_equal(first_year.as_str(), last_year.as_str()) {
            assert(first_year@ =~= title_for(texts, fallback@));
            first_year
        } else {
            let mut title = first_year;
            title.append("\u{2013}");
            proof {
                reveal_strlit("\u{2013}");
            }
            title.append(last_year.as_str());
            assert(title@ =~= title_for(texts, fallback@));
            title
        }
    } else {
        assert(fallback@ =~= title_for(texts, fallback@));
        String::from_str(fallback)
    }
}


/// The title's first month is the least of the months and its last month the greatest, in
/// Rust's string order, as after sorting them: both are among the months, no month comes
/// before the first, and none comes after the last.
pub proof fn lemma_title_months_are_extremes(texts: Seq<Seq<char>>)
    requires
        texts.len() > 0,
    ensures
        texts.contains(earliest(texts)),
        texts.contains(latest(texts)),
        forall|i: int| 0 <= i < texts.len() ==> !str_lt(#[trigger] texts[i], earliest(texts)),
        forall|i: int| 0 <= i < texts.len() ==> !str_lt(latest(texts), #[trigger] texts[i]),
    decreases texts.len(),
{
    if texts.len() == 1 {
        assert(texts[0] == earliest(texts));
        assert(texts[0] == latest(texts));
        assert forall|i: int| 0 <= i < texts.len() implies !str_lt(#[trigger] texts[i], earliest(texts)) by {
            crate::text::lemma_bytes_lt_irreflexive(encode_utf8(texts[0]));
        }
        assert forall|i: int| 0 <= i < texts.len() implies !str_lt(latest(texts), #[trigger] texts[i]) by {
            crate::text::lemma_bytes_lt_irreflexive(encode_utf8(texts[0]));
        }
    } else {
        let init = texts.drop_last();
        let last = texts.last();
        lemma_title_months_are_extremes(init);
        let lo = earliest(init);
        let hi = latest(init);
        assert(texts.contains(earliest(texts))) by {
            if str_lt(last, lo) {
                assert(texts[texts.len() - 1] == last);
            } else {
                let j = choose|j: int| 0 <= j < init.len() && init[j] == lo;
                assert(texts[j] == lo);
            }
        }
        assert(texts.contains(latest(texts))) by {
            if str_lt(hi, last) {
                assert(texts[texts.len() - 1] == last);
            } else {
                let j = choose|j: int| 0 <= j < init.len() && init[j] == hi;
                assert(texts[j] == hi);
            }
        }
        assert forall|i: int| 0 <= i < texts.len() implies !str_lt(#[trigger] texts[i], earliest(texts)) by {
            let e = encode_utf8(texts[i]);
            if i < texts.len() - 1 {
                assert(texts[i] == init[i]);
                if str_lt(last, lo) && str_lt(texts[i], last) {
                    lemma_bytes_lt_transitive(e, encode_utf8(last), encode_utf8(lo));
                }
            } else {
                if str_lt(last, lo) {
                    crate::text::lemma_bytes_lt_irreflexive(e);
                }
            }
        }
        assert forall|i: int| 0 <= i < texts.len() implies !str_lt(latest(texts), #[trigger] texts[i]) by {
            let e = encode_utf8(texts[i]);
            if i < texts.len() - 1 {
                assert(texts[i] == init[i]);
                if str_lt(hi, last) && str_lt(last, texts[i]) {
                    lemma_bytes_lt_transitive(encode_utf8(hi), encode_utf8(last), e);
                }
            } else {
                if str_lt(hi, last) {
                    crate::text::lemma_bytes_lt_irreflexive(e);
                }
            }
        }
    }
}


/// The first of `candidates` that is at most `width` bytes long; empty when none is.
pub open spec fn first_fitting(candidates: Seq<Seq<char>>, width: int) -> Seq<char>
    decreases candidates.len(),
{
    if candidates.len() == 0 {
        seq![]
    } else if encode_utf8(candidates[0]).len() <= width {
        candidates[0]
    } else {
        first_fitting(candidates.drop_first(), width)
    }
}

/// The first of `candidates` that fits in `width` bytes, or an empty string when none does
/// (the choice of a heatmap cell's text among its renderings, most precise first).
pub fn fit_to_width(candidates: &Vec<String>, width: usize) -> (text: String)
    ensures
        text@ == first_fitting(candidates@.map_values(|s: String| s@), width as int),
{
    let ghost views = candidates@.map_values(|s: String| s@);
    let mut i: usize = 0;
    assert(views.skip(0) =~= views);
    while i < candidates.len()
        invariant
            0 <= i <= candidates@.len(),
            views == candidates@.map_values(|s: String| s@),
            first_fitting(views, width as int) == first_fitting(views.skip(i as int), width as int),
        decreases candidates@.len() - i,
    {
        assert(views.skip(i as int)[0] == candidates@[i as int]@);
        assert(views.skip(i as int).drop_first() =~= views.skip(i + 1));
        if candidates[i].as_str().as_bytes().len() <= width {
            return candidates[i].clone();
        }
        i = i + 1;
    }
    String::new()
}

/// The title of nonempty months is the range title of their least and their greatest month
/// in Rust's string order, whichever records they come from: any month that no month comes
/// before, and any month that no month comes after, give the title.
pub proof fn lemma_title_spans_least_to_greatest(texts: Seq<Seq<char>>, fallback: Seq<char>, i: int, j: int)
    requires
        0 <= i < texts.len(),
        0 <= j < texts.len(),
        forall|k: int| 0 <= k < texts.len() ==> !str_lt(#[trigger] texts[k], texts[i]),
        forall|k: int| 0 <= k < texts.len() ==> !str_lt(texts[j], #[trigger] texts[k]),
    ensures
        title_for(texts, fallback) == range_title(texts[i], texts[j], fallback),
{
    lemma_title_months_are_extremes(texts);
    let lo = earliest(texts);
    let hi = latest(texts);
    let a = choose|a: int| 0 <= a < texts.len() && texts[a] == lo;
    let b = choose|b: int| 0 <= b < texts.len() && texts[b] == hi;
    assert(!str_lt(texts[a], texts[i]));
    assert(!str_lt(texts[i], lo));
    crate::text::lemma_bytes_lt_total(encode_utf8(lo), encode_utf8(texts[i]));
    crate::text::lemma_encode_utf8_injective(lo, texts[i]);
    assert(!str_lt(texts[j], texts[b]));
    assert(!str_lt(hi, texts[j]));
    crate::text::lemma_bytes_lt_total(encode_utf8(hi), encode_utf8(texts[j]));
    crate::text::lemma_encode_utf8_injective(hi, texts[j]);
}

/// The UTF-8 bytes of two strings joined are the bytes of the first, then of the second.
proof fn lemma_encode_utf8_concat(a: Seq<char>, b: Seq<char>)
    ensures
        encode_utf8(a + b) == encode_utf8(a) + encode_utf8(b),
    decreases a.len(),
{
    if a.len() == 0 {
        assert(a + b =~= b);
        assert(encode_utf8(a) + encode_utf8(b) =~= encode_utf8(b));
    } else {
        assert((a + b).drop_first() =~= a.drop_first() + b);
        assert((a + b)[0] == a[0]);
        lemma_encode_utf8_concat(a.drop_first(), b);
        assert(encode_utf8(a + b) =~= encode_utf8(a) + encode_utf8(b));
    }
}

/// The UTF-8 bytes of a month's year part are the month's first four bytes, when a year can
/// be cut there.
proof fn lemma_year_part_bytes(month: Seq<char>)
    requires
        encode_utf8(month).len() >= 4,
        is_char_boundary(encode_utf8(month), 4),
    ensures
        encode_utf8(year_part(month)) == encode_utf8(month).subrange(0, 4),
{
    let b = encode_utf8(month);
    vstd::utf8::encode_utf8_valid_utf8(month);
    vstd::utf8::valid_utf8_split(b, 4);
    vstd::utf8::decode_utf8_encode_utf8(b.subrange(0, 4));
}

/// What a range title is, byte for byte: when a year can be cut from both months, the first
/// month's first four bytes alone if the last month starts with the same four, else those
/// four, an en dash, and the last month's first four; the fallback when no year can be cut.
pub proof fn lemma_range_title_bytes(first: Seq<char>, last: Seq<char>, fallback: Seq<char>)
    ensures
        !has_year_parts(first, last) ==> range_title(first, last, fallback) == fallback,
        has_year_parts(first, last) && encode_utf8(first).subrange(0, 4) == encode_utf8(
            last,
        ).subrange(0, 4) ==> encode_utf8(range_title(first, last, fallback)) == encode_utf8(
            first,
        ).subrange(0, 4),
        has_year_parts(first, last) && encode_utf8(first).subrange(0, 4) != encode_utf8(
            last,
        ).subrange(0, 4) ==> encode_utf8(range_title(first, last, fallback)) == encode_utf8(
            first,
        ).subrange(0, 4) + encode_utf8(seq!['\u{2013}']) + encode_utf8(last).subrange(0, 4),
{
    if has_year_parts(first, last) {
        lemma_year_part_bytes(first);
        lemma_year_part_bytes(last);
        let y1 = year_part(first);
        let y2 = year_part(last);
        if y1 != y2 {
            lemma_encode_utf8_concat(y1, seq!['\u{2013}']);
            lemma_encode_utf8_concat(y1 + seq!['\u{2013}'], y2);
        }
    }
}
}
