//! Decimal rendering of integers, and byte-level facts about strings.

use vstd::prelude::*;
use vstd::utf8::encode_utf8;

verus! {

/// The ASCII character of decimal digit `d` (0 to 9).
pub open spec fn digit_char(d: int) -> char {
    (48 + d) as char
}

/// The decimal digits of `n`, most significant first, with no leading zeros.
pub open spec fn decimal_digits(n: nat) -> Seq<char>
    decreases n,
{
    if n < 10 {
        seq![digit_char(n as int)]
    } else {
        decimal_digits(n / 10).push(digit_char((n % 10) as int))
    }
}

/// `n` as Rust's `{}` renders an integer: a `-` before the digits of a negative number.
pub open spec fn signed_decimal(n: int) -> Seq<char> {
    if n < 0 {
        seq!['-'] + decimal_digits((-n) as nat)
    } else {
        decimal_digits(n as nat)
    }
}

/// The digits of `n`, with zeros in front up to `width` characters (as `{:0width$}`).
pub open spec fn zero_padded(n: nat, width: nat) -> Seq<char> {
    let d = decimal_digits(n);
    if d.len() >= width {
        d
    } else {
        Seq::new((width - d.len()) as nat, |i: int| '0') + d
    }
}

/// The digit string of `d` (0 to 9).
fn digit_str(d: u64) -> (s: &'static str)
    requires
        d < 10,
    ensures
        s@ == seq![digit_char(d as int)],
{
    let s = match d {
        0 => "0",
        1 => "1",
        2 => "2",
        3 => "3",
        4 => "4",
        5 => "5",
        6 => "6",
        7 => "7",
        8 => "8",
        _ => "9",
    };
    proof {
        reveal_strlit("0");
        reveal_strlit("1");
        reveal_strlit("2");
        reveal_strlit("3");
        reveal_strlit("4");
        reveal_strlit("5");
        reveal_strlit("6");
        reveal_strlit("7");
        reveal_strlit("8");
        reveal_strlit("9");
    }
    assert(s@ =~= seq![digit_char(d as int)]);
    s
}

/// Appends the decimal digits of `n` to `out`.
pub fn push_decimal(out: &mut String, n: u64)
    ensures
        final(out)@ == old(out)@ + decimal_digits(n as nat),
    decreases n,
{
    if n >= 10 {
        push_decimal(out, n / 10);
    }
    out.append(digit_str(n % 10));
    assert(out@ =~= old(out)@ + decimal_digits(n as nat));
}

/// Ten to the power `k`.
pub open spec fn pow10(k: nat) -> nat
    decreases k,
{
    if k == 0 {
        1
    } else {
        10 * pow10((k - 1) as nat)
    }
}

/// A number below ten to the `k` has at most `k` digits.
pub proof fn lemma_decimal_len_bound(n: nat, k: nat)
    requires
        k >= 1,
        n < pow10(k),
    ensures
        decimal_digits(n).len() <= k,
    decreases k,
{
    if n >= 10 {
        if k == 1 {
            assert(pow10(1) == 10) by {
                reveal_with_fuel(pow10, 2);
            }
        } else {
            let p = pow10((k - 1) as nat);
            assert(n / 10 < p) by (nonlinear_arith)
                requires
                    n < 10 * p,
            ;
            lemma_decimal_len_bound(n / 10, (k - 1) as nat);
        }
    }
}

/// The number of decimal digits of `n`.
pub fn decimal_len(n: u64) -> (len: usize)
    ensures
        len == decimal_digits(n as nat).len(),
        1 <= len <= 20,
    decreases n,
{
    proof {
        reveal_with_fuel(pow10, 21);
        lemma_decimal_len_bound(n as nat, 20);
    }
    if n >= 10 {
        decimal_len(n / 10) + 1
    } else {
        1
    }
}

/// Appends `n` rendered as Rust's `{}` renders a signed integer.
pub fn push_signed_decimal(out: &mut String, n: i64)
    ensures
        final(out)@ == old(out)@ + signed_decimal(n as int),
{
    if n < 0 {
        out.append("-");
        proof {
            reveal_strlit("-");
        }
        let magnitude: u64 = if n == i64::MIN {
            9223372036854775808u64
        } else {
            (-n) as u64
        };
        push_decimal(out, magnitude);
        assert(out@ =~= old(out)@ + signed_decimal(n as int));
    } else {
        push_decimal(out, n as u64);
    }
}

/// Appends the digits of `n`, zero-padded on the left to `width` characters.
pub fn push_zero_padded(out: &mut String, n: u64, width: usize)
    ensures
        final(out)@ == old(out)@ + zero_padded(n as nat, width as nat),
{
    let len = decimal_len(n);
    let ghost start = out@;
    if len < width {
        let mut i: usize = len;
        while i < width
            invariant
                len <= i <= width,
                out@ == start + Seq::new((i - len) as nat, |k: int| '0'),
            decreases width - i,
        {
            out.append("0");
            proof {
                reveal_strlit("0");
            }
            assert(out@ =~= start + Seq::new((i + 1 - len) as nat, |k: int| '0'));
            i = i + 1;
        }
    }
    push_decimal(out, n);
    assert(out@ =~= old(out)@ + zero_padded(n as nat, width as nat));
}

}

verus! {

/// An ASCII decimal digit byte.
pub open spec fn is_digit_byte(c: u8) -> bool {
    48 <= c <= 57
}

/// Every byte of `b` is an ASCII decimal digit.
pub open spec fn all_digit_bytes(b: Seq<u8>) -> bool {
    forall|i: int| 0 <= i < b.len() ==> is_digit_byte(#[trigger] b[i])
}

/// The number that the decimal digit bytes `b` spell.
pub open spec fn digits_value(b: Seq<u8>) -> int
    decreases b.len(),
{
    if b.len() == 0 {
        0
    } else {
        digits_value(b.drop_last()) * 10 + (b.last() - 48)
    }
}

/// Digits spell a number below ten to the number of digits.
pub proof fn lemma_digits_value_bound(b: Seq<u8>)
    requires
        all_digit_bytes(b),
    ensures
        0 <= digits_value(b) < pow10(b.len()),
    decreases b.len(),
{
    if b.len() > 0 {
        let c = b.drop_last();
        assert(all_digit_bytes(c)) by {
            assert forall|i: int| 0 <= i < c.len() implies is_digit_byte(#[trigger] c[i]) by {
                assert(c[i] == b[i]);
            }
        }
        lemma_digits_value_bound(c);
        assert(is_digit_byte(b[b.len() - 1]));
        let v = digits_value(c);
        let p = pow10(c.len());
        assert(v * 10 + 9 < 10 * p) by (nonlinear_arith)
            requires
                0 <= v < p,
        ;
        assert(0 <= v * 10) by (nonlinear_arith)
            requires
                0 <= v,
        ;
    }
}

/// Reads the digit bytes `b[start..end]` as a number; `None` when one of them is not an
/// ASCII digit.
pub fn read_digits(b: &[u8], start: usize, end: usize) -> (res: Option<i64>)
    requires
        start <= end <= b@.len(),
        end - start <= 18,
    ensures
        match res {
            Some(v) => all_digit_bytes(b@.subrange(start as int, end as int)) && v == digits_value(
                b@.subrange(start as int, end as int),
            ) && 0 <= v < pow10((end - start) as nat),
            None => !all_digit_bytes(b@.subrange(start as int, end as int)),
        },
{
    let mut value: i64 = 0;
    let mut i = start;
    while i < end
        invariant
            start <= i <= end <= b@.len(),
            end - start <= 18,
            all_digit_bytes(b@.subrange(start as int, i as int)),
            value == digits_value(b@.subrange(start as int, i as int)),
        decreases end - i,
    {
        let c = b[i];
        if c < 48 || c > 57 {
            assert(b@.subrange(start as int, end as int)[i - start] == c);
            return None;
        }
        proof {
            let s0 = b@.subrange(start as int, i as int);
            let s1 = b@.subrange(start as int, i + 1);
            assert(s1.drop_last() =~= s0);
            lemma_digits_value_bound(s0);
            reveal_with_fuel(pow10, 19);
            lemma_pow10_monotone(s0.len(), 17);
            assert(all_digit_bytes(s1)) by {
                assert forall|k: int| 0 <= k < s1.len() implies is_digit_byte(#[trigger] s1[k]) by {
                    if k < s0.len() {
                        assert(s1[k] == s0[k]);
                    }
                }
            }
        }
        value = value * 10 + (c - 48) as i64;
        i = i + 1;
    }
    proof {
        lemma_digits_value_bound(b@.subrange(start as int, end as int));
    }
    Some(value)
}

/// Ten to a power grows with the power.
pub proof fn lemma_pow10_monotone(a: nat, b: nat)
    requires
        a <= b,
    ensures
        pow10(a) <= pow10(b),
    decreases b,
{
    if a < b {
        lemma_pow10_monotone(a, (b - 1) as nat);
        assert(pow10(b) == 10 * pow10((b - 1) as nat));
    }
}

}

verus! {

/// Lexicographic order of byte strings, the order of Rust's `Ord` on `str` and `String`.
pub open spec fn bytes_lt(a: Seq<u8>, b: Seq<u8>) -> bool
    decreases a.len(),
{
    if a.len() == 0 {
        b.len() > 0
    } else if b.len() == 0 {
        false
    } else if a[0] != b[0] {
        a[0] < b[0]
    } else {
        bytes_lt(a.drop_first(), b.drop_first())
    }
}

/// Rust's order on strings: the lexicographic order of their UTF-8 bytes.
pub open spec fn str_lt(a: Seq<char>, b: Seq<char>) -> bool {
    bytes_lt(vstd::utf8::encode_utf8(a), vstd::utf8::encode_utf8(b))
}

/// No byte string comes before itself.
pub proof fn lemma_bytes_lt_irreflexive(a: Seq<u8>)
    ensures
        !bytes_lt(a, a),
    decreases a.len(),
{
    if a.len() > 0 {
        lemma_bytes_lt_irreflexive(a.drop_first());
    }
}

/// The byte order is transitive.
pub proof fn lemma_bytes_lt_transitive(a: Seq<u8>, b: Seq<u8>, c: Seq<u8>)
    requires
        bytes_lt(a, b),
        bytes_lt(b, c),
    ensures
        bytes_lt(a, c),
    decreases a.len(),
{
    if a.len() > 0 && b.len() > 0 && c.len() > 0 && a[0] == b[0] && b[0] == c[0] {
        lemma_bytes_lt_transitive(a.drop_first(), b.drop_first(), c.drop_first());
    }
}

/// Two different byte strings are ordered one way or the other, and never both ways.
pub proof fn lemma_bytes_lt_total(a: Seq<u8>, b: Seq<u8>)
    ensures
        a != b ==> bytes_lt(a, b) || bytes_lt(b, a),
        !(bytes_lt(a, b) && bytes_lt(b, a)),
    decreases a.len(),
{
    if a.len() > 0 && b.len() > 0 && a[0] == b[0] {
        lemma_bytes_lt_total(a.drop_first(), b.drop_first());
        if a != b {
            assert(a.drop_first() != b.drop_first()) by {
                if a.drop_first() == b.drop_first() {
                    assert(a =~= seq![a[0]] + a.drop_first());
                    assert(b =~= seq![b[0]] + b.drop_first());
                }
            }
        }
    } else if a.len() == 0 && b.len() == 0 {
        assert(a =~= b);
    }
}

/// Different strings have different UTF-8 bytes.
pub proof fn lemma_encode_utf8_injective(a: Seq<char>, b: Seq<char>)
    requires
        vstd::utf8::encode_utf8(a) == vstd::utf8::encode_utf8(b),
    ensures
        a == b,
{
    vstd::utf8::encode_utf8_decode_utf8(a);
    vstd::utf8::encode_utf8_decode_utf8(b);
}

/// Whether `a` comes before `b` in Rust's order on strings.
pub fn str_less(a: &str, b: &str) -> (lt: bool)
    ensures
        lt == str_lt(a@, b@),
{
    let x = a.as_bytes();
    let y = b.as_bytes();
    let mut i: usize = 0;
    assert(x@ == vstd::utf8::encode_utf8(a@));
    assert(y@ == vstd::utf8::encode_utf8(b@));
    assert(x@.subrange(0, x@.len() as int) =~= x@);
    assert(y@.subrange(0, y@.len() as int) =~= y@);
    while i < x.len() && i < y.len()
        invariant
            0 <= i <= x@.len(),
            i <= y@.len(),
            x@ == vstd::utf8::encode_utf8(a@),
            y@ == vstd::utf8::encode_utf8(b@),
            x@.subrange(0, i as int) == y@.subrange(0, i as int),
            bytes_lt(x@, y@) == bytes_lt(x@.subrange(i as int, x@.len() as int), y@.subrange(i as int, y@.len() as int)),
        decreases x@.len() - i,
    {
        let ghost xs = x@.subrange(i as int, x@.len() as int);
        let ghost ys = y@.subrange(i as int, y@.len() as int);
        if x[i] != y[i] {
            assert(xs[0] == x@[i as int] && ys[0] == y@[i as int]);
            return x[i] < y[i];
        }
        assert(xs.drop_first() =~= x@.subrange(i + 1, x@.len() as int));
        assert(ys.drop_first() =~= y@.subrange(i + 1, y@.len() as int));
        assert(x@.subrange(0, i + 1) =~= x@.subrange(0, i as int).push(x@[i as int]));
        assert(y@.subrange(0, i + 1) =~= y@.subrange(0, i as int).push(y@[i as int]));
        i = i + 1;
    }
    i < y.len()
}

/// Whether `a` and `b` hold the same text.
pub fn str_equal(a: &str, b: &str) -> (eq: bool)
    ensures
        eq == (a@ == b@),
{
    let x = a.as_bytes();
    let y = b.as_bytes();
    assert(x@ == vstd::utf8::encode_utf8(a@));
    assert(y@ == vstd::utf8::encode_utf8(b@));
    proof {
        if a@ == b@ {
        } else {
            if x@ == y@ {
                lemma_encode_utf8_injective(a@, b@);
            }
        }
    }
    if x.len() != y.len() {
        return false;
    }
    let mut i: usize = 0;
    while i < x.len()
        invariant
            0 <= i <= x@.len(),
            x@.len() == y@.len(),
            x@ == vstd::utf8::encode_utf8(a@),
            y@ == vstd::utf8::encode_utf8(b@),
            x@.subrange(0, i as int) == y@.subrange(0, i as int),
        decreases x@.len() - i,
    {
        if x[i] != y[i] {
            assert(x@[i as int] != y@[i as int]);
            return false;
        }
        assert(x@.subrange(0, i + 1) =~= x@.subrange(0, i as int).push(x@[i as int]));
        assert(y@.subrange(0, i + 1) =~= y@.subrange(0, i as int).push(y@[i as int]));
        i = i + 1;
    }
    assert(x@ =~= x@.subrange(0, i as int));
    assert(y@ =~= y@.subrange(0, i as int));
    true
}

}

verus! {

/// The bytes of the ASCII characters `s`, one per character.
pub open spec fn ascii_bytes(s: Seq<char>) -> Seq<u8> {
    s.map_values(|c: char| c as u8)
}

/// Every character of `s` is a decimal digit or `-`.
pub open spec fn digits_or_dash(s: Seq<char>) -> bool {
    forall|i: int| 0 <= i < s.len() ==> ('0' <= #[trigger] s[i] <= '9' || s[i] == '-')
}

/// The UTF-8 bytes of ASCII text are its characters, one byte each.
pub proof fn lemma_ascii_encoding(s: Seq<char>)
    requires
        digits_or_dash(s),
    ensures
        encode_utf8(s) == ascii_bytes(s),
{
    assert(vstd::utf8::is_ascii_chars(s));
    vstd::utf8::is_ascii_chars_encode_utf8(s);
    assert(encode_utf8(s) =~= ascii_bytes(s));
}

/// The decimal digits of `n` are digit characters, and read back as `n`.
pub proof fn lemma_decimal_digits_read_back(n: nat)
    ensures
        digits_or_dash(decimal_digits(n)),
        all_digit_bytes(ascii_bytes(decimal_digits(n))),
        digits_value(ascii_bytes(decimal_digits(n))) == n,
        decimal_digits(n).len() >= 1,
    decreases n,
{
    let d = decimal_digits(n);
    if n < 10 {
        assert(ascii_bytes(d) =~= seq![(48 + n) as u8]);
        assert(ascii_bytes(d).drop_last() =~= Seq::<u8>::empty());
        assert(digits_value(Seq::<u8>::empty()) == 0);
    } else {
        lemma_decimal_digits_read_back(n / 10);
        let e = decimal_digits(n / 10);
        assert(ascii_bytes(d) =~= ascii_bytes(e).push((48 + n % 10) as u8));
        assert(ascii_bytes(d).drop_last() =~= ascii_bytes(e));
        assert((n / 10) * 10 + n % 10 == n) by (nonlinear_arith);
        assert(digits_or_dash(d)) by {
            assert forall|i: int| 0 <= i < d.len() implies ('0' <= #[trigger] d[i] <= '9' || d[i] == '-') by {
                if i < e.len() {
                    assert(d[i] == e[i]);
                }
            }
        }
        assert(all_digit_bytes(ascii_bytes(d))) by {
            assert forall|i: int| 0 <= i < ascii_bytes(d).len() implies is_digit_byte(#[trigger] ascii_bytes(d)[i]) by {
                if i < e.len() {
                    assert(ascii_bytes(d)[i] == ascii_bytes(e)[i]);
                }
            }
        }
    }
}

/// The number of digits grows with the number: from 1000 to 9999 there are four.
pub proof fn lemma_four_digits(n: nat)
    requires
        1000 <= n <= 9999,
    ensures
        decimal_digits(n).len() == 4,
{
    assert(decimal_digits(n / 1000).len() == 1);
    assert(decimal_digits(n / 100).len() == 2) by {
        assert((n / 100) / 10 == n / 1000);
    }
    assert(decimal_digits(n / 10).len() == 3) by {
        assert((n / 10) / 10 == n / 100);
    }
}

}
