//! Exact decimal rendering of the integers the logger displays and exports.

use vstd::prelude::*;
use crate::export::is_digit;

verus! {

/// The text of one decimal digit.
pub open spec fn digit_text(d: int) -> Seq<char> {
    if d == 0 {
        "0"@
    } else if d == 1 {
        "1"@
    } else if d == 2 {
        "2"@
    } else if d == 3 {
        "3"@
    } else if d == 4 {
        "4"@
    } else if d == 5 {
        "5"@
    } else if d == 6 {
        "6"@
    } else if d == 7 {
        "7"@
    } else if d == 8 {
        "8"@
    } else {
        "9"@
    }
}

/// The shortest decimal text of a natural number (no sign, no leading zeros).
pub open spec fn decimal_text(n: nat) -> Seq<char>
    decreases n,
{
    if n < 10 {
        digit_text(n as int)
    } else {
        decimal_text(n / 10) + digit_text((n % 10) as int)
    }
}

/// Returns the text of the digit `d`.
pub fn digit_str(d: u64) -> (s: &'static str)
    requires
        d < 10,
    ensures
        s@ == digit_text(d as int),
{
    if d == 0 {
        "0"
    } else if d == 1 {
        "1"
    } else if d == 2 {
        "2"
    } else if d == 3 {
        "3"
    } else if d == 4 {
        "4"
    } else if d == 5 {
        "5"
    } else if d == 6 {
        "6"
    } else if d == 7 {
        "7"
    } else if d == 8 {
        "8"
    } else {
        "9"
    }
}

/// Appends the decimal text of `n` to `out`.
pub fn push_decimal(out: &mut String, n: u64)
    ensures
        final(out)@ == old(out)@ + decimal_text(n as nat),
    decreases n,
{
    if n >= 10 {
        push_decimal(out, n / 10);
    }
    out.append(digit_str(n % 10));
}

/// The text of a temperature held in tenths of a degree, with exactly one
/// decimal place and a leading minus sign when it is below zero.
pub open spec fn tenths_text(t: int) -> Seq<char> {
    let a = if t < 0 { -t } else { t };
    (if t < 0 { "-"@ } else { Seq::empty() }) + decimal_text((a / 10) as nat) + "."@
        + digit_text(a % 10)
}

/// The text of a duration held in milliseconds, written in seconds with
/// exactly three decimal places.
pub open spec fn millis_text(ms: nat) -> Seq<char> {
    decimal_text(ms / 1000) + "."@ + digit_text(((ms / 100) % 10) as int) + digit_text(
        ((ms / 10) % 10) as int,
    ) + digit_text((ms % 10) as int)
}

/// The decimal text of a natural number, padded with a leading zero to at
/// least two digits.
pub open spec fn two_digit_text(n: nat) -> Seq<char> {
    if n < 10 {
        "0"@ + digit_text(n as int)
    } else {
        decimal_text(n)
    }
}

/// Appends the text of a temperature in tenths of a degree (one decimal place).
pub fn push_tenths(out: &mut String, t: i16)
    ensures
        final(out)@ == old(out)@ + tenths_text(t as int),
{
    let a: u64 = if t < 0 {
        out.append("-");
        (-(t as i32)) as u64
    } else {
        t as u64
    };
    push_decimal(out, a / 10);
    out.append(".");
    out.append(digit_str(a % 10));
}

/// Appends a millisecond count written as seconds with three decimal places.
pub fn push_millis(out: &mut String, ms: u64)
    ensures
        final(out)@ == old(out)@ + millis_text(ms as nat),
{
    push_decimal(out, ms / 1000);
    out.append(".");
    out.append(digit_str((ms / 100) % 10));
    out.append(digit_str((ms / 10) % 10));
    out.append(digit_str(ms % 10));
}

/// Appends a number padded with a leading zero to at least two digits.
pub fn push_two_digits(out: &mut String, n: u64)
    ensures
        final(out)@ == old(out)@ + two_digit_text(n as nat),
{
    if n < 10 {
        out.append("0");
        out.append(digit_str(n));
    } else {
        push_decimal(out, n);
    }
}

/// The number written by a string of decimal digits.
pub open spec fn digits_value(s: Seq<char>) -> int
    decreases s.len(),
{
    if s.len() == 0 {
        0
    } else {
        digits_value(s.drop_last()) * 10 + (s.last() as int - '0' as int)
    }
}

/// A non-empty string of decimal digits without a superfluous leading zero.
pub open spec fn plain_digits(s: Seq<char>) -> bool {
    &&& s.len() > 0
    &&& forall|i: int| 0 <= i < s.len() ==> is_digit(#[trigger] s[i])
    &&& (s.len() > 1 ==> s[0] != '0')
}

/// The value written by a number text with a fractional part of exactly
/// `places` digits and an optional leading minus sign, read back: `None`
/// unless the text has that form.
pub open spec fn read_fixed(s: Seq<char>, places: nat) -> Option<int> {
    let neg = s.len() > 0 && s[0] == '-';
    let body = if neg { s.drop_first() } else { s };
    let n = body.len();
    if n >= places + 2 && body[n - places - 1] == '.' && plain_digits(body.take(n - places - 1))
        && (forall|i: int| n - places <= i < n ==> is_digit(#[trigger] body[i])) {
        let v = digits_value(body.take(n - places - 1)) * pow10(places) + digits_value(
            body.skip(n - places),
        );
        Some(if neg { -v } else { v })
    } else {
        None
    }
}

/// Ten to the power `k`.
pub open spec fn pow10(k: nat) -> int
    decreases k,
{
    if k == 0 {
        1
    } else {
        10 * pow10((k - 1) as nat)
    }
}

/// Each digit text is the single digit of its value.
pub proof fn lemma_digit_text_value(d: int)
    requires
        0 <= d < 10,
    ensures
        digit_text(d).len() == 1,
        is_digit(digit_text(d)[0]),
        digit_text(d)[0] as int - '0' as int == d,
{
    reveal_strlit("0");
    reveal_strlit("1");
    reveal_strlit("2");
    reveal_strlit("3");
    reveal_strlit("4");
    reveal_strlit("5");
    reveal_strlit("6");
    reveal_strlit("7");
    reveal_strlit("8");
    reveal_strlit("9");
}

proof fn lemma_digits_value_append(a: Seq<char>, b: Seq<char>)
    ensures
        digits_value(a + b) == digits_value(a) * pow10(b.len()) + digits_value(b),
    decreases b.len(),
{
    if b.len() == 0 {
        assert(a + b =~= a);
    } else {
        assert((a + b).drop_last() =~= a + b.drop_last());
        lemma_digits_value_append(a, b.drop_last());
        assert(pow10(b.len()) == 10 * pow10((b.len() - 1) as nat));
        assert((a + b).last() == b.last());
        assert(digits_value(a) * pow10(b.len()) == (digits_value(a) * pow10(
            (b.len() - 1) as nat,
        )) * 10) by (nonlinear_arith)
            requires
                pow10(b.len()) == 10 * pow10((b.len() - 1) as nat),
        ;
    }
}

/// The decimal text of a number is a plain string of digits that reads
/// back as the number.
pub proof fn lemma_decimal_text_reads_back(n: nat)
    ensures
        plain_digits(decimal_text(n)),
        digits_value(decimal_text(n)) == n,
    decreases n,
{
    if n < 10 {
        lemma_digit_text_value(n as int);
        let t = decimal_text(n);
        assert(t.drop_last() =~= Seq::<char>::empty());
        assert(digits_value(t.drop_last()) == 0);
    } else {
        lemma_decimal_text_reads_back(n / 10);
        lemma_digit_text_value((n % 10) as int);
        let a = decimal_text(n / 10);
        let d = digit_text((n % 10) as int);
        let t = a + d;
        assert(t.drop_last() =~= a);
        assert(t.last() == d[0]);
        assert(t[0] == a[0]);
        assert forall|i: int| 0 <= i < t.len() implies is_digit(#[trigger] t[i]) by {
            if i < a.len() {
                assert(t[i] == a[i]);
            } else {
                assert(t[i] == d[0]);
            }
        }
        if a.len() == 1 {
            assert(a.drop_last() =~= Seq::<char>::empty());
            assert(digits_value(a.drop_last()) == 0);
            assert(a[0] as int - '0' as int == n / 10);
        }
    }
}

/// A temperature text reads back as the temperature: an optional minus
/// sign, the whole degrees without superfluous leading zeros, a point and
/// exactly one digit of tenths.
pub proof fn lemma_tenths_text_reads_back(t: int)
    requires
        -0x8000 <= t < 0x8000,
    ensures
        read_fixed(tenths_text(t), 1) == Some(t),
{
    let a = if t < 0 { -t } else { t };
    reveal_strlit("-");
    reveal_strlit(".");
    lemma_decimal_text_reads_back((a / 10) as nat);
    lemma_digit_text_value(a % 10);
    let w = decimal_text((a / 10) as nat);
    let f = digit_text(a % 10);
    let body = w + "."@ + f;
    let s = tenths_text(t);
    if t < 0 {
        assert(s =~= "-"@ + body);
        assert(s.drop_first() =~= body);
    } else {
        assert(s =~= body);
        assert(w[0] != '-');
        assert(s[0] == w[0]);
    }
    let n = body.len();
    assert(body.take(n - 2) =~= w);
    assert(body.skip(n - 1) =~= f);
    assert(body[n - 2] == '.');
    assert(pow10(1) == 10) by {
        reveal_with_fuel(pow10, 2);
    }
    assert(digits_value(f) == a % 10) by {
        assert(f.drop_last() =~= Seq::<char>::empty());
        assert(digits_value(f.drop_last()) == 0);
    }
}

proof fn lemma_read_unsigned_fixed(w: Seq<char>, f: Seq<char>, places: nat)
    requires
        plain_digits(w),
        f.len() == places,
        forall|i: int| 0 <= i < f.len() ==> is_digit(#[trigger] f[i]),
    ensures
        read_fixed(w + "."@ + f, places) == Some(digits_value(w) * pow10(places) + digits_value(f)),
{
    reveal_strlit(".");
    let s = w + "."@ + f;
    assert(is_digit(w[0]));
    assert(s[0] == w[0]);
    let n = s.len();
    assert(s.take(n - places - 1) =~= w);
    assert(s.skip(n - places) =~= f);
    assert(s[n - places - 1] == '.');
    assert forall|i: int| n - places <= i < n implies is_digit(#[trigger] s[i]) by {
        assert(s[i] == f[i - (n - places)]);
    }
}

/// A duration text reads back as the milliseconds: the whole seconds
/// without superfluous leading zeros, a point and exactly three digits.
pub proof fn lemma_millis_text_reads_back(ms: nat)
    ensures
        read_fixed(millis_text(ms), 3) == Some(ms as int),
{
    lemma_decimal_text_reads_back(ms / 1000);
    lemma_digit_text_value(((ms / 100) % 10) as int);
    lemma_digit_text_value(((ms / 10) % 10) as int);
    lemma_digit_text_value((ms % 10) as int);
    let w = decimal_text(ms / 1000);
    let d2 = digit_text(((ms / 100) % 10) as int);
    let d1 = digit_text(((ms / 10) % 10) as int);
    let d0 = digit_text((ms % 10) as int);
    let f = d2 + d1 + d0;
    assert(millis_text(ms) =~= w + "."@ + f);
    assert forall|i: int| 0 <= i < f.len() implies is_digit(#[trigger] f[i]) by {
        if i == 0 {
            assert(f[i] == d2[0]);
        } else if i == 1 {
            assert(f[i] == d1[0]);
        } else {
            assert(f[i] == d0[0]);
        }
    }
    assert(digits_value(d2) == (ms / 100) % 10) by {
        assert(d2.drop_last() =~= Seq::<char>::empty());
        assert(digits_value(d2.drop_last()) == 0);
    }
    assert(digits_value(d1) == (ms / 10) % 10) by {
        assert(d1.drop_last() =~= Seq::<char>::empty());
        assert(digits_value(d1.drop_last()) == 0);
    }
    assert(digits_value(d0) == ms % 10) by {
        assert(d0.drop_last() =~= Seq::<char>::empty());
        assert(digits_value(d0.drop_last()) == 0);
    }
    lemma_digits_value_append(d2, d1);
    lemma_digits_value_append(d2 + d1, d0);
    assert(pow10(1) == 10 && pow10(3) == 1000) by {
        reveal_with_fuel(pow10, 4);
    }
    assert(digits_value(f) == ms % 1000);
    lemma_read_unsigned_fixed(w, f, 3);
}

} // verus!
