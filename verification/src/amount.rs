//! Decimal fields of a record: fixed-point amounts and whole-number counts.
//!
//! Monetary fields and distances are held in hundredths of a unit, so that
//! the engine can compare and accumulate them exactly.  A field that does not
//! parse, or whose value lies outside the supported range, reads as zero:
//! ingestion is lossy but never aborts on a bad field.

use vstd::prelude::*;

use crate::chars::first_at;
use crate::chars::lemma_first_at_is;

verus! {

/// Number of fixed-point steps per whole unit: amounts are held in hundredths.
pub const AMOUNT_SCALE: i64 = 100;

/// Largest magnitude, in hundredths, that a parsed amount may take.
pub const MAX_AMOUNT: i64 = 1_000_000_000_000_000;

/// Largest value that a parsed count field may take.
pub const MAX_COUNT: u64 = 1_000_000_000_000_000;

pub open spec fn is_digit(c: char) -> bool {
    48 <= c as u32 <= 57
}

pub open spec fn digit_val(c: char) -> int {
    c as u32 - 48
}

pub open spec fn all_digits(s: Seq<char>) -> bool {
    forall|i: int| 0 <= i < s.len() ==> is_digit(#[trigger] s[i])
}

/// Value of a digit string read in base ten.
pub open spec fn digits_val(s: Seq<char>) -> int
    decreases s.len(),
{
    if s.len() == 0 {
        0
    } else {
        digits_val(s.drop_last()) * 10 + digit_val(s.last())
    }
}

/// What a count field parses to: the base-ten value of a non-empty digit
/// string when it stays within `MAX_COUNT`, and zero otherwise.
pub open spec fn spec_parse_count(s: Seq<char>) -> int {
    if s.len() >= 1 && all_digits(s) && digits_val(s) <= MAX_COUNT {
        digits_val(s)
    } else {
        0
    }
}

pub proof fn lemma_digits_val_nonneg(s: Seq<char>)
    requires
        all_digits(s),
    ensures
        digits_val(s) >= 0,
    decreases s.len(),
{
    if s.len() > 0 {
        assert(is_digit(s.last()));
        assert(all_digits(s.drop_last()));
        lemma_digits_val_nonneg(s.drop_last());
    }
}

/// Reading one more digit multiplies the prefix value by ten and adds it.
pub proof fn lemma_digits_val_step(s: Seq<char>, k: int)
    requires
        0 <= k < s.len(),
    ensures
        digits_val(s.take(k + 1)) == digits_val(s.take(k)) * 10 + digit_val(s[k]),
{
    let t = s.take(k + 1);
    assert(t.drop_last() =~= s.take(k));
    assert(t.last() == s[k]);
}

/// The value of a digit string never falls below the value of any prefix.
pub proof fn lemma_digits_val_mono(s: Seq<char>, k: int)
    requires
        0 <= k <= s.len(),
        all_digits(s),
    ensures
        digits_val(s.take(k)) <= digits_val(s),
    decreases s.len() - k,
{
    if k < s.len() {
        lemma_digits_val_step(s, k);
        assert(all_digits(s.take(k))) by {
            assert(forall|i: int| 0 <= i < k ==> s.take(k)[i] == s[i]);
        }
        lemma_digits_val_nonneg(s.take(k));
        assert(is_digit(s[k]));
        lemma_digits_val_mono(s, k + 1);
    } else {
        assert(s.take(k) =~= s);
    }
}

/// Parses a count field.  A non-empty string of digits whose value stays
/// within `MAX_COUNT` yields that value; anything else yields zero.
pub fn parse_count(s: &str) -> (r: u64)
    ensures
        r == spec_parse_count(s@),
{
    let n = s.unicode_len();
    if n == 0 {
        return 0;
    }
    let mut acc: u64 = 0;
    let mut i: usize = 0;
    while i < n
        invariant
            0 <= i <= n,
            n == s@.len(),
            all_digits(s@.take(i as int)),
            acc == digits_val(s@.take(i as int)),
            acc <= MAX_COUNT,
        decreases n - i,
    {
        let c = s.get_char(i);
        let u = c as u32;
        if u < 48 || u > 57 {
            assert(!is_digit(s@[i as int]));
            return 0;
        }
        let d = (u - 48) as u64;
        let next = acc * 10 + d;
        proof {
            lemma_digits_val_step(s@, i as int);
        }
        if next > MAX_COUNT {
            proof {
                if all_digits(s@) {
                    lemma_digits_val_mono(s@, i as int + 1);
                }
            }
            return 0;
        }
        acc = next;
        i = i + 1;
    }
    proof {
        assert(s@.take(n as int) =~= s@);
    }
    acc
}

/// Hundredths contributed by the digits after the decimal point; digits past
/// the first two are truncated away.
pub open spec fn frac_cents(s: Seq<char>) -> int {
    if s.len() == 0 {
        0
    } else if s.len() == 1 {
        digit_val(s[0]) * 10
    } else {
        digit_val(s[0]) * 10 + digit_val(s[1])
    }
}

/// An unsigned amount: digits with at most one decimal point somewhere among
/// them, and at least one digit in all.
pub open spec fn amount_body_wf(s: Seq<char>) -> bool {
    let d = first_at(s, '.');
    &&& all_digits(s.take(d))
    &&& (d < s.len() ==> all_digits(s.skip(d + 1)))
    &&& (if d < s.len() {
        s.len() >= 2
    } else {
        s.len() >= 1
    })
}

/// Value of an unsigned amount in hundredths.
pub open spec fn amount_body_val(s: Seq<char>) -> int {
    let d = first_at(s, '.');
    if d == s.len() {
        digits_val(s) * 100
    } else {
        digits_val(s.take(d)) * 100 + frac_cents(s.skip(d + 1))
    }
}

/// An amount is an unsigned amount with an optional leading minus sign.
pub open spec fn amount_wf(s: Seq<char>) -> bool {
    if s.len() >= 1 && s[0] == '-' {
        amount_body_wf(s.skip(1))
    } else {
        amount_body_wf(s)
    }
}

pub open spec fn amount_val(s: Seq<char>) -> int {
    if s.len() >= 1 && s[0] == '-' {
        -amount_body_val(s.skip(1))
    } else {
        amount_body_val(s)
    }
}

/// What an amount field parses to: its value in hundredths when it is well
/// formed and within range, and zero otherwise.
pub open spec fn spec_parse_amount(s: Seq<char>) -> int {
    if amount_wf(s) && -MAX_AMOUNT <= amount_val(s) <= MAX_AMOUNT {
        amount_val(s)
    } else {
        0
    }
}

/// Parses an amount field into hundredths.  Accepted: an optional minus
/// sign, then digits with at most one decimal point and at least one digit;
/// fraction digits past the second are truncated.  Anything else, or a value
/// outside `MAX_AMOUNT`, yields zero.
pub fn parse_amount(s: &str) -> (r: i64)
    ensures
        r == spec_parse_amount(s@),
{
    let n = s.unicode_len();
    let neg = n > 0 && s.get_char(0) == '-';
    let start: usize = if neg {
        1
    } else {
        0
    };
    if start >= n {
        return 0;
    }
    let ghost body = s@.skip(start as int);
    proof {
        assert(forall|t: int| 0 <= t < body.len() ==> body[t] == s@[start + t]);
        if !neg {
            assert(body =~= s@);
        }
        assert(amount_wf(s@) == amount_body_wf(body));
        assert(amount_val(s@) == (if neg {
            -amount_body_val(body)
        } else {
            amount_body_val(body)
        }));
    }

    // Locate the first decimal point, if any.
    let mut dot: usize = n;
    let mut j: usize = start;
    while j < n
        invariant
            start <= j <= n,
            n == s@.len(),
            dot == n || (start <= dot < j && s@[dot as int] == '.'),
            dot == n ==> forall|t: int| start <= t < j ==> s@[t] != '.',
            dot < n ==> forall|t: int| start <= t < dot ==> s@[t] != '.',
        decreases n - j,
    {
        if dot == n {
            let c = s.get_char(j);
            if c == '.' {
                dot = j;
            }
        }
        j = j + 1;
    }
    let ghost d = dot - start;
    proof {
        lemma_first_at_is(body, '.', d);
    }
    if dot < n && n == start + 1 {
        // The body is a lone decimal point: no digit at all.
        return 0;
    }

    // The digits before the point.
    let mut acc: i64 = 0;
    let mut k: usize = start;
    while k < dot
        invariant
            start <= k <= dot <= n,
            n == s@.len(),
            start < n,
            body == s@.skip(start as int),
            d == dot - start,
            first_at(body, '.') == d,
            forall|t: int| 0 <= t < body.len() ==> body[t] == s@[start + t],
            amount_wf(s@) == amount_body_wf(body),
            amount_val(s@) == (if neg {
                -amount_body_val(body)
            } else {
                amount_body_val(body)
            }),
            all_digits(body.take((k - start) as int)),
            acc == digits_val(body.take((k - start) as int)),
            0 <= acc <= MAX_AMOUNT,
        decreases dot - k,
    {
        let c = s.get_char(k);
        let u = c as u32;
        if u < 48 || u > 57 {
            proof {
                assert(body.take(d)[(k - start) as int] == s@[k as int]);
                assert(!is_digit(body.take(d)[(k - start) as int]));
                assert(!amount_body_wf(body));
            }
            return 0;
        }
        let dv = (u - 48) as i64;
        let next = acc * 10 + dv;
        proof {
            lemma_digits_val_step(body, (k - start) as int);
            assert(body.take((k - start) as int + 1).drop_last() =~= body.take((k - start) as int));
        }
        if next > MAX_AMOUNT {
            proof {
                if amount_wf(s@) {
                    let ipart = body.take(d);
                    assert(ipart.take((k - start) as int + 1) =~= body.take((k - start) as int + 1));
                    lemma_digits_val_mono(ipart, (k - start) as int + 1);
                    lemma_digits_val_nonneg(ipart);
                    if d == body.len() {
                        assert(ipart =~= body);
                    }
                    if d < body.len() {
                        let frac = body.skip(d + 1);
                        assert(all_digits(frac));
                        if frac.len() >= 1 {
                            assert(is_digit(frac[0]));
                        }
                        if frac.len() >= 2 {
                            assert(is_digit(frac[1]));
                        }
                        assert(frac_cents(frac) >= 0);
                    }
                    assert(amount_body_val(body) > MAX_AMOUNT);
                }
            }
            return 0;
        }
        acc = next;
        k = k + 1;
    }
    proof {
        if dot == n {
            assert(body.take((dot - start) as int) =~= body);
        }
    }

    // The digits after the point.
    let mut cents: i64 = 0;
    if dot < n {
        let mut t: usize = dot + 1;
        while t < n
            invariant
                dot + 1 <= t <= n,
                n == s@.len(),
                start <= dot,
                start < n,
                dot < n,
                body == s@.skip(start as int),
                d == dot - start,
                first_at(body, '.') == d,
                forall|q: int| 0 <= q < body.len() ==> body[q] == s@[start + q],
                amount_wf(s@) == amount_body_wf(body),
                forall|q: int| dot + 1 <= q < t ==> is_digit(s@[q]),
            decreases n - t,
        {
            let c = s.get_char(t);
            let u = c as u32;
            if u < 48 || u > 57 {
                proof {
                    let frac = body.skip(d + 1);
                    assert(frac[(t - dot - 1) as int] == s@[t as int]);
                    assert(!is_digit(frac[(t - dot - 1) as int]));
                    assert(!amount_body_wf(body));
                }
                return 0;
            }
            t = t + 1;
        }
        proof {
            let frac = body.skip(d + 1);
            assert(forall|q: int| 0 <= q < frac.len() ==> frac[q] == s@[dot + 1 + q]);
            assert(all_digits(frac));
        }
        if dot + 1 < n {
            let c0 = s.get_char(dot + 1);
            let d0 = ((c0 as u32) - 48) as i64;
            if dot + 2 < n {
                let c1 = s.get_char(dot + 2);
                let d1 = ((c1 as u32) - 48) as i64;
                cents = d0 * 10 + d1;
            } else {
                cents = d0 * 10;
            }
        }
        proof {
            let frac = body.skip(d + 1);
            assert(cents == frac_cents(frac));
        }
    }

    let value = acc * 100 + cents;
    proof {
        assert(amount_body_wf(body));
        assert(amount_body_val(body) == value);
    }
    if value > MAX_AMOUNT {
        return 0;
    }
    if neg {
        -value
    } else {
        value
    }
}

/// The character for one decimal digit.
pub open spec fn digit_char(d: int) -> char {
    if d == 0 {
        '0'
    } else if d == 1 {
        '1'
    } else if d == 2 {
        '2'
    } else if d == 3 {
        '3'
    } else if d == 4 {
        '4'
    } else if d == 5 {
        '5'
    } else if d == 6 {
        '6'
    } else if d == 7 {
        '7'
    } else if d == 8 {
        '8'
    } else {
        '9'
    }
}

pub proof fn lemma_digit_char(d: int)
    requires
        0 <= d <= 9,
    ensures
        is_digit(digit_char(d)),
        digit_val(digit_char(d)) == d,
{
}

pub fn digit_to_char(d: u64) -> (c: char)
    requires
        d < 10,
    ensures
        c == digit_char(d as int),
{
    match d {
        0 => '0',
        1 => '1',
        2 => '2',
        3 => '3',
        4 => '4',
        5 => '5',
        6 => '6',
        7 => '7',
        8 => '8',
        _ => '9',
    }
}

/// Decimal digit string of a non-negative number, most significant first.
pub open spec fn dec_str(n: nat) -> Seq<char>
    decreases n,
{
    if n < 10 {
        seq![digit_char(n as int)]
    } else {
        dec_str(n / 10) + seq![digit_char((n % 10) as int)]
    }
}

pub proof fn lemma_dec_str(n: nat)
    ensures
        dec_str(n).len() >= 1,
        all_digits(dec_str(n)),
        digits_val(dec_str(n)) == n,
    decreases n,
{
    if n < 10 {
        lemma_digit_char(n as int);
        let s = dec_str(n);
        assert(s.drop_last() =~= Seq::<char>::empty());
        assert(forall|i: int| 0 <= i < s.len() ==> is_digit(#[trigger] s[i])) by {
            lemma_digit_char(n as int);
        }
        assert(s.last() == digit_char(n as int));
        assert(digits_val(s) == digits_val(Seq::<char>::empty()) * 10 + digit_val(s.last()));
        assert(digits_val(s) == n);
    } else {
        lemma_dec_str(n / 10);
        lemma_digit_char((n % 10) as int);
        let s = dec_str(n);
        assert(s.drop_last() =~= dec_str(n / 10));
        assert(s.last() == digit_char((n % 10) as int));
        assert(forall|i: int| 0 <= i < s.len() ==> is_digit(#[trigger] s[i])) by {
            assert(forall|i: int| 0 <= i < dec_str(n / 10).len() ==> s[i] == dec_str(n / 10)[i]);
            assert(is_digit(s[s.len() - 1]));
        }
        vstd::arithmetic::div_mod::lemma_fundamental_div_mod(n as int, 10);
        assert(digits_val(s) == digits_val(dec_str(n / 10)) * 10 + digit_val(digit_char((n % 10) as int)));
        assert(digits_val(s) == (n / 10) * 10 + (n % 10));
        assert((n / 10) * 10 + (n % 10) == n);
    }
}

/// Appends the decimal digits of `n` to `out`.
pub fn push_dec(n: u64, out: &mut String)
    ensures
        final(out)@ == old(out)@ + dec_str(n as nat),
    decreases n,
{
    if n < 10 {
        let c = digit_to_char(n);
        out.push(c);
        proof {
            assert(final(out)@ =~= old(out)@ + dec_str(n as nat));
        }
    } else {
        push_dec(n / 10, out);
        let c = digit_to_char(n % 10);
        out.push(c);
        proof {
            assert(final(out)@ =~= old(out)@ + dec_str(n as nat));
        }
    }
}

/// Writes a count as its decimal digits.
pub fn format_count(n: u64) -> (r: String)
    ensures
        r@ == dec_str(n as nat),
{
    let mut out = String::new();
    push_dec(n, &mut out);
    proof {
        assert(Seq::<char>::empty() + dec_str(n as nat) =~= dec_str(n as nat));
    }
    out
}

/// The canonical text of an unsigned amount held in hundredths: the whole
/// part, a decimal point, and exactly two fraction digits.
pub open spec fn fmt_unsigned_amount(c: int) -> Seq<char> {
    dec_str((c / 100) as nat) + seq!['.', digit_char((c % 100) / 10), digit_char(c % 10)]
}

/// The canonical text of an amount held in hundredths.
pub open spec fn spec_format_amount(v: int) -> Seq<char> {
    if v >= 0 {
        fmt_unsigned_amount(v)
    } else {
        seq!['-'] + fmt_unsigned_amount(-v)
    }
}

/// Writes an amount as its canonical text.
pub fn format_amount(v: i64) -> (r: String)
    requires
        -MAX_AMOUNT <= v <= MAX_AMOUNT,
    ensures
        r@ == spec_format_amount(v as int),
{
    let mut out = String::new();
    let m: u64 = if v < 0 {
        out.push('-');
        (-v) as u64
    } else {
        v as u64
    };
    push_dec(m / 100, &mut out);
    out.push('.');
    out.push(digit_to_char((m % 100) / 10));
    out.push(digit_to_char(m % 10));
    proof {
        if v < 0 {
            assert(out@ =~= seq!['-'] + fmt_unsigned_amount(-(v as int)));
        } else {
            assert(out@ =~= fmt_unsigned_amount(v as int));
        }
    }
    out
}

/// Formatting an amount and parsing the text back returns the amount: the
/// canonical text is always well formed and within range.
pub proof fn lemma_format_parse_amount(v: int)
    requires
        -MAX_AMOUNT <= v <= MAX_AMOUNT,
    ensures
        spec_parse_amount(spec_format_amount(v)) == v,
{
    let c = if v >= 0 {
        v
    } else {
        -v
    };
    let ds = dec_str((c / 100) as nat);
    let body = fmt_unsigned_amount(c);
    lemma_dec_str((c / 100) as nat);
    lemma_digit_char((c % 100) / 10);
    lemma_digit_char(c % 10);
    assert(body[ds.len() as int] == '.');
    assert forall|j: int| 0 <= j < ds.len() implies body[j] != '.' by {
        assert(body[j] == ds[j]);
        assert(is_digit(ds[j]));
    }
    lemma_first_at_is(body, '.', ds.len() as int);
    let d = ds.len() as int;
    assert(body.take(d) =~= ds);
    let frac = body.skip(d + 1);
    assert(frac =~= seq![digit_char((c % 100) / 10), digit_char(c % 10)]);
    assert((c % 100) % 10 == c % 10) by (nonlinear_arith)
        requires
            c >= 0,
    ;
    assert(frac_cents(frac) == c % 100);
    assert(amount_body_wf(body));
    assert(amount_body_val(body) == (c / 100) * 100 + c % 100);
    assert(amount_body_val(body) == c);
    let s = spec_format_amount(v);
    if v >= 0 {
        assert(s == body);
        assert(is_digit(body[0]));
        assert(body[0] != '-');
        assert(amount_wf(s));
        assert(amount_val(s) == v);
    } else {
        assert(s[0] == '-');
        assert(s.skip(1) =~= body);
        assert(amount_wf(s));
        assert(amount_val(s) == v);
    }
}

/// Formatting a count and parsing the text back returns the count.
pub proof fn lemma_format_parse_count(n: nat)
    requires
        n <= MAX_COUNT,
    ensures
        spec_parse_count(dec_str(n)) == n,
{
    lemma_dec_str(n);
}

} // verus!
