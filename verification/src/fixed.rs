//! Decimal numbers with nine fractional digits, the form rates and bursts take
//! in the config text. A value is held as an integer count of billionths.

use vstd::prelude::*;

use crate::text::{
    concat, decimal, decimal_chars, digit, find_char, find_char_in, lemma_first_where_is, is_char,
    slice_of,
};

verus! {

/// Billionths per unit.
pub const UNIT: u64 = 1_000_000_000;

pub open spec fn is_digit(c: char) -> bool {
    '0' <= c && c <= '9'
}

pub open spec fn all_digits(s: Seq<char>) -> bool {
    forall|i: int| 0 <= i < s.len() ==> is_digit(#[trigger] s[i])
}

pub open spec fn all_zeros(s: Seq<char>) -> bool {
    forall|i: int| 0 <= i < s.len() ==> #[trigger] s[i] == '0'
}

/// The value of a string of decimal digits (0 for the empty string).
pub open spec fn digits_value(s: Seq<char>) -> nat
    decreases s.len(),
{
    if s.len() == 0 {
        0
    } else {
        digits_value(s.drop_last()) * 10 + ((s.last() as u32) - 48) as nat
    }
}

pub open spec fn pow10(n: nat) -> nat
    decreases n,
{
    if n == 0 {
        1
    } else {
        10 * pow10((n - 1) as nat)
    }
}

/// A number token: an optional sign, digits, and an optional `.` with more
/// digits, with at least one digit in all. Digits past the ninth after the point
/// must be zeros, and the value must fit: the result is the sign (true for `-`)
/// and the value in billionths.
pub open spec fn parse_number(tok: Seq<char>) -> Option<(bool, u64)> {
    let signed = tok.len() > 0 && (tok[0] == '-' || tok[0] == '+');
    let neg = tok.len() > 0 && tok[0] == '-';
    let body = if signed {
        tok.drop_first()
    } else {
        tok
    };
    let dot = find_char(body, '.');
    let int_part = body.take(dot);
    let frac = if dot < body.len() {
        body.skip(dot + 1)
    } else {
        Seq::<char>::empty()
    };
    let kept = if frac.len() <= 9 {
        frac
    } else {
        frac.take(9)
    };
    let value = digits_value(int_part) * UNIT + digits_value(kept) * pow10((9 - kept.len()) as nat);
    if !all_digits(int_part) || !all_digits(frac) || int_part.len() + frac.len() == 0 {
        None
    } else if frac.len() > 9 && !all_zeros(frac.skip(9)) {
        None
    } else if value > u64::MAX {
        None
    } else {
        Some((neg, value as u64))
    }
}

/// `s` with its trailing `0` characters removed.
pub open spec fn trim_zeros(s: Seq<char>) -> Seq<char>
    decreases s.len(),
{
    if s.len() > 0 && s.last() == '0' {
        trim_zeros(s.drop_last())
    } else {
        s
    }
}

pub open spec fn zeros(n: nat) -> Seq<char> {
    Seq::new(n, |i: int| '0')
}

/// The nine fractional digits of a count of billionths, zero-padded.
pub open spec fn frac_digits(r: nat) -> Seq<char> {
    zeros((9 - decimal(r).len()) as nat) + decimal(r)
}

/// The shortest decimal text for a count of billionths: the integer part, then,
/// when there is a fraction, a `.` and its digits without trailing zeros.
pub open spec fn format_number(n: u64) -> Seq<char> {
    let whole = decimal((n / UNIT) as nat);
    let r = (n % UNIT) as nat;
    if r == 0 {
        whole
    } else {
        whole + seq!['.'] + trim_zeros(frac_digits(r))
    }
}


// ----- lemmas ------------------------------------------------------------------------

proof fn lemma_digit(d: nat)
    requires
        d < 10,
    ensures
        is_digit(digit(d)),
        (digit(d) as u32) - 48 == d,
        digit(d) != '.',
{
}

pub proof fn lemma_decimal(n: nat)
    ensures
        all_digits(decimal(n)),
        decimal(n).len() >= 1,
        digits_value(decimal(n)) == n,
        n < pow10(decimal(n).len()),
        decimal(n).len() > 1 ==> n >= pow10((decimal(n).len() - 1) as nat),
        decimal(n)[0] != '-' && decimal(n)[0] != '+',
        forall|i: int| 0 <= i < decimal(n).len() ==> #[trigger] decimal(n)[i] != '.',
    decreases n,
{
    if n < 10 {
        lemma_digit(n);
        assert(decimal(n) =~= seq![digit(n)]);
        assert(decimal(n).drop_last() =~= Seq::<char>::empty());
        assert(digits_value(Seq::<char>::empty()) == 0);
        assert(decimal(n).last() == digit(n));
        assert(digits_value(decimal(n)) == 0 * 10 + ((digit(n) as u32) - 48) as nat);
        assert(pow10(1) == 10) by {
            assert(pow10(0) == 1);
        }
    } else {
        lemma_decimal(n / 10);
        lemma_digit(n % 10);
        let p = decimal(n / 10);
        let s = decimal(n);
        assert(s == p.push(digit(n % 10)));
        assert(s.drop_last() =~= p);
        assert forall|i: int| 0 <= i < s.len() implies is_digit(#[trigger] s[i]) by {
            if i < p.len() {
                assert(s[i] == p[i]);
            }
        }
        assert forall|i: int| 0 <= i < s.len() implies #[trigger] s[i] != '.' by {
            if i < p.len() {
                assert(s[i] == p[i]);
            }
        }
        assert(s[0] == p[0]);
        assert(s.last() == digit(n % 10));
        assert(digits_value(s) == digits_value(p) * 10 + ((digit(n % 10) as u32) - 48) as nat);
        assert(n == (n / 10) * 10 + n % 10);
        assert(pow10(s.len()) == 10 * pow10(p.len()));
        assert(n < pow10(s.len())) by (nonlinear_arith)
            requires
                n / 10 < pow10(p.len()),
                pow10(s.len()) == 10 * pow10(p.len()),
                n == (n / 10) * 10 + n % 10,
                n % 10 < 10,
        ;
        if p.len() > 1 {
            assert(pow10((s.len() - 1) as nat) == 10 * pow10((p.len() - 1) as nat));
            assert(n >= pow10((s.len() - 1) as nat)) by (nonlinear_arith)
                requires
                    n / 10 >= pow10((p.len() - 1) as nat),
                    pow10((s.len() - 1) as nat) == 10 * pow10((p.len() - 1) as nat),
                    n == (n / 10) * 10 + n % 10,
                    n % 10 >= 0,
            ;
        } else {
            assert(pow10(1) == 10) by {
                assert(pow10(0) == 1);
            }
        }
    }
}

proof fn lemma_zeros_value(a: nat)
    ensures
        digits_value(zeros(a)) == 0,
        all_digits(zeros(a)),
    decreases a,
{
    if a > 0 {
        assert(zeros(a).drop_last() =~= zeros((a - 1) as nat));
        lemma_zeros_value((a - 1) as nat);
    }
}

proof fn lemma_zeros_prefix(a: nat, d: Seq<char>)
    ensures
        digits_value(zeros(a) + d) == digits_value(d),
    decreases d.len(),
{
    if d.len() == 0 {
        assert(zeros(a) + d =~= zeros(a));
        lemma_zeros_value(a);
    } else {
        assert((zeros(a) + d).drop_last() =~= zeros(a) + d.drop_last());
        lemma_zeros_prefix(a, d.drop_last());
    }
}

proof fn lemma_zeros_suffix(s: Seq<char>, m: nat)
    ensures
        digits_value(s + zeros(m)) == digits_value(s) * pow10(m),
    decreases m,
{
    if m == 0 {
        assert(s + zeros(0) =~= s);
        assert(pow10(0) == 1);
    } else {
        assert((s + zeros(m)).drop_last() =~= s + zeros((m - 1) as nat));
        assert((s + zeros(m)).last() == '0');
        lemma_zeros_suffix(s, (m - 1) as nat);
        assert(digits_value(s + zeros(m)) == digits_value(s + zeros((m - 1) as nat)) * 10);
        assert(digits_value(s) * pow10((m - 1) as nat) * 10 == digits_value(s) * pow10(m)) by (
        nonlinear_arith)
            requires
                pow10(m) == 10 * pow10((m - 1) as nat),
        ;
    }
}

proof fn lemma_trim_zeros(s: Seq<char>)
    ensures
        trim_zeros(s).len() <= s.len(),
        s =~= trim_zeros(s) + zeros((s.len() - trim_zeros(s).len()) as nat),
        all_digits(s) ==> all_digits(trim_zeros(s)),
    decreases s.len(),
{
    if s.len() > 0 && s.last() == '0' {
        lemma_trim_zeros(s.drop_last());
        let t = trim_zeros(s.drop_last());
        let k = (s.drop_last().len() - t.len()) as nat;
        assert(s =~= (t + zeros(k)).push('0'));
        assert((t + zeros(k)).push('0') =~= t + zeros(k + 1));
        if all_digits(s) {
            assert forall|i: int| 0 <= i < s.drop_last().len() implies is_digit(
                #[trigger] s.drop_last()[i],
            ) by {
                assert(s.drop_last()[i] == s[i]);
            }
        }
    } else {
        assert(s =~= s + zeros(0));
    }
}

proof fn lemma_digits_bound(s: Seq<char>)
    requires
        all_digits(s),
    ensures
        digits_value(s) < pow10(s.len()),
    decreases s.len(),
{
    if s.len() > 0 {
        let p = s.drop_last();
        assert forall|i: int| 0 <= i < p.len() implies is_digit(#[trigger] p[i]) by {
            assert(p[i] == s[i]);
        }
        lemma_digits_bound(p);
        assert(is_digit(s[s.len() - 1]));
        assert(digits_value(s) < pow10(s.len())) by (nonlinear_arith)
            requires
                digits_value(s) == digits_value(p) * 10 + ((s.last() as u32) - 48) as nat,
                ((s.last() as u32) - 48) as nat <= 9,
                digits_value(p) < pow10(p.len()),
                pow10(s.len()) == 10 * pow10(p.len()),
        ;
    }
}

pub proof fn lemma_digits_prefix_mono(s: Seq<char>, i: int, j: int)
    requires
        all_digits(s),
        0 <= i <= j <= s.len(),
    ensures
        digits_value(s.take(i)) <= digits_value(s.take(j)),
    decreases j - i,
{
    if i < j {
        lemma_digits_prefix_mono(s, i, j - 1);
        assert(s.take(j).drop_last() =~= s.take(j - 1));
        assert(is_digit(s[j - 1]));
        assert(s.take(j).last() == s[j - 1]);
        assert(digits_value(s.take(j - 1)) <= digits_value(s.take(j))) by (nonlinear_arith)
            requires
                digits_value(s.take(j)) == digits_value(s.take(j - 1)) * 10 + ((s[j - 1] as u32)
                    - 48) as nat,
        ;
    }
}

proof fn lemma_pow10_nine()
    ensures
        pow10(9) == UNIT,
{
    assert(pow10(0) == 1);
    assert(pow10(1) == 10);
    assert(pow10(2) == 100);
    assert(pow10(3) == 1000);
    assert(pow10(4) == 10000);
    assert(pow10(5) == 100000);
    assert(pow10(6) == 1000000);
    assert(pow10(7) == 10000000);
    assert(pow10(8) == 100000000);
    assert(pow10(9) == 1000000000);
}

proof fn lemma_pow10_add(a: nat, b: nat)
    ensures
        pow10(a) * pow10(b) == pow10(a + b),
    decreases a,
{
    if a > 0 {
        lemma_pow10_add((a - 1) as nat, b);
        assert(pow10(a) * pow10(b) == 10 * (pow10((a - 1) as nat) * pow10(b))) by (nonlinear_arith)
            requires
                pow10(a) == 10 * pow10((a - 1) as nat),
        ;
        assert((a + b - 1) as nat == (a - 1) as nat + b);
    } else {
        assert(pow10(0) == 1);
    }
}

proof fn lemma_pow10_mono(a: nat, b: nat)
    requires
        a <= b,
    ensures
        1 <= pow10(a) <= pow10(b),
    decreases b,
{
    if b > 0 && a < b {
        lemma_pow10_mono(a, (b - 1) as nat);
    } else if b > 0 {
        lemma_pow10_mono(0, (b - 1) as nat);
    }
}


// ----- implementation --------------------------------------------------------------

fn digits_ok(s: &Vec<char>) -> (b: bool)
    ensures
        b == all_digits(s@),
{
    let mut i: usize = 0;
    while i < s.len()
        invariant
            i <= s.len(),
            forall|j: int| 0 <= j < i ==> is_digit(#[trigger] s@[j]),
        decreases s.len() - i,
    {
        if !('0' <= s[i] && s[i] <= '9') {
            return false;
        }
        i = i + 1;
    }
    true
}

fn zeros_ok(s: &Vec<char>) -> (b: bool)
    ensures
        b == all_zeros(s@),
{
    let mut i: usize = 0;
    while i < s.len()
        invariant
            i <= s.len(),
            forall|j: int| 0 <= j < i ==> #[trigger] s@[j] == '0',
        decreases s.len() - i,
    {
        if s[i] != '0' {
            return false;
        }
        i = i + 1;
    }
    true
}

/// The value of a digit string when it is at most `cap`.
fn digits_value_upto(s: &Vec<char>, cap: u64) -> (r: Option<u64>)
    requires
        all_digits(s@),
        cap <= 1_000_000_000_000_000_000,
    ensures
        match r {
            Some(v) => v == digits_value(s@) && v <= cap,
            None => digits_value(s@) > cap,
        },
{
    let mut v: u64 = 0;
    let mut i: usize = 0;
    while i < s.len()
        invariant
            all_digits(s@),
            cap <= 1_000_000_000_000_000_000,
            i <= s.len(),
            v == digits_value(s@.take(i as int)),
            v <= cap,
        decreases s.len() - i,
    {
        assert(is_digit(s@[i as int]));
        let d: u32 = s[i] as u32 - 48;
        assert(s@.take(i + 1).drop_last() =~= s@.take(i as int));
        assert(s@.take(i + 1).last() == s@[i as int]);
        let nv: u64 = v * 10 + d as u64;
        i = i + 1;
        if nv > cap {
            proof {
                lemma_digits_prefix_mono(s@, i as int, s@.len() as int);
                assert(s@.take(s@.len() as int) =~= s@);
            }
            return None;
        }
        v = nv;
    }
    assert(s@.take(s@.len() as int) =~= s@);
    Some(v)
}

fn pow10_of(n: usize) -> (r: u64)
    requires
        n <= 9,
    ensures
        r == pow10(n as nat),
{
    let mut r: u64 = 1;
    let mut i: usize = 0;
    while i < n
        invariant
            i <= n <= 9,
            r == pow10(i as nat),
            r <= 1_000_000_000,
        decreases n - i,
    {
        proof {
            lemma_pow10_mono((i + 1) as nat, 9);
            lemma_pow10_nine();
        }
        r = r * 10;
        i = i + 1;
    }
    r
}

/// Parse a number token; see `parse_number`.
pub fn parse_number_chars(tok: &Vec<char>) -> (r: Option<(bool, u64)>)
    ensures
        r == parse_number(tok@),
{
    let signed = tok.len() > 0 && (tok[0] == '-' || tok[0] == '+');
    let neg = tok.len() > 0 && tok[0] == '-';
    let body = if signed {
        slice_of(tok, 1, tok.len())
    } else {
        slice_of(tok, 0, tok.len())
    };
    assert(body@ =~= if signed {
        tok@.drop_first()
    } else {
        tok@
    });
    let dot = find_char_in(&body, '.');
    let int_part = slice_of(&body, 0, dot);
    let frac = if dot < body.len() {
        slice_of(&body, dot + 1, body.len())
    } else {
        Vec::new()
    };
    assert(int_part@ =~= body@.take(dot as int));
    assert(frac@ =~= if dot < body@.len() {
        body@.skip(dot + 1)
    } else {
        Seq::<char>::empty()
    });
    if !digits_ok(&int_part) || !digits_ok(&frac) || int_part.len() + frac.len() == 0 {
        return None;
    }
    if frac.len() > 9 {
        let rest = slice_of(&frac, 9, frac.len());
        assert(rest@ =~= frac@.skip(9));
        if !zeros_ok(&rest) {
            return None;
        }
    }
    let kept = if frac.len() <= 9 {
        frac
    } else {
        slice_of(&frac, 0, 9)
    };
    assert(kept@ =~= if frac@.len() <= 9 {
        frac@
    } else {
        frac@.take(9)
    });
    assert(all_digits(kept@));
    proof {
        lemma_digits_bound(kept@);
        lemma_pow10_mono(kept@.len(), 9);
        lemma_pow10_mono((9 - kept@.len()) as nat, 9);
        lemma_pow10_nine();
        lemma_pow10_add(kept@.len(), (9 - kept@.len()) as nat);
    }
    let iv = match digits_value_upto(&int_part, 18_446_744_073) {
        Some(v) => v,
        None => {
            assert(digits_value(int_part@) * UNIT > u64::MAX) by (nonlinear_arith)
                requires
                    digits_value(int_part@) > 18_446_744_073,
            ;
            return None;
        },
    };
    let kv = match digits_value_upto(&kept, 999_999_999) {
        Some(v) => v,
        None => {
            return None;
        },
    };
    let scale = pow10_of(9 - kept.len());
    assert(kv * scale < UNIT) by (nonlinear_arith)
        requires
            kv < pow10(kept@.len()),
            scale == pow10((9 - kept@.len()) as nat),
            pow10(kept@.len()) * pow10((9 - kept@.len()) as nat) == UNIT,
    ;
    let total: u128 = iv as u128 * UNIT as u128 + kv as u128 * scale as u128;
    if total > u64::MAX as u128 {
        return None;
    }
    Some((neg, total as u64))
}


proof fn lemma_trim_zeros_is(s: Seq<char>, k: int)
    requires
        0 <= k <= s.len(),
        forall|j: int| k <= j < s.len() ==> #[trigger] s[j] == '0',
        k == 0 || s[k - 1] != '0',
    ensures
        trim_zeros(s) == s.take(k),
    decreases s.len(),
{
    if s.len() > k {
        assert(s.last() == '0');
        assert(s.drop_last().take(k) =~= s.take(k));
        lemma_trim_zeros_is(s.drop_last(), k);
    } else {
        assert(s.take(k) =~= s);
    }
}

/// Format a count of billionths; see `format_number`.
pub fn format_number_chars(n: u64) -> (r: Vec<char>)
    ensures
        r@ == format_number(n),
{
    let whole = decimal_chars(n / UNIT);
    let rem = n % UNIT;
    if rem == 0 {
        return whole;
    }
    let d = decimal_chars(rem);
    proof {
        lemma_decimal(rem as nat);
        lemma_pow10_nine();
        if d@.len() > 9 {
            lemma_pow10_mono(9, (d@.len() - 1) as nat);
        }
    }
    let mut pad: Vec<char> = Vec::new();
    while pad.len() < 9 - d.len()
        invariant
            d@.len() <= 9,
            pad@.len() <= 9 - d@.len(),
            pad@ == zeros(pad@.len()),
        decreases 9 - d@.len() - pad@.len(),
    {
        pad.push('0');
        assert(pad@ =~= zeros(pad@.len()));
    }
    let digits = concat(&pad, &d);
    assert(digits@ == frac_digits(rem as nat));
    let mut k: usize = digits.len();
    while k > 0 && digits[k - 1] == '0'
        invariant
            k <= digits@.len(),
            forall|j: int| k <= j < digits@.len() ==> #[trigger] digits@[j] == '0',
        decreases k,
    {
        k = k - 1;
    }
    proof {
        lemma_trim_zeros_is(digits@, k as int);
    }
    let tz = slice_of(&digits, 0, k);
    let mut out = whole;
    out.push('.');
    let r = concat(&out, &tz);
    assert(r@ =~= decimal((n / UNIT) as nat) + seq!['.'] + trim_zeros(frac_digits(rem as nat)));
    r
}

/// The printed form of a number is made of digits and at most a `.`, and is never empty.
pub proof fn lemma_format_number_chars(n: u64)
    ensures
        format_number(n).len() > 0,
        forall|k: int|
            0 <= k < format_number(n).len() ==> is_digit(#[trigger] format_number(n)[k]) || format_number(
                n,
            )[k] == '.',
{
    let q = (n / UNIT) as nat;
    let rem = (n % UNIT) as nat;
    let whole = decimal(q);
    lemma_decimal(q);
    let tok = format_number(n);
    if rem == 0 {
        assert(tok == whole);
    } else {
        lemma_decimal(rem);
        let a = (9 - decimal(rem).len()) as nat;
        let fd = frac_digits(rem);
        lemma_zeros_value(a);
        assert forall|i: int| 0 <= i < fd.len() implies is_digit(#[trigger] fd[i]) by {
            if i < a {
                assert(fd[i] == zeros(a)[i]);
            } else {
                assert(fd[i] == decimal(rem)[i - a]);
            }
        }
        lemma_trim_zeros(fd);
        let tz = trim_zeros(fd);
        assert forall|k: int| 0 <= k < tok.len() implies is_digit(#[trigger] tok[k]) || tok[k] == '.' by {
            if k < whole.len() {
                assert(tok[k] == whole[k]);
            } else if k > whole.len() {
                assert(tok[k] == tz[k - whole.len() - 1]);
            }
        }
    }
}

// ----- laws ------------------------------------------------------------------------

/// Printing a number and parsing it back gives the same number: the config
/// printer's rates and bursts read back exactly.
pub proof fn law_number_round_trip(n: u64)
    ensures
        parse_number(format_number(n)) == Some((false, n)),
{
    let q = (n / UNIT) as nat;
    let rem = (n % UNIT) as nat;
    let whole = decimal(q);
    lemma_decimal(q);
    lemma_pow10_nine();
    let tok = format_number(n);
    assert(tok.len() > 0 && tok[0] == whole[0]);
    if rem == 0 {
        assert(tok == whole);
        lemma_first_where_is(tok, is_char('.'), tok.len() as int);
        assert(tok.take(tok.len() as int) =~= tok);
        assert(Seq::<char>::empty().take(0) =~= Seq::<char>::empty());
        assert(digits_value(Seq::<char>::empty()) == 0);
        assert(pow10(9) == UNIT);
        assert(n == q * UNIT + rem);
        let dot = find_char(tok, '.');
        assert(dot == tok.len());
        assert(!(tok[0] == '-' || tok[0] == '+'));
        let frac = Seq::<char>::empty();
        assert(all_digits(frac));
        assert(digits_value(whole) * UNIT + digits_value(frac) * pow10(9) == n);
    } else {
        lemma_decimal(rem);
        if decimal(rem).len() > 9 {
            lemma_pow10_mono(9, (decimal(rem).len() - 1) as nat);
        }
        let fd = frac_digits(rem);
        let tz = trim_zeros(fd);
        lemma_trim_zeros(fd);
        lemma_zeros_value((9 - decimal(rem).len()) as nat);
        assert forall|i: int| 0 <= i < fd.len() implies is_digit(#[trigger] fd[i]) by {
            let a = (9 - decimal(rem).len()) as nat;
            if i < a {
                assert(fd[i] == zeros(a)[i]);
            } else {
                assert(fd[i] == decimal(rem)[i - a]);
            }
        }
        assert(tok == whole + seq!['.'] + tz);
        assert(tok[whole.len() as int] == '.');
        assert forall|j: int| 0 <= j < whole.len() implies !is_char('.')(#[trigger] tok[j]) by {
            assert(tok[j] == whole[j]);
        }
        lemma_first_where_is(tok, is_char('.'), whole.len() as int);
        assert(tok.take(whole.len() as int) =~= whole);
        assert(tok.skip(whole.len() + 1int) =~= tz);
        // digits_value(tz) * 10^(9 - |tz|) == digits_value(fd) == rem
        lemma_zeros_suffix(tz, (fd.len() - tz.len()) as nat);
        lemma_zeros_prefix((9 - decimal(rem).len()) as nat, decimal(rem));
        assert(fd.len() == 9);
        assert(digits_value(tz) * pow10((9 - tz.len()) as nat) == rem);
        assert(n == q * UNIT + rem);
        assert(!(tok[0] == '-' || tok[0] == '+'));
        assert(find_char(tok, '.') == whole.len());
        assert(all_digits(tz));
        assert(tz.len() <= 9);
        assert(digits_value(whole) * UNIT + digits_value(tz) * pow10((9 - tz.len()) as nat) == n);
    }
}

/// A token of digits, a `.`, and at most nine more digits reads as its decimal
/// value in billionths: the integer part times 1e9 plus the fraction scaled to
/// nine places, so trailing zeros after the point (`1.0`, `2.50`) change nothing.
pub proof fn law_decimal_token_value(a: Seq<char>, f: Seq<char>)
    requires
        all_digits(a),
        all_digits(f),
        a.len() + f.len() > 0,
        f.len() <= 9,
        digits_value(a) * UNIT + digits_value(f) * pow10((9 - f.len()) as nat) <= u64::MAX,
    ensures
        parse_number(a + seq!['.'] + f) == Some(
            (false, (digits_value(a) * UNIT + digits_value(f) * pow10((9 - f.len()) as nat)) as u64),
        ),
{
    let tok = a + seq!['.'] + f;
    if a.len() > 0 {
        assert(tok[0] == a[0]);
        assert(is_digit(a[0]));
    } else {
        assert(tok[0] == '.');
    }
    assert forall|j: int| 0 <= j < a.len() implies !is_char('.')(#[trigger] tok[j]) by {
        assert(tok[j] == a[j]);
        assert(is_digit(a[j]));
    }
    assert(tok[a.len() as int] == '.');
    lemma_first_where_is(tok, is_char('.'), a.len() as int);
    assert(tok.take(a.len() as int) =~= a);
    assert(tok.skip(a.len() + 1int) =~= f);
}

/// A token of digits alone reads as that whole number of units.
pub proof fn law_whole_token_value(a: Seq<char>)
    requires
        all_digits(a),
        a.len() > 0,
        digits_value(a) * UNIT <= u64::MAX,
    ensures
        parse_number(a) == Some((false, (digits_value(a) * UNIT) as u64)),
{
    assert(is_digit(a[0]));
    assert forall|j: int| 0 <= j < a.len() implies !is_char('.')(#[trigger] a[j]) by {
        assert(is_digit(a[j]));
    }
    lemma_first_where_is(a, is_char('.'), a.len() as int);
    assert(a.take(a.len() as int) =~= a);
    let e = Seq::<char>::empty();
    assert(digits_value(e) == 0);
    assert(digits_value(e) * pow10(9) == 0) by (nonlinear_arith)
        requires
            digits_value(e) == 0,
    ;
    assert(all_digits(e));
}

} // verus!
