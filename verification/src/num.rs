//! Decimal text: the integer headers of the wire format, and the grammar of
//! floating-point text as standard library float parsing accepts it.
//!
//! A decimal header is read the way the protocol's wire peers read it: an
//! optional single sign, then the longest run of digits; bytes after that run
//! are ignored; nothing read at all, or an out-of-range value, rejects the
//! header.

use vstd::prelude::*;

verus! {

// ASCII bytes of the decimal and float grammars.
/// `+`
pub const B_PLUS: u8 = 43;

/// `-`
pub const B_MINUS: u8 = 45;

/// `.`
pub const B_DOT: u8 = 46;

/// `0`
pub const B_ZERO: u8 = 48;

/// `1`
pub const B_ONE: u8 = 49;

/// `9`
pub const B_NINE: u8 = 57;

/// `\r`
pub const B_CR: u8 = 13;

/// `\n`
pub const B_LF: u8 = 10;

/// `e`
pub const B_LOW_E: u8 = 101;

/// `E`
pub const B_UP_E: u8 = 69;

/// `A`
pub const B_UP_A: u8 = 65;

/// `Z`
pub const B_UP_Z: u8 = 90;

/// `i`
pub const B_I: u8 = 105;

/// `n`
pub const B_N: u8 = 110;

/// `f`
pub const B_F: u8 = 102;

/// `a`
pub const B_A: u8 = 97;

/// `t`
pub const B_T: u8 = 116;

/// `y`
pub const B_Y: u8 = 121;

// ---------------------------------------------------------------------------
// Decimal digits
// ---------------------------------------------------------------------------

pub open spec fn is_digit(b: u8) -> bool {
    B_ZERO <= b <= B_NINE
}

pub open spec fn digit_val(b: u8) -> int {
    b as int - B_ZERO as int
}

/// The decimal representation of `n`, most significant digit first.
pub open spec fn dec_rep(n: nat) -> Seq<u8>
    decreases n,
{
    if n < 10 {
        seq![(n + B_ZERO) as u8]
    } else {
        dec_rep(n / 10) + seq![((n % 10) + B_ZERO) as u8]
    }
}

/// The value of a digit string.
pub open spec fn dec_value(s: Seq<u8>) -> int
    decreases s.len(),
{
    if s.len() == 0 {
        0
    } else {
        dec_value(s.drop_last()) * 10 + digit_val(s.last())
    }
}

pub open spec fn all_digits(s: Seq<u8>) -> bool {
    forall|i: int| 0 <= i < s.len() ==> is_digit(#[trigger] s[i])
}

/// The end of the run of digits starting at `i`.
pub open spec fn digit_run_end(s: Seq<u8>, i: int) -> int
    decreases s.len() - i,
{
    if i < s.len() && is_digit(s[i]) {
        digit_run_end(s, i + 1)
    } else {
        i
    }
}

pub proof fn lemma_digit_run_end(s: Seq<u8>, i: int)
    requires
        0 <= i <= s.len(),
    ensures
        i <= digit_run_end(s, i) <= s.len(),
        forall|j: int| i <= j < digit_run_end(s, i) ==> is_digit(#[trigger] s[j]),
        digit_run_end(s, i) < s.len() ==> !is_digit(s[digit_run_end(s, i)]),
    decreases s.len() - i,
{
    if i < s.len() && is_digit(s[i]) {
        lemma_digit_run_end(s, i + 1);
    }
}

/// A run over digits only covers everything to the end.
pub proof fn lemma_digit_run_full(s: Seq<u8>, i: int)
    requires
        0 <= i <= s.len(),
        forall|j: int| i <= j < s.len() ==> is_digit(#[trigger] s[j]),
    ensures
        digit_run_end(s, i) == s.len(),
    decreases s.len() - i,
{
    if i < s.len() {
        lemma_digit_run_full(s, i + 1);
    }
}

/// What reading an unsigned decimal header yields.
pub open spec fn dec_unsigned(s: Seq<u8>) -> Option<usize> {
    let off: int = if s.len() > 0 && (s[0] == B_PLUS || s[0] == B_MINUS) {
        1
    } else {
        0
    };
    let end = digit_run_end(s, off);
    let v = dec_value(s.subrange(off, end));
    if end == 0 {
        None
    } else if s.len() > 0 && s[0] == B_MINUS {
        // reading a negative value into an unsigned type: only zero survives
        if v == 0 {
            Some(0)
        } else {
            None
        }
    } else if v <= usize::MAX {
        Some(v as usize)
    } else {
        None
    }
}

/// What reading a signed decimal header yields.
pub open spec fn dec_signed(s: Seq<u8>) -> Option<i64> {
    let off: int = if s.len() > 0 && (s[0] == B_PLUS || s[0] == B_MINUS) {
        1
    } else {
        0
    };
    let end = digit_run_end(s, off);
    let v = dec_value(s.subrange(off, end));
    if end == 0 {
        None
    } else if s.len() > 0 && s[0] == B_MINUS {
        if -v >= i64::MIN {
            Some((-v) as i64)
        } else {
            None
        }
    } else if v <= i64::MAX {
        Some(v as i64)
    } else {
        None
    }
}

pub proof fn lemma_dec_rep_digits(n: nat)
    ensures
        dec_rep(n).len() >= 1,
        all_digits(dec_rep(n)),
    decreases n,
{
    if n >= 10 {
        lemma_dec_rep_digits(n / 10);
    }
}

pub proof fn lemma_dec_value_dec_rep(n: nat)
    ensures
        dec_value(dec_rep(n)) == n,
    decreases n,
{
    if n < 10 {
        let s = dec_rep(n);
        assert(s.drop_last() =~= Seq::<u8>::empty());
        assert(dec_value(s.drop_last()) == 0);
        assert(s.last() == (n + B_ZERO) as u8);
    } else {
        lemma_dec_value_dec_rep(n / 10);
        let s = dec_rep(n);
        assert(s.drop_last() =~= dec_rep(n / 10));
        assert(s.last() == ((n % 10) + B_ZERO) as u8);
        assert(dec_value(s) == dec_value(dec_rep(n / 10)) * 10 + digit_val(s.last()));
        vstd::arithmetic::div_mod::lemma_fundamental_div_mod(n as int, 10);
    }
}

pub proof fn lemma_dec_value_nonneg(s: Seq<u8>)
    requires
        all_digits(s),
    ensures
        dec_value(s) >= 0,
    decreases s.len(),
{
    if s.len() > 0 {
        assert(all_digits(s.drop_last()));
        lemma_dec_value_nonneg(s.drop_last());
    }
}

pub proof fn lemma_dec_value_take_step(s: Seq<u8>, i: int)
    requires
        0 <= i < s.len(),
    ensures
        dec_value(s.take(i + 1)) == dec_value(s.take(i)) * 10 + digit_val(s[i]),
{
    assert(s.take(i + 1).drop_last() =~= s.take(i));
    assert(s.take(i + 1).last() == s[i]);
}

pub proof fn lemma_dec_value_take_mono(s: Seq<u8>, i: int)
    requires
        all_digits(s),
        0 <= i <= s.len(),
    ensures
        dec_value(s.take(i)) <= dec_value(s),
    decreases s.len() - i,
{
    if i < s.len() {
        assert(all_digits(s.take(i))) by {
            assert(forall|j: int| 0 <= j < i ==> s.take(i)[j] == s[j]);
        }
        lemma_dec_value_nonneg(s.take(i));
        lemma_dec_value_take_step(s, i);
        lemma_dec_value_take_mono(s, i + 1);
    } else {
        assert(s.take(i) =~= s);
    }
}

/// An all-zero digit string has value zero.
proof fn lemma_dec_value_zeros(s: Seq<u8>)
    requires
        forall|i: int| 0 <= i < s.len() ==> #[trigger] s[i] == B_ZERO,
    ensures
        dec_value(s) == 0,
    decreases s.len(),
{
    if s.len() > 0 {
        lemma_dec_value_zeros(s.drop_last());
    }
}

/// A digit string with a nonzero digit has a positive value.
proof fn lemma_dec_value_nonzero(s: Seq<u8>, k: int)
    requires
        all_digits(s),
        0 <= k < s.len(),
        s[k] != B_ZERO,
    ensures
        dec_value(s) >= 1,
{
    lemma_dec_value_nonneg(s.take(k));
    lemma_dec_value_take_step(s, k);
    lemma_dec_value_take_mono(s, k + 1);
}

/// Writes `n` in decimal, most significant digit first.
pub fn format_u64(n: u64) -> (v: Vec<u8>)
    ensures
        v@ == dec_rep(n as nat),
    decreases n,
{
    if n < 10 {
        let mut v: Vec<u8> = Vec::new();
        v.push((n as u8) + B_ZERO);
        proof {
            assert(v@ =~= dec_rep(n as nat));
        }
        v
    } else {
        let mut v = format_u64(n / 10);
        v.push(((n % 10) as u8) + B_ZERO);
        proof {
            assert(v@ =~= dec_rep(n as nat));
        }
        v
    }
}

/// The decimal representation of a signed value: a minus sign for a negative
/// value, then the magnitude's digits.
pub open spec fn dec_rep_signed(i: i64) -> Seq<u8> {
    if i < 0 {
        seq![B_MINUS] + dec_rep((-(i as int)) as nat)
    } else {
        dec_rep(i as nat)
    }
}

/// Writes `n` in signed decimal.
pub fn format_i64(n: i64) -> (v: Vec<u8>)
    ensures
        v@ == dec_rep_signed(n),
{
    if n >= 0 {
        format_u64(n as u64)
    } else {
        let mag: u64 = if n == i64::MIN {
            9223372036854775808u64
        } else {
            (-n) as u64
        };
        let mut v: Vec<u8> = Vec::new();
        v.push(B_MINUS);
        let mut digits = format_u64(mag);
        v.append(&mut digits);
        proof {
            assert(v@ =~= dec_rep_signed(n));
        }
        v
    }
}

/// Reads an unsigned decimal header.
pub fn parse_unsigned(s: &[u8]) -> (r: Option<usize>)
    ensures
        r == dec_unsigned(s@),
{
    let off: usize = if s.len() > 0 && (s[0] == B_PLUS || s[0] == B_MINUS) {
        1
    } else {
        0
    };
    let end = scan_digits(s, off);
    proof {
        lemma_digit_run_end(s@, off as int);
    }
    if end == 0 {
        return None;
    }
    let ghost d: Seq<u8> = s@.subrange(off as int, end as int);
    proof {
        assert(all_digits(d));
    }
    if s[0] == B_MINUS {
        let mut i = off;
        while i < end
            invariant
                off <= i <= end <= s@.len(),
                off == 1,
                s@[0] == B_MINUS,
                end == digit_run_end(s@, off as int),
                d == s@.subrange(off as int, end as int),
                all_digits(d),
                forall|j: int| 0 <= j < i - off ==> #[trigger] d[j] == B_ZERO,
            decreases end - i,
        {
            if s[i] != B_ZERO {
                proof {
                    assert(d[i - off] == s@[i as int]);
                    lemma_dec_value_nonzero(d, i - off as int);
                }
                return None;
            }
            proof {
                assert(d[i - off] == s@[i as int]);
            }
            i += 1;
        }
        proof {
            lemma_dec_value_zeros(d);
        }
        return Some(0);
    }
    let mut acc: usize = 0;
    let mut i = off;
    while i < end
        invariant
            off <= i <= end <= s@.len(),
            off == (if s@.len() > 0 && (s@[0] == B_PLUS || s@[0] == B_MINUS) {
                1int
            } else {
                0
            }),
            s@.len() > 0 && s@[0] != B_MINUS,
            1 <= end == digit_run_end(s@, off as int),
            d == s@.subrange(off as int, end as int),
            all_digits(d),
            acc == dec_value(d.take(i - off)),
        decreases end - i,
    {
        let b = s[i];
        proof {
            assert(d[i - off] == s@[i as int]);
            assert(is_digit(b));
            lemma_dec_value_take_step(d, i - off as int);
        }
        let dv = (b - B_ZERO) as usize;
        let shifted = match acc.checked_mul(10) {
            Some(x) => x,
            None => {
                proof {
                    overflow_means_big(d, i - off as int, usize::MAX as int);
                }
                return None;
            },
        };
        acc = match shifted.checked_add(dv) {
            Some(y) => y,
            None => {
                proof {
                    overflow_means_big(d, i - off as int, usize::MAX as int);
                }
                return None;
            },
        };
        i += 1;
    }
    proof {
        assert(d.take(i - off) =~= d);
    }
    Some(acc)
}

/// If some digit prefix already exceeds the bound, the whole string's value
/// does.
proof fn overflow_means_big(d: Seq<u8>, i: int, bound: int)
    requires
        all_digits(d),
        0 <= i < d.len(),
        dec_value(d.take(i)) * 10 + digit_val(d[i]) > bound,
        bound >= 0,
    ensures
        dec_value(d) > bound,
{
    lemma_dec_value_take_step(d, i);
    lemma_dec_value_take_mono(d, i + 1);
}

/// Reads a signed decimal header.
pub fn parse_signed(s: &[u8]) -> (r: Option<i64>)
    ensures
        r == dec_signed(s@),
{
    let off: usize = if s.len() > 0 && (s[0] == B_PLUS || s[0] == B_MINUS) {
        1
    } else {
        0
    };
    let end = scan_digits(s, off);
    proof {
        lemma_digit_run_end(s@, off as int);
    }
    if end == 0 {
        return None;
    }
    let ghost d: Seq<u8> = s@.subrange(off as int, end as int);
    proof {
        assert(all_digits(d));
    }
    let neg = s[0] == B_MINUS;
    let mut acc: i64 = 0;
    let mut i = off;
    while i < end
        invariant
            off <= i <= end <= s@.len(),
            off == (if s@.len() > 0 && (s@[0] == B_PLUS || s@[0] == B_MINUS) {
                1int
            } else {
                0
            }),
            s@.len() > 0,
            neg == (s@[0] == B_MINUS),
            1 <= end == digit_run_end(s@, off as int),
            d == s@.subrange(off as int, end as int),
            all_digits(d),
            neg ==> acc == -dec_value(d.take(i - off)),
            !neg ==> acc == dec_value(d.take(i - off)),
        decreases end - i,
    {
        let b = s[i];
        proof {
            assert(d[i - off] == s@[i as int]);
            assert(is_digit(b));
            lemma_dec_value_take_step(d, i - off as int);
            assert(all_digits(d.take(i - off))) by {
                assert(forall|j: int| 0 <= j < i - off ==> d.take(i - off)[j] == d[j]);
            }
            lemma_dec_value_nonneg(d.take(i - off));
        }
        let dv = (b - B_ZERO) as i64;
        if neg {
            acc = match acc.checked_mul(10) {
                Some(x) => match x.checked_sub(dv) {
                    Some(y) => y,
                    None => {
                        proof {
                            underflow_means_big(d, i - off as int);
                        }
                        return None;
                    },
                },
                None => {
                    proof {
                        underflow_means_big(d, i - off as int);
                    }
                    return None;
                },
            };
        } else {
            acc = match acc.checked_mul(10) {
                Some(x) => match x.checked_add(dv) {
                    Some(y) => y,
                    None => {
                        proof {
                            overflow_means_big(d, i - off as int, i64::MAX as int);
                        }
                        return None;
                    },
                },
                None => {
                    proof {
                        overflow_means_big(d, i - off as int, i64::MAX as int);
                    }
                    return None;
                },
            };
        }
        i += 1;
    }
    proof {
        assert(d.take(i - off) =~= d);
    }
    Some(acc)
}

/// If some digit prefix's negated value already falls below `i64::MIN`, the
/// whole string's does.
proof fn underflow_means_big(d: Seq<u8>, i: int)
    requires
        all_digits(d),
        0 <= i < d.len(),
        -(dec_value(d.take(i)) * 10 + digit_val(d[i])) < i64::MIN,
    ensures
        -dec_value(d) < i64::MIN,
{
    lemma_dec_value_take_step(d, i);
    lemma_dec_value_take_mono(d, i + 1);
}

// ---------------------------------------------------------------------------
// Floating-point text
// ---------------------------------------------------------------------------

pub open spec fn to_lower(b: u8) -> u8 {
    if B_UP_A <= b <= B_UP_Z {
        (b + 32) as u8
    } else {
        b
    }
}

/// `s` matches `('e' | 'E') Sign? Digit+` from `i` to the end.
pub open spec fn is_exp_from(s: Seq<u8>, i: int) -> bool {
    &&& 0 <= i < s.len()
    &&& (s[i] == B_LOW_E || s[i] == B_UP_E)
    &&& {
        let j = if i + 1 < s.len() && (s[i + 1] == B_PLUS || s[i + 1] == B_MINUS) {
            i + 2
        } else {
            i + 1
        };
        j < s.len() && digit_run_end(s, j) == s.len()
    }
}

/// `s` matches `Digit+ | Digit+ '.' Digit* | Digit* '.' Digit+`, each with an
/// optional exponent, from `i` to the end.
pub open spec fn is_number_from(s: Seq<u8>, i: int) -> bool {
    let d1 = digit_run_end(s, i);
    if d1 == s.len() {
        d1 > i
    } else if s[d1] == B_DOT {
        let d2 = digit_run_end(s, d1 + 1);
        (d1 > i || d2 > d1 + 1) && (d2 == s.len() || is_exp_from(s, d2))
    } else {
        d1 > i && is_exp_from(s, d1)
    }
}

/// `t` is `inf`, `infinity` or `nan`, case-insensitively.
pub open spec fn is_inf_nan(t: Seq<u8>) -> bool {
    ||| (t.len() == 3 && to_lower(t[0]) == B_I && to_lower(t[1]) == B_N && to_lower(t[2]) == B_F)
    ||| (t.len() == 8 && to_lower(t[0]) == B_I && to_lower(t[1]) == B_N && to_lower(t[2]) == B_F
        && to_lower(t[3]) == B_I && to_lower(t[4]) == B_N && to_lower(t[5]) == B_I && to_lower(
        t[6],
    ) == B_T && to_lower(t[7]) == B_Y)
    ||| (t.len() == 3 && to_lower(t[0]) == B_N && to_lower(t[1]) == B_A && to_lower(t[2]) == B_N)
}

/// `s` is text that standard floating-point parsing accepts: an optional
/// sign, then `inf`, `infinity`, `nan` (case-insensitive) or a number.
pub open spec fn is_float_text(s: Seq<u8>) -> bool {
    let i: int = if s.len() > 0 && (s[0] == B_PLUS || s[0] == B_MINUS) {
        1
    } else {
        0
    };
    is_inf_nan(s.skip(i)) || is_number_from(s, i)
}

/// The end of the run of digits starting at `i`.
pub fn scan_digits(s: &[u8], i: usize) -> (r: usize)
    requires
        i <= s@.len(),
    ensures
        r == digit_run_end(s@, i as int),
        i <= r <= s@.len(),
{
    let mut j = i;
    while j < s.len() && s[j] >= B_ZERO && s[j] <= B_NINE
        invariant
            i <= j <= s@.len(),
            digit_run_end(s@, i as int) == digit_run_end(s@, j as int),
        decreases s@.len() - j,
    {
        j += 1;
    }
    j
}

fn lower_byte(b: u8) -> (r: u8)
    ensures
        r == to_lower(b),
{
    if b >= B_UP_A && b <= B_UP_Z {
        b + 32
    } else {
        b
    }
}

/// Whether `s` from `start` to the end is `inf`, `infinity` or `nan`,
/// case-insensitively.
fn check_inf_nan(s: &[u8], start: usize) -> (r: bool)
    requires
        start <= s@.len(),
    ensures
        r == is_inf_nan(s@.skip(start as int)),
{
    let ghost t = s@.skip(start as int);
    proof {
        assert(forall|j: int| 0 <= j < t.len() ==> t[j] == s@[j + start]);
    }
    let n = s.len() - start;
    if n == 3 {
        let a = lower_byte(s[start]);
        let b = lower_byte(s[start + 1]);
        let c = lower_byte(s[start + 2]);
        (a == B_I && b == B_N && c == B_F) || (a == B_N && b == B_A && c == B_N)
    } else if n == 8 {
        lower_byte(s[start]) == B_I && lower_byte(s[start + 1]) == B_N && lower_byte(s[start + 2])
            == B_F && lower_byte(s[start + 3]) == B_I && lower_byte(s[start + 4]) == B_N
            && lower_byte(s[start + 5]) == B_I && lower_byte(s[start + 6]) == B_T && lower_byte(
            s[start + 7],
        ) == B_Y
    } else {
        false
    }
}

/// Whether `s` from `i` to the end is an exponent part.
fn check_exp(s: &[u8], i: usize) -> (r: bool)
    requires
        i <= s@.len(),
    ensures
        r == is_exp_from(s@, i as int),
{
    if i >= s.len() {
        return false;
    }
    if s[i] != B_LOW_E && s[i] != B_UP_E {
        return false;
    }
    let j = if i + 1 < s.len() && (s[i + 1] == B_PLUS || s[i + 1] == B_MINUS) {
        i + 2
    } else {
        i + 1
    };
    if j >= s.len() {
        return false;
    }
    let e = scan_digits(s, j);
    e == s.len()
}

/// Whether `s` is text that standard floating-point parsing accepts.
pub fn check_float_text(s: &[u8]) -> (r: bool)
    ensures
        r == is_float_text(s@),
{
    let start: usize = if s.len() > 0 && (s[0] == B_PLUS || s[0] == B_MINUS) {
        1
    } else {
        0
    };
    if check_inf_nan(s, start) {
        return true;
    }
    let d1 = scan_digits(s, start);
    if d1 == s.len() {
        return d1 > start;
    }
    if s[d1] == B_DOT {
        let d2 = scan_digits(s, d1 + 1);
        if !(d1 > start || d2 > d1 + 1) {
            return false;
        }
        if d2 == s.len() {
            return true;
        }
        return check_exp(s, d2);
    }
    if d1 == start {
        return false;
    }
    check_exp(s, d1)
}

/// Float text never contains a carriage return or a line feed, so a double
/// header never hides a line delimiter.
pub proof fn lemma_float_text_no_crlf(s: Seq<u8>)
    requires
        is_float_text(s),
    ensures
        forall|i: int| 0 <= i < s.len() ==> s[i] != B_CR && s[i] != B_LF,
{
    let start: int = if s.len() > 0 && (s[0] == B_PLUS || s[0] == B_MINUS) {
        1
    } else {
        0
    };
    let t = s.skip(start);
    if is_inf_nan(t) {
        assert forall|i: int| 0 <= i < s.len() implies s[i] != B_CR && s[i] != B_LF by {
            if i >= start {
                assert(t[i - start] == s[i]);
                assert(to_lower(s[i]) != B_CR && to_lower(s[i]) != B_LF);
            }
        }
    } else {
        let d1 = digit_run_end(s, start);
        lemma_digit_run_end(s, start);
        if d1 == s.len() {
        } else if s[d1] == B_DOT {
            let d2 = digit_run_end(s, d1 + 1);
            lemma_digit_run_end(s, d1 + 1);
            if d2 < s.len() {
                lemma_exp_no_crlf(s, d2);
            }
        } else {
            lemma_exp_no_crlf(s, d1);
        }
    }
}

proof fn lemma_exp_no_crlf(s: Seq<u8>, i: int)
    requires
        is_exp_from(s, i),
    ensures
        forall|j: int| i <= j < s.len() ==> s[j] != B_CR && s[j] != B_LF,
{
    let j = if i + 1 < s.len() && (s[i + 1] == B_PLUS || s[i + 1] == B_MINUS) {
        i + 2
    } else {
        i + 1
    };
    lemma_digit_run_end(s, j);
}

} // verus!
