//! Decimal number text: rendering of integers, parsing in the style of
//! `i64::from_str`, and the decimal-number grammar used by the codecs.
//!
//! A number in the value model is either an integer or a "float": a decimal
//! numeral kept as its own text. The grammar for that text is the JSON
//! number grammar (optional minus, integer part without leading zeros,
//! optional fraction, optional exponent).

use vstd::prelude::*;

verus! {

pub open spec fn is_digit(c: char) -> bool {
    '0' <= c && c <= '9'
}

pub open spec fn digit_char(d: int) -> char {
    if d == 0 { '0' }
    else if d == 1 { '1' }
    else if d == 2 { '2' }
    else if d == 3 { '3' }
    else if d == 4 { '4' }
    else if d == 5 { '5' }
    else if d == 6 { '6' }
    else if d == 7 { '7' }
    else if d == 8 { '8' }
    else { '9' }
}

pub open spec fn digit_val(c: char) -> int {
    if c == '0' { 0 }
    else if c == '1' { 1 }
    else if c == '2' { 2 }
    else if c == '3' { 3 }
    else if c == '4' { 4 }
    else if c == '5' { 5 }
    else if c == '6' { 6 }
    else if c == '7' { 7 }
    else if c == '8' { 8 }
    else { 9 }
}

/// Decimal text of a natural number, no sign, no leading zeros.
pub open spec fn dec_text(n: nat) -> Seq<char>
    decreases n,
{
    if n < 10 {
        seq![digit_char(n as int)]
    } else {
        dec_text(n / 10).push(digit_char((n % 10) as int))
    }
}

/// Decimal text of an integer: a minus sign for negatives, then the digits.
pub open spec fn int_text(i: int) -> Seq<char> {
    if i < 0 {
        seq!['-'] + dec_text((-i) as nat)
    } else {
        dec_text(i as nat)
    }
}

pub open spec fn all_digits(s: Seq<char>) -> bool {
    forall|i: int| 0 <= i < s.len() ==> is_digit(#[trigger] s[i])
}

/// Value of a digit string read as a base-10 numeral.
pub open spec fn digits_val(s: Seq<char>) -> int
    decreases s.len(),
{
    if s.len() == 0 {
        0
    } else {
        digits_val(s.drop_last()) * 10 + digit_val(s.last())
    }
}

/// The parse `i64::from_str` performs: an optional sign, then one or more
/// digits; the value must fit the `i64` range.
pub open spec fn int_parse(s: Seq<char>) -> Option<int> {
    let digits = if s.len() > 0 && (s[0] == '-' || s[0] == '+') {
        s.subrange(1, s.len() as int)
    } else {
        s
    };
    let negative = s.len() > 0 && s[0] == '-';
    if digits.len() > 0 && all_digits(digits) {
        let v = if negative { -digits_val(digits) } else { digits_val(digits) };
        if i64::MIN <= v <= i64::MAX {
            Some(v)
        } else {
            None
        }
    } else {
        None
    }
}

/// End of a digit run beginning at `i`.
pub open spec fn digits_end(s: Seq<char>, i: nat) -> nat
    decreases s.len() - i when i <= s.len()
{
    if i < s.len() && is_digit(s[i as int]) {
        digits_end(s, i + 1)
    } else {
        i
    }
}

/// End of the integer part of a decimal numeral at `i`: a single `0`, or a
/// nonzero digit followed by more digits. `None` if no valid integer part
/// starts here.
pub open spec fn int_part_end(s: Seq<char>, i: nat) -> Option<nat> {
    if i < s.len() && s[i as int] == '0' {
        Some(i + 1)
    } else if i < s.len() && is_digit(s[i as int]) {
        Some(digits_end(s, i))
    } else {
        None
    }
}

/// End of an optional fraction part at `i`: `.` then one or more digits.
pub open spec fn frac_end(s: Seq<char>, i: nat) -> Option<nat> {
    if i < s.len() && s[i as int] == '.' {
        if i + 1 < s.len() && is_digit(s[i as int + 1]) {
            Some(digits_end(s, i + 1))
        } else {
            None
        }
    } else {
        Some(i)
    }
}

/// End of an optional exponent part at `i`: `e` or `E`, an optional sign,
/// then one or more digits.
pub open spec fn exp_end(s: Seq<char>, i: nat) -> Option<nat> {
    if i < s.len() && (s[i as int] == 'e' || s[i as int] == 'E') {
        let j: nat = if i + 1 < s.len() && (s[i as int + 1] == '+' || s[i as int + 1] == '-') {
            i + 2
        } else {
            i + 1
        };
        if j < s.len() && is_digit(s[j as int]) {
            Some(digits_end(s, j))
        } else {
            None
        }
    } else {
        Some(i)
    }
}

/// The whole sequence is one decimal numeral of the JSON number grammar.
pub open spec fn is_number_text(s: Seq<char>) -> bool {
    let i: nat = if s.len() > 0 && s[0] == '-' { 1 } else { 0 };
    match int_part_end(s, i) {
        Some(b) => match frac_end(s, b) {
            Some(c) => match exp_end(s, c) {
                Some(d) => d == s.len(),
                None => false,
            },
            None => false,
        },
        None => false,
    }
}

/// The numeral carries a fraction or exponent part.
pub open spec fn has_frac_or_exp(s: Seq<char>) -> bool {
    exists|i: int| 0 <= i < s.len() && (s[i] == '.' || s[i] == 'e' || s[i] == 'E')
}

/// Value of a decimal numeral that has no fraction and no exponent.
pub open spec fn plain_int_val(s: Seq<char>) -> int {
    if s.len() > 0 && s[0] == '-' {
        -digits_val(s.subrange(1, s.len() as int))
    } else {
        digits_val(s)
    }
}

/// Text a float value carries: a decimal numeral that is not a plain
/// integer the `i64` range could hold.
pub open spec fn is_float_text(s: Seq<char>) -> bool {
    is_number_text(s) && !(!has_frac_or_exp(s) && i64::MIN <= plain_int_val(s) <= i64::MAX)
}

pub proof fn lemma_digits_end_bounds(s: Seq<char>, i: nat)
    requires
        i <= s.len(),
    ensures
        i <= digits_end(s, i) <= s.len(),
        forall|k: int| i <= k < digits_end(s, i) ==> is_digit(#[trigger] s[k]),
        digits_end(s, i) < s.len() ==> !is_digit(s[digits_end(s, i) as int]),
    decreases s.len() - i,
{
    if i < s.len() && is_digit(s[i as int]) {
        lemma_digits_end_bounds(s, i + 1);
    }
}

pub proof fn lemma_digits_val_bounds(s: Seq<char>)
    ensures
        0 <= digits_val(s),
    decreases s.len(),
{
    if s.len() > 0 {
        lemma_digits_val_bounds(s.drop_last());
    }
}

/// A longer digit string reads as at least as large a value.
pub proof fn lemma_digits_val_prefix(s: Seq<char>, k: int)
    requires
        0 <= k <= s.len(),
    ensures
        digits_val(s.subrange(0, k)) <= digits_val(s),
    decreases s.len() - k,
{
    if k < s.len() {
        lemma_digits_val_prefix(s, k + 1);
        let a = s.subrange(0, k);
        let b = s.subrange(0, k + 1);
        assert(b.drop_last() =~= a);
        assert(b.last() == s[k]);
        lemma_digits_val_bounds(a);
    } else {
        assert(s.subrange(0, k) =~= s);
    }
}

/// Executable digit test matching [`is_digit`].
pub fn digit(c: char) -> (r: bool)
    ensures
        r == is_digit(c),
{
    '0' <= c && c <= '9'
}

/// Executable digit value matching [`digit_val`].
pub fn digit_value(c: char) -> (r: u8)
    requires
        is_digit(c),
    ensures
        r as int == digit_val(c),
{
    if c == '0' { 0 }
    else if c == '1' { 1 }
    else if c == '2' { 2 }
    else if c == '3' { 3 }
    else if c == '4' { 4 }
    else if c == '5' { 5 }
    else if c == '6' { 6 }
    else if c == '7' { 7 }
    else if c == '8' { 8 }
    else { 9 }
}

fn digit_to_char(d: u8) -> (r: char)
    requires
        d < 10,
    ensures
        r == digit_char(d as int),
{
    if d == 0 { '0' }
    else if d == 1 { '1' }
    else if d == 2 { '2' }
    else if d == 3 { '3' }
    else if d == 4 { '4' }
    else if d == 5 { '5' }
    else if d == 6 { '6' }
    else if d == 7 { '7' }
    else if d == 8 { '8' }
    else { '9' }
}

fn u64_chars(n: u64) -> (r: Vec<char>)
    ensures
        r@ == dec_text(n as nat),
    decreases n,
{
    if n < 10 {
        let mut r: Vec<char> = Vec::new();
        r.push(digit_to_char(n as u8));
        proof {
            assert(r@ =~= seq![digit_char(n as int)]);
        }
        r
    } else {
        let mut r = u64_chars(n / 10);
        r.push(digit_to_char((n % 10) as u8));
        r
    }
}

/// Decimal rendering of an `i64`, matching [`int_text`].
pub fn i64_chars(i: i64) -> (r: Vec<char>)
    ensures
        r@ == int_text(i as int),
{
    if i >= 0 {
        u64_chars(i as u64)
    } else {
        let mag: u64 = ((-(i as i128)) as u64);
        let digits = u64_chars(mag);
        let mut r: Vec<char> = Vec::new();
        r.push('-');
        let mut k: usize = 0;
        while k < digits.len()
            invariant
                k <= digits@.len(),
                r@ == seq!['-'] + digits@.subrange(0, k as int),
            decreases digits@.len() - k,
        {
            r.push(digits[k]);
            k += 1;
            proof {
                assert(r@ =~= seq!['-'] + digits@.subrange(0, k as int));
            }
        }
        proof {
            assert(digits@.subrange(0, digits@.len() as int) =~= digits@);
        }
        r
    }
}

/// Parse in the style of `i64::from_str`, matching [`int_parse`].
pub fn parse_i64(s: &Vec<char>) -> (r: Option<i64>)
    ensures
        match r {
            Some(v) => int_parse(s@) == Some(v as int),
            None => int_parse(s@) is None,
        },
{
    let mut i: usize = 0;
    let mut negative = false;
    if s.len() > 0 && (s[0] == '-' || s[0] == '+') {
        negative = s[0] == '-';
        i = 1;
    }
    let ghost digits = if s@.len() > 0 && (s@[0] == '-' || s@[0] == '+') {
        s@.subrange(1, s@.len() as int)
    } else {
        s@
    };
    if i == s.len() {
        return None;
    }
    let mut acc: u128 = 0;
    let start = i;
    while i < s.len()
        invariant
            start <= i <= s@.len(),
            start == if s@.len() > 0 && (s@[0] == '-' || s@[0] == '+') { 1int } else { 0int },
            digits == s@.subrange(start as int, s@.len() as int),
            acc == digits_val(s@.subrange(start as int, i as int)),
            acc <= 0x8000_0000_0000_0000u128,
            forall|k: int| start <= k < i ==> is_digit(#[trigger] s@[k]),
        decreases s@.len() - i,
    {
        let c = s[i];
        if !digit(c) {
            proof {
                assert(digits[i - start] == s@[i as int]);
                assert(!all_digits(digits));
            }
            return None;
        }
        let d = digit_value(c);
        proof {
            let pre = s@.subrange(start as int, i as int);
            let post = s@.subrange(start as int, i as int + 1);
            assert(post.drop_last() =~= pre);
            assert(post.last() == s@[i as int]);
        }
        acc = acc * 10 + (d as u128);
        i += 1;
        if acc > 0x8000_0000_0000_0000u128 {
            proof {
                let part = s@.subrange(start as int, i as int);
                assert(acc == digits_val(part));
                assert(digits.subrange(0, i - start) =~= part);
                lemma_digits_val_prefix(digits, i - start);
                assert(digits_val(part) <= digits_val(digits));
                assert(digits_val(digits) > 0x8000_0000_0000_0000);
                assert(digits.len() >= i - start >= 1);
                if all_digits(digits) {
                    let w = if s@.len() > 0 && s@[0] == '-' {
                        -digits_val(digits)
                    } else {
                        digits_val(digits)
                    };
                    assert(!(i64::MIN <= w <= i64::MAX));
                }
                assert(digits == (if s@.len() > 0 && (s@[0] == '-' || s@[0] == '+') {
                    s@.subrange(1, s@.len() as int)
                } else {
                    s@
                }));
                assert(digits.len() > 0);
                assert(digits_val(digits) > 0x8000_0000_0000_0000);
                assert(int_parse(s@) is None);
            }
            return None;
        }
    }
    proof {
        assert(s@.subrange(start as int, s@.len() as int) =~= digits);
        assert(all_digits(digits)) by {
            assert forall|j: int| 0 <= j < digits.len() implies is_digit(#[trigger] digits[j]) by {
                assert(digits[j] == s@[start + j]);
            }
        }
    }
    if negative {
        if acc == 0x8000_0000_0000_0000u128 {
            Some(i64::MIN)
        } else {
            Some(-(acc as i64))
        }
    } else {
        if acc > 0x7FFF_FFFF_FFFF_FFFFu128 {
            None
        } else {
            Some(acc as i64)
        }
    }
}

/// Executable scan matching [`digits_end`].
pub fn digits_end_x(s: &Vec<char>, i: usize) -> (r: usize)
    requires
        i <= s@.len(),
    ensures
        r as nat == digits_end(s@, i as nat),
        i <= r <= s@.len(),
{
    let mut k: usize = i;
    while k < s.len() && digit(s[k])
        invariant
            i <= k <= s@.len(),
            digits_end(s@, i as nat) == digits_end(s@, k as nat),
        decreases s@.len() - k,
    {
        k += 1;
    }
    k
}

/// Executable check matching [`is_number_text`].
pub fn number_check(t: &Vec<char>) -> (r: bool)
    ensures
        r == is_number_text(t@),
{
    let n = t.len();
    let start: usize = if n > 0 && t[0] == '-' {
        1
    } else {
        0
    };
    if start >= n {
        return false;
    }
    let b: usize = if t[start] == '0' {
        start + 1
    } else if digit(t[start]) {
        digits_end_x(t, start)
    } else {
        return false;
    };
    let c: usize = if b < n && t[b] == '.' {
        if b + 1 < n && digit(t[b + 1]) {
            digits_end_x(t, b + 1)
        } else {
            return false;
        }
    } else {
        b
    };
    let d: usize = if c < n && (t[c] == 'e' || t[c] == 'E') {
        let j: usize = if c + 1 < n && (t[c + 1] == '+' || t[c + 1] == '-') {
            c + 2
        } else {
            c + 1
        };
        if j < n && digit(t[j]) {
            digits_end_x(t, j)
        } else {
            return false;
        }
    } else {
        c
    };
    d == n
}

/// Executable check matching [`has_frac_or_exp`].
pub fn hfe_check(t: &Vec<char>) -> (r: bool)
    ensures
        r == has_frac_or_exp(t@),
{
    let mut i: usize = 0;
    while i < t.len()
        invariant
            i <= t@.len(),
            forall|k: int|
                0 <= k < i ==> !(#[trigger] t@[k] == '.' || t@[k] == 'e' || t@[k] == 'E'),
        decreases t@.len() - i,
    {
        let c = t[i];
        if c == '.' || c == 'e' || c == 'E' {
            proof {
                assert(t@[i as int] == '.' || t@[i as int] == 'e' || t@[i as int] == 'E');
            }
            return true;
        }
        i += 1;
    }
    false
}

/// A decimal numeral without fraction or exponent is exactly what
/// `i64::from_str` accepts, up to range.
pub proof fn lemma_plain_int(t: Seq<char>)
    requires
        is_number_text(t),
        !has_frac_or_exp(t),
    ensures
        int_parse(t) == if i64::MIN <= plain_int_val(t) <= i64::MAX {
            Some(plain_int_val(t))
        } else {
            None
        },
{
    let i0: nat = if t.len() > 0 && t[0] == '-' { 1 } else { 0 as nat };
    let b = int_part_end(t, i0)->0;
    if b < t.len() && t[b as int] == '.' {
        assert(has_frac_or_exp(t));
    }
    if b < t.len() && (t[b as int] == 'e' || t[b as int] == 'E') {
        assert(has_frac_or_exp(t));
    }
    assert(frac_end(t, b) == Some(b));
    assert(exp_end(t, b) == Some(b));
    assert(b == t.len());
    if t[i0 as int] == '0' {
        assert(b == i0 + 1);
        assert(forall|k: int| i0 <= k < t.len() ==> is_digit(#[trigger] t[k]));
    } else {
        lemma_digits_end_bounds(t, i0);
    }
    let digits = t.subrange(i0 as int, t.len() as int);
    assert(all_digits(digits)) by {
        assert forall|k: int| 0 <= k < digits.len() implies is_digit(#[trigger] digits[k]) by {
            assert(digits[k] == t[i0 + k]);
        }
    }
    assert(digits.len() > 0);
    if t.len() > 0 && t[0] == '+' {
        assert(int_part_end(t, 0) is None);
        assert(false);
    }
    if i0 == 0 {
        assert(digits =~= t);
    }
}

/// The parse `u64::from_str` performs: an optional plus sign, then one
/// or more digits; the value must fit the `u64` range.
pub open spec fn uint_parse(s: Seq<char>) -> Option<int> {
    let digits = if s.len() > 0 && s[0] == '+' {
        s.subrange(1, s.len() as int)
    } else {
        s
    };
    if digits.len() > 0 && all_digits(digits) {
        if digits_val(digits) <= u64::MAX {
            Some(digits_val(digits))
        } else {
            None
        }
    } else {
        None
    }
}

/// Parse in the style of `u64::from_str`, matching [`uint_parse`].
pub fn parse_u64(s: &Vec<char>) -> (r: Option<u64>)
    ensures
        match r {
            Some(v) => uint_parse(s@) == Some(v as int),
            None => uint_parse(s@) is None,
        },
{
    let mut i: usize = 0;
    if s.len() > 0 && s[0] == '+' {
        i = 1;
    }
    let ghost digits = if s@.len() > 0 && s@[0] == '+' {
        s@.subrange(1, s@.len() as int)
    } else {
        s@
    };
    if i == s.len() {
        return None;
    }
    let mut acc: u128 = 0;
    let start = i;
    while i < s.len()
        invariant
            start <= i <= s@.len(),
            start == if s@.len() > 0 && s@[0] == '+' {
                1int
            } else {
                0int
            },
            digits == s@.subrange(start as int, s@.len() as int),
            acc == digits_val(s@.subrange(start as int, i as int)),
            acc <= u64::MAX,
            forall|k: int| start <= k < i ==> is_digit(#[trigger] s@[k]),
        decreases s@.len() - i,
    {
        let c = s[i];
        if !digit(c) {
            proof {
                assert(digits[i - start] == s@[i as int]);
                assert(!all_digits(digits));
            }
            return None;
        }
        let d = digit_value(c);
        proof {
            let pre = s@.subrange(start as int, i as int);
            let post = s@.subrange(start as int, i as int + 1);
            assert(post.drop_last() =~= pre);
            assert(post.last() == s@[i as int]);
        }
        acc = acc * 10 + (d as u128);
        i += 1;
        if acc > 0xFFFF_FFFF_FFFF_FFFFu128 {
            proof {
                let part = s@.subrange(start as int, i as int);
                assert(acc == digits_val(part));
                assert(digits.subrange(0, i - start) =~= part);
                lemma_digits_val_prefix(digits, i - start);
                assert(digits_val(part) <= digits_val(digits));
                assert(digits.len() >= i - start >= 1);
                assert(digits == (if s@.len() > 0 && s@[0] == '+' {
                    s@.subrange(1, s@.len() as int)
                } else {
                    s@
                }));
                assert(uint_parse(s@) is None);
            }
            return None;
        }
    }
    proof {
        assert(s@.subrange(start as int, s@.len() as int) =~= digits);
        assert(all_digits(digits)) by {
            assert forall|j: int| 0 <= j < digits.len() implies is_digit(#[trigger] digits[j]) by {
                assert(digits[j] == s@[start + j]);
            }
        }
    }
    Some(acc as u64)
}

/// The decimal text of a natural number: digits only, its value reads
/// back, and no leading zero unless the number is zero.
pub proof fn lemma_dec_text(n: nat)
    ensures
        all_digits(dec_text(n)),
        digits_val(dec_text(n)) == n,
        dec_text(n).len() >= 1,
        n > 0 ==> dec_text(n)[0] != '0',
        n == 0 ==> dec_text(n) == seq!['0'],
    decreases n,
{
    if n < 10 {
        assert(dec_text(n) =~= seq![digit_char(n as int)]);
        let t = seq![digit_char(n as int)];
        assert(t.drop_last() =~= Seq::<char>::empty());
        assert(digits_val(t.drop_last()) == 0);
        assert(digits_val(t) == digit_val(digit_char(n as int)));
        assert(digit_val(digit_char(n as int)) == n);
    } else {
        lemma_dec_text(n / 10);
        let t = dec_text(n);
        let pre = dec_text(n / 10);
        assert(t =~= pre.push(digit_char((n % 10) as int)));
        assert(t.drop_last() =~= pre);
        assert(t[0] == pre[0]);
        assert forall|k: int| 0 <= k < t.len() implies is_digit(#[trigger] t[k]) by {
            if k < pre.len() {
                assert(t[k] == pre[k]);
            }
        }
    }
}

/// A run of digits scans to its end.
pub proof fn lemma_digits_end_all(s: Seq<char>, i: nat, e: nat)
    requires
        i <= e <= s.len(),
        forall|k: int| i <= k < e ==> is_digit(#[trigger] s[k]),
        e == s.len() || !is_digit(s[e as int]),
    ensures
        digits_end(s, i) == e,
    decreases e - i,
{
    if i < e {
        lemma_digits_end_all(s, i + 1, e);
    }
}

/// The decimal text of an integer is one decimal numeral without
/// fraction or exponent, made of number characters, and reads back to
/// the same value.
pub proof fn lemma_int_text_number(v: int)
    requires
        i64::MIN <= v <= i64::MAX,
    ensures
        is_number_text(int_text(v)),
        !has_frac_or_exp(int_text(v)),
        plain_int_val(int_text(v)) == v,
        int_text(v).len() >= 1,
        forall|k: int|
            0 <= k < int_text(v).len() ==> (is_digit(#[trigger] int_text(v)[k]) || int_text(
                v,
            )[k] == '-'),
{
    let t = int_text(v);
    if v >= 0 {
        lemma_dec_text(v as nat);
        assert(t == dec_text(v as nat));
        assert(is_digit(t[0]));
        assert(t[0] != '-' && t[0] != '+');
        if t[0] == '0' {
            assert(v == 0);
            assert(t =~= seq!['0']);
            assert(int_part_end(t, 0) == Some(1nat));
            assert(frac_end(t, 1) == Some(1nat));
            assert(exp_end(t, 1) == Some(1nat));
        } else {
            lemma_digits_end_all(t, 0, t.len());
            assert(int_part_end(t, 0) == Some(t.len()));
            assert(frac_end(t, t.len()) == Some(t.len()));
            assert(exp_end(t, t.len()) == Some(t.len()));
        }
        assert(is_number_text(t));
        assert(!has_frac_or_exp(t)) by {
            if has_frac_or_exp(t) {
                let k = choose|k: int|
                    0 <= k < t.len() && (t[k] == '.' || t[k] == 'e' || t[k] == 'E');
                assert(is_digit(t[k]));
            }
        }
        assert(plain_int_val(t) == digits_val(t));
    } else {
        let mag = (-v) as nat;
        lemma_dec_text(mag);
        assert(t == seq!['-'] + dec_text(mag));
        assert(t[0] == '-');
        let digits = t.subrange(1, t.len() as int);
        assert(digits =~= dec_text(mag));
        assert forall|k: int| 1 <= k < t.len() implies is_digit(#[trigger] t[k]) by {
            assert(t[k] == digits[k - 1]);
        }
        if t[1] == '0' {
            assert(digits[0] == '0');
            assert(mag == 0);
            assert(false);
        }
        assert(is_digit(t[1]));
        lemma_digits_end_all(t, 1, t.len());
        assert(int_part_end(t, 1) == Some(t.len()));
        assert(frac_end(t, t.len()) == Some(t.len()));
        assert(exp_end(t, t.len()) == Some(t.len()));
        assert(is_number_text(t));
        assert(!has_frac_or_exp(t)) by {
            if has_frac_or_exp(t) {
                let k = choose|k: int|
                    0 <= k < t.len() && (t[k] == '.' || t[k] == 'e' || t[k] == 'E');
                if k >= 1 {
                    assert(is_digit(t[k]));
                }
            }
        }
        assert(plain_int_val(t) == -digits_val(digits));
    }
}

/// Every character of a decimal numeral is a number character.
pub proof fn lemma_number_chars(t: Seq<char>)
    requires
        is_number_text(t),
    ensures
        forall|k: int|
            0 <= k < t.len() ==> (is_digit(#[trigger] t[k]) || t[k] == '-' || t[k] == '+' || t[k]
                == '.' || t[k] == 'e' || t[k] == 'E'),
{
    let i0: nat = if t.len() > 0 && t[0] == '-' { 1 } else { 0 as nat };
    let b = int_part_end(t, i0)->0;
    let c = frac_end(t, b)->0;
    let d = exp_end(t, c)->0;
    assert(d == t.len());
    if !(i0 < t.len() && t[i0 as int] == '0') {
        lemma_digits_end_bounds(t, i0);
    }
    assert(i0 <= b <= t.len());
    assert forall|k: int| i0 <= k < b implies is_digit(#[trigger] t[k]) by {
        if i0 < t.len() && t[i0 as int] == '0' {
            assert(b == i0 + 1);
        } else {
            lemma_digits_end_bounds(t, i0);
        }
    }
    assert(b <= c <= t.len());
    if b < t.len() && t[b as int] == '.' {
        lemma_digits_end_bounds(t, b + 1);
        assert forall|k: int| b < k < c implies is_digit(#[trigger] t[k]) by {}
    } else {
        assert(c == b);
    }
    if c < t.len() && (t[c as int] == 'e' || t[c as int] == 'E') {
        let j: nat = if c + 1 < t.len() && (t[c as int + 1] == '+' || t[c as int + 1] == '-') {
            c + 2
        } else {
            c + 1
        };
        lemma_digits_end_bounds(t, j);
        assert forall|k: int|
            0 <= k < t.len() implies (is_digit(#[trigger] t[k]) || t[k] == '-' || t[k] == '+'
                || t[k] == '.' || t[k] == 'e' || t[k] == 'E') by {
            if k < i0 {
            } else if k < b {
            } else if k == b && b < c {
            } else if k < c {
            } else if k == c {
            } else if k < j {
            } else {
            }
        }
    } else {
        assert(d == c);
        assert forall|k: int|
            0 <= k < t.len() implies (is_digit(#[trigger] t[k]) || t[k] == '-' || t[k] == '+'
                || t[k] == '.' || t[k] == 'e' || t[k] == 'E') by {
            if k < i0 {
            } else if k < b {
            } else if k == b && b < c {
            } else if k < c {
            }
        }
    }
}

} // verus!

