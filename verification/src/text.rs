//! Character-level text utilities shared by the codecs.
//!
//! The codecs work on `Vec<char>` internally; the boundary functions here
//! move between `&str` / `String` and character vectors, and provide the
//! trimming, searching and lexicographic ordering the codecs need.

use vstd::prelude::*;

verus! {

/// ASCII whitespace: space, tab, line feed, form feed, carriage return.
pub open spec fn is_ascii_ws(c: char) -> bool {
    c == ' ' || c == '\t' || c == '\n' || c == '\u{c}' || c == '\r'
}

/// Index of the first non-whitespace character at or after `i`.
pub open spec fn ws_prefix_end(s: Seq<char>, i: nat) -> nat
    decreases s.len() - i when i <= s.len()
{
    if i < s.len() && is_ascii_ws(s[i as int]) {
        ws_prefix_end(s, i + 1)
    } else {
        i
    }
}

/// Index just after the last non-whitespace character at or before `j`.
pub open spec fn ws_suffix_start(s: Seq<char>, j: nat) -> nat
    decreases j
{
    if j > 0 && j <= s.len() && is_ascii_ws(s[j - 1]) {
        ws_suffix_start(s, (j - 1) as nat)
    } else {
        j
    }
}

/// The sequence with leading and trailing ASCII whitespace removed.
pub open spec fn trim_spec(s: Seq<char>) -> Seq<char> {
    let a = ws_prefix_end(s, 0);
    let b = ws_suffix_start(s, s.len());
    if a <= b {
        s.subrange(a as int, b as int)
    } else {
        Seq::empty()
    }
}

pub proof fn lemma_ws_prefix_end_bounds(s: Seq<char>, i: nat)
    requires
        i <= s.len(),
    ensures
        i <= ws_prefix_end(s, i) <= s.len(),
    decreases s.len() - i,
{
    if i < s.len() && is_ascii_ws(s[i as int]) {
        lemma_ws_prefix_end_bounds(s, i + 1);
    }
}

pub proof fn lemma_ws_suffix_start_bounds(s: Seq<char>, j: nat)
    requires
        j <= s.len(),
    ensures
        ws_suffix_start(s, j) <= j,
    decreases j,
{
    if j > 0 && is_ascii_ws(s[j - 1]) {
        lemma_ws_suffix_start_bounds(s, (j - 1) as nat);
    }
}

/// Executable check matching [`is_ascii_ws`].
pub fn ascii_ws(c: char) -> (r: bool)
    ensures
        r == is_ascii_ws(c),
{
    c == ' ' || c == '\t' || c == '\n' || c == '\u{c}' || c == '\r'
}

/// Collect the characters of a string slice.
pub fn to_chars(s: &str) -> (r: Vec<char>)
    ensures
        r@ == s@,
{
    let n = s.unicode_len();
    let mut r: Vec<char> = Vec::new();
    let mut i: usize = 0;
    while i < n
        invariant
            n == s@.len(),
            i <= n,
            r@ == s@.subrange(0, i as int),
        decreases n - i,
    {
        r.push(s.get_char(i));
        i += 1;
        proof {
            assert(r@ =~= s@.subrange(0, i as int));
        }
    }
    proof {
        assert(r@ =~= s@);
    }
    r
}

/// Relies on `String::push`: appends one character to the string.
#[verifier::external_body]
pub fn push_char(out: &mut String, c: char)
    ensures
        final(out)@ == old(out)@.push(c),
{
    out.push(c);
}

/// Append every character of `v` to `out`.
pub fn append_chars(out: &mut String, v: &Vec<char>)
    ensures
        final(out)@ == old(out)@ + v@,
{
    let mut i: usize = 0;
    while i < v.len()
        invariant
            i <= v@.len(),
            out@ == old(out)@ + v@.subrange(0, i as int),
        decreases v@.len() - i,
    {
        push_char(out, v[i]);
        i += 1;
        proof {
            assert(old(out)@ + v@.subrange(0, i - 1) + seq![v@[i - 1]] =~= old(out)@
                + v@.subrange(0, i as int));
        }
    }
    proof {
        assert(old(out)@ + v@.subrange(0, v@.len() as int) =~= old(out)@ + v@);
    }
}

/// Build a `String` out of a character vector.
pub fn chars_to_string(v: &Vec<char>) -> (r: String)
    ensures
        r@ == v@,
{
    let mut r = String::new();
    append_chars(&mut r, v);
    proof {
        assert(Seq::<char>::empty() + v@ =~= v@);
    }
    r
}

/// Copy `v[a..b]` into a fresh vector.
pub fn subvec(v: &Vec<char>, a: usize, b: usize) -> (r: Vec<char>)
    requires
        a <= b <= v@.len(),
    ensures
        r@ == v@.subrange(a as int, b as int),
{
    let mut r: Vec<char> = Vec::new();
    let mut i: usize = a;
    while i < b
        invariant
            a <= i <= b <= v@.len(),
            r@ == v@.subrange(a as int, i as int),
        decreases b - i,
    {
        r.push(v[i]);
        i += 1;
        proof {
            assert(r@ =~= v@.subrange(a as int, i as int));
        }
    }
    r
}

/// Remove leading and trailing ASCII whitespace.
pub fn trim(v: &Vec<char>) -> (r: Vec<char>)
    ensures
        r@ == trim_spec(v@),
{
    let mut a: usize = 0;
    while a < v.len() && ascii_ws(v[a])
        invariant
            a <= v@.len(),
            ws_prefix_end(v@, 0) == ws_prefix_end(v@, a as nat),
        decreases v@.len() - a,
    {
        a += 1;
    }
    let mut b: usize = v.len();
    while b > a && ascii_ws(v[b - 1])
        invariant
            a <= b <= v@.len(),
            ws_suffix_start(v@, v@.len()) == ws_suffix_start(v@, b as nat),
            a == ws_prefix_end(v@, 0),
        decreases b,
    {
        b -= 1;
    }
    proof {
        if b == a {
            lemma_ws_suffix_start_bounds(v@, b as nat);
        }
    }
    subvec(v, a, b)
}

/// First index at or after `i` holding character `c`, or the length.
pub open spec fn idx_of(s: Seq<char>, c: char, i: nat) -> nat
    decreases s.len() - i when i <= s.len()
{
    if i < s.len() {
        if s[i as int] == c {
            i
        } else {
            idx_of(s, c, i + 1)
        }
    } else {
        i
    }
}

pub proof fn lemma_idx_of_bounds(s: Seq<char>, c: char, i: nat)
    requires
        i <= s.len(),
    ensures
        i <= idx_of(s, c, i) <= s.len(),
        idx_of(s, c, i) < s.len() ==> s[idx_of(s, c, i) as int] == c,
        forall|k: int| i <= k < idx_of(s, c, i) ==> s[k] != c,
    decreases s.len() - i,
{
    if i < s.len() && s[i as int] != c {
        lemma_idx_of_bounds(s, c, i + 1);
    }
}

/// Executable search matching [`idx_of`].
pub fn find_char(v: &Vec<char>, c: char, from: usize) -> (r: usize)
    requires
        from <= v@.len(),
    ensures
        r == idx_of(v@, c, from as nat),
{
    let mut i: usize = from;
    while i < v.len() && v[i] != c
        invariant
            from <= i <= v@.len(),
            idx_of(v@, c, from as nat) == idx_of(v@, c, i as nat),
        decreases v@.len() - i,
    {
        i += 1;
    }
    i
}

/// Strict lexicographic order on character sequences by code point,
/// matching the order `str` comparison gives.
pub open spec fn lex_lt(a: Seq<char>, b: Seq<char>) -> bool
    decreases a.len(),
{
    if b.len() == 0 {
        false
    } else if a.len() == 0 {
        true
    } else if (a[0] as u32) < (b[0] as u32) {
        true
    } else if a[0] != b[0] {
        false
    } else {
        lex_lt(a.subrange(1, a.len() as int), b.subrange(1, b.len() as int))
    }
}

fn lex_lt_from(a: &Vec<char>, b: &Vec<char>, i: usize) -> (r: bool)
    requires
        i <= a@.len(),
        i <= b@.len(),
    ensures
        r == lex_lt(a@.skip(i as int), b@.skip(i as int)),
    decreases a@.len() - i,
{
    if i == b.len() {
        false
    } else if i == a.len() {
        true
    } else if (a[i] as u32) < (b[i] as u32) {
        true
    } else if a[i] != b[i] {
        false
    } else {
        proof {
            assert(a@.skip(i as int).subrange(1, a@.skip(i as int).len() as int) =~= a@.skip(
                i as int + 1,
            ));
            assert(b@.skip(i as int).subrange(1, b@.skip(i as int).len() as int) =~= b@.skip(
                i as int + 1,
            ));
        }
        lex_lt_from(a, b, i + 1)
    }
}

/// Executable comparison matching [`lex_lt`].
pub fn chars_lex_lt(a: &Vec<char>, b: &Vec<char>) -> (r: bool)
    ensures
        r == lex_lt(a@, b@),
{
    proof {
        assert(a@.skip(0) =~= a@);
        assert(b@.skip(0) =~= b@);
    }
    lex_lt_from(a, b, 0)
}

pub proof fn lemma_lex_lt_total(a: Seq<char>, b: Seq<char>)
    ensures
        lex_lt(a, b) || lex_lt(b, a) || a =~= b,
    decreases a.len(),
{
    if a.len() > 0 && b.len() > 0 && !lex_lt(a, b) && !lex_lt(b, a) {
        vstd::utf8::char_u32_cast(a[0], (a[0] as u32) as u32);
        vstd::utf8::char_u32_cast(b[0], (b[0] as u32) as u32);
        assert(a[0] == b[0]);
        lemma_lex_lt_total(a.subrange(1, a.len() as int), b.subrange(1, b.len() as int));
        if a.subrange(1, a.len() as int) =~= b.subrange(1, b.len() as int) {
            assert forall|i: int| 0 <= i < a.len() implies a[i] == b[i] by {
                if i > 0 {
                    assert(a[i] == a.subrange(1, a.len() as int)[i - 1]);
                    assert(b[i] == b.subrange(1, b.len() as int)[i - 1]);
                }
            }
            assert(a =~= b);
        }
    }
}

pub proof fn lemma_lex_lt_irrefl(a: Seq<char>)
    ensures
        !lex_lt(a, a),
    decreases a.len(),
{
    if a.len() > 0 {
        lemma_lex_lt_irrefl(a.subrange(1, a.len() as int));
    }
}

pub proof fn lemma_lex_lt_trans(a: Seq<char>, b: Seq<char>, c: Seq<char>)
    requires
        lex_lt(a, b),
        lex_lt(b, c),
    ensures
        lex_lt(a, c),
    decreases a.len(),
{
    if a.len() > 0 && b.len() > 0 && c.len() > 0 && a[0] == b[0] && b[0] == c[0] {
        lemma_lex_lt_trans(
            a.subrange(1, a.len() as int),
            b.subrange(1, b.len() as int),
            c.subrange(1, c.len() as int),
        );
    }
}

/// Case-insensitive ASCII equality with a given lowercase word.
pub open spec fn eq_ignore_ascii_case_spec(s: Seq<char>, lower: Seq<char>) -> bool {
    s.len() == lower.len() && forall|i: int|
        0 <= i < s.len() ==> lower_char(s[i]) == lower[i]
}

/// Lowercase an ASCII letter; other characters stay as they are.
pub open spec fn lower_char(c: char) -> char {
    if 'A' <= c && c <= 'Z' {
        ((c as u32) + 32) as char
    } else {
        c
    }
}

/// Executable lowercase of one ASCII letter.
pub fn ascii_lower(c: char) -> (r: char)
    ensures
        r == lower_char(c),
{
    if 'A' <= c && c <= 'Z' {
        proof {
            vstd::utf8::char_is_scalar(c);
        }
        let r = char::from_u32((c as u32) + 32).unwrap();
        proof {
            vstd::utf8::char_u32_cast(r, ((c as u32) + 32) as u32);
        }
        r
    } else {
        c
    }
}

/// Relies on `char::from_u32`: yields the character with the given code
/// point, or `None` for surrogates and values above the scalar range.
pub assume_specification[ char::from_u32 ](u: u32) -> (r: Option<char>)
    ensures
        match r {
            Some(c) => c as u32 == u,
            None => !(u < 0xD800 || (0xE000 <= u && u <= 0x10FFFF)),
        },
        (u < 0xD800 || (0xE000 <= u && u <= 0x10FFFF)) ==> r is Some,
;

/// Executable check matching [`eq_ignore_ascii_case_spec`] against a
/// lowercase pattern.
pub fn eq_ignore_case(s: &Vec<char>, lower: &Vec<char>) -> (r: bool)
    ensures
        r == eq_ignore_ascii_case_spec(s@, lower@),
{
    if s.len() != lower.len() {
        return false;
    }
    let mut i: usize = 0;
    while i < s.len()
        invariant
            i <= s@.len(),
            s@.len() == lower@.len(),
            forall|k: int| 0 <= k < i ==> lower_char(s@[k]) == lower@[k],
        decreases s@.len() - i,
    {
        if ascii_lower(s[i]) != lower[i] {
            return false;
        }
        i += 1;
    }
    true
}

/// Executable equality of two character vectors.
pub fn chars_eq(a: &Vec<char>, b: &Vec<char>) -> (r: bool)
    ensures
        r == (a@ == b@),
{
    if a.len() != b.len() {
        proof {
            assert(a@ != b@);
        }
        return false;
    }
    let mut i: usize = 0;
    while i < a.len()
        invariant
            i <= a@.len(),
            a@.len() == b@.len(),
            forall|w: int| 0 <= w < i ==> a@[w] == #[trigger] b@[w],
        decreases a@.len() - i,
    {
        if a[i] != b[i] {
            proof {
                assert(a@[i as int] != b@[i as int]);
            }
            return false;
        }
        i += 1;
    }
    proof {
        assert(a@ =~= b@);
    }
    true
}

/// Whether the text at `i` begins with the given pattern.
pub fn starts_with(s: &Vec<char>, i: usize, pat: &Vec<char>) -> (r: bool)
    requires
        i <= s@.len(),
    ensures
        r == (i + pat@.len() <= s@.len() && s@.subrange(i as int, i as int + pat@.len() as int)
            == pat@),
{
    if s.len() - i < pat.len() {
        return false;
    }
    let n = s.len();
    let mut j: usize = 0;
    while j < pat.len()
        invariant
            j <= pat@.len(),
            n == s@.len(),
            i + pat@.len() <= s@.len(),
            forall|w: int| 0 <= w < j ==> s@[i + w] == #[trigger] pat@[w],
        decreases pat@.len() - j,
    {
        if s[i + j] != pat[j] {
            proof {
                let sub = s@.subrange(i as int, i as int + pat@.len() as int);
                assert(sub[j as int] == s@[i + j]);
            }
            return false;
        }
        j += 1;
    }
    proof {
        assert(s@.subrange(i as int, i as int + pat@.len() as int) =~= pat@);
    }
    true
}

/// A search in a suffix mirrors the search in the whole, shifted.
pub proof fn lemma_idx_of_shift(s: Seq<char>, c: char, base: nat, i: nat)
    requires
        base <= s.len(),
        base + i <= s.len(),
    ensures
        idx_of(s.subrange(base as int, s.len() as int), c, i) + base == if idx_of(
            s,
            c,
            base + i,
        ) <= s.len() {
            idx_of(s, c, base + i)
        } else {
            s.len() as nat
        },
    decreases s.len() - base - i,
{
    lemma_idx_of_bounds(s, c, base + i);
    let sub = s.subrange(base as int, s.len() as int);
    if base + i < s.len() {
        assert(sub[i as int] == s[(base + i) as int]);
        if s[(base + i) as int] != c {
            lemma_idx_of_shift(s, c, base, i + 1);
        }
    }
}

/// An empty trim means every character is whitespace.
pub proof fn lemma_trim_empty_all_ws(s: Seq<char>)
    requires
        trim_spec(s).len() == 0,
    ensures
        forall|i: int| 0 <= i < s.len() ==> is_ascii_ws(#[trigger] s[i]),
{
    assert forall|i: int| 0 <= i < s.len() implies is_ascii_ws(#[trigger] s[i]) by {
        if !is_ascii_ws(s[i]) {
            lemma_ws_prefix_stops(s, 0, i);
            lemma_ws_suffix_stops(s, s.len(), i);
            lemma_ws_prefix_end_bounds(s, 0);
            lemma_ws_suffix_start_bounds(s, s.len());
            let a = ws_prefix_end(s, 0);
            let b = ws_suffix_start(s, s.len());
            assert(a <= i);
            assert(b >= i + 1);
            assert(trim_spec(s).len() == b - a);
            assert(false);
        }
    }
}

/// The whitespace prefix ends at or before a non-whitespace character.
pub proof fn lemma_ws_prefix_stops(s: Seq<char>, i: nat, w: int)
    requires
        i <= w < s.len(),
        !is_ascii_ws(s[w]),
    ensures
        ws_prefix_end(s, i) <= w,
    decreases s.len() - i,
{
    if i < s.len() && is_ascii_ws(s[i as int]) {
        lemma_ws_prefix_stops(s, i + 1, w);
    }
}

/// The whitespace suffix begins after a non-whitespace character.
pub proof fn lemma_ws_suffix_stops(s: Seq<char>, j: nat, w: int)
    requires
        0 <= w < j <= s.len(),
        !is_ascii_ws(s[w]),
    ensures
        ws_suffix_start(s, j) >= w + 1,
    decreases j,
{
    if j > 0 && j <= s.len() && is_ascii_ws(s[j - 1]) {
        lemma_ws_suffix_stops(s, (j - 1) as nat, w);
    }
}

} // verus!
