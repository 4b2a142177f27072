//! The JSON codec: parse text into a value, serialize a value as pretty
//! text (4-space indent, one element or key per line, keys in stored
//! order) or as compact text.
//!
//! The serialized forms are specified exactly by [`pretty_text`] and
//! [`compact_text`]; the parser is specified exactly by [`sp_doc`], a
//! recursive-descent definition of the JSON grammar. Duplicate object keys
//! follow the "last write wins" rule of the value model.

use vstd::prelude::*;
use vstd::string::StringExecFns;
use crate::num;
use crate::num::{digit_char, digit_val, int_text, is_digit, is_number_text, has_frac_or_exp,
    plain_int_val};
use crate::value::{Value, ValueModel, upsert, keys_unique, entries_model, elems_model};

verus! {

// ---------------------------------------------------------------------
// Shared text pieces
// ---------------------------------------------------------------------

/// JSON whitespace: space, tab, line feed, carriage return.
pub open spec fn is_json_ws(c: char) -> bool {
    c == ' ' || c == '\t' || c == '\n' || c == '\r'
}

/// Hexadecimal digit for one value below 16, lowercase.
pub open spec fn hex_char(d: int) -> char {
    if d < 10 {
        digit_char(d)
    } else if d == 10 { 'a' }
    else if d == 11 { 'b' }
    else if d == 12 { 'c' }
    else if d == 13 { 'd' }
    else if d == 14 { 'e' }
    else { 'f' }
}

/// The escape of one string character: quote and backslash get a
/// backslash, common controls get their short escape, other control
/// characters a `\u00..` escape, and everything else stands as it is.
pub open spec fn esc_char(c: char) -> Seq<char> {
    if c == '"' {
        seq!['\\', '"']
    } else if c == '\\' {
        seq!['\\', '\\']
    } else if c == '\n' {
        seq!['\\', 'n']
    } else if c == '\r' {
        seq!['\\', 'r']
    } else if c == '\t' {
        seq!['\\', 't']
    } else if (c as u32) < 0x20 {
        seq!['\\', 'u', '0', '0', hex_char((c as u32) as int / 16), hex_char((c as u32) as int % 16)]
    } else {
        seq![c]
    }
}

/// The escaped body of a string literal.
pub open spec fn esc_text(s: Seq<char>) -> Seq<char>
    decreases s.len(),
{
    if s.len() == 0 {
        Seq::empty()
    } else {
        esc_char(s[0]) + esc_text(s.subrange(1, s.len() as int))
    }
}

/// A string literal: quotes around the escaped body.
pub open spec fn quoted(s: Seq<char>) -> Seq<char> {
    seq!['"'] + esc_text(s) + seq!['"']
}

/// The indentation of one pretty-printing depth: four spaces each level.
pub open spec fn ws4(d: nat) -> Seq<char>
    decreases d,
{
    if d == 0 {
        Seq::empty()
    } else {
        ws4((d - 1) as nat) + seq![' ', ' ', ' ', ' ']
    }
}

/// The text of a number leaf.
pub open spec fn scalar_text(m: ValueModel) -> Seq<char> {
    match m {
        ValueModel::Null => seq!['n', 'u', 'l', 'l'],
        ValueModel::Bool(b) => if b {
            seq!['t', 'r', 'u', 'e']
        } else {
            seq!['f', 'a', 'l', 's', 'e']
        },
        ValueModel::Int(i) => int_text(i),
        ValueModel::Float(t) => t,
        _ => Seq::empty(),
    }
}

// ---------------------------------------------------------------------
// The pretty printer, specified exactly
// ---------------------------------------------------------------------

/// Pretty text of a value at depth `d` (the opening bracket is assumed
/// already indented; nested lines are indented one level deeper).
pub open spec fn pretty_text(m: ValueModel, d: nat) -> Seq<char>
    decreases m, 0int,
{
    match m {
        ValueModel::Str(s) => quoted(s),
        ValueModel::Arr(a) => if a.len() == 0 {
            seq!['[', ']']
        } else {
            seq!['[', '\n'] + pretty_items(a, a.len() as int, d + 1) + ws4(d) + seq![']']
        },
        ValueModel::Obj(o) => if o.len() == 0 {
            seq!['{', '}']
        } else {
            seq!['{', '\n'] + pretty_entries(o, o.len() as int, d + 1) + ws4(d) + seq!['}']
        },
        _ => scalar_text(m),
    }
}

/// Pretty text of the first `k` array elements, one line each, at depth
/// `d`; every element but the last is followed by a comma.
pub open spec fn pretty_items(a: Seq<ValueModel>, k: int, d: nat) -> Seq<char>
    decreases a, k,
{
    if k <= 0 || k > a.len() {
        Seq::empty()
    } else {
        pretty_items(a, k - 1, d) + ws4(d) + pretty_text(a[k - 1], d) + (if k == a.len() {
            seq!['\n']
        } else {
            seq![',', '\n']
        })
    }
}

/// Pretty text of the first `k` object entries, one `"key": value` line
/// each, at depth `d`.
pub open spec fn pretty_entries(o: Seq<(Seq<char>, ValueModel)>, k: int, d: nat) -> Seq<char>
    decreases o, k,
{
    if k <= 0 || k > o.len() {
        Seq::empty()
    } else {
        pretty_entries(o, k - 1, d) + ws4(d) + quoted(o[k - 1].0) + seq![':', ' ']
            + pretty_text(o[k - 1].1, d) + (if k == o.len() {
            seq!['\n']
        } else {
            seq![',', '\n']
        })
    }
}

// ---------------------------------------------------------------------
// The compact printer, specified exactly
// ---------------------------------------------------------------------

/// Compact text of a value: no whitespace at all.
pub open spec fn compact_text(m: ValueModel) -> Seq<char>
    decreases m, 0int,
{
    match m {
        ValueModel::Str(s) => quoted(s),
        ValueModel::Arr(a) => seq!['['] + compact_items(a, a.len() as int) + seq![']'],
        ValueModel::Obj(o) => seq!['{'] + compact_entries(o, o.len() as int) + seq!['}'],
        _ => scalar_text(m),
    }
}

/// Compact text of the first `k` array elements, comma separated.
pub open spec fn compact_items(a: Seq<ValueModel>, k: int) -> Seq<char>
    decreases a, k,
{
    if k <= 0 || k > a.len() {
        Seq::empty()
    } else {
        compact_items(a, k - 1) + (if k == 1 {
            Seq::empty()
        } else {
            seq![',']
        }) + compact_text(a[k - 1])
    }
}

/// Compact text of the first `k` object entries, comma separated.
pub open spec fn compact_entries(o: Seq<(Seq<char>, ValueModel)>, k: int) -> Seq<char>
    decreases o, k,
{
    if k <= 0 || k > o.len() {
        Seq::empty()
    } else {
        compact_entries(o, k - 1) + (if k == 1 {
            Seq::empty()
        } else {
            seq![',']
        }) + quoted(o[k - 1].0) + seq![':'] + compact_text(o[k - 1].1)
    }
}

// ---------------------------------------------------------------------
// The parser, specified exactly
// ---------------------------------------------------------------------

/// Index of the first non-whitespace character at or after `i`.
pub open spec fn sp_ws(s: Seq<char>, i: nat) -> nat
    decreases s.len() - i when i <= s.len()
{
    if i < s.len() && is_json_ws(s[i as int]) {
        sp_ws(s, i + 1)
    } else {
        i
    }
}

/// Value of a hexadecimal digit, or 16 for any other character.
pub open spec fn hex_val(c: char) -> int {
    if is_digit(c) {
        digit_val(c)
    } else if c == 'a' || c == 'A' { 10 }
    else if c == 'b' || c == 'B' { 11 }
    else if c == 'c' || c == 'C' { 12 }
    else if c == 'd' || c == 'D' { 13 }
    else if c == 'e' || c == 'E' { 14 }
    else if c == 'f' || c == 'F' { 15 }
    else { 16 }
}

/// Value of the four hexadecimal digits at `i`, if they are there.
pub open spec fn sp_hex4(s: Seq<char>, i: nat) -> Option<int> {
    if i + 4 <= s.len() {
        let a = hex_val(s[i as int]);
        let b = hex_val(s[i as int + 1]);
        let c = hex_val(s[i as int + 2]);
        let d = hex_val(s[i as int + 3]);
        if a < 16 && b < 16 && c < 16 && d < 16 {
            Some(a * 0x1000 + b * 0x100 + c * 0x10 + d)
        } else {
            None
        }
    } else {
        None
    }
}

/// The character an escape letter denotes, for the single-letter escapes.
pub open spec fn esc_letter(e: char) -> Option<char> {
    if e == '"' { Some('"') }
    else if e == '\\' { Some('\\') }
    else if e == '/' { Some('/') }
    else if e == 'b' { Some('\u{8}') }
    else if e == 'f' { Some('\u{c}') }
    else if e == 'n' { Some('\n') }
    else if e == 'r' { Some('\r') }
    else if e == 't' { Some('\t') }
    else { None }
}

/// Parse the body of a string literal beginning at `i` (just after the
/// opening quote); yields the decoded characters and the index after the
/// closing quote. Unterminated literals, bad escapes, unpaired surrogates
/// and raw control characters fail.
pub open spec fn sp_string(s: Seq<char>, i: nat) -> Option<(Seq<char>, nat)>
    decreases s.len() - i when i <= s.len()
{
    if i >= s.len() {
        None
    } else {
        let c = s[i as int];
        if c == '"' {
            Some((Seq::empty(), i + 1))
        } else if c == '\\' {
            if i + 2 > s.len() {
                None
            } else {
                let e = s[i as int + 1];
                if e == 'u' {
                    match sp_hex4(s, i + 2) {
                        Some(h) => if 0xD800 <= h < 0xDC00 {
                            if i + 12 <= s.len() && s[i as int + 6] == '\\' && s[i as int + 7]
                                == 'u' {
                                match sp_hex4(s, i + 8) {
                                    Some(l) => if 0xDC00 <= l < 0xE000 {
                                        let cp = 0x10000 + (h - 0xD800) * 0x400 + (l - 0xDC00);
                                        match sp_string(s, i + 12) {
                                            Some((t, j)) => Some(
                                                (seq![((cp as u32) as char)] + t, j),
                                            ),
                                            None => None,
                                        }
                                    } else {
                                        None
                                    },
                                    None => None,
                                }
                            } else {
                                None
                            }
                        } else if 0xDC00 <= h < 0xE000 {
                            None
                        } else {
                            match sp_string(s, i + 6) {
                                Some((t, j)) => Some((seq![((h as u32) as char)] + t, j)),
                                None => None,
                            }
                        },
                        None => None,
                    }
                } else {
                    match esc_letter(e) {
                        Some(ch) => match sp_string(s, i + 2) {
                            Some((t, j)) => Some((seq![ch] + t, j)),
                            None => None,
                        },
                        None => None,
                    }
                }
            }
        } else if (c as u32) < 0x20 {
            None
        } else {
            match sp_string(s, i + 1) {
                Some((t, j)) => Some((seq![c] + t, j)),
                None => None,
            }
        }
    }
}

/// A character that can stand in a number token.
pub open spec fn is_num_char(c: char) -> bool {
    is_digit(c) || c == '-' || c == '+' || c == '.' || c == 'e' || c == 'E'
}

/// End of the maximal run of number characters at `i`.
pub open spec fn num_token_end(s: Seq<char>, i: nat) -> nat
    decreases s.len() - i when i <= s.len()
{
    if i < s.len() && is_num_char(s[i as int]) {
        num_token_end(s, i + 1)
    } else {
        i
    }
}

/// Parse the number token at `i`: the maximal run of number characters
/// must form one decimal numeral; it becomes an integer when it is a plain
/// integer in the `i64` range, else a float carrying its own text.
pub open spec fn sp_number(s: Seq<char>, i: nat) -> Option<(ValueModel, nat)> {
    let e = num_token_end(s, i);
    if i < e <= s.len() {
        let t = s.subrange(i as int, e as int);
        if is_number_text(t) {
            if !has_frac_or_exp(t) && i64::MIN <= plain_int_val(t) <= i64::MAX {
                Some((ValueModel::Int(plain_int_val(t)), e))
            } else {
                Some((ValueModel::Float(t), e))
            }
        } else {
            None
        }
    } else {
        None
    }
}

/// Fold a parsed member list into an object's entries, first to last, a
/// later duplicate key overwriting in place.
pub open spec fn fold_entries(ps: Seq<(Seq<char>, ValueModel)>) -> Seq<(Seq<char>, ValueModel)>
    decreases ps.len(),
{
    if ps.len() == 0 {
        Seq::empty()
    } else {
        upsert(fold_entries(ps.drop_last()), ps.last().0, ps.last().1)
    }
}

/// Parse the value beginning exactly at `i` (no leading whitespace).
pub open spec fn sp_value(s: Seq<char>, i: nat) -> Option<(ValueModel, nat)>
    decreases s.len() - i, 2int when i <= s.len()
{
    if i >= s.len() {
        None
    } else {
        let c = s[i as int];
        if c == 'n' {
            if i + 4 <= s.len() && s[i as int + 1] == 'u' && s[i as int + 2] == 'l' && s[i as int
                + 3] == 'l' {
                Some((ValueModel::Null, i + 4))
            } else {
                None
            }
        } else if c == 't' {
            if i + 4 <= s.len() && s[i as int + 1] == 'r' && s[i as int + 2] == 'u' && s[i as int
                + 3] == 'e' {
                Some((ValueModel::Bool(true), i + 4))
            } else {
                None
            }
        } else if c == 'f' {
            if i + 5 <= s.len() && s[i as int + 1] == 'a' && s[i as int + 2] == 'l' && s[i as int
                + 3] == 's' && s[i as int + 4] == 'e' {
                Some((ValueModel::Bool(false), i + 5))
            } else {
                None
            }
        } else if c == '"' {
            match sp_string(s, i + 1) {
                Some((t, j)) => Some((ValueModel::Str(t), j)),
                None => None,
            }
        } else if c == '[' {
            let j = sp_ws(s, i + 1);
            if !(i < j && j <= s.len()) {
                None
            } else if j < s.len() && s[j as int] == ']' {
                Some((ValueModel::Arr(Seq::empty()), j + 1))
            } else {
                match sp_items(s, j) {
                    Some((a, k)) => Some((ValueModel::Arr(a), k)),
                    None => None,
                }
            }
        } else if c == '{' {
            let j = sp_ws(s, i + 1);
            if !(i < j && j <= s.len()) {
                None
            } else if j < s.len() && s[j as int] == '}' {
                Some((ValueModel::Obj(Seq::empty()), j + 1))
            } else {
                match sp_members(s, j) {
                    Some((ps, k)) => Some((ValueModel::Obj(fold_entries(ps)), k)),
                    None => None,
                }
            }
        } else if is_num_char(c) {
            sp_number(s, i)
        } else {
            None
        }
    }
}

/// Parse `value (ws ',' ws value)* ws ']'` beginning at `i`; yields the
/// elements and the index after the closing bracket.
pub open spec fn sp_items(s: Seq<char>, i: nat) -> Option<(Seq<ValueModel>, nat)>
    decreases s.len() - i, 3int when i <= s.len()
{
    match sp_value(s, i) {
        Some((v, j)) => if !(i < j && j <= s.len()) {
            None
        } else {
            let k = sp_ws(s, j);
            if !(j <= k && k < s.len()) {
                None
            } else if s[k as int] == ']' {
                Some((seq![v], k + 1))
            } else if s[k as int] == ',' {
                let m = sp_ws(s, k + 1);
                if !(i < m && m <= s.len()) {
                    None
                } else {
                    match sp_items(s, m) {
                        Some((a, e)) => Some((seq![v] + a, e)),
                        None => None,
                    }
                }
            } else {
                None
            }
        },
        None => None,
    }
}

/// Parse `"key" ws ':' ws value (ws ',' ws ...)* ws '}'` beginning at `i`;
/// yields the members in textual order, duplicates still present.
pub open spec fn sp_members(s: Seq<char>, i: nat) -> Option<(Seq<(Seq<char>, ValueModel)>, nat)>
    decreases s.len() - i, 3int when i <= s.len()
{
    if !(i < s.len() && s[i as int] == '"') {
        None
    } else {
        match sp_string(s, i + 1) {
            Some((key, j)) => if !(i < j && j <= s.len()) {
                None
            } else {
                let k = sp_ws(s, j);
                if !(j <= k && k < s.len() && s[k as int] == ':') {
                    None
                } else {
                    let m = sp_ws(s, k + 1);
                    if !(i < m && m <= s.len()) {
                        None
                    } else {
                        match sp_value(s, m) {
                            Some((v, p)) => if !(m < p && p <= s.len()) {
                                None
                            } else {
                                let q = sp_ws(s, p);
                                if !(p <= q && q < s.len()) {
                                    None
                                } else if s[q as int] == '}' {
                                    Some((seq![(key, v)], q + 1))
                                } else if s[q as int] == ',' {
                                    let w = sp_ws(s, q + 1);
                                    if !(i < w && w <= s.len()) {
                                        None
                                    } else {
                                        match sp_members(s, w) {
                                            Some((ps, e)) => Some((seq![(key, v)] + ps, e)),
                                            None => None,
                                        }
                                    }
                                } else {
                                    None
                                }
                            },
                            None => None,
                        }
                    }
                }
            },
            None => None,
        }
    }
}

/// Parse one whole document: whitespace, one value, whitespace, end.
pub open spec fn sp_doc(s: Seq<char>) -> Option<ValueModel> {
    let i = sp_ws(s, 0);
    if i <= s.len() {
        match sp_value(s, i) {
            Some((v, j)) => if j <= s.len() && sp_ws(s, j) == s.len() {
                Some(v)
            } else {
                None
            },
            None => None,
        }
    } else {
        None
    }
}

} // verus!

verus! {

// ---------------------------------------------------------------------
// Executable serializers
// ---------------------------------------------------------------------

/// Escaping distributes over concatenation.
pub proof fn lemma_esc_text_app(a: Seq<char>, b: Seq<char>)
    ensures
        esc_text(a + b) == esc_text(a) + esc_text(b),
    decreases a.len(),
{
    if a.len() == 0 {
        assert(a + b =~= b);
        assert(esc_text(a) + esc_text(b) =~= esc_text(b));
    } else {
        let rest = a.subrange(1, a.len() as int);
        lemma_esc_text_app(rest, b);
        assert((a + b).subrange(1, (a + b).len() as int) =~= rest + b);
        assert((a + b)[0] == a[0]);
        assert(esc_char(a[0]) + (esc_text(rest) + esc_text(b)) =~= (esc_char(a[0]) + esc_text(
            rest,
        )) + esc_text(b));
    }
}

/// Executable hexadecimal digit matching [`hex_char`].
fn hex_digit(d: u32) -> (r: char)
    requires
        d < 16,
    ensures
        r == hex_char(d as int),
{
    if d == 0 { '0' }
    else if d == 1 { '1' }
    else if d == 2 { '2' }
    else if d == 3 { '3' }
    else if d == 4 { '4' }
    else if d == 5 { '5' }
    else if d == 6 { '6' }
    else if d == 7 { '7' }
    else if d == 8 { '8' }
    else if d == 9 { '9' }
    else if d == 10 { 'a' }
    else if d == 11 { 'b' }
    else if d == 12 { 'c' }
    else if d == 13 { 'd' }
    else if d == 14 { 'e' }
    else { 'f' }
}

/// Append the escape of one character.
fn write_esc_char(out: &mut String, c: char)
    ensures
        final(out)@ == old(out)@ + esc_char(c),
{
    if c == '"' {
        crate::text::push_char(out, '\\');
        crate::text::push_char(out, '"');
        proof {
            assert(old(out)@.push('\\').push('"') =~= old(out)@ + esc_char(c));
        }
    } else if c == '\\' {
        crate::text::push_char(out, '\\');
        crate::text::push_char(out, '\\');
        proof {
            assert(old(out)@.push('\\').push('\\') =~= old(out)@ + esc_char(c));
        }
    } else if c == '\n' {
        crate::text::push_char(out, '\\');
        crate::text::push_char(out, 'n');
        proof {
            assert(old(out)@.push('\\').push('n') =~= old(out)@ + esc_char(c));
        }
    } else if c == '\r' {
        crate::text::push_char(out, '\\');
        crate::text::push_char(out, 'r');
        proof {
            assert(old(out)@.push('\\').push('r') =~= old(out)@ + esc_char(c));
        }
    } else if c == '\t' {
        crate::text::push_char(out, '\\');
        crate::text::push_char(out, 't');
        proof {
            assert(old(out)@.push('\\').push('t') =~= old(out)@ + esc_char(c));
        }
    } else if (c as u32) < 0x20 {
        crate::text::push_char(out, '\\');
        crate::text::push_char(out, 'u');
        crate::text::push_char(out, '0');
        crate::text::push_char(out, '0');
        crate::text::push_char(out, hex_digit((c as u32) / 16));
        crate::text::push_char(out, hex_digit((c as u32) % 16));
        proof {
            assert(old(out)@.push('\\').push('u').push('0').push('0').push(
                hex_char((c as u32) as int / 16),
            ).push(hex_char((c as u32) as int % 16)) =~= old(out)@ + esc_char(c));
        }
    } else {
        crate::text::push_char(out, c);
        proof {
            assert(old(out)@.push(c) =~= old(out)@ + esc_char(c));
        }
    }
}

/// Append a quoted, escaped string literal.
fn write_quoted(out: &mut String, s: &String)
    ensures
        final(out)@ == old(out)@ + quoted(s@),
{
    let chars = crate::text::to_chars(s.as_str());
    crate::text::push_char(out, '"');
    let mut i: usize = 0;
    while i < chars.len()
        invariant
            i <= chars@.len(),
            chars@ == s@,
            out@ == old(out)@.push('"') + esc_text(s@.subrange(0, i as int)),
        decreases chars@.len() - i,
    {
        write_esc_char(out, chars[i]);
        i += 1;
        proof {
            let pre = s@.subrange(0, i - 1);
            let post = s@.subrange(0, i as int);
            assert(post =~= pre + seq![s@[i - 1]]);
            lemma_esc_text_app(pre, seq![s@[i - 1]]);
            assert(esc_text(seq![s@[i - 1]]) =~= esc_char(s@[i - 1]) + esc_text(
                Seq::<char>::empty(),
            )) by {
                assert(seq![s@[i - 1]].subrange(1, 1) =~= Seq::<char>::empty());
            }
            assert(esc_text(seq![s@[i - 1]]) =~= esc_char(s@[i - 1]));
        }
    }
    crate::text::push_char(out, '"');
    proof {
        assert(s@.subrange(0, s@.len() as int) =~= s@);
        assert(old(out)@.push('"') + esc_text(s@) =~= old(out)@ + (seq!['"'] + esc_text(s@)));
        assert((old(out)@ + (seq!['"'] + esc_text(s@))).push('"') =~= old(out)@ + quoted(s@));
    }
}

/// Append the text of a scalar value (not a string, array or object).
fn write_scalar(out: &mut String, v: &Value)
    requires
        !(v is Str || v is Arr || v is Obj),
    ensures
        final(out)@ == old(out)@ + scalar_text(v.model()),
{
    match v {
        Value::Null => {
            crate::text::push_char(out, 'n');
            crate::text::push_char(out, 'u');
            crate::text::push_char(out, 'l');
            crate::text::push_char(out, 'l');
            proof {
                assert(old(out)@.push('n').push('u').push('l').push('l') =~= old(out)@
                    + scalar_text(v.model()));
            }
        },
        Value::Bool(b) => {
            if *b {
                crate::text::push_char(out, 't');
                crate::text::push_char(out, 'r');
                crate::text::push_char(out, 'u');
                crate::text::push_char(out, 'e');
                proof {
                    assert(old(out)@.push('t').push('r').push('u').push('e') =~= old(out)@
                        + scalar_text(v.model()));
                }
            } else {
                crate::text::push_char(out, 'f');
                crate::text::push_char(out, 'a');
                crate::text::push_char(out, 'l');
                crate::text::push_char(out, 's');
                crate::text::push_char(out, 'e');
                proof {
                    assert(old(out)@.push('f').push('a').push('l').push('s').push('e') =~= old(
                        out,
                    )@ + scalar_text(v.model()));
                }
            }
        },
        Value::Int(i) => {
            let digits = num::i64_chars(*i);
            crate::text::append_chars(out, &digits);
        },
        Value::Float(t) => {
            out.append(t.as_str());
        },
        _ => {
            proof {
                assert(false);
            }
        },
    }
}

/// Append the pretty text of a value at depth `d`, `ind` holding that
/// depth's indentation.
fn write_pretty(out: &mut String, v: &Value, ind: &Vec<char>, Ghost(d): Ghost<nat>)
    requires
        ind@ == ws4(d),
    ensures
        final(out)@ == old(out)@ + pretty_text(v.model(), d),
    decreases v.model(),
{
    match v {
        Value::Str(s) => {
            write_quoted(out, s);
        },
        Value::Arr(a) => {
            proof {
                crate::value::lemma_elems_model_len(a@);
            }
            if a.len() == 0 {
                crate::text::push_char(out, '[');
                crate::text::push_char(out, ']');
                proof {
                    assert(old(out)@.push('[').push(']') =~= old(out)@ + pretty_text(
                        v.model(),
                        d,
                    ));
                }
            } else {
                let ghost em = elems_model(a@);
                let mut ind2 = ind.clone();
                ind2.push(' ');
                ind2.push(' ');
                ind2.push(' ');
                ind2.push(' ');
                proof {
                    assert(ind2@ =~= ws4(d + 1));
                }
                crate::text::push_char(out, '[');
                crate::text::push_char(out, '\n');
                let mut i: usize = 0;
                while i < a.len()
                    invariant
                        i <= a@.len(),
                        em == elems_model(a@),
                        em.len() == a@.len(),
                        a@.len() > 0,
                        ind2@ == ws4(d + 1),
                        forall|w: int| 0 <= w < a@.len() ==> em[w] == #[trigger] a@[w].model(),
                        v.model() == ValueModel::Arr(em),
                        out@ == old(out)@ + seq!['[', '\n'] + pretty_items(em, i as int, d + 1),
                    decreases a@.len() - i,
                {
                    crate::text::append_chars(out, &ind2);
                    proof {
                        assert(decreases_to!(v.model() => v.model()->Arr_0));
                        assert(v.model()->Arr_0 == em);
                        assert(decreases_to!(em => em[i as int]));
                        assert(a@[i as int].model() == em[i as int]);
                    }
                    write_pretty(out, &a[i], &ind2, Ghost(d + 1));
                    if i + 1 < a.len() {
                        crate::text::push_char(out, ',');
                    }
                    crate::text::push_char(out, '\n');
                    i += 1;
                    proof {
                        let base = old(out)@ + seq!['[', '\n'];
                        let prev = pretty_items(em, i - 1, d + 1);
                        if i < a@.len() {
                            assert(base + prev + ws4(d + 1) + pretty_text(em[i - 1], d + 1)
                                + seq![',', '\n'] =~= base + pretty_items(em, i as int, d + 1));
                        } else {
                            assert(base + prev + ws4(d + 1) + pretty_text(em[i - 1], d + 1)
                                + seq!['\n'] =~= base + pretty_items(em, i as int, d + 1));
                        }
                    }
                }
                crate::text::append_chars(out, ind);
                crate::text::push_char(out, ']');
                proof {
                    assert((old(out)@ + seq!['[', '\n'] + pretty_items(em, a@.len() as int, d + 1)
                        + ws4(d)).push(']') =~= old(out)@ + pretty_text(v.model(), d));
                }
            }
        },
        Value::Obj(o) => {
            proof {
                crate::value::lemma_entries_model_len(o@);
            }
            if o.len() == 0 {
                crate::text::push_char(out, '{');
                crate::text::push_char(out, '}');
                proof {
                    assert(old(out)@.push('{').push('}') =~= old(out)@ + pretty_text(
                        v.model(),
                        d,
                    ));
                }
            } else {
                let ghost en = entries_model(o@);
                let mut ind2 = ind.clone();
                ind2.push(' ');
                ind2.push(' ');
                ind2.push(' ');
                ind2.push(' ');
                proof {
                    assert(ind2@ =~= ws4(d + 1));
                }
                crate::text::push_char(out, '{');
                crate::text::push_char(out, '\n');
                let mut i: usize = 0;
                while i < o.len()
                    invariant
                        i <= o@.len(),
                        en == entries_model(o@),
                        en.len() == o@.len(),
                        o@.len() > 0,
                        ind2@ == ws4(d + 1),
                        forall|w: int|
                            0 <= w < o@.len() ==> en[w] == (#[trigger] o@[w].0@, o@[w].1.model()),
                        v.model() == ValueModel::Obj(en),
                        out@ == old(out)@ + seq!['{', '\n'] + pretty_entries(en, i as int, d + 1),
                    decreases o@.len() - i,
                {
                    crate::text::append_chars(out, &ind2);
                    write_quoted(out, &o[i].0);
                    crate::text::push_char(out, ':');
                    crate::text::push_char(out, ' ');
                    proof {
                        assert(decreases_to!(v.model() => v.model()->Obj_0));
                        assert(v.model()->Obj_0 == en);
                        assert(decreases_to!(en => en[i as int]));
                        assert(decreases_to!(en[i as int] => en[i as int].1));
                        assert(o@[i as int].1.model() == en[i as int].1);
                    }
                    write_pretty(out, &o[i].1, &ind2, Ghost(d + 1));
                    if i + 1 < o.len() {
                        crate::text::push_char(out, ',');
                    }
                    crate::text::push_char(out, '\n');
                    i += 1;
                    proof {
                        let base = old(out)@ + seq!['{', '\n'];
                        let prev = pretty_entries(en, i - 1, d + 1);
                        if i < o@.len() {
                            assert(base + prev + ws4(d + 1) + quoted(en[i - 1].0) + seq![':', ' ']
                                + pretty_text(en[i - 1].1, d + 1) + seq![',', '\n'] =~= base
                                + pretty_entries(en, i as int, d + 1));
                        } else {
                            assert(base + prev + ws4(d + 1) + quoted(en[i - 1].0) + seq![':', ' ']
                                + pretty_text(en[i - 1].1, d + 1) + seq!['\n'] =~= base
                                + pretty_entries(en, i as int, d + 1));
                        }
                    }
                }
                crate::text::append_chars(out, ind);
                crate::text::push_char(out, '}');
                proof {
                    assert((old(out)@ + seq!['{', '\n'] + pretty_entries(
                        en,
                        o@.len() as int,
                        d + 1,
                    ) + ws4(d)).push('}') =~= old(out)@ + pretty_text(v.model(), d));
                }
            }
        },
        _ => {
            write_scalar(out, v);
        },
    }
}

/// Pretty-print a value: 4-space indentation, one element or key per
/// line, object keys in stored order.
pub fn to_pretty(v: &Value) -> (r: String)
    ensures
        r@ == pretty_text(v.model(), 0),
{
    let mut out = String::new();
    let ind: Vec<char> = Vec::new();
    write_pretty(&mut out, v, &ind, Ghost(0));
    proof {
        assert(Seq::<char>::empty() + pretty_text(v.model(), 0) =~= pretty_text(v.model(), 0));
    }
    out
}

/// Append the compact text of a value.
fn write_compact(out: &mut String, v: &Value)
    ensures
        final(out)@ == old(out)@ + compact_text(v.model()),
    decreases v.model(),
{
    match v {
        Value::Str(s) => {
            write_quoted(out, s);
        },
        Value::Arr(a) => {
            proof {
                crate::value::lemma_elems_model_len(a@);
            }
            let ghost em = elems_model(a@);
            crate::text::push_char(out, '[');
            let mut i: usize = 0;
            while i < a.len()
                invariant
                    i <= a@.len(),
                    em == elems_model(a@),
                    em.len() == a@.len(),
                    forall|w: int| 0 <= w < a@.len() ==> em[w] == #[trigger] a@[w].model(),
                    v.model() == ValueModel::Arr(em),
                    out@ == old(out)@ + seq!['['] + compact_items(em, i as int),
                decreases a@.len() - i,
            {
                if i > 0 {
                    crate::text::push_char(out, ',');
                }
                proof {
                    assert(decreases_to!(v.model() => v.model()->Arr_0));
                    assert(v.model()->Arr_0 == em);
                    assert(decreases_to!(em => em[i as int]));
                    assert(a@[i as int].model() == em[i as int]);
                }
                write_compact(out, &a[i]);
                i += 1;
                proof {
                    let base = old(out)@ + seq!['['];
                    let prev = compact_items(em, i - 1);
                    if i == 1 {
                        assert(base + prev + compact_text(em[i - 1]) =~= base + compact_items(
                            em,
                            i as int,
                        ));
                    } else {
                        assert(base + prev + seq![','] + compact_text(em[i - 1]) =~= base
                            + compact_items(em, i as int));
                    }
                }
            }
            crate::text::push_char(out, ']');
            proof {
                assert((old(out)@ + seq!['['] + compact_items(em, a@.len() as int)).push(']') =~=
                    old(out)@ + compact_text(v.model()));
            }
        },
        Value::Obj(o) => {
            proof {
                crate::value::lemma_entries_model_len(o@);
            }
            let ghost en = entries_model(o@);
            crate::text::push_char(out, '{');
            let mut i: usize = 0;
            while i < o.len()
                invariant
                    i <= o@.len(),
                    en == entries_model(o@),
                    en.len() == o@.len(),
                    forall|w: int|
                        0 <= w < o@.len() ==> en[w] == (#[trigger] o@[w].0@, o@[w].1.model()),
                    v.model() == ValueModel::Obj(en),
                    out@ == old(out)@ + seq!['{'] + compact_entries(en, i as int),
                decreases o@.len() - i,
            {
                if i > 0 {
                    crate::text::push_char(out, ',');
                }
                write_quoted(out, &o[i].0);
                crate::text::push_char(out, ':');
                proof {
                    assert(decreases_to!(v.model() => v.model()->Obj_0));
                    assert(v.model()->Obj_0 == en);
                    assert(decreases_to!(en => en[i as int]));
                    assert(decreases_to!(en[i as int] => en[i as int].1));
                    assert(o@[i as int].1.model() == en[i as int].1);
                }
                write_compact(out, &o[i].1);
                i += 1;
                proof {
                    let base = old(out)@ + seq!['{'];
                    let prev = compact_entries(en, i - 1);
                    if i == 1 {
                        assert(base + prev + quoted(en[i - 1].0) + seq![':'] + compact_text(
                            en[i - 1].1,
                        ) =~= base + compact_entries(en, i as int));
                    } else {
                        assert(base + prev + seq![','] + quoted(en[i - 1].0) + seq![':']
                            + compact_text(en[i - 1].1) =~= base + compact_entries(en, i as int));
                    }
                }
            }
            crate::text::push_char(out, '}');
            proof {
                assert((old(out)@ + seq!['{'] + compact_entries(en, o@.len() as int)).push('}')
                    =~= old(out)@ + compact_text(v.model()));
            }
        },
        _ => {
            write_scalar(out, v);
        },
    }
}

/// Serialize a value as compact text, no whitespace at all.
pub fn to_compact(v: &Value) -> (r: String)
    ensures
        r@ == compact_text(v.model()),
{
    let mut out = String::new();
    write_compact(&mut out, v);
    proof {
        assert(Seq::<char>::empty() + compact_text(v.model()) =~= compact_text(v.model()));
    }
    out
}

// ---------------------------------------------------------------------
// Executable parser
// ---------------------------------------------------------------------

/// Prefix a parsed string-literal tail with already-decoded characters.
pub open spec fn str_cont(pre: Seq<char>, o: Option<(Seq<char>, nat)>) -> Option<(Seq<char>, nat)> {
    match o {
        Some((t, j)) => Some((pre + t, j)),
        None => None,
    }
}

/// Prefix a parsed element-list tail with already-parsed elements.
pub open spec fn items_cont(
    pre: Seq<ValueModel>,
    o: Option<(Seq<ValueModel>, nat)>,
) -> Option<(Seq<ValueModel>, nat)> {
    match o {
        Some((a, e)) => Some((pre + a, e)),
        None => None,
    }
}

/// Prefix a parsed member-list tail with already-parsed members.
pub open spec fn members_cont(
    pre: Seq<(Seq<char>, ValueModel)>,
    o: Option<(Seq<(Seq<char>, ValueModel)>, nat)>,
) -> Option<(Seq<(Seq<char>, ValueModel)>, nat)> {
    match o {
        Some((ps, e)) => Some((pre + ps, e)),
        None => None,
    }
}

/// Executable whitespace skip matching [`sp_ws`].
fn jws(s: &Vec<char>, i: usize) -> (r: usize)
    requires
        i <= s@.len(),
    ensures
        r as nat == sp_ws(s@, i as nat),
        i <= r <= s@.len(),
{
    let mut k: usize = i;
    while k < s.len() && (s[k] == ' ' || s[k] == '\t' || s[k] == '\n' || s[k] == '\r')
        invariant
            i <= k <= s@.len(),
            sp_ws(s@, i as nat) == sp_ws(s@, k as nat),
        decreases s@.len() - k,
    {
        k += 1;
    }
    k
}

/// Executable hexadecimal digit value matching [`hex_val`].
pub(crate) fn hex_val_x(c: char) -> (r: u8)
    ensures
        r as int == hex_val(c),
{
    if num::digit(c) {
        num::digit_value(c)
    } else if c == 'a' || c == 'A' { 10 }
    else if c == 'b' || c == 'B' { 11 }
    else if c == 'c' || c == 'C' { 12 }
    else if c == 'd' || c == 'D' { 13 }
    else if c == 'e' || c == 'E' { 14 }
    else if c == 'f' || c == 'F' { 15 }
    else { 16 }
}

/// Executable four-digit hexadecimal read matching [`sp_hex4`].
fn hex4(s: &Vec<char>, i: usize) -> (r: Option<u32>)
    requires
        i <= s@.len(),
    ensures
        match r {
            Some(h) => sp_hex4(s@, i as nat) == Some(h as int) && h < 0x10000,
            None => sp_hex4(s@, i as nat) is None,
        },
{
    if s.len() - i < 4 {
        return None;
    }
    let a = hex_val_x(s[i]);
    let b = hex_val_x(s[i + 1]);
    let c = hex_val_x(s[i + 2]);
    let d = hex_val_x(s[i + 3]);
    if a < 16 && b < 16 && c < 16 && d < 16 {
        Some((a as u32) * 0x1000 + (b as u32) * 0x100 + (c as u32) * 0x10 + (d as u32))
    } else {
        None
    }
}

/// Executable single-letter escape matching [`esc_letter`].
fn esc_letter_x(e: char) -> (r: Option<char>)
    ensures
        r == esc_letter(e),
{
    if e == '"' { Some('"') }
    else if e == '\\' { Some('\\') }
    else if e == '/' { Some('/') }
    else if e == 'b' { Some('\u{8}') }
    else if e == 'f' { Some('\u{c}') }
    else if e == 'n' { Some('\n') }
    else if e == 'r' { Some('\r') }
    else if e == 't' { Some('\t') }
    else { None }
}

/// Parse a string literal's body, matching [`sp_string`].
fn p_string(s: &Vec<char>, i: usize) -> (r: Result<(String, usize), usize>)
    requires
        i <= s@.len(),
    ensures
        match r {
            Ok(p) => sp_string(s@, i as nat) == Some((p.0@, p.1 as nat)) && i < p.1 <= s@.len(),
            Err(p) => sp_string(s@, i as nat) is None && p <= s@.len(),
        },
{
    let mut acc = String::new();
    let mut cur: usize = i;
    loop
        invariant
            i <= cur <= s@.len(),
            sp_string(s@, i as nat) == str_cont(acc@, sp_string(s@, cur as nat)),
        decreases s@.len() - cur,
    {
        let ghost pcur = cur as nat;
        let ghost pacc = acc@;
        if cur >= s.len() {
            return Err(cur);
        }
        let c = s[cur];
        if c == '"' {
            proof {
                assert(pacc + Seq::<char>::empty() =~= pacc);
            }
            return Ok((acc, cur + 1));
        } else if c == '\\' {
            if s.len() - cur < 2 {
                return Err(cur);
            }
            let e = s[cur + 1];
            if e == 'u' {
                match hex4(s, cur + 2) {
                    Some(h) => {
                        if 0xD800 <= h && h < 0xDC00 {
                            if s.len() - cur >= 12 && s[cur + 6] == '\\' && s[cur + 7] == 'u' {
                                match hex4(s, cur + 8) {
                                    Some(l) => {
                                        if 0xDC00 <= l && l < 0xE000 {
                                            let cp: u32 = 0x10000 + (h - 0xD800) * 0x400 + (l
                                                - 0xDC00);
                                            let ch = char::from_u32(cp).unwrap();
                                            proof {
                                                vstd::utf8::char_u32_cast(ch, cp);
                                            }
                                            crate::text::push_char(&mut acc, ch);
                                            cur += 12;
                                            proof {
                                                let nxt = sp_string(s@, cur as nat);
                                                if nxt is Some {
                                                    assert(pacc + (seq![ch] + (nxt->0).0) =~= pacc.push(
                                                        ch,
                                                    ) + (nxt->0).0);
                                                }
                                            }
                                        } else {
                                            return Err(cur);
                                        }
                                    },
                                    None => {
                                        return Err(cur);
                                    },
                                }
                            } else {
                                return Err(cur);
                            }
                        } else if 0xDC00 <= h && h < 0xE000 {
                            return Err(cur);
                        } else {
                            let ch = char::from_u32(h).unwrap();
                            proof {
                                vstd::utf8::char_u32_cast(ch, h);
                            }
                            crate::text::push_char(&mut acc, ch);
                            cur += 6;
                            proof {
                                let nxt = sp_string(s@, cur as nat);
                                if nxt is Some {
                                    assert(pacc + (seq![ch] + (nxt->0).0) =~= pacc.push(ch)
                                        + (nxt->0).0);
                                }
                            }
                        }
                    },
                    None => {
                        return Err(cur);
                    },
                }
            } else {
                match esc_letter_x(e) {
                    Some(ch) => {
                        crate::text::push_char(&mut acc, ch);
                        cur += 2;
                        proof {
                            let nxt = sp_string(s@, cur as nat);
                            if nxt is Some {
                                assert(pacc + (seq![ch] + (nxt->0).0) =~= pacc.push(ch) + (nxt->0).0);
                            }
                        }
                    },
                    None => {
                        return Err(cur);
                    },
                }
            }
        } else if (c as u32) < 0x20 {
            return Err(cur);
        } else {
            crate::text::push_char(&mut acc, c);
            cur += 1;
            proof {
                let nxt = sp_string(s@, cur as nat);
                if nxt is Some {
                    assert(pacc + (seq![c] + (nxt->0).0) =~= pacc.push(c) + (nxt->0).0);
                }
            }
        }
    }
}

/// Executable number-character test matching [`is_num_char`].
fn num_char_x(c: char) -> (r: bool)
    ensures
        r == is_num_char(c),
{
    num::digit(c) || c == '-' || c == '+' || c == '.' || c == 'e' || c == 'E'
}

/// Executable number-token scan matching [`num_token_end`].
fn num_end_x(s: &Vec<char>, i: usize) -> (r: usize)
    requires
        i <= s@.len(),
    ensures
        r as nat == num_token_end(s@, i as nat),
        i <= r <= s@.len(),
{
    let mut k: usize = i;
    while k < s.len() && num_char_x(s[k])
        invariant
            i <= k <= s@.len(),
            num_token_end(s@, i as nat) == num_token_end(s@, k as nat),
        decreases s@.len() - k,
    {
        k += 1;
    }
    k
}

/// Parse a number token, matching [`sp_number`].
fn p_number(s: &Vec<char>, i: usize) -> (r: Result<(Value, usize), usize>)
    requires
        i <= s@.len(),
    ensures
        match r {
            Ok(p) => sp_number(s@, i as nat) == Some((p.0.model(), p.1 as nat)) && i < p.1
                <= s@.len() && crate::value::wf(p.0.model()),
            Err(p) => sp_number(s@, i as nat) is None && p <= s@.len(),
        },
{
    let e = num_end_x(s, i);
    if e == i {
        return Err(i);
    }
    let t = crate::text::subvec(s, i, e);
    if !num::number_check(&t) {
        return Err(i);
    }
    if !num::hfe_check(&t) {
        proof {
            num::lemma_plain_int(t@);
        }
        match num::parse_i64(&t) {
            Some(v) => Ok((Value::Int(v), e)),
            None => Ok((Value::Float(crate::text::chars_to_string(&t)), e)),
        }
    } else {
        Ok((Value::Float(crate::text::chars_to_string(&t)), e))
    }
}

/// Parse the value at `i` (no leading whitespace), matching [`sp_value`].
fn p_value(s: &Vec<char>, i: usize) -> (r: Result<(Value, usize), usize>)
    requires
        i <= s@.len(),
    ensures
        match r {
            Ok(p) => sp_value(s@, i as nat) == Some((p.0.model(), p.1 as nat)) && i < p.1
                <= s@.len() && crate::value::wf(p.0.model()),
            Err(p) => sp_value(s@, i as nat) is None && p <= s@.len(),
        },
    decreases s@.len() - i,
{
    if i >= s.len() {
        return Err(i);
    }
    let c = s[i];
    if c == 'n' {
        if s.len() - i >= 4 && s[i + 1] == 'u' && s[i + 2] == 'l' && s[i + 3] == 'l' {
            Ok((Value::Null, i + 4))
        } else {
            Err(i)
        }
    } else if c == 't' {
        if s.len() - i >= 4 && s[i + 1] == 'r' && s[i + 2] == 'u' && s[i + 3] == 'e' {
            Ok((Value::Bool(true), i + 4))
        } else {
            Err(i)
        }
    } else if c == 'f' {
        if s.len() - i >= 5 && s[i + 1] == 'a' && s[i + 2] == 'l' && s[i + 3] == 's' && s[i + 4]
            == 'e' {
            Ok((Value::Bool(false), i + 5))
        } else {
            Err(i)
        }
    } else if c == '"' {
        match p_string(s, i + 1) {
            Ok((t, j)) => Ok((Value::Str(t), j)),
            Err(p) => Err(p),
        }
    } else if c == '[' {
        let first = jws(s, i + 1);
        if first < s.len() && s[first] == ']' {
            let empty_arr: Vec<Value> = Vec::new();
            proof {
                assert(elems_model(empty_arr@) =~= Seq::<ValueModel>::empty());
            }
            return Ok((Value::Arr(empty_arr), first + 1));
        }
        let mut acc: Vec<Value> = Vec::new();
        let mut cur: usize = first;
        proof {
            crate::value::lemma_elems_model_len(acc@);
            assert(elems_model(acc@) =~= Seq::<ValueModel>::empty());
            assert(Seq::<ValueModel>::empty() + (sp_items(s@, first as nat)->0).0 =~= (sp_items(
                s@,
                first as nat,
            )->0).0);
        }
        loop
            invariant
                i < first <= cur <= s@.len(),
                i < s@.len(),
                s@[i as int] == '[',
                first as nat == sp_ws(s@, (i + 1) as nat),
                !(first < s@.len() && s@[first as int] == ']'),
                sp_items(s@, first as nat) == items_cont(
                    elems_model(acc@),
                    sp_items(s@, cur as nat),
                ),
                elems_model(acc@).len() == acc@.len(),
                forall|w: int|
                    0 <= w < acc@.len() ==> crate::value::wf(#[trigger] elems_model(acc@)[w]),
            decreases s@.len() - cur,
        {
            let ghost pcur = cur as nat;
            let ghost pms = elems_model(acc@);
            let ghost pvec = acc@;
            match p_value(s, cur) {
                Err(p) => {
                    return Err(p);
                },
                Ok((v, j2)) => {
                    let k = jws(s, j2);
                    if k >= s.len() {
                        return Err(k);
                    }
                    if s[k] == ']' {
                        acc.push(v);
                        proof {
                            crate::value::lemma_elems_model_len(pvec);
                            crate::value::lemma_elems_model_len(acc@);
                            assert forall|w: int|
                                0 <= w < elems_model(acc@).len() implies elems_model(acc@)[w] == (
                            pms + seq![v.model()])[w] by {
                                assert(elems_model(acc@)[w] == acc@[w].model());
                                if w < pvec.len() {
                                    assert(acc@[w] == pvec[w]);
                                    assert(pms[w] == pvec[w].model());
                                }
                            }
                            assert(elems_model(acc@) =~= pms + seq![v.model()]);
                            assert(sp_items(s@, pcur) == Some(
                                (seq![v.model()], (k + 1) as nat),
                            ));
                            assert(pms + seq![v.model()] =~= elems_model(acc@));
                            assert(sp_items(s@, first as nat) == Some(
                                (elems_model(acc@), (k + 1) as nat),
                            ));
                        }
                        return Ok((Value::Arr(acc), k + 1));
                    } else if s[k] == ',' {
                        let m = jws(s, k + 1);
                        acc.push(v);
                        cur = m;
                        proof {
                            crate::value::lemma_elems_model_len(pvec);
                            crate::value::lemma_elems_model_len(acc@);
                            assert forall|w: int|
                                0 <= w < elems_model(acc@).len() implies elems_model(acc@)[w] == (
                            pms + seq![v.model()])[w] by {
                                assert(elems_model(acc@)[w] == acc@[w].model());
                                if w < pvec.len() {
                                    assert(acc@[w] == pvec[w]);
                                    assert(pms[w] == pvec[w].model());
                                }
                            }
                            assert(elems_model(acc@) =~= pms + seq![v.model()]);
                            let nxt = sp_items(s@, cur as nat);
                            if nxt is Some {
                                assert(pms + (seq![v.model()] + (nxt->0).0) =~= (pms
                                    + seq![v.model()]) + (nxt->0).0);
                            }
                        }
                    } else {
                        return Err(k);
                    }
                },
            }
        }
    } else if c == '{' {
        let first = jws(s, i + 1);
        if first < s.len() && s[first] == '}' {
            let empty_obj: Vec<(String, Value)> = Vec::new();
            proof {
                assert(entries_model(empty_obj@) =~= Seq::<(Seq<char>, ValueModel)>::empty());
            }
            return Ok((Value::Obj(empty_obj), first + 1));
        }
        let mut acc: Vec<(String, Value)> = Vec::new();
        let ghost mut ps = Seq::<(Seq<char>, ValueModel)>::empty();
        let mut cur: usize = first;
        proof {
            crate::value::lemma_entries_model_len(acc@);
            assert(entries_model(acc@) =~= Seq::<(Seq<char>, ValueModel)>::empty());
            assert(fold_entries(ps) =~= Seq::<(Seq<char>, ValueModel)>::empty());
            assert(Seq::<(Seq<char>, ValueModel)>::empty() + (sp_members(s@, first as nat)->0).0
                =~= (sp_members(s@, first as nat)->0).0);
        }
        loop
            invariant
                i < first <= cur <= s@.len(),
                i < s@.len(),
                s@[i as int] == '{',
                first as nat == sp_ws(s@, (i + 1) as nat),
                !(first < s@.len() && s@[first as int] == '}'),
                sp_members(s@, first as nat) == members_cont(ps, sp_members(s@, cur as nat)),
                entries_model(acc@) == fold_entries(ps),
                crate::value::keys_unique(entries_model(acc@)),
                forall|w: int|
                    0 <= w < entries_model(acc@).len() ==> crate::value::wf(
                        #[trigger] entries_model(acc@)[w].1,
                    ),
            decreases s@.len() - cur,
        {
            let ghost pcur = cur as nat;
            let ghost pps = ps;
            let ghost pen = entries_model(acc@);
            if !(cur < s.len() && s[cur] == '"') {
                return Err(cur);
            }
            match p_string(s, cur + 1) {
                Err(p) => {
                    return Err(p);
                },
                Ok((key, j2)) => {
                    let k = jws(s, j2);
                    if !(k < s.len() && s[k] == ':') {
                        return Err(k);
                    }
                    let m = jws(s, k + 1);
                    match p_value(s, m) {
                        Err(p) => {
                            return Err(p);
                        },
                        Ok((v, pp)) => {
                            let q = jws(s, pp);
                            if q >= s.len() {
                                return Err(q);
                            }
                            let ghost keyv = key@;
                            let ghost vm = v.model();
                            if s[q] == '}' {
                                proof {
                                    assert(sp_members(s@, pcur) == Some(
                                        (seq![(keyv, vm)], (q + 1) as nat),
                                    ));
                                    assert(pps + seq![(keyv, vm)] =~= pps.push((keyv, vm)));
                                    assert(sp_members(s@, first as nat) == Some(
                                        (pps.push((keyv, vm)), (q + 1) as nat),
                                    ));
                                    crate::value::lemma_upsert_keys_unique(pen, keyv, vm);
                                    crate::value::lemma_upsert_values(pen, keyv, vm);
                                }
                                crate::value::obj_upsert(&mut acc, key, v);
                                proof {
                                    ps = pps.push((keyv, vm));
                                    assert(ps.drop_last() =~= pps);
                                    assert(fold_entries(ps) == upsert(fold_entries(pps), keyv, vm));
                                    assert(entries_model(acc@) == fold_entries(ps));
                                    let en = entries_model(acc@);
                                    assert forall|w: int|
                                        0 <= w < en.len() implies crate::value::wf(
                                        #[trigger] en[w].1,
                                    ) by {
                                        if en[w] == (keyv, vm) {
                                        } else {
                                            let jj = choose|jj: int|
                                                0 <= jj < pen.len() && en[w] == pen[jj];
                                            assert(crate::value::wf(pen[jj].1));
                                        }
                                    }
                                }
                                return Ok((Value::Obj(acc), q + 1));
                            } else if s[q] == ',' {
                                let w2 = jws(s, q + 1);
                                proof {
                                    crate::value::lemma_upsert_keys_unique(pen, keyv, vm);
                                    crate::value::lemma_upsert_values(pen, keyv, vm);
                                }
                                crate::value::obj_upsert(&mut acc, key, v);
                                cur = w2;
                                proof {
                                    ps = pps.push((keyv, vm));
                                    assert(ps.drop_last() =~= pps);
                                    assert(fold_entries(ps) == upsert(fold_entries(pps), keyv, vm));
                                    let nxt = sp_members(s@, cur as nat);
                                    if nxt is Some {
                                        assert(pps + (seq![(keyv, vm)] + (nxt->0).0) =~= ps
                                            + (nxt->0).0);
                                    }
                                    let en = entries_model(acc@);
                                    assert forall|w: int|
                                        0 <= w < en.len() implies crate::value::wf(
                                        #[trigger] en[w].1,
                                    ) by {
                                        if en[w] == (keyv, vm) {
                                        } else {
                                            let jj = choose|jj: int|
                                                0 <= jj < pen.len() && en[w] == pen[jj];
                                            assert(crate::value::wf(pen[jj].1));
                                        }
                                    }
                                }
                            } else {
                                return Err(q);
                            }
                        },
                    }
                },
            }
        }
    } else if num_char_x(c) {
        p_number(s, i)
    } else {
        Err(i)
    }
}

/// Parse one whole JSON document, matching [`sp_doc`]. The error carries
/// the offending position.
pub fn parse_doc(s: &Vec<char>) -> (r: Result<Value, usize>)
    ensures
        match r {
            Ok(v) => sp_doc(s@) == Some(v.model()) && crate::value::wf(v.model()),
            Err(p) => sp_doc(s@) is None && p <= s@.len(),
        },
{
    let i = jws(s, 0);
    match p_value(s, i) {
        Ok((v, j)) => {
            let k = jws(s, j);
            if k == s.len() {
                Ok(v)
            } else {
                Err(k)
            }
        },
        Err(p) => Err(p),
    }
}

// ---------------------------------------------------------------------
// The round-trip law: parsing a pretty-printed document gives back the
// value. Support lemmas first.
// ---------------------------------------------------------------------

/// A number token that is followed by a non-number character scans to
/// exactly its own end.
pub proof fn lemma_num_token_ext(s: Seq<char>, i: nat, n: nat)
    requires
        i + n <= s.len(),
        forall|k: int| i <= k < i + n ==> is_num_char(#[trigger] s[k]),
        i + n == s.len() || !is_num_char(s[(i + n) as int]),
    ensures
        num_token_end(s, i) == i + n,
    decreases n,
{
    if n > 0 {
        lemma_num_token_ext(s, i + 1, (n - 1) as nat);
    }
}

/// A whitespace run followed by a non-whitespace character skips to
/// exactly its own end.
pub proof fn lemma_sp_ws_skip(s: Seq<char>, i: nat, n: nat)
    requires
        i + n <= s.len(),
        forall|k: int| i <= k < i + n ==> is_json_ws(#[trigger] s[k]),
        i + n == s.len() || !is_json_ws(s[(i + n) as int]),
    ensures
        sp_ws(s, i) == i + n,
    decreases n,
{
    if n > 0 {
        lemma_sp_ws_skip(s, i + 1, (n - 1) as nat);
    }
}

/// Indentation is spaces alone, four per depth.
pub proof fn lemma_ws4(d: nat)
    ensures
        ws4(d).len() == 4 * d,
        forall|k: int| 0 <= k < ws4(d).len() ==> ws4(d)[k] == ' ',
    decreases d,
{
    if d > 0 {
        lemma_ws4((d - 1) as nat);
        assert forall|k: int| 0 <= k < ws4(d).len() implies ws4(d)[k] == ' ' by {
            if k < ws4((d - 1) as nat).len() {
                assert(ws4(d)[k] == ws4((d - 1) as nat)[k]);
            }
        }
    }
}

/// A hexadecimal digit's value reads back.
pub proof fn lemma_hex_char_val(v: int)
    requires
        0 <= v < 16,
    ensures
        hex_val(hex_char(v)) == v,
{
}

/// Parsing the escaped body of a string literal, up to its closing
/// quote, gives back the string.
pub proof fn lemma_sp_string_quoted(s: Seq<char>, i: nat, t: Seq<char>)
    requires
        i + esc_text(t).len() + 1 <= s.len(),
        s.subrange(i as int, (i + esc_text(t).len() + 1) as int) == esc_text(t) + seq!['"'],
    ensures
        sp_string(s, i) == Some((t, i + esc_text(t).len() + 1)),
    decreases t.len(),
{
    let body = esc_text(t) + seq!['"'];
    if t.len() == 0 {
        assert(esc_text(t) =~= Seq::<char>::empty());
        assert(s[i as int] == body[0]);
        assert(s[i as int] == '"');
    } else {
        let c = t[0];
        let rest = t.subrange(1, t.len() as int);
        let e = esc_char(c);
        assert(esc_text(t) == e + esc_text(rest));
        assert forall|k: int| 0 <= k < e.len() implies s[i + k] == e[k] by {
            assert(body[k] == s[i + k]);
            assert(body[k] == e[k]);
        }
        let i2 = i + e.len();
        assert(s.subrange(i2 as int, (i2 + esc_text(rest).len() + 1) as int) =~= esc_text(rest)
            + seq!['"']) by {
            assert forall|k: int|
                0 <= k < esc_text(rest).len() + 1 implies s.subrange(
                i2 as int,
                (i2 + esc_text(rest).len() + 1) as int,
            )[k] == (esc_text(rest) + seq!['"'])[k] by {
                assert(s[i2 + k] == body[e.len() + k]);
            }
        }
        lemma_sp_string_quoted(s, i2, rest);
        assert(seq![c] + rest =~= t);
        if c == '"' || c == '\\' || c == '\n' || c == '\r' || c == '\t' {
            assert(s[i as int] == '\\');
            assert(esc_letter(s[i as int + 1]) == Some(c));
        } else if (c as u32) < 0x20 {
            assert(s[i as int] == '\\');
            assert(s[i as int + 1] == 'u');
            assert(s[i as int + 2] == '0');
            assert(s[i as int + 3] == '0');
            assert(s[i as int + 4] == hex_char((c as u32) as int / 16));
            assert(s[i as int + 5] == hex_char((c as u32) as int % 16));
            lemma_hex_char_val((c as u32) as int / 16);
            lemma_hex_char_val((c as u32) as int % 16);
            let h = hex_val(s[i as int + 2]) * 0x1000 + hex_val(s[i as int + 3]) * 0x100
                + hex_val(s[i as int + 4]) * 0x10 + hex_val(s[i as int + 5]);
            assert(h == c as u32);
            assert(sp_hex4(s, i + 2) == Some(h));
            assert(!(0xD800 <= h < 0xDC00));
            assert(!(0xDC00 <= h < 0xE000));
            vstd::utf8::char_u32_cast(c, c as u32);
            assert(((h as u32) as char) == c);
        } else {
            assert(s[i as int] == c);
            assert(c != '"');
            assert(c != '\\');
            assert(!((c as u32) < 0x20));
        }
    }
}

/// A character that can open a value.
pub open spec fn is_value_start(c: char) -> bool {
    c == 'n' || c == 't' || c == 'f' || c == '"' || c == '[' || c == '{' || c == '-' || is_digit(
        c,
    )
}

/// Pretty text is never empty and opens with a value-start character,
/// which is neither whitespace nor a closing bracket nor a comma.
pub proof fn lemma_pretty_start(m: ValueModel, d: nat)
    requires
        crate::value::wf(m),
    ensures
        pretty_text(m, d).len() >= 1,
        is_value_start(pretty_text(m, d)[0]),
        !is_json_ws(pretty_text(m, d)[0]),
        pretty_text(m, d)[0] != ']' && pretty_text(m, d)[0] != '}' && pretty_text(m, d)[0]
            != ',',
{
    match m {
        ValueModel::Int(v) => {
            num::lemma_int_text_number(v);
            if v >= 0 {
                num::lemma_dec_text(v as nat);
                assert(is_digit(pretty_text(m, d)[0]));
            } else {
                assert(pretty_text(m, d)[0] == '-');
            }
        },
        ValueModel::Float(t) => {
            assert(num::is_number_text(t));
            let i0: nat = if t.len() > 0 && t[0] == '-' { 1 } else { 0 as nat };
            assert(num::int_part_end(t, i0) is Some);
            if i0 == 0 {
                assert(is_digit(t[0]));
            } else {
                assert(t[0] == '-');
            }
        },
        _ => {},
    }
}

/// With unique keys, folding an entry list rebuilds the same list.
pub proof fn lemma_fold_entries_id(o: Seq<(Seq<char>, ValueModel)>)
    requires
        keys_unique(o),
    ensures
        fold_entries(o) == o,
    decreases o.len(),
{
    if o.len() > 0 {
        let pre = o.drop_last();
        assert forall|a: int, b: int| 0 <= a < b < pre.len() implies pre[a].0 != pre[b].0 by {
            assert(pre[a] == o[a]);
            assert(pre[b] == o[b]);
        }
        lemma_fold_entries_id(pre);
        assert forall|w: int| 0 <= w < pre.len() implies pre[w].0 != o.last().0 by {
            assert(pre[w] == o[w]);
        }
        crate::value::lemma_upsert_absent(pre, o.last().0, o.last().1);
        assert(pre.push(o.last()) =~= o);
    }
}

/// The text of the elements from `q` on: each element, its separator,
/// and finally the closing bracket on its own indented line.
pub open spec fn items_tail(a: Seq<ValueModel>, q: int, d: nat) -> Seq<char>
    decreases a.len() - q,
{
    if !(0 <= q < a.len()) {
        Seq::empty()
    } else {
        pretty_text(a[q], d + 1) + (if q == a.len() - 1 {
            seq!['\n'] + ws4(d) + seq![']']
        } else {
            seq![',', '\n'] + ws4(d + 1) + items_tail(a, q + 1, d)
        })
    }
}

/// The text of the members from `q` on.
pub open spec fn members_tail(o: Seq<(Seq<char>, ValueModel)>, q: int, d: nat) -> Seq<char>
    decreases o.len() - q,
{
    if !(0 <= q < o.len()) {
        Seq::empty()
    } else {
        quoted(o[q].0) + seq![':', ' '] + pretty_text(o[q].1, d + 1) + (if q == o.len() - 1 {
            seq!['\n'] + ws4(d) + seq!['}']
        } else {
            seq![',', '\n'] + ws4(d + 1) + members_tail(o, q + 1, d)
        })
    }
}

/// The pretty element lines from `q` on, read tail-first, agree with the
/// prefix-built form.
pub proof fn lemma_items_tail_eq(a: Seq<ValueModel>, q: int, d: nat)
    requires
        0 <= q < a.len(),
    ensures
        pretty_items(a, a.len() as int, d + 1) + ws4(d) + seq![']'] == pretty_items(a, q, d + 1)
            + ws4(d + 1) + items_tail(a, q, d),
    decreases a.len() - q,
{
    if q == a.len() - 1 {
        assert(pretty_items(a, q, d + 1) + ws4(d + 1) + (pretty_text(a[q], d + 1) + (seq!['\n']
            + ws4(d) + seq![']'])) =~= pretty_items(a, a.len() as int, d + 1) + ws4(d)
            + seq![']']);
    } else {
        lemma_items_tail_eq(a, q + 1, d);
        assert(pretty_items(a, q, d + 1) + ws4(d + 1) + (pretty_text(a[q], d + 1) + (seq![',',
            '\n'] + ws4(d + 1) + items_tail(a, q + 1, d))) =~= pretty_items(a, q + 1, d + 1)
            + ws4(d + 1) + items_tail(a, q + 1, d));
    }
}

/// The pretty member lines from `q` on, read tail-first, agree with the
/// prefix-built form.
pub proof fn lemma_members_tail_eq(o: Seq<(Seq<char>, ValueModel)>, q: int, d: nat)
    requires
        0 <= q < o.len(),
    ensures
        pretty_entries(o, o.len() as int, d + 1) + ws4(d) + seq!['}'] == pretty_entries(
            o,
            q,
            d + 1,
        ) + ws4(d + 1) + members_tail(o, q, d),
    decreases o.len() - q,
{
    if q == o.len() - 1 {
        assert(pretty_entries(o, q, d + 1) + ws4(d + 1) + (quoted(o[q].0) + seq![':', ' ']
            + pretty_text(o[q].1, d + 1) + (seq!['\n'] + ws4(d) + seq!['}'])) =~= pretty_entries(
            o,
            o.len() as int,
            d + 1,
        ) + ws4(d) + seq!['}']);
    } else {
        lemma_members_tail_eq(o, q + 1, d);
        assert(pretty_entries(o, q, d + 1) + ws4(d + 1) + (quoted(o[q].0) + seq![':', ' ']
            + pretty_text(o[q].1, d + 1) + (seq![',', '\n'] + ws4(d + 1) + members_tail(
            o,
            q + 1,
            d,
        ))) =~= pretty_entries(o, q + 1, d + 1) + ws4(d + 1) + members_tail(o, q + 1, d));
    }
}

/// Text standing at a position splits into its two halves.
pub proof fn lemma_split_at(s: Seq<char>, p: int, a: Seq<char>, b: Seq<char>)
    requires
        0 <= p,
        p + a.len() + b.len() <= s.len(),
        s.subrange(p, p + a.len() + b.len()) == a + b,
    ensures
        s.subrange(p, p + a.len()) == a,
        s.subrange(p + a.len(), p + a.len() + b.len()) == b,
{
    let whole = a + b;
    assert forall|k: int| 0 <= k < a.len() implies s.subrange(p, p + a.len())[k] == a[k] by {
        assert(whole[k] == s[p + k]);
    }
    assert(s.subrange(p, p + a.len()) =~= a);
    assert forall|k: int|
        0 <= k < b.len() implies s.subrange(p + a.len(), p + a.len() + b.len())[k] == b[k] by {
        assert(whole[a.len() + k] == s[p + a.len() + k]);
    }
    assert(s.subrange(p + a.len(), p + a.len() + b.len()) =~= b);
}

/// The number cases of the round trip: an integer or float token scans
/// to its own end and reads back.
#[verifier::rlimit(100)]
pub proof fn lemma_parse_pretty_num(s: Seq<char>, i: nat, m: ValueModel, d: nat)
    requires
        crate::value::wf(m),
        m is Int || m is Float,
        i + pretty_text(m, d).len() <= s.len(),
        s.subrange(i as int, (i + pretty_text(m, d).len()) as int) == pretty_text(m, d),
        i + pretty_text(m, d).len() == s.len() || !is_num_char(
            s[(i + pretty_text(m, d).len()) as int],
        ),
    ensures
        sp_value(s, i) == Some((m, (i + pretty_text(m, d).len()) as nat)),
{
    let t = pretty_text(m, d);
    assert forall|k: int| 0 <= k < t.len() implies s[i + k] == t[k] by {
        assert(s.subrange(i as int, (i + t.len()) as int)[k] == s[i + k]);
    }
    match m {
        ValueModel::Int(v) => {
            num::lemma_int_text_number(v);
            assert forall|k: int| i <= k < i + t.len() implies is_num_char(#[trigger] s[k]) by {
                assert(s[k] == t[k - i]);
            }
            lemma_num_token_ext(s, i, t.len());
            let c = s[i as int];
            assert(c == t[0]);
            assert(is_digit(c) || c == '-');
            assert(c != 'n' && c != 't' && c != 'f' && c != '"' && c != '[' && c != '{');
            assert(is_num_char(c));
            let e = num_token_end(s, i);
            assert(e == i + t.len());
            assert(s.subrange(i as int, e as int) == t);
            assert(num::is_number_text(t));
            assert(!num::has_frac_or_exp(t));
            assert(num::plain_int_val(t) == v);
            assert(sp_number(s, i) == Some((ValueModel::Int(v), e)));
            assert(sp_value(s, i) == Some((m, (i + t.len()) as nat)));
        },
        ValueModel::Float(ft) => {
            assert(num::is_float_text(ft));
            assert(num::is_number_text(ft));
            num::lemma_number_chars(ft);
            assert forall|k: int| i <= k < i + t.len() implies is_num_char(#[trigger] s[k]) by {
                assert(s[k] == t[k - i]);
            }
            lemma_num_token_ext(s, i, t.len());
            let c = s[i as int];
            assert(c == ft[0]);
            let i0: nat = if ft.len() > 0 && ft[0] == '-' { 1 } else { 0 as nat };
            assert(num::int_part_end(ft, i0) is Some);
            if i0 == 0 {
                assert(is_digit(c));
            } else {
                assert(c == '-');
            }
            assert(c != 'n' && c != 't' && c != 'f' && c != '"' && c != '[' && c != '{');
            assert(is_num_char(c));
            let e = num_token_end(s, i);
            assert(e == i + t.len());
            assert(s.subrange(i as int, e as int) == ft);
            assert(!(!num::has_frac_or_exp(ft) && i64::MIN <= num::plain_int_val(ft)
                <= i64::MAX));
            assert(sp_number(s, i) == Some((ValueModel::Float(ft), e)));
            assert(sp_value(s, i) == Some((m, (i + t.len()) as nat)));
        },
        _ => {},
    }
}

/// Parsing the pretty text of a well-formed value, when nothing that
/// could extend a number token follows, gives back exactly that value.
#[verifier::rlimit(100)]
pub proof fn lemma_parse_pretty(s: Seq<char>, i: nat, m: ValueModel, d: nat)
    requires
        crate::value::wf(m),
        i + pretty_text(m, d).len() <= s.len(),
        s.subrange(i as int, (i + pretty_text(m, d).len()) as int) == pretty_text(m, d),
        i + pretty_text(m, d).len() == s.len() || !is_num_char(
            s[(i + pretty_text(m, d).len()) as int],
        ),
    ensures
        sp_value(s, i) == Some((m, (i + pretty_text(m, d).len()) as nat)),
    decreases m, 0int,
{
    let t = pretty_text(m, d);
    assert forall|k: int| 0 <= k < t.len() implies s[i + k] == t[k] by {
        assert(s.subrange(i as int, (i + t.len()) as int)[k] == s[i + k]);
    }
    assert(s[(i + 0) as int] == t[0]);
    if t.len() > 1 {
        assert(s[(i + 1) as int] == t[1]);
    }
    if t.len() > 2 {
        assert(s[(i + 2) as int] == t[2]);
    }
    if t.len() > 3 {
        assert(s[(i + 3) as int] == t[3]);
    }
    if t.len() > 4 {
        assert(s[(i + 4) as int] == t[4]);
    }
    match m {
        ValueModel::Null => {
            assert(s[i as int] == 'n');
            assert(sp_value(s, i) == Some((m, (i + t.len()) as nat)));
        },
        ValueModel::Bool(b) => {
            if b {
                assert(s[i as int] == 't');
            } else {
                assert(s[i as int] == 'f');
            }
            assert(sp_value(s, i) == Some((m, (i + t.len()) as nat)));
        },
        ValueModel::Int(v) => {
            lemma_parse_pretty_num(s, i, m, d);
        },
        ValueModel::Float(ft) => {
            lemma_parse_pretty_num(s, i, m, d);
        },
        ValueModel::Str(st) => {
            assert(t == quoted(st));
            assert(s[i as int] == '"');
            assert(t =~= seq!['"'] + (esc_text(st) + seq!['"']));
            lemma_split_at(s, i as int, seq!['"'], esc_text(st) + seq!['"']);
            lemma_sp_string_quoted(s, i + 1, st);
            assert(sp_value(s, i) == Some((m, (i + t.len()) as nat)));
        },
        ValueModel::Arr(a) => {
            assert(s[i as int] == '[');
            if a.len() == 0 {
                assert(s[i as int + 1] == ']');
                assert(!is_json_ws(']'));
                lemma_sp_ws_skip(s, i + 1, 0);
                assert(a =~= Seq::<ValueModel>::empty());
                assert(sp_value(s, i) == Some((m, (i + t.len()) as nat)));
            } else {
                lemma_items_tail_eq(a, 0, d);
                assert(pretty_items(a, 0, d + 1) =~= Seq::<char>::empty());
                let tail = items_tail(a, 0, d);
                assert(t =~= (seq!['[', '\n'] + ws4(d + 1)) + tail) by {
                    assert(pretty_items(a, 0, d + 1) + ws4(d + 1) + tail =~= ws4(d + 1) + tail);
                    assert(pretty_items(a, a.len() as int, d + 1) + ws4(d) + seq![']'] =~= ws4(
                        d + 1,
                    ) + tail);
                    assert(t =~= seq!['[', '\n'] + (pretty_items(a, a.len() as int, d + 1)
                        + ws4(d) + seq![']']));
                }
                lemma_ws4(d + 1);
                let head = seq!['[', '\n'] + ws4(d + 1);
                lemma_split_at(s, i as int, head, tail);
                let p0 = i + head.len();
                assert(crate::value::wf(a[0]));
                lemma_pretty_start(a[0], (d + 1) as nat);
                assert(tail[0] == pretty_text(a[0], (d + 1) as nat)[0]) by {
                    assert(items_tail(a, 0, d) == pretty_text(a[0], d + 1) + (if 0 == a.len()
                        - 1 {
                        seq!['\n'] + ws4(d) + seq![']']
                    } else {
                        seq![',', '\n'] + ws4(d + 1) + items_tail(a, 1, d)
                    }));
                }
                assert(s[p0 as int] == tail[0]);
                assert forall|k: int| i + 1 <= k < p0 implies is_json_ws(#[trigger] s[k]) by {
                    assert(s[k] == head[k - i]);
                    if k > i + 1 {
                        assert(head[k - i] == ws4(d + 1)[k - i - 2]);
                    }
                }
                lemma_sp_ws_skip(s, i + 1, (p0 - i - 1) as nat);
                assert(sp_ws(s, i + 1) == p0);
                assert(s[p0 as int] != ']');
                assert(decreases_to!(m => m->Arr_0));
                lemma_parse_items(s, a, 0, p0, d);
                assert(a.subrange(0, a.len() as int) =~= a);
                assert(sp_value(s, i) == Some((m, (p0 + tail.len()) as nat)));
                assert(p0 + tail.len() == i + t.len());
            }
        },
        ValueModel::Obj(o) => {
            assert(s[i as int] == '{');
            if o.len() == 0 {
                assert(s[i as int + 1] == '}');
                lemma_sp_ws_skip(s, i + 1, 0);
                assert(o =~= Seq::<(Seq<char>, ValueModel)>::empty());
                assert(sp_value(s, i) == Some((m, (i + t.len()) as nat)));
            } else {
                lemma_members_tail_eq(o, 0, d);
                assert(pretty_entries(o, 0, d + 1) =~= Seq::<char>::empty());
                let tail = members_tail(o, 0, d);
                assert(t =~= (seq!['{', '\n'] + ws4(d + 1)) + tail) by {
                    assert(pretty_entries(o, 0, d + 1) + ws4(d + 1) + tail =~= ws4(d + 1)
                        + tail);
                    assert(pretty_entries(o, o.len() as int, d + 1) + ws4(d) + seq!['}'] =~= ws4(
                        d + 1,
                    ) + tail);
                    assert(t =~= seq!['{', '\n'] + (pretty_entries(o, o.len() as int, d + 1)
                        + ws4(d) + seq!['}']));
                }
                lemma_ws4(d + 1);
                let head = seq!['{', '\n'] + ws4(d + 1);
                lemma_split_at(s, i as int, head, tail);
                let p0 = i + head.len();
                assert(tail[0] == '"') by {
                    assert(members_tail(o, 0, d) == quoted(o[0].0) + seq![':', ' ']
                        + pretty_text(o[0].1, d + 1) + (if 0 == o.len() - 1 {
                        seq!['\n'] + ws4(d) + seq!['}']
                    } else {
                        seq![',', '\n'] + ws4(d + 1) + members_tail(o, 1, d)
                    }));
                    assert(quoted(o[0].0)[0] == '"');
                }
                assert(s[p0 as int] == tail[0]);
                assert(!is_json_ws('"'));
                assert forall|k: int| i + 1 <= k < p0 implies is_json_ws(#[trigger] s[k]) by {
                    assert(s[k] == head[k - i]);
                    if k > i + 1 {
                        assert(head[k - i] == ws4(d + 1)[k - i - 2]);
                    }
                }
                lemma_sp_ws_skip(s, i + 1, (p0 - i - 1) as nat);
                assert(sp_ws(s, i + 1) == p0);
                assert(s[p0 as int] != '}');
                assert(decreases_to!(m => m->Obj_0));
                lemma_parse_members(s, o, 0, p0, d);
                assert(o.subrange(0, o.len() as int) =~= o);
                lemma_fold_entries_id(o);
                assert(sp_value(s, i) == Some((m, (p0 + tail.len()) as nat)));
                assert(p0 + tail.len() == i + t.len());
            }
        },
    }
}

/// Parsing the element lines from `q` on gives back those elements and
/// stops just after the closing bracket.
#[verifier::rlimit(100)]
pub proof fn lemma_parse_items(s: Seq<char>, a: Seq<ValueModel>, q: int, p: nat, d: nat)
    requires
        forall|w: int| 0 <= w < a.len() ==> crate::value::wf(#[trigger] a[w]),
        0 <= q < a.len(),
        p + items_tail(a, q, d).len() <= s.len(),
        s.subrange(p as int, (p + items_tail(a, q, d).len()) as int) == items_tail(a, q, d),
    ensures
        sp_items(s, p) == Some(
            (a.subrange(q, a.len() as int), (p + items_tail(a, q, d).len()) as nat),
        ),
    decreases a, a.len() - q,
{
    let tail = items_tail(a, q, d);
    let e0 = pretty_text(a[q], (d + 1) as nat);
    let sep: Seq<char> = if q == a.len() - 1 {
        seq!['\n'] + ws4(d) + seq![']']
    } else {
        seq![',', '\n'] + ws4(d + 1) + items_tail(a, q + 1, d)
    };
    assert(tail == e0 + sep);
    lemma_split_at(s, p as int, e0, sep);
    assert(crate::value::wf(a[q]));
    lemma_pretty_start(a[q], (d + 1) as nat);
    assert(s[(p + e0.len()) as int] == sep[0]) by {
        assert(s.subrange((p + e0.len()) as int, (p + e0.len() + sep.len()) as int)[0] == sep[0]);
    }
    assert(!is_num_char(sep[0]));
    assert(decreases_to!(a => a[q]));
    lemma_parse_pretty(s, p, a[q], (d + 1) as nat);
    let j = p + e0.len();
    assert(sp_value(s, p) == Some((a[q], j as nat)));
    lemma_ws4(d);
    lemma_ws4(d + 1);
    assert forall|k: int| 0 <= k < sep.len() implies s[j + k] == sep[k] by {
        assert(s.subrange(j as int, (j + sep.len()) as int)[k] == s[j + k]);
    }
    if q == a.len() - 1 {
        let k0 = j + 1 + 4 * d;
        assert forall|k: int| j <= k < k0 implies is_json_ws(#[trigger] s[k]) by {
            assert(s[k] == sep[k - j]);
            if k > j {
                assert(sep[k - j] == ws4(d)[k - j - 1]);
            }
        }
        assert(s[(j + 1 + 4 * d) as int] == sep[(1 + 4 * d) as int]);
        assert(sep[(1 + 4 * d) as int] == ']');
        assert(s[k0 as int] == ']');
        lemma_sp_ws_skip(s, j as nat, (1 + 4 * d) as nat);
        assert(sp_ws(s, j as nat) == k0);
        assert(seq![a[q]] =~= a.subrange(q, a.len() as int));
        assert(sp_items(s, p) == Some((seq![a[q]], (k0 + 1) as nat)));
        assert(k0 + 1 == p + tail.len());
    } else {
        assert(s[j as int] == ',');
        lemma_sp_ws_skip(s, j as nat, 0);
        assert(sp_ws(s, j as nat) == j);
        let m2 = j + 2 + 4 * (d + 1);
        let tail2 = items_tail(a, q + 1, d);
        assert(sep =~= (seq![',', '\n'] + ws4(d + 1)) + tail2);
        lemma_split_at(s, j as int, seq![',', '\n'] + ws4(d + 1), tail2);
        assert(crate::value::wf(a[q + 1]));
        lemma_pretty_start(a[q + 1], (d + 1) as nat);
        assert(tail2[0] == pretty_text(a[q + 1], (d + 1) as nat)[0]) by {
            assert(items_tail(a, q + 1, d) == pretty_text(a[q + 1], d + 1) + (if q + 1 == a.len()
                - 1 {
                seq!['\n'] + ws4(d) + seq![']']
            } else {
                seq![',', '\n'] + ws4(d + 1) + items_tail(a, q + 2, d)
            }));
        }
        assert(s[m2 as int] == tail2[0]) by {
            assert(s.subrange(m2 as int, (m2 + tail2.len()) as int)[0] == tail2[0]);
        }
        assert forall|k: int| j + 1 <= k < m2 implies is_json_ws(#[trigger] s[k]) by {
            assert(s[k] == sep[k - j]);
            if k > j + 1 {
                assert(sep[k - j] == ws4(d + 1)[k - j - 2]);
            }
        }
        lemma_sp_ws_skip(s, (j + 1) as nat, (1 + 4 * (d + 1)) as nat);
        assert(sp_ws(s, (j + 1) as nat) == m2);
        lemma_parse_items(s, a, q + 1, m2 as nat, d);
        assert(seq![a[q]] + a.subrange(q + 1, a.len() as int) =~= a.subrange(
            q,
            a.len() as int,
        ));
        assert(m2 + tail2.len() == p + tail.len());
        assert(sp_items(s, p) == Some(
            (a.subrange(q, a.len() as int), (p + tail.len()) as nat),
        ));
    }
}

/// Parsing the member lines from `q` on gives back those members in
/// order and stops just after the closing brace.
#[verifier::rlimit(100)]
pub proof fn lemma_parse_members(
    s: Seq<char>,
    o: Seq<(Seq<char>, ValueModel)>,
    q: int,
    p: nat,
    d: nat,
)
    requires
        forall|w: int| 0 <= w < o.len() ==> crate::value::wf((#[trigger] o[w]).1),
        0 <= q < o.len(),
        p + members_tail(o, q, d).len() <= s.len(),
        s.subrange(p as int, (p + members_tail(o, q, d).len()) as int) == members_tail(o, q, d),
    ensures
        sp_members(s, p) == Some(
            (o.subrange(q, o.len() as int), (p + members_tail(o, q, d).len()) as nat),
        ),
    decreases o, o.len() - q,
{
    let tail = members_tail(o, q, d);
    let key = o[q].0;
    let kq = quoted(key);
    let e0 = pretty_text(o[q].1, (d + 1) as nat);
    let sep: Seq<char> = if q == o.len() - 1 {
        seq!['\n'] + ws4(d) + seq!['}']
    } else {
        seq![',', '\n'] + ws4(d + 1) + members_tail(o, q + 1, d)
    };
    assert(tail == kq + seq![':', ' '] + e0 + sep);
    assert(tail =~= kq + (seq![':', ' '] + (e0 + sep)));
    lemma_split_at(s, p as int, kq, seq![':', ' '] + (e0 + sep));
    assert(s[p as int] == kq[0]) by {
        assert(s.subrange(p as int, (p + kq.len()) as int)[0] == kq[0]);
    }
    assert(kq[0] == '"');
    assert(kq =~= seq!['"'] + (esc_text(key) + seq!['"']));
    lemma_split_at(s, p as int, seq!['"'], esc_text(key) + seq!['"']);
    lemma_sp_string_quoted(s, p + 1, key);
    let j = p + kq.len();
    assert(sp_string(s, p + 1) == Some((key, j as nat)));
    let after_kq = seq![':', ' '] + (e0 + sep);
    assert forall|k: int| 0 <= k < after_kq.len() implies s[j + k] == after_kq[k] by {
        assert(s.subrange(j as int, (j + after_kq.len()) as int)[k] == s[j + k]);
    }
    assert(s[(j + 0) as int] == after_kq[0]);
    assert(s[j as int] == ':');
    lemma_sp_ws_skip(s, j as nat, 0);
    assert(sp_ws(s, j as nat) == j);
    let m2 = j + 2;
    lemma_split_at(s, j as int, seq![':', ' '], e0 + sep);
    lemma_split_at(s, m2 as int, e0, sep);
    assert(crate::value::wf(o[q].1));
    lemma_pretty_start(o[q].1, (d + 1) as nat);
    assert(s[m2 as int] == e0[0]) by {
        assert(s.subrange(m2 as int, (m2 + e0.len()) as int)[0] == e0[0]);
    }
    lemma_sp_ws_skip(s, (j + 1) as nat, 1);
    assert(sp_ws(s, (j + 1) as nat) == m2);
    assert(s[(m2 + e0.len()) as int] == sep[0]) by {
        assert(s.subrange((m2 + e0.len()) as int, (m2 + e0.len() + sep.len()) as int)[0] == sep[0]);
    }
    assert(!is_num_char(sep[0]));
    assert(decreases_to!(o => o[q]));
    assert(decreases_to!(o[q] => o[q].1));
    lemma_parse_pretty(s, (m2 as nat), o[q].1, (d + 1) as nat);
    let pp = m2 + e0.len();
    assert(sp_value(s, m2 as nat) == Some((o[q].1, pp as nat)));
    lemma_ws4(d);
    lemma_ws4(d + 1);
    assert forall|k: int| 0 <= k < sep.len() implies s[pp + k] == sep[k] by {
        assert(s.subrange(pp as int, (pp + sep.len()) as int)[k] == s[pp + k]);
    }
    if q == o.len() - 1 {
        let k0 = pp + 1 + 4 * d;
        assert forall|k: int| pp <= k < k0 implies is_json_ws(#[trigger] s[k]) by {
            assert(s[k] == sep[k - pp]);
            if k > pp {
                assert(sep[k - pp] == ws4(d)[k - pp - 1]);
            }
        }
        assert(s[(pp + 1 + 4 * d) as int] == sep[(1 + 4 * d) as int]);
        assert(sep[(1 + 4 * d) as int] == '}');
        assert(s[k0 as int] == '}');
        lemma_sp_ws_skip(s, pp as nat, (1 + 4 * d) as nat);
        assert(sp_ws(s, pp as nat) == k0);
        assert(seq![(key, o[q].1)] =~= o.subrange(q, o.len() as int)) by {
            assert(o.subrange(q, o.len() as int).len() == 1);
            assert(o.subrange(q, o.len() as int)[0] == o[q]);
        }
        assert(sp_members(s, p) == Some((seq![(key, o[q].1)], (k0 + 1) as nat)));
        assert(k0 + 1 == p + tail.len());
    } else {
        assert(s[pp as int] == ',');
        lemma_sp_ws_skip(s, pp as nat, 0);
        assert(sp_ws(s, pp as nat) == pp);
        let w2 = pp + 2 + 4 * (d + 1);
        let tail2 = members_tail(o, q + 1, d);
        assert(sep =~= (seq![',', '\n'] + ws4(d + 1)) + tail2);
        lemma_split_at(s, pp as int, seq![',', '\n'] + ws4(d + 1), tail2);
        assert(tail2[0] == '"') by {
            assert(members_tail(o, q + 1, d) == quoted(o[q + 1].0) + seq![':', ' ']
                + pretty_text(o[q + 1].1, d + 1) + (if q + 1 == o.len() - 1 {
                seq!['\n'] + ws4(d) + seq!['}']
            } else {
                seq![',', '\n'] + ws4(d + 1) + members_tail(o, q + 2, d)
            }));
            assert(quoted(o[q + 1].0)[0] == '"');
        }
        assert(s[w2 as int] == tail2[0]) by {
            assert(s.subrange(w2 as int, (w2 + tail2.len()) as int)[0] == tail2[0]);
        }
        assert forall|k: int| pp + 1 <= k < w2 implies is_json_ws(#[trigger] s[k]) by {
            assert(s[k] == sep[k - pp]);
            if k > pp + 1 {
                assert(sep[k - pp] == ws4(d + 1)[k - pp - 2]);
            }
        }
        lemma_sp_ws_skip(s, (pp + 1) as nat, (1 + 4 * (d + 1)) as nat);
        assert(sp_ws(s, (pp + 1) as nat) == w2);
        lemma_parse_members(s, o, q + 1, w2 as nat, d);
        assert(seq![(key, o[q].1)] + o.subrange(q + 1, o.len() as int) =~= o.subrange(
            q,
            o.len() as int,
        )) by {
            assert(seq![(key, o[q].1)][0] == o[q]);
        }
        assert(w2 + tail2.len() == p + tail.len());
        assert(sp_members(s, p) == Some(
            (o.subrange(q, o.len() as int), (p + tail.len()) as nat),
        ));
    }
}

/// The round-trip law: a pretty-printed well-formed value parses back to
/// itself, so parse-then-serialize is idempotent.
pub proof fn lemma_json_round_trip(m: ValueModel)
    requires
        crate::value::wf(m),
    ensures
        sp_doc(pretty_text(m, 0)) == Some(m),
{
    let s = pretty_text(m, 0);
    lemma_pretty_start(m, 0);
    assert(s.subrange(0, s.len() as int) =~= s);
    lemma_sp_ws_skip(s, 0, 0);
    lemma_parse_pretty(s, 0, m, 0);
    lemma_sp_ws_skip(s, s.len(), 0);
}

/// Idempotence of the JSON codec at the text level: once a document has
/// been re-serialized, re-serializing it again changes nothing.
pub proof fn lemma_json_idempotent(s: Seq<char>)
    requires
        sp_doc(s) is Some,
    ensures
        sp_doc(pretty_text(sp_doc(s)->0, 0)) == Some(sp_doc(s)->0),
        pretty_text(sp_doc(pretty_text(sp_doc(s)->0, 0))->0, 0) == pretty_text(
            sp_doc(s)->0,
            0,
        ),
{
    lemma_sp_doc_wf(s);
    lemma_json_round_trip(sp_doc(s)->0);
}

/// Folding any member list gives unique keys and keeps the values'
/// well-formedness.
pub proof fn lemma_fold_entries_wf(ps: Seq<(Seq<char>, ValueModel)>)
    requires
        forall|w: int| 0 <= w < ps.len() ==> crate::value::wf((#[trigger] ps[w]).1),
    ensures
        keys_unique(fold_entries(ps)),
        forall|w: int|
            0 <= w < fold_entries(ps).len() ==> crate::value::wf(
                (#[trigger] fold_entries(ps)[w]).1,
            ),
    decreases ps.len(),
{
    if ps.len() > 0 {
        let pre = ps.drop_last();
        assert forall|w: int| 0 <= w < pre.len() implies crate::value::wf(
            (#[trigger] pre[w]).1,
        ) by {
            assert(pre[w] == ps[w]);
        }
        lemma_fold_entries_wf(pre);
        let fp = fold_entries(pre);
        let key = ps.last().0;
        let v = ps.last().1;
        crate::value::lemma_upsert_keys_unique(fp, key, v);
        crate::value::lemma_upsert_values(fp, key, v);
        let u = upsert(fp, key, v);
        assert forall|w: int| 0 <= w < u.len() implies crate::value::wf(
            (#[trigger] u[w]).1,
        ) by {
            if u[w] == (key, v) {
                assert(crate::value::wf(ps.last().1));
            } else {
                let jj = choose|jj: int| 0 <= jj < fp.len() && u[w] == fp[jj];
                assert(crate::value::wf(fp[jj].1));
            }
        }
    }
}

/// Every value the parser yields is well formed: object keys come out
/// unique (the last duplicate wins), and a float token never holds an
/// integer the `i64` range could carry.
pub proof fn lemma_sp_value_wf(s: Seq<char>, i: nat)
    requires
        i <= s.len(),
    ensures
        sp_value(s, i) is Some ==> crate::value::wf((sp_value(s, i)->0).0),
    decreases s.len() - i, 2int,
{
    if i < s.len() {
        let c = s[i as int];
        if c == '"' {
        } else if c == '[' {
            let j = sp_ws(s, i + 1);
            if i < j && j <= s.len() && !(j < s.len() && s[j as int] == ']') {
                lemma_sp_items_wf(s, j);
            }
        } else if c == '{' {
            let j = sp_ws(s, i + 1);
            if i < j && j <= s.len() && !(j < s.len() && s[j as int] == '}') {
                lemma_sp_members_wf(s, j);
                match sp_members(s, j) {
                    Some((ps, k)) => {
                        lemma_fold_entries_wf(ps);
                    },
                    None => {},
                }
            }
        } else if c == 'n' || c == 't' || c == 'f' {
        } else if is_num_char(c) {
            let e = num_token_end(s, i);
            if i < e && e <= s.len() {
                let t = s.subrange(i as int, e as int);
                if num::is_number_text(t) && !(!num::has_frac_or_exp(t) && i64::MIN
                    <= num::plain_int_val(t) <= i64::MAX) {
                    assert(num::is_float_text(t));
                }
            }
        }
    }
}

/// Every element the parser's element list yields is well formed.
pub proof fn lemma_sp_items_wf(s: Seq<char>, i: nat)
    requires
        i <= s.len(),
    ensures
        sp_items(s, i) is Some ==> forall|w: int|
            0 <= w < (sp_items(s, i)->0).0.len() ==> crate::value::wf(
                #[trigger] (sp_items(s, i)->0).0[w],
            ),
    decreases s.len() - i, 3int,
{
    lemma_sp_value_wf(s, i);
    match sp_value(s, i) {
        Some((v, j)) => {
            if i < j && j <= s.len() {
                let k = sp_ws(s, j);
                if j <= k && k < s.len() {
                    if s[k as int] == ']' {
                        assert forall|w: int|
                            0 <= w < (sp_items(s, i)->0).0.len() implies crate::value::wf(
                            #[trigger] (sp_items(s, i)->0).0[w],
                        ) by {
                            assert((sp_items(s, i)->0).0[w] == v);
                        }
                    } else if s[k as int] == ',' {
                        let m = sp_ws(s, k + 1);
                        if i < m && m <= s.len() {
                            lemma_sp_items_wf(s, m);
                            match sp_items(s, m) {
                                Some((a, e)) => {
                                    assert forall|w: int|
                                        0 <= w < (sp_items(s, i)->0).0.len() implies crate::value::wf(
                                        #[trigger] (sp_items(s, i)->0).0[w],
                                    ) by {
                                        if w > 0 {
                                            assert((sp_items(s, i)->0).0[w] == a[w - 1]);
                                        }
                                    }
                                },
                                None => {},
                            }
                        }
                    }
                }
            }
        },
        None => {},
    }
}

/// Every member value the parser's member list yields is well formed.
pub proof fn lemma_sp_members_wf(s: Seq<char>, i: nat)
    requires
        i <= s.len(),
    ensures
        sp_members(s, i) is Some ==> forall|w: int|
            0 <= w < (sp_members(s, i)->0).0.len() ==> crate::value::wf(
                (#[trigger] (sp_members(s, i)->0).0[w]).1,
            ),
    decreases s.len() - i, 3int,
{
    if i < s.len() && s[i as int] == '"' {
        match sp_string(s, i + 1) {
            Some((key, j)) => {
                if i < j && j <= s.len() {
                    let k = sp_ws(s, j);
                    if j <= k && k < s.len() && s[k as int] == ':' {
                        let m = sp_ws(s, k + 1);
                        if i < m && m <= s.len() {
                            lemma_sp_value_wf(s, m);
                            match sp_value(s, m) {
                                Some((v, p)) => {
                                    if m < p && p <= s.len() {
                                        let q = sp_ws(s, p);
                                        if p <= q && q < s.len() {
                                            if s[q as int] == '}' {
                                                assert forall|w: int|
                                                    0 <= w < (sp_members(s, i)->0).0.len() implies crate::value::wf(
                                                    (#[trigger] (sp_members(s, i)->0).0[w]).1,
                                                ) by {
                                                    assert((sp_members(s, i)->0).0[w] == (
                                                    key,
                                                    v,
                                                    ));
                                                }
                                            } else if s[q as int] == ',' {
                                                let w2 = sp_ws(s, q + 1);
                                                if i < w2 && w2 <= s.len() {
                                                    lemma_sp_members_wf(s, w2);
                                                    match sp_members(s, w2) {
                                                        Some((ps, e)) => {
                                                            assert forall|w: int|
                                                                0 <= w < (sp_members(
                                                                s,
                                                                i,
                                                            )->0).0.len() implies crate::value::wf(
                                                                (#[trigger] (sp_members(
                                                                    s,
                                                                    i,
                                                                )->0).0[w]).1,
                                                            ) by {
                                                                if w > 0 {
                                                                    assert((sp_members(
                                                                    s,
                                                                    i,
                                                                    )->0).0[w] == ps[w - 1]);
                                                                }
                                                            }
                                                        },
                                                        None => {},
                                                    }
                                                }
                                            }
                                        }
                                    }
                                },
                                None => {},
                            }
                        }
                    }
                }
            },
            None => {},
        }
    }
}

/// A whole parsed document is well formed.
pub proof fn lemma_sp_doc_wf(s: Seq<char>)
    ensures
        sp_doc(s) is Some ==> crate::value::wf(sp_doc(s)->0),
{
    let i = sp_ws(s, 0);
    if i <= s.len() {
        lemma_sp_value_wf(s, i);
    }
}

} // verus!
