//! The XML codec.
//!
//! Parsing is a stack-based tree builder: a start tag pushes a frame, text
//! is buffered (only the most recent segment before a closing tag is
//! kept, entity-decoded and trimmed), and an end tag pops its frame,
//! attaches buffered text as a `_text` field with type inference,
//! collapses a text-only element to its scalar, and merges the element
//! into its parent — a repeated tag is promoted to an array, further
//! repeats append. The root element's value is the result; a root object
//! of the single key `item` holding an array collapses to that array.
//! Mismatched or unclosed tags and empty documents are parse errors, as
//! is a further open or end tag after the root element closed; comments,
//! processing instructions, doctypes, CDATA sections, self-closing tags
//! and stray text (before, between or after elements) are skipped.
//!
//! Serializing wraps the value in a synthetic `root` tag: array elements
//! become sibling `item` tags, object entries become tags named after the
//! key, scalars become text content.

use vstd::prelude::*;
use crate::num;
use crate::num::{int_parse, int_text, is_float_text, digits_val, all_digits};
use crate::text::{idx_of, trim_spec, eq_ignore_ascii_case_spec};
use crate::value::{Value, ValueModel, upsert, entries_model, elems_model};

verus! {

// ---------------------------------------------------------------------
// Serializing, specified exactly
// ---------------------------------------------------------------------

/// The escape of one text character.
pub open spec fn xesc_char(c: char) -> Seq<char> {
    if c == '&' {
        seq!['&', 'a', 'm', 'p', ';']
    } else if c == '<' {
        seq!['&', 'l', 't', ';']
    } else if c == '>' {
        seq!['&', 'g', 't', ';']
    } else if c == '"' {
        seq!['&', 'q', 'u', 'o', 't', ';']
    } else if c == '\'' {
        seq!['&', 'a', 'p', 'o', 's', ';']
    } else {
        seq![c]
    }
}

/// Escaped text content.
pub open spec fn xesc(s: Seq<char>) -> Seq<char>
    decreases s.len(),
{
    if s.len() == 0 {
        Seq::empty()
    } else {
        xesc_char(s[0]) + xesc(s.subrange(1, s.len() as int))
    }
}

/// An opening tag.
pub open spec fn open_tag(name: Seq<char>) -> Seq<char> {
    seq!['<'] + name + seq!['>']
}

/// A closing tag.
pub open spec fn close_tag(name: Seq<char>) -> Seq<char> {
    seq!['<', '/'] + name + seq!['>']
}

/// The body of one element: scalars as text, arrays as `item` siblings,
/// objects as one tag per key.
pub open spec fn xbody(m: ValueModel) -> Seq<char>
    decreases m, 0int,
{
    match m {
        ValueModel::Null => Seq::empty(),
        ValueModel::Bool(b) => if b {
            seq!['t', 'r', 'u', 'e']
        } else {
            seq!['f', 'a', 'l', 's', 'e']
        },
        ValueModel::Int(i) => int_text(i),
        ValueModel::Float(t) => t,
        ValueModel::Str(t) => xesc(t),
        ValueModel::Arr(a) => xitems(a, a.len() as int),
        ValueModel::Obj(o) => xentries(o, o.len() as int),
    }
}

/// The first `k` elements of an array as `item` tags.
pub open spec fn xitems(a: Seq<ValueModel>, k: int) -> Seq<char>
    decreases a, k,
{
    if k <= 0 || k > a.len() {
        Seq::empty()
    } else {
        xitems(a, k - 1) + open_tag(seq!['i', 't', 'e', 'm']) + xbody(a[k - 1]) + close_tag(
            seq!['i', 't', 'e', 'm'],
        )
    }
}

/// The first `k` entries of an object as tags named after the keys.
pub open spec fn xentries(o: Seq<(Seq<char>, ValueModel)>, k: int) -> Seq<char>
    decreases o, k,
{
    if k <= 0 || k > o.len() {
        Seq::empty()
    } else {
        xentries(o, k - 1) + open_tag(o[k - 1].0) + xbody(o[k - 1].1) + close_tag(o[k - 1].0)
    }
}

/// A whole document: the value under a synthetic `root` tag.
pub open spec fn xml_text(m: ValueModel) -> Seq<char> {
    open_tag(seq!['r', 'o', 'o', 't']) + xbody(m) + close_tag(seq!['r', 'o', 'o', 't'])
}

// ---------------------------------------------------------------------
// Text decoding and inference
// ---------------------------------------------------------------------

/// The character a named or numeric entity denotes, if it is one the
/// codec knows: the five named entities, `#` decimal and `#x` hexadecimal
/// code points in the scalar range.
pub open spec fn entity_char(name: Seq<char>) -> Option<char> {
    if name =~= seq!['a', 'm', 'p'] {
        Some('&')
    } else if name =~= seq!['l', 't'] {
        Some('<')
    } else if name =~= seq!['g', 't'] {
        Some('>')
    } else if name =~= seq!['q', 'u', 'o', 't'] {
        Some('"')
    } else if name =~= seq!['a', 'p', 'o', 's'] {
        Some('\'')
    } else if name.len() >= 2 && name.len() <= 8 && name[0] == '#' && name[1] == 'x' {
        let digits = name.subrange(2, name.len() as int);
        if digits.len() >= 1 && hex_all(digits) && valid_scalar(hex_seq_val(digits)) {
            Some(((hex_seq_val(digits)) as u32) as char)
        } else {
            None
        }
    } else if name.len() >= 2 && name.len() <= 8 && name[0] == '#' {
        let digits = name.subrange(1, name.len() as int);
        if all_digits(digits) && valid_scalar(digits_val(digits)) {
            Some(((digits_val(digits)) as u32) as char)
        } else {
            None
        }
    } else {
        None
    }
}

/// A Unicode scalar value.
pub open spec fn valid_scalar(n: int) -> bool {
    (0 <= n < 0xD800) || (0xE000 <= n <= 0x10FFFF)
}

pub open spec fn hex_all(s: Seq<char>) -> bool {
    forall|i: int| 0 <= i < s.len() ==> crate::json::hex_val(#[trigger] s[i]) < 16
}

/// Value of a hexadecimal digit string.
pub open spec fn hex_seq_val(s: Seq<char>) -> int
    decreases s.len(),
{
    if s.len() == 0 {
        0
    } else {
        hex_seq_val(s.drop_last()) * 16 + crate::json::hex_val(s.last())
    }
}

/// Entity-decode a text run: `&name;` becomes its character where the
/// name is known, any other `&` stands as it is.
pub open spec fn xdecode(t: Seq<char>) -> Seq<char>
    decreases t.len(),
{
    if t.len() == 0 {
        Seq::empty()
    } else if t[0] == '&' {
        let k = idx_of(t, ';', 1);
        if k < t.len() && 1 <= k && k <= t.len() {
            match entity_char(t.subrange(1, k as int)) {
                Some(c) => seq![c] + xdecode(t.subrange(k as int + 1, t.len() as int)),
                None => seq!['&'] + xdecode(t.subrange(1, t.len() as int)),
            }
        } else {
            seq!['&'] + xdecode(t.subrange(1, t.len() as int))
        }
    } else {
        seq![t[0]] + xdecode(t.subrange(1, t.len() as int))
    }
}

/// Type inference for element text: the literals `null`, `true`, `false`
/// (any case), then an integer, then a float, else the text itself.
pub open spec fn infer(t: Seq<char>) -> ValueModel {
    if eq_ignore_ascii_case_spec(t, seq!['n', 'u', 'l', 'l']) {
        ValueModel::Null
    } else if eq_ignore_ascii_case_spec(t, seq!['t', 'r', 'u', 'e']) {
        ValueModel::Bool(true)
    } else if eq_ignore_ascii_case_spec(t, seq!['f', 'a', 'l', 's', 'e']) {
        ValueModel::Bool(false)
    } else {
        match int_parse(t) {
            Some(v) => ValueModel::Int(v),
            None => if is_float_text(t) {
                ValueModel::Float(t)
            } else {
                ValueModel::Str(t)
            },
        }
    }
}

// ---------------------------------------------------------------------
// Parsing, specified exactly
// ---------------------------------------------------------------------

/// Scan to the `>` closing a tag, honoring quoted attribute values.
/// `q` is 0 outside quotes, 1 in single quotes, 2 in double quotes.
pub open spec fn tag_end(s: Seq<char>, i: nat, q: int) -> Option<nat>
    decreases s.len() - i when i <= s.len()
{
    if i >= s.len() {
        None
    } else if q == 0 {
        if s[i as int] == '>' {
            Some(i)
        } else if s[i as int] == '\'' {
            tag_end(s, i + 1, 1)
        } else if s[i as int] == '"' {
            tag_end(s, i + 1, 2)
        } else {
            tag_end(s, i + 1, 0)
        }
    } else if (q == 1 && s[i as int] == '\'') || (q == 2 && s[i as int] == '"') {
        tag_end(s, i + 1, 0)
    } else {
        tag_end(s, i + 1, q)
    }
}

/// First position at or after `i` where `pat` occurs, or the length.
pub open spec fn find_at(s: Seq<char>, i: nat, pat: Seq<char>) -> nat
    decreases s.len() - i when i <= s.len()
{
    if i + pat.len() > s.len() {
        s.len()
    } else if s.subrange(i as int, i as int + pat.len() as int) =~= pat {
        i
    } else {
        find_at(s, i + 1, pat)
    }
}

/// End of a tag name: the first whitespace, slash or closing angle.
pub open spec fn name_end(s: Seq<char>, i: nat) -> nat
    decreases s.len() - i when i <= s.len()
{
    if i < s.len() && !(crate::text::is_ascii_ws(s[i as int]) || s[i as int] == '/' || s[i as int]
        == '>') {
        name_end(s, i + 1)
    } else {
        i
    }
}

/// A parser frame: an open element's tag name and the entries gathered
/// for it so far.
pub struct SpecFrame {
    pub tag: Seq<char>,
    pub entries: Seq<(Seq<char>, ValueModel)>,
}

/// Merge a closed child into its parent's entries: a new tag is appended,
/// a repeated tag is promoted to an array in place, an array appends.
pub open spec fn merge_child(
    o: Seq<(Seq<char>, ValueModel)>,
    tag: Seq<char>,
    v: ValueModel,
) -> Seq<(Seq<char>, ValueModel)>
    decreases o.len(),
{
    if o.len() == 0 {
        seq![(tag, v)]
    } else if o[0].0 == tag {
        seq![(tag, promote(o[0].1, v))] + o.subrange(1, o.len() as int)
    } else {
        seq![o[0]] + merge_child(o.subrange(1, o.len() as int), tag, v)
    }
}

/// The promotion of a repeated tag's value.
pub open spec fn promote(prev: ValueModel, v: ValueModel) -> ValueModel {
    match prev {
        ValueModel::Arr(a) => ValueModel::Arr(a.push(v)),
        _ => ValueModel::Arr(seq![prev, v]),
    }
}

/// The value of a popped frame: buffered text becomes a `_text` entry
/// with inference, and an element holding nothing but text collapses to
/// that scalar.
pub open spec fn finish_frame(entries: Seq<(Seq<char>, ValueModel)>, buf: Seq<char>) -> ValueModel {
    let en = if buf.len() > 0 {
        upsert(entries, seq!['_', 't', 'e', 'x', 't'], infer(buf))
    } else {
        entries
    };
    if en.len() == 1 && en[0].0 =~= seq!['_', 't', 'e', 'x', 't'] {
        en[0].1
    } else {
        ValueModel::Obj(en)
    }
}

/// The final normalization: a root object holding exactly one key `item`
/// with an array collapses to the bare array.
pub open spec fn normalize_root(v: ValueModel) -> ValueModel {
    match v {
        ValueModel::Obj(o) => if o.len() == 1 && o[0].0 =~= seq!['i', 't', 'e', 'm'] && o[0].1
            is Arr {
            o[0].1
        } else {
            v
        },
        _ => v,
    }
}

/// Run the tree builder from position `i` with the given open-element
/// stack, finished root element and text buffer. Yields the document's
/// value, or `None` for a malformed document.
pub open spec fn xml_run(
    s: Seq<char>,
    i: nat,
    stack: Seq<SpecFrame>,
    root: Option<ValueModel>,
    buf: Seq<char>,
) -> Option<ValueModel>
    decreases s.len() - i when i <= s.len()
{
    if i >= s.len() {
        // end of input
        if stack.len() == 0 {
            match root {
                Some(v) => Some(normalize_root(v)),
                None => None,
            }
        } else {
            None
        }
    } else if s[i as int] != '<' {
        // a text run up to the next tag
        let e = idx_of(s, '<', i);
        if i < e <= s.len() {
            let t = xdecode(trim_spec(s.subrange(i as int, e as int)));
            if t.len() > 0 {
                xml_run(s, e, stack, root, t)
            } else {
                xml_run(s, e, stack, root, buf)
            }
        } else {
            None
        }
    } else if i + 4 <= s.len() && s.subrange(i as int, i as int + 4) =~= seq!['<', '!', '-', '-'] {
        // a comment
        let e = find_at(s, i + 4, seq!['-', '-', '>']);
        if e + 3 <= s.len() && i < e + 3 {
            xml_run(s, e + 3, stack, root, buf)
        } else {
            None
        }
    } else if i + 9 <= s.len() && s.subrange(i as int, i as int + 9) =~= seq!['<', '!', '[', 'C',
        'D', 'A', 'T', 'A', '['] {
        // a CDATA section (skipped, like every event but start, end, text)
        let e = find_at(s, i + 9, seq![']', ']', '>']);
        if e + 3 <= s.len() && i < e + 3 {
            xml_run(s, e + 3, stack, root, buf)
        } else {
            None
        }
    } else if i + 2 <= s.len() && (s[i as int + 1] == '!' || s[i as int + 1] == '?') {
        // a doctype or processing instruction
        let e = idx_of(s, '>', i);
        if i < e && e < s.len() {
            xml_run(s, e + 1, stack, root, buf)
        } else {
            None
        }
    } else if i + 2 <= s.len() && s[i as int + 1] == '/' {
        // an end tag
        let ne = name_end(s, i + 2);
        let e = idx_of(s, '>', i);
        if i + 2 <= ne && ne <= s.len() && i < e && e < s.len() && stack.len() > 0 {
            let tag = s.subrange(i as int + 2, ne as int);
            let top = stack.last();
            if tag =~= top.tag {
                let v = finish_frame(top.entries, buf);
                let popped = stack.drop_last();
                if popped.len() == 0 {
                    if root is None {
                        xml_run(s, e + 1, popped, Some(v), Seq::empty())
                    } else {
                        None
                    }
                } else {
                    let parent = popped.last();
                    let parent2 = SpecFrame {
                        tag: parent.tag,
                        entries: merge_child(parent.entries, tag, v),
                    };
                    xml_run(s, e + 1, popped.update(popped.len() - 1, parent2), root, Seq::empty())
                }
            } else {
                None
            }
        } else {
            None
        }
    } else {
        // a start tag, maybe self-closing
        let ne = name_end(s, i + 1);
        if i + 1 < ne && ne <= s.len() {
            match tag_end(s, ne, 0) {
                Some(e) => if i < e && e < s.len() {
                    if s[e as int - 1] == '/' {
                        // self-closing: skipped entirely
                        xml_run(s, e + 1, stack, root, buf)
                    } else if root is Some {
                        None
                    } else {
                        let tag = s.subrange(i as int + 1, ne as int);
                        xml_run(
                            s,
                            e + 1,
                            stack.push(SpecFrame { tag, entries: Seq::empty() }),
                            root,
                            buf,
                        )
                    }
                } else {
                    None
                },
                None => None,
            }
        } else {
            None
        }
    }
}

/// What an XML text parses to, or `None` for a malformed or empty
/// document.
pub open spec fn xml_parse(s: Seq<char>) -> Option<ValueModel> {
    xml_run(s, 0, Seq::empty(), None, Seq::empty())
}

// ---------------------------------------------------------------------
// Executable serializer
// ---------------------------------------------------------------------

/// Escaping distributes over concatenation.
pub proof fn lemma_xesc_app(a: Seq<char>, b: Seq<char>)
    ensures
        xesc(a + b) == xesc(a) + xesc(b),
    decreases a.len(),
{
    if a.len() == 0 {
        assert(a + b =~= b);
        assert(xesc(a) + xesc(b) =~= xesc(b));
    } else {
        let rest = a.subrange(1, a.len() as int);
        lemma_xesc_app(rest, b);
        assert((a + b).subrange(1, (a + b).len() as int) =~= rest + b);
        assert((a + b)[0] == a[0]);
        assert(xesc_char(a[0]) + (xesc(rest) + xesc(b)) =~= (xesc_char(a[0]) + xesc(rest)) + xesc(
            b,
        ));
    }
}

/// Append one escaped text character.
fn write_xesc_char(out: &mut String, c: char)
    ensures
        final(out)@ == old(out)@ + xesc_char(c),
{
    if c == '&' {
        out.append("&amp;");
        proof {
            reveal_strlit("&amp;");
            assert(("&amp;")@ =~= xesc_char(c));
        }
    } else if c == '<' {
        out.append("&lt;");
        proof {
            reveal_strlit("&lt;");
            assert(("&lt;")@ =~= xesc_char(c));
        }
    } else if c == '>' {
        out.append("&gt;");
        proof {
            reveal_strlit("&gt;");
            assert(("&gt;")@ =~= xesc_char(c));
        }
    } else if c == '"' {
        out.append("&quot;");
        proof {
            reveal_strlit("&quot;");
            assert(("&quot;")@ =~= xesc_char(c));
        }
    } else if c == '\'' {
        out.append("&apos;");
        proof {
            reveal_strlit("&apos;");
            assert(("&apos;")@ =~= xesc_char(c));
        }
    } else {
        crate::text::push_char(out, c);
        proof {
            assert(old(out)@.push(c) =~= old(out)@ + xesc_char(c));
        }
    }
}

/// Append escaped text content.
fn write_xesc(out: &mut String, s: &String)
    ensures
        final(out)@ == old(out)@ + xesc(s@),
{
    let chars = crate::text::to_chars(s.as_str());
    let mut i: usize = 0;
    proof {
        assert(xesc(s@.subrange(0, 0)) =~= Seq::<char>::empty());
        assert(old(out)@ + Seq::<char>::empty() =~= old(out)@);
    }
    while i < chars.len()
        invariant
            i <= chars@.len(),
            chars@ == s@,
            out@ == old(out)@ + xesc(s@.subrange(0, i as int)),
        decreases chars@.len() - i,
    {
        write_xesc_char(out, chars[i]);
        i += 1;
        proof {
            let pre = s@.subrange(0, i - 1);
            let post = s@.subrange(0, i as int);
            assert(post =~= pre + seq![s@[i - 1]]);
            lemma_xesc_app(pre, seq![s@[i - 1]]);
            assert(seq![s@[i - 1]].subrange(1, 1) =~= Seq::<char>::empty());
            assert(xesc(seq![s@[i - 1]].subrange(1, 1)) =~= Seq::<char>::empty());
            assert(xesc(seq![s@[i - 1]]) =~= xesc_char(s@[i - 1]));
        }
    }
    proof {
        assert(s@.subrange(0, s@.len() as int) =~= s@);
    }
}

/// Append `<name>` or `</name>`.
fn write_tag(out: &mut String, name: &String, closing: bool)
    ensures
        final(out)@ == old(out)@ + if closing {
            close_tag(name@)
        } else {
            open_tag(name@)
        },
{
    crate::text::push_char(out, '<');
    if closing {
        crate::text::push_char(out, '/');
    }
    out.append(name.as_str());
    crate::text::push_char(out, '>');
    proof {
        if closing {
            assert((old(out)@.push('<').push('/') + name@).push('>') =~= old(out)@ + close_tag(
                name@,
            ));
        } else {
            assert((old(out)@.push('<') + name@).push('>') =~= old(out)@ + open_tag(name@));
        }
    }
}

/// The tag name `item`.
fn item_name() -> (r: String)
    ensures
        r@ == seq!['i', 't', 'e', 'm'],
{
    let mut r = String::new();
    crate::text::push_char(&mut r, 'i');
    crate::text::push_char(&mut r, 't');
    crate::text::push_char(&mut r, 'e');
    crate::text::push_char(&mut r, 'm');
    proof {
        assert(Seq::<char>::empty().push('i').push('t').push('e').push('m') =~= seq!['i', 't',
            'e', 'm']);
    }
    r
}

/// Append the body of one element.
fn write_xbody(out: &mut String, v: &Value)
    ensures
        final(out)@ == old(out)@ + xbody(v.model()),
    decreases v.model(),
{
    match v {
        Value::Null => {
            proof {
                assert(old(out)@ + xbody(v.model()) =~= old(out)@);
            }
        },
        Value::Bool(b) => {
            if *b {
                out.append("true");
                proof {
                    reveal_strlit("true");
                    assert(("true")@ =~= xbody(v.model()));
                }
            } else {
                out.append("false");
                proof {
                    reveal_strlit("false");
                    assert(("false")@ =~= xbody(v.model()));
                }
            }
        },
        Value::Int(i) => {
            let digits = num::i64_chars(*i);
            crate::text::append_chars(out, &digits);
        },
        Value::Float(t) => {
            out.append(t.as_str());
        },
        Value::Str(t) => {
            write_xesc(out, t);
        },
        Value::Arr(a) => {
            proof {
                crate::value::lemma_elems_model_len(a@);
            }
            let ghost em = elems_model(a@);
            let name = item_name();
            let mut i: usize = 0;
            proof {
                assert(old(out)@ + xitems(em, 0) =~= old(out)@);
            }
            while i < a.len()
                invariant
                    i <= a@.len(),
                    em == elems_model(a@),
                    em.len() == a@.len(),
                    name@ == seq!['i', 't', 'e', 'm'],
                    forall|w: int| 0 <= w < a@.len() ==> em[w] == #[trigger] a@[w].model(),
                    v.model() == ValueModel::Arr(em),
                    out@ == old(out)@ + xitems(em, i as int),
                decreases a@.len() - i,
            {
                write_tag(out, &name, false);
                proof {
                    assert(decreases_to!(v.model() => v.model()->Arr_0));
                    assert(v.model()->Arr_0 == em);
                    assert(decreases_to!(em => em[i as int]));
                    assert(a@[i as int].model() == em[i as int]);
                }
                write_xbody(out, &a[i]);
                write_tag(out, &name, true);
                i += 1;
                proof {
                    assert(old(out)@ + xitems(em, i - 1) + open_tag(seq!['i', 't', 'e', 'm'])
                        + xbody(em[i - 1]) + close_tag(seq!['i', 't', 'e', 'm']) =~= old(out)@
                        + xitems(em, i as int));
                }
            }
        },
        Value::Obj(o) => {
            proof {
                crate::value::lemma_entries_model_len(o@);
            }
            let ghost en = entries_model(o@);
            let mut i: usize = 0;
            proof {
                assert(old(out)@ + xentries(en, 0) =~= old(out)@);
            }
            while i < o.len()
                invariant
                    i <= o@.len(),
                    en == entries_model(o@),
                    en.len() == o@.len(),
                    forall|w: int|
                        0 <= w < o@.len() ==> en[w] == (#[trigger] o@[w].0@, o@[w].1.model()),
                    v.model() == ValueModel::Obj(en),
                    out@ == old(out)@ + xentries(en, i as int),
                decreases o@.len() - i,
            {
                write_tag(out, &o[i].0, false);
                proof {
                    assert(decreases_to!(v.model() => v.model()->Obj_0));
                    assert(v.model()->Obj_0 == en);
                    assert(decreases_to!(en => en[i as int]));
                    assert(decreases_to!(en[i as int] => en[i as int].1));
                    assert(o@[i as int].1.model() == en[i as int].1);
                }
                write_xbody(out, &o[i].1);
                write_tag(out, &o[i].0, true);
                i += 1;
                proof {
                    assert(old(out)@ + xentries(en, i - 1) + open_tag(en[i - 1].0) + xbody(
                        en[i - 1].1,
                    ) + close_tag(en[i - 1].0) =~= old(out)@ + xentries(en, i as int));
                }
            }
        },
    }
}

/// Serialize a value as an XML document under a synthetic `root` tag.
pub fn serialize(v: &Value) -> (r: String)
    ensures
        r@ == xml_text(v.model()),
{
    let mut out = String::new();
    let mut root = String::new();
    crate::text::push_char(&mut root, 'r');
    crate::text::push_char(&mut root, 'o');
    crate::text::push_char(&mut root, 'o');
    crate::text::push_char(&mut root, 't');
    proof {
        assert(Seq::<char>::empty().push('r').push('o').push('o').push('t') =~= seq!['r', 'o',
            'o', 't']);
    }
    write_tag(&mut out, &root, false);
    write_xbody(&mut out, v);
    write_tag(&mut out, &root, true);
    proof {
        assert(Seq::<char>::empty() + open_tag(seq!['r', 'o', 'o', 't']) + xbody(v.model())
            + close_tag(seq!['r', 'o', 'o', 't']) =~= xml_text(v.model()));
    }
    out
}

// ---------------------------------------------------------------------
// Executable parser: merging and frame support
// ---------------------------------------------------------------------

/// Merging a repeated tag edits the entry in place.
pub proof fn lemma_merge_at(
    o: Seq<(Seq<char>, ValueModel)>,
    tag: Seq<char>,
    v: ValueModel,
    idx: int,
)
    requires
        0 <= idx < o.len(),
        o[idx].0 == tag,
        forall|w: int| 0 <= w < idx ==> o[w].0 != tag,
    ensures
        merge_child(o, tag, v) == o.update(idx, (tag, promote(o[idx].1, v))),
    decreases idx,
{
    if idx == 0 {
        assert(merge_child(o, tag, v) =~= o.update(0, (tag, promote(o[0].1, v))));
    } else {
        let rest = o.subrange(1, o.len() as int);
        assert(rest[idx - 1].0 == tag);
        assert forall|w: int| 0 <= w < idx - 1 implies rest[w].0 != tag by {
            assert(rest[w] == o[w + 1]);
        }
        lemma_merge_at(rest, tag, v, idx - 1);
        assert(rest[idx - 1] == o[idx]);
        assert(seq![o[0]] + rest.update(idx - 1, (tag, promote(o[idx].1, v))) =~= o.update(
            idx,
            (tag, promote(o[idx].1, v)),
        ));
    }
}

/// Merging a new tag appends the entry.
pub proof fn lemma_merge_absent(o: Seq<(Seq<char>, ValueModel)>, tag: Seq<char>, v: ValueModel)
    requires
        forall|w: int| 0 <= w < o.len() ==> o[w].0 != tag,
    ensures
        merge_child(o, tag, v) == o.push((tag, v)),
    decreases o.len(),
{
    if o.len() == 0 {
        assert(merge_child(o, tag, v) =~= o.push((tag, v)));
    } else {
        let rest = o.subrange(1, o.len() as int);
        assert forall|w: int| 0 <= w < rest.len() implies rest[w].0 != tag by {
            assert(rest[w] == o[w + 1]);
        }
        lemma_merge_absent(rest, tag, v);
        assert(seq![o[0]] + rest.push((tag, v)) =~= o.push((tag, v)));
    }
}

/// Promote a repeated tag's value, keeping well-formedness.
fn promote_x(prev: Value, v: Value) -> (r: Value)
    ensures
        r.model() == promote(prev.model(), v.model()),
        crate::value::wf(prev.model()) && crate::value::wf(v.model()) ==> crate::value::wf(
            r.model(),
        ),
{
    let ghost pm = prev.model();
    let ghost vm = v.model();
    match prev {
        Value::Arr(mut a) => {
            let ghost pvec = a@;
            proof {
                crate::value::lemma_elems_model_len(pvec);
            }
            a.push(v);
            proof {
                crate::value::lemma_elems_model_len(a@);
                assert forall|w: int|
                    0 <= w < elems_model(a@).len() implies elems_model(a@)[w] == (elems_model(
                    pvec,
                ).push(vm))[w] by {
                    assert(elems_model(a@)[w] == a@[w].model());
                    if w < pvec.len() {
                        assert(a@[w] == pvec[w]);
                        assert(elems_model(pvec)[w] == pvec[w].model());
                    }
                }
                assert(elems_model(a@) =~= elems_model(pvec).push(vm));
            }
            Value::Arr(a)
        },
        other => {
            let mut a: Vec<Value> = Vec::new();
            a.push(other);
            a.push(v);
            proof {
                crate::value::lemma_elems_model_len(a@);
                assert(elems_model(a@).len() == 2);
                assert(elems_model(a@)[0] == a@[0].model());
                assert(elems_model(a@)[1] == a@[1].model());
                assert(a@[0].model() == pm);
                assert(a@[1].model() == vm);
                assert(elems_model(a@) =~= seq![pm, vm]);
            }
            Value::Arr(a)
        },
    }
}

/// Merge a closed child into the parent's entries, matching
/// [`merge_child`] and keeping well-formedness.
fn obj_merge(o: &mut Vec<(String, Value)>, tag: String, v: Value)
    requires
        crate::value::keys_unique(entries_model(old(o)@)),
        forall|w: int|
            0 <= w < entries_model(old(o)@).len() ==> crate::value::wf(
                #[trigger] entries_model(old(o)@)[w].1,
            ),
        crate::value::wf(v.model()),
    ensures
        entries_model(final(o)@) == merge_child(entries_model(old(o)@), tag@, v.model()),
        crate::value::keys_unique(entries_model(final(o)@)),
        forall|w: int|
            0 <= w < entries_model(final(o)@).len() ==> crate::value::wf(
                #[trigger] entries_model(final(o)@)[w].1,
            ),
{
    proof {
        crate::value::lemma_entries_model_len(o@);
    }
    let ghost en = entries_model(old(o)@);
    let ghost vm = v.model();
    let mut idx: usize = 0;
    while idx < o.len()
        invariant
            idx <= o@.len(),
            o@ == old(o)@,
            en == entries_model(o@),
            en.len() == o@.len(),
            forall|w: int| 0 <= w < o@.len() ==> en[w] == (#[trigger] o@[w].0@, o@[w].1.model()),
            forall|w: int| 0 <= w < idx ==> (#[trigger] en[w]).0 != tag@,
            crate::value::keys_unique(en),
            forall|w: int| 0 <= w < en.len() ==> crate::value::wf(#[trigger] en[w].1),
            crate::value::wf(vm),
            vm == v.model(),
        decreases o@.len() - idx,
    {
        if o[idx].0 == tag {
            let pair = o.remove(idx);
            let ghost prevm = pair.1.model();
            proof {
                assert(en[idx as int].1 == prevm);
                assert(crate::value::wf(prevm));
            }
            let merged = promote_x(pair.1, v);
            o.insert(idx, (tag, merged));
            proof {
                lemma_merge_at(en, tag@, vm, idx as int);
                crate::value::lemma_entries_model_len(o@);
                let up = en.update(idx as int, (tag@, promote(prevm, vm)));
                assert forall|w: int|
                    0 <= w < entries_model(o@).len() implies entries_model(o@)[w] == up[w] by {
                    assert(entries_model(o@)[w] == (o@[w].0@, o@[w].1.model()));
                    if w < idx {
                        assert(o@[w] == old(o)@[w]);
                    } else if w > idx {
                        assert(o@[w] == old(o)@[w]);
                    }
                }
                assert(entries_model(o@) =~= up);
                assert(up[idx as int].0 == en[idx as int].0);
                assert forall|a: int, b: int|
                    0 <= a < b < up.len() implies up[a].0 != up[b].0 by {
                    assert(up[a].0 == en[a].0);
                    assert(up[b].0 == en[b].0);
                }
            }
            return;
        }
        idx += 1;
    }
    o.push((tag, v));
    proof {
        lemma_merge_absent(en, tag@, vm);
        crate::value::lemma_entries_model_len(o@);
        let up = en.push((tag@, vm));
        assert forall|w: int|
            0 <= w < entries_model(o@).len() implies entries_model(o@)[w] == up[w] by {
            assert(entries_model(o@)[w] == (o@[w].0@, o@[w].1.model()));
            if w < en.len() {
                assert(o@[w] == old(o)@[w]);
                assert(en[w] == (old(o)@[w].0@, old(o)@[w].1.model()));
            }
        }
        assert(entries_model(o@) =~= up);
        assert forall|a: int, b: int| 0 <= a < b < up.len() implies up[a].0 != up[b].0 by {
            if b < en.len() {
                assert(up[a].0 == en[a].0);
                assert(up[b].0 == en[b].0);
            } else {
                assert(up[a].0 == en[a].0);
                assert(up[b].0 == tag@);
            }
        }
    }
}

/// The word `_text`.
fn text_key() -> (r: String)
    ensures
        r@ == seq!['_', 't', 'e', 'x', 't'],
{
    let mut r = String::new();
    crate::text::push_char(&mut r, '_');
    crate::text::push_char(&mut r, 't');
    crate::text::push_char(&mut r, 'e');
    crate::text::push_char(&mut r, 'x');
    crate::text::push_char(&mut r, 't');
    proof {
        assert(Seq::<char>::empty().push('_').push('t').push('e').push('x').push('t') =~=
            seq!['_', 't', 'e', 'x', 't']);
    }
    r
}

/// Infer the value of element text, matching [`infer`].
fn infer_x(t: &Vec<char>) -> (r: Value)
    ensures
        r.model() == infer(t@),
        crate::value::wf(r.model()),
{
    let mut pat_null: Vec<char> = Vec::new();
    pat_null.push('n');
    pat_null.push('u');
    pat_null.push('l');
    pat_null.push('l');
    proof {
        assert(pat_null@ =~= seq!['n', 'u', 'l', 'l']);
    }
    if crate::text::eq_ignore_case(t, &pat_null) {
        return Value::Null;
    }
    let mut pat_true: Vec<char> = Vec::new();
    pat_true.push('t');
    pat_true.push('r');
    pat_true.push('u');
    pat_true.push('e');
    proof {
        assert(pat_true@ =~= seq!['t', 'r', 'u', 'e']);
    }
    if crate::text::eq_ignore_case(t, &pat_true) {
        return Value::Bool(true);
    }
    let mut pat_false: Vec<char> = Vec::new();
    pat_false.push('f');
    pat_false.push('a');
    pat_false.push('l');
    pat_false.push('s');
    pat_false.push('e');
    proof {
        assert(pat_false@ =~= seq!['f', 'a', 'l', 's', 'e']);
    }
    if crate::text::eq_ignore_case(t, &pat_false) {
        return Value::Bool(false);
    }
    match num::parse_i64(t) {
        Some(v) => Value::Int(v),
        None => {
            proof {
                if num::is_number_text(t@) && !num::has_frac_or_exp(t@) {
                    num::lemma_plain_int(t@);
                }
            }
            if num::number_check(t) {
                Value::Float(crate::text::chars_to_string(t))
            } else {
                Value::Str(crate::text::chars_to_string(t))
            }
        },
    }
}

/// Close out a frame, matching [`finish_frame`].
fn finish_x(entries: Vec<(String, Value)>, buf: &Vec<char>) -> (r: Value)
    requires
        crate::value::keys_unique(entries_model(entries@)),
        forall|w: int|
            0 <= w < entries_model(entries@).len() ==> crate::value::wf(
                #[trigger] entries_model(entries@)[w].1,
            ),
    ensures
        r.model() == finish_frame(entries_model(entries@), buf@),
        crate::value::wf(r.model()),
{
    let ghost en0 = entries_model(entries@);
    let mut en = entries;
    if buf.len() > 0 {
        let tv = infer_x(buf);
        let key = text_key();
        proof {
            crate::value::lemma_upsert_keys_unique(en0, key@, tv.model());
            crate::value::lemma_upsert_values(en0, key@, tv.model());
        }
        crate::value::obj_upsert(&mut en, key, tv);
        proof {
            let up = upsert(en0, seq!['_', 't', 'e', 'x', 't'], infer(buf@));
            assert(entries_model(en@) == up);
            assert forall|w: int|
                0 <= w < up.len() implies crate::value::wf(#[trigger] up[w].1) by {
                if up[w] == (seq!['_', 't', 'e', 'x', 't'], infer(buf@)) {
                } else {
                    let jj = choose|jj: int| 0 <= jj < en0.len() && up[w] == en0[jj];
                    assert(crate::value::wf(en0[jj].1));
                }
            }
        }
    }
    let ghost en2 = entries_model(en@);
    if en.len() == 1 {
        let kc = crate::text::to_chars(en[0].0.as_str());
        let mut pat: Vec<char> = Vec::new();
        pat.push('_');
        pat.push('t');
        pat.push('e');
        pat.push('x');
        pat.push('t');
        proof {
            assert(pat@ =~= seq!['_', 't', 'e', 'x', 't']);
            crate::value::lemma_entries_model_len(en@);
            assert(en2[0] == (en@[0].0@, en@[0].1.model()));
        }
        if crate::text::chars_eq(&kc, &pat) {
            let pair = en.remove(0);
            return pair.1;
        }
    }
    proof {
        crate::value::lemma_entries_model_len(en@);
        if en2.len() == 1 {
            assert(en2[0] == (en@[0].0@, en@[0].1.model()));
        }
    }
    Value::Obj(en)
}

/// The final root normalization, matching [`normalize_root`].
fn normalize_x(v: Value) -> (r: Value)
    requires
        crate::value::wf(v.model()),
    ensures
        r.model() == normalize_root(v.model()),
        crate::value::wf(r.model()),
{
    let ghost vm = v.model();
    match v {
        Value::Obj(mut o) => {
            proof {
                crate::value::lemma_entries_model_len(o@);
            }
            if o.len() == 1 {
                let kc = crate::text::to_chars(o[0].0.as_str());
                let mut pat: Vec<char> = Vec::new();
                pat.push('i');
                pat.push('t');
                pat.push('e');
                pat.push('m');
                proof {
                    assert(pat@ =~= seq!['i', 't', 'e', 'm']);
                    assert(entries_model(o@)[0] == (o@[0].0@, o@[0].1.model()));
                }
                if crate::text::chars_eq(&kc, &pat) {
                    let pair = o.remove(0);
                    match pair.1 {
                        Value::Arr(a) => {
                            return Value::Arr(a);
                        },
                        other => {
                            o.insert(0, (pair.0, other));
                            proof {
                                crate::value::lemma_entries_model_len(o@);
                                assert(entries_model(o@) =~= vm->Obj_0);
                            }
                            return Value::Obj(o);
                        },
                    }
                }
            }
            Value::Obj(o)
        },
        other => other,
    }
}

// ---------------------------------------------------------------------
// Executable tokenizer pieces
// ---------------------------------------------------------------------

/// Executable scan matching [`name_end`].
fn name_end_x(s: &Vec<char>, i: usize) -> (r: usize)
    requires
        i <= s@.len(),
    ensures
        r as nat == name_end(s@, i as nat),
        i <= r <= s@.len(),
{
    let mut k: usize = i;
    while k < s.len() && !(crate::text::ascii_ws(s[k]) || s[k] == '/' || s[k] == '>')
        invariant
            i <= k <= s@.len(),
            name_end(s@, i as nat) == name_end(s@, k as nat),
        decreases s@.len() - k,
    {
        k += 1;
    }
    k
}

/// Executable scan matching [`tag_end`] from outside quotes.
fn tag_end_x(s: &Vec<char>, i: usize) -> (r: Option<usize>)
    requires
        i <= s@.len(),
    ensures
        match r {
            Some(e) => tag_end(s@, i as nat, 0) == Some(e as nat) && i <= e < s@.len(),
            None => tag_end(s@, i as nat, 0) is None,
        },
{
    let mut k: usize = i;
    let mut q: u8 = 0;
    loop
        invariant
            i <= k <= s@.len(),
            q == 0 || q == 1 || q == 2,
            tag_end(s@, i as nat, 0) == tag_end(s@, k as nat, q as int),
        decreases s@.len() - k,
    {
        if k >= s.len() {
            return None;
        }
        let c = s[k];
        if q == 0 {
            if c == '>' {
                return Some(k);
            } else if c == '\'' {
                q = 1;
            } else if c == '"' {
                q = 2;
            }
            k += 1;
        } else {
            if (q == 1 && c == '\'') || (q == 2 && c == '"') {
                q = 0;
            }
            k += 1;
        }
    }
}

/// Executable search matching [`find_at`] for a three-character pattern.
fn find3_x(s: &Vec<char>, i: usize, a: char, b: char, c: char) -> (r: usize)
    requires
        i <= s@.len(),
    ensures
        r as nat == find_at(s@, i as nat, seq![a, b, c]),
        i <= r <= s@.len(),
{
    let mut k: usize = i;
    loop
        invariant
            i <= k <= s@.len(),
            find_at(s@, i as nat, seq![a, b, c]) == find_at(s@, k as nat, seq![a, b, c]),
        decreases s@.len() - k,
    {
        if s.len() - k < 3 {
            return s.len();
        }
        if s[k] == a && s[k + 1] == b && s[k + 2] == c {
            proof {
                assert(s@.subrange(k as int, k as int + 3) =~= seq![a, b, c]);
            }
            return k;
        }
        proof {
            let sub = s@.subrange(k as int, k as int + 3);
            assert(sub[0] == s@[k as int] && sub[1] == s@[k as int + 1] && sub[2] == s@[k as int
                + 2]);
        }
        k += 1;
    }
}

/// Sixteen to a power.
pub open spec fn p16(n: nat) -> int
    decreases n,
{
    if n == 0 {
        1
    } else {
        16 * p16((n - 1) as nat)
    }
}

/// Ten to a power.
pub open spec fn p10(n: nat) -> int
    decreases n,
{
    if n == 0 {
        1
    } else {
        10 * p10((n - 1) as nat)
    }
}

pub proof fn lemma_hex_bound(s: Seq<char>)
    requires
        hex_all(s),
    ensures
        0 <= hex_seq_val(s) < p16(s.len()),
    decreases s.len(),
{
    if s.len() > 0 {
        assert forall|w: int|
            0 <= w < s.drop_last().len() implies crate::json::hex_val(
            #[trigger] s.drop_last()[w],
        ) < 16 by {
            assert(s.drop_last()[w] == s[w]);
        }
        lemma_hex_bound(s.drop_last());
        assert(crate::json::hex_val(s.last()) < 16);
    }
}

pub proof fn lemma_dec_bound(s: Seq<char>)
    requires
        all_digits(s),
    ensures
        0 <= digits_val(s) < p10(s.len()),
    decreases s.len(),
{
    if s.len() > 0 {
        assert forall|w: int|
            0 <= w < s.drop_last().len() implies num::is_digit(#[trigger] s.drop_last()[w]) by {
            assert(s.drop_last()[w] == s[w]);
        }
        lemma_dec_bound(s.drop_last());
    }
}

pub proof fn lemma_p16_mono(a: nat, b: nat)
    requires
        a <= b,
    ensures
        p16(a) <= p16(b),
        p16(a) >= 1,
    decreases b,
{
    if a < b {
        lemma_p16_mono(a, (b - 1) as nat);
    } else if b > 0 {
        lemma_p16_mono((a - 1) as nat, (b - 1) as nat);
    }
}

pub proof fn lemma_p10_mono(a: nat, b: nat)
    requires
        a <= b,
    ensures
        p10(a) <= p10(b),
        p10(a) >= 1,
    decreases b,
{
    if a < b {
        lemma_p10_mono(a, (b - 1) as nat);
    } else if b > 0 {
        lemma_p10_mono((a - 1) as nat, (b - 1) as nat);
    }
}

/// Executable entity lookup matching [`entity_char`].
fn entity_char_x(name: &Vec<char>) -> (r: Option<char>)
    ensures
        r == entity_char(name@),
{
    let mut amp: Vec<char> = Vec::new();
    amp.push('a');
    amp.push('m');
    amp.push('p');
    let mut lt: Vec<char> = Vec::new();
    lt.push('l');
    lt.push('t');
    let mut gt: Vec<char> = Vec::new();
    gt.push('g');
    gt.push('t');
    let mut quot: Vec<char> = Vec::new();
    quot.push('q');
    quot.push('u');
    quot.push('o');
    quot.push('t');
    let mut apos: Vec<char> = Vec::new();
    apos.push('a');
    apos.push('p');
    apos.push('o');
    apos.push('s');
    proof {
        assert(amp@ =~= seq!['a', 'm', 'p']);
        assert(lt@ =~= seq!['l', 't']);
        assert(gt@ =~= seq!['g', 't']);
        assert(quot@ =~= seq!['q', 'u', 'o', 't']);
        assert(apos@ =~= seq!['a', 'p', 'o', 's']);
    }
    if crate::text::chars_eq(name, &amp) {
        return Some('&');
    }
    if crate::text::chars_eq(name, &lt) {
        return Some('<');
    }
    if crate::text::chars_eq(name, &gt) {
        return Some('>');
    }
    if crate::text::chars_eq(name, &quot) {
        return Some('"');
    }
    if crate::text::chars_eq(name, &apos) {
        return Some('\'');
    }
    if name.len() >= 2 && name.len() <= 8 && name[0] == '#' && name[1] == 'x' {
        let digits = crate::text::subvec(name, 2, name.len());
        if digits.len() == 0 {
            return None;
        }
        let mut j: usize = 0;
        let mut acc: u32 = 0;
        proof {
            assert(digits@.len() >= 1);
        }
        while j < digits.len()
            invariant
                j <= digits@.len(),
                1 <= digits@.len() <= 6,
                entity_char(name@) == (if hex_all(digits@) && valid_scalar(
                    hex_seq_val(digits@),
                ) {
                    Some(((hex_seq_val(digits@)) as u32) as char)
                } else {
                    None
                }),
                acc as int == hex_seq_val(digits@.subrange(0, j as int)),
                forall|w: int| 0 <= w < j ==> crate::json::hex_val(#[trigger] digits@[w]) < 16,
            decreases digits@.len() - j,
        {
            let hv = crate::json::hex_val_x(digits[j]);
            if hv >= 16 {
                proof {
                    assert(crate::json::hex_val(digits@[j as int]) >= 16);
                    assert(!hex_all(digits@));
                }
                return None;
            }
            proof {
                let pre = digits@.subrange(0, j as int);
                let post = digits@.subrange(0, j as int + 1);
                assert(post.drop_last() =~= pre);
                assert(post.last() == digits@[j as int]);
                assert forall|w: int|
                    0 <= w < pre.len() implies crate::json::hex_val(#[trigger] pre[w]) < 16 by {
                    assert(pre[w] == digits@[w]);
                }
                lemma_hex_bound(pre);
                lemma_p16_mono(pre.len(), 6);
                assert(p16(0) == 1);
                assert(p16(1) == 16);
                assert(p16(2) == 256);
                assert(p16(3) == 4096);
                assert(p16(4) == 0x10000);
                assert(p16(5) == 0x100000);
                assert(p16(6) == 0x1000000);
                assert((acc as int) < 0x1000000);
            }
            acc = acc * 16 + (hv as u32);
            j += 1;
        }
        proof {
            assert(digits@.subrange(0, digits@.len() as int) =~= digits@);
            assert(hex_all(digits@));
        }
        if acc < 0xD800 || (0xE000 <= acc && acc <= 0x10FFFF) {
            let ch = char::from_u32(acc).unwrap();
            proof {
                vstd::utf8::char_u32_cast(ch, acc);
            }
            return Some(ch);
        }
        return None;
    }
    if name.len() >= 2 && name.len() <= 8 && name[0] == '#' {
        let digits = crate::text::subvec(name, 1, name.len());
        let mut j: usize = 0;
        let mut acc: u32 = 0;
        while j < digits.len()
            invariant
                j <= digits@.len(),
                digits@.len() <= 7,
                entity_char(name@) == (if all_digits(digits@) && valid_scalar(
                    digits_val(digits@),
                ) {
                    Some(((digits_val(digits@)) as u32) as char)
                } else {
                    None
                }),
                acc as int == digits_val(digits@.subrange(0, j as int)),
                forall|w: int| 0 <= w < j ==> num::is_digit(#[trigger] digits@[w]),
            decreases digits@.len() - j,
        {
            if !num::digit(digits[j]) {
                proof {
                    assert(!all_digits(digits@));
                }
                return None;
            }
            let dv = num::digit_value(digits[j]);
            proof {
                let pre = digits@.subrange(0, j as int);
                let post = digits@.subrange(0, j as int + 1);
                assert(post.drop_last() =~= pre);
                assert(post.last() == digits@[j as int]);
                assert forall|w: int|
                    0 <= w < pre.len() implies num::is_digit(#[trigger] pre[w]) by {
                    assert(pre[w] == digits@[w]);
                }
                lemma_dec_bound(pre);
                lemma_p10_mono(pre.len(), 6);
                assert(p10(0) == 1);
                assert(p10(1) == 10);
                assert(p10(2) == 100);
                assert(p10(3) == 1000);
                assert(p10(4) == 10000);
                assert(p10(5) == 100000);
                assert(p10(6) == 1000000);
                assert((acc as int) < 10000000);
            }
            acc = acc * 10 + (dv as u32);
            j += 1;
        }
        proof {
            assert(digits@.subrange(0, digits@.len() as int) =~= digits@);
            assert(all_digits(digits@));
        }
        if acc < 0xD800 || (0xE000 <= acc && acc <= 0x10FFFF) {
            let ch = char::from_u32(acc).unwrap();
            proof {
                vstd::utf8::char_u32_cast(ch, acc);
            }
            return Some(ch);
        }
        return None;
    }
    None
}

/// Executable entity decoding matching [`xdecode`].
fn xdecode_x(t: &Vec<char>) -> (r: Vec<char>)
    ensures
        r@ == xdecode(t@),
{
    let mut acc: Vec<char> = Vec::new();
    let mut cur: usize = 0;
    proof {
        assert(t@.subrange(0, t@.len() as int) =~= t@);
        assert(acc@ + xdecode(t@) =~= xdecode(t@));
    }
    loop
        invariant
            cur <= t@.len(),
            xdecode(t@) == acc@ + xdecode(t@.subrange(cur as int, t@.len() as int)),
        decreases t@.len() - cur,
    {
        let ghost pcur = cur as int;
        let ghost pacc = acc@;
        let ghost sub = t@.subrange(cur as int, t@.len() as int);
        if cur >= t.len() {
            proof {
                assert(xdecode(sub) =~= Seq::<char>::empty());
                assert(pacc + Seq::<char>::empty() =~= pacc);
            }
            return acc;
        }
        proof {
            assert(sub[0] == t@[cur as int]);
        }
        let c = t[cur];
        if c == '&' {
            let k = crate::text::find_char(t, ';', cur + 1);
            proof {
                crate::text::lemma_idx_of_bounds(t@, ';', (cur + 1) as nat);
                crate::text::lemma_idx_of_shift(t@, ';', cur as nat, 1);
                assert(idx_of(sub, ';', 1) == k - cur);
            }
            if k < t.len() {
                let namev = crate::text::subvec(t, cur + 1, k);
                proof {
                    assert(sub.subrange(1, k - cur) =~= t@.subrange(cur as int + 1, k as int));
                }
                match entity_char_x(&namev) {
                    Some(ch) => {
                        acc.push(ch);
                        cur = k + 1;
                        proof {
                            assert(sub.subrange(k - pcur + 1, sub.len() as int) =~= t@.subrange(
                                cur as int,
                                t@.len() as int,
                            ));
                            assert(pacc + (seq![ch] + xdecode(
                                t@.subrange(cur as int, t@.len() as int),
                            )) =~= pacc.push(ch) + xdecode(
                                t@.subrange(cur as int, t@.len() as int),
                            ));
                        }
                    },
                    None => {
                        acc.push('&');
                        cur += 1;
                        proof {
                            assert(sub.subrange(1, sub.len() as int) =~= t@.subrange(
                                cur as int,
                                t@.len() as int,
                            ));
                            assert(pacc + (seq!['&'] + xdecode(
                                t@.subrange(cur as int, t@.len() as int),
                            )) =~= pacc.push('&') + xdecode(
                                t@.subrange(cur as int, t@.len() as int),
                            ));
                        }
                    },
                }
            } else {
                acc.push('&');
                cur += 1;
                proof {
                    assert(sub.subrange(1, sub.len() as int) =~= t@.subrange(
                        cur as int,
                        t@.len() as int,
                    ));
                    assert(pacc + (seq!['&'] + xdecode(t@.subrange(cur as int, t@.len() as int)))
                        =~= pacc.push('&') + xdecode(t@.subrange(cur as int, t@.len() as int)));
                }
            }
        } else {
            acc.push(c);
            cur += 1;
            proof {
                assert(sub.subrange(1, sub.len() as int) =~= t@.subrange(
                    cur as int,
                    t@.len() as int,
                ));
                assert(pacc + (seq![c] + xdecode(t@.subrange(cur as int, t@.len() as int))) =~=
                    pacc.push(c) + xdecode(t@.subrange(cur as int, t@.len() as int)));
            }
        }
    }
}

/// The model of an executable frame stack.
pub open spec fn frames_model(s: Seq<(String, Vec<(String, Value)>)>) -> Seq<SpecFrame>
    decreases s, 0int,
{
    if s.len() == 0 {
        Seq::empty()
    } else {
        seq![SpecFrame { tag: s[0].0@, entries: entries_model(s[0].1@) }] + frames_model(
            s.subrange(1, s.len() as int),
        )
    }
}

pub proof fn lemma_frames_model(s: Seq<(String, Vec<(String, Value)>)>)
    ensures
        frames_model(s).len() == s.len(),
        forall|i: int|
            0 <= i < s.len() ==> #[trigger] frames_model(s)[i] == (SpecFrame {
                tag: s[i].0@,
                entries: entries_model(s[i].1@),
            }),
    decreases s.len(),
{
    if s.len() > 0 {
        let rest = s.subrange(1, s.len() as int);
        lemma_frames_model(rest);
        assert forall|i: int|
            0 <= i < s.len() implies #[trigger] frames_model(s)[i] == SpecFrame {
            tag: s[i].0@,
            entries: entries_model(s[i].1@),
        } by {
            if i > 0 {
                assert(rest[i - 1] == s[i]);
                assert(frames_model(s)[i] == frames_model(rest)[i - 1]);
            }
        }
    }
}

/// The model of an optional finished root value.
pub open spec fn opt_model(r: Option<Value>) -> Option<ValueModel> {
    match r {
        Some(v) => Some(v.model()),
        None => None,
    }
}

/// An entry list fit to stand in a well-formed object.
pub open spec fn wf_entries(o: Seq<(Seq<char>, ValueModel)>) -> bool {
    crate::value::keys_unique(o) && forall|i: int|
        0 <= i < o.len() ==> crate::value::wf(#[trigger] o[i].1)
}

/// Parse an XML document into a value. The error says what was wrong
/// with the document.
pub fn parse(s: &Vec<char>) -> (r: Result<Value, String>)
    ensures
        match r {
            Ok(v) => xml_parse(s@) == Some(v.model()) && crate::value::wf(v.model()),
            Err(_) => xml_parse(s@) is None,
        },
{
    let mut stack: Vec<(String, Vec<(String, Value)>)> = Vec::new();
    let mut root: Option<Value> = None;
    let mut buf: Vec<char> = Vec::new();
    let mut cur: usize = 0;
    let mut pat_comment: Vec<char> = Vec::new();
    pat_comment.push('<');
    pat_comment.push('!');
    pat_comment.push('-');
    pat_comment.push('-');
    let mut pat_cdata: Vec<char> = Vec::new();
    pat_cdata.push('<');
    pat_cdata.push('!');
    pat_cdata.push('[');
    pat_cdata.push('C');
    pat_cdata.push('D');
    pat_cdata.push('A');
    pat_cdata.push('T');
    pat_cdata.push('A');
    pat_cdata.push('[');
    proof {
        assert(pat_comment@ =~= seq!['<', '!', '-', '-']);
        assert(pat_cdata@ =~= seq!['<', '!', '[', 'C', 'D', 'A', 'T', 'A', '[']);
        assert(frames_model(stack@) =~= Seq::<SpecFrame>::empty());
    }
    loop
        invariant
            cur <= s@.len(),
            pat_comment@ == seq!['<', '!', '-', '-'],
            pat_cdata@ == seq!['<', '!', '[', 'C', 'D', 'A', 'T', 'A', '['],
            xml_parse(s@) == xml_run(
                s@,
                cur as nat,
                frames_model(stack@),
                opt_model(root),
                buf@,
            ),
            frames_model(stack@).len() == stack@.len(),
            forall|w: int|
                0 <= w < stack@.len() ==> #[trigger] frames_model(stack@)[w] == (SpecFrame {
                    tag: stack@[w].0@,
                    entries: entries_model(stack@[w].1@),
                }),
            forall|w: int|
                0 <= w < stack@.len() ==> wf_entries(#[trigger] frames_model(stack@)[w].entries),
            root is Some ==> crate::value::wf(root->0.model()),
        decreases s@.len() - cur,
    {
        let ghost pcur = cur as nat;
        let ghost pframes = frames_model(stack@);
        let ghost proot = opt_model(root);
        let ghost pbuf = buf@;
        if cur >= s.len() {
            if stack.len() == 0 {
                match root {
                    Some(v) => {
                        return Ok(normalize_x(v));
                    },
                    None => {
                        return Err(crate::text::chars_to_string(
                            &crate::text::to_chars("empty or invalid XML document"),
                        ));
                    },
                }
            } else {
                return Err(crate::text::chars_to_string(
                    &crate::text::to_chars("XML document has an unclosed element"),
                ));
            }
        }
        let c0 = s[cur];
        if c0 != '<' {
            let e = crate::text::find_char(s, '<', cur);
            proof {
                crate::text::lemma_idx_of_bounds(s@, '<', (cur + 1) as nat);
            }
            let raw = crate::text::subvec(s, cur, e);
            let tr = crate::text::trim(&raw);
            let dec = xdecode_x(&tr);
            if dec.len() > 0 {
                buf = dec;
            }
            cur = e;
        } else if crate::text::starts_with(s, cur, &pat_comment) {
            let e = find3_x(s, cur + 4, '-', '-', '>');
            if e > s.len() - 3 {
                return Err(crate::text::chars_to_string(
                    &crate::text::to_chars("XML comment is not closed"),
                ));
            }
            cur = e + 3;
        } else if crate::text::starts_with(s, cur, &pat_cdata) {
            let e = find3_x(s, cur + 9, ']', ']', '>');
            if e > s.len() - 3 {
                return Err(crate::text::chars_to_string(
                    &crate::text::to_chars("XML CDATA section is not closed"),
                ));
            }
            cur = e + 3;
        } else if s.len() - cur >= 2 && (s[cur + 1] == '!' || s[cur + 1] == '?') {
            let e = crate::text::find_char(s, '>', cur);
            proof {
                crate::text::lemma_idx_of_bounds(s@, '>', (cur + 1) as nat);
            }
            if e >= s.len() {
                return Err(crate::text::chars_to_string(
                    &crate::text::to_chars("XML declaration is not closed"),
                ));
            }
            cur = e + 1;
        } else if s.len() - cur >= 2 && s[cur + 1] == '/' {
            let ne = name_end_x(s, cur + 2);
            let e = crate::text::find_char(s, '>', cur);
            proof {
                crate::text::lemma_idx_of_bounds(s@, '>', (cur + 1) as nat);
            }
            if e >= s.len() || stack.len() == 0 {
                return Err(crate::text::chars_to_string(
                    &crate::text::to_chars("XML end tag without a matching element"),
                ));
            }
            let tag = crate::text::subvec(s, cur + 2, ne);
            let fr = match stack.pop() {
                Some(f) => f,
                None => {
                    proof {
                        assert(false);
                    }
                    return Err(String::new());
                },
            };
            let ghost oldstack = stack@.push(fr);
            proof {
                assert(oldstack =~= stack@.push(fr));
                lemma_frames_model(oldstack);
                assert(pframes[pframes.len() - 1] == SpecFrame {
                    tag: fr.0@,
                    entries: entries_model(fr.1@),
                });
                lemma_frames_model(stack@);
                assert forall|w: int|
                    0 <= w < stack@.len() implies #[trigger] frames_model(stack@)[w]
                    == pframes[w] by {
                    assert(oldstack[w] == stack@[w]);
                    assert(pframes[w] == SpecFrame {
                        tag: oldstack[w].0@,
                        entries: entries_model(oldstack[w].1@),
                    });
                }
                assert(frames_model(stack@) =~= pframes.drop_last());
            }
            let ftag = crate::text::to_chars(fr.0.as_str());
            if !crate::text::chars_eq(&tag, &ftag) {
                return Err(crate::text::chars_to_string(
                    &crate::text::to_chars("XML end tag does not match the open element"),
                ));
            }
            proof {
                assert(wf_entries(entries_model(fr.1@)));
            }
            let v = finish_x(fr.1, &buf);
            if stack.len() == 0 {
                match root {
                    Some(_) => {
                        return Err(crate::text::chars_to_string(
                            &crate::text::to_chars("XML document has content after its root"),
                        ));
                    },
                    None => {
                        root = Some(v);
                        buf = Vec::new();
                        cur = e + 1;
                        proof {
                            assert(buf@ =~= Seq::<char>::empty());
                        }
                    },
                }
            } else {
                let parent = match stack.pop() {
                    Some(p) => p,
                    None => {
                        proof {
                            assert(false);
                        }
                        return Err(String::new());
                    },
                };
                let ghost midstack = stack@.push(parent);
                proof {
                    assert(midstack =~= stack@.push(parent));
                    lemma_frames_model(midstack);
                    lemma_frames_model(stack@);
                    assert forall|w: int|
                        0 <= w < stack@.len() implies #[trigger] frames_model(stack@)[w]
                        == pframes.drop_last()[w] by {
                        assert(midstack[w] == stack@[w]);
                        assert(pframes.drop_last()[w] == SpecFrame {
                            tag: midstack[w].0@,
                            entries: entries_model(midstack[w].1@),
                        });
                    }
                    assert(frames_model(stack@) =~= pframes.drop_last().drop_last());
                    assert(wf_entries(entries_model(parent.1@)));
                }
                let ghost twopop = stack@;
                let ghost parent_tag = parent.0@;
                let ghost parent_entries = entries_model(parent.1@);
                let ghost vm = v.model();
                let mut pentries = parent.1;
                obj_merge(&mut pentries, crate::text::chars_to_string(&tag), v);
                let ghost newframe = SpecFrame {
                    tag: parent_tag,
                    entries: entries_model(pentries@),
                };
                stack.push((parent.0, pentries));
                buf = Vec::new();
                cur = e + 1;
                proof {
                    lemma_frames_model(stack@);
                    let popped = pframes.drop_last();
                    let want = popped.update(popped.len() - 1, SpecFrame {
                        tag: popped.last().tag,
                        entries: merge_child(popped.last().entries, tag@, vm),
                    });
                    assert(popped.last() == SpecFrame { tag: parent_tag, entries: parent_entries });
                    assert(entries_model(pentries@) == merge_child(parent_entries, tag@, vm));
                    assert forall|w: int|
                        0 <= w < frames_model(stack@).len() implies #[trigger] frames_model(
                        stack@,
                    )[w] == want[w] by {
                        assert(frames_model(stack@)[w] == SpecFrame {
                            tag: stack@[w].0@,
                            entries: entries_model(stack@[w].1@),
                        });
                        if w < popped.len() - 1 {
                            assert(stack@[w] == twopop[w]);
                            assert(frames_model(twopop)[w] == SpecFrame {
                                tag: twopop[w].0@,
                                entries: entries_model(twopop[w].1@),
                            });
                            assert(frames_model(twopop)[w] == popped[w]);
                        } else {
                            assert(stack@[w] == (parent.0, pentries));
                        }
                    }
                    assert(frames_model(stack@) =~= want);
                    assert forall|w: int|
                        0 <= w < stack@.len() implies wf_entries(
                        #[trigger] frames_model(stack@)[w].entries,
                    ) by {
                        if w < popped.len() - 1 {
                            assert(want[w] == pframes[w]);
                            assert(wf_entries(pframes[w].entries));
                        }
                    }
                    assert(buf@ =~= Seq::<char>::empty());
                }
            }
        } else {
            let ne = name_end_x(s, cur + 1);
            if ne <= cur + 1 {
                return Err(crate::text::chars_to_string(
                    &crate::text::to_chars("XML start tag has no name"),
                ));
            }
            match tag_end_x(s, ne) {
                None => {
                    return Err(crate::text::chars_to_string(
                        &crate::text::to_chars("XML start tag is not closed"),
                    ));
                },
                Some(e) => {
                    if s[e - 1] == '/' {
                        cur = e + 1;
                    } else {
                        match &root {
                            Some(_) => {
                                return Err(crate::text::chars_to_string(
                                    &crate::text::to_chars(
                                        "XML document has content after its root",
                                    ),
                                ));
                            },
                            None => {
                                let namev = crate::text::subvec(s, cur + 1, ne);
                                let name = crate::text::chars_to_string(&namev);
                                let empty_entries: Vec<(String, Value)> = Vec::new();
                                let ghost newframe = SpecFrame {
                                    tag: name@,
                                    entries: entries_model(empty_entries@),
                                };
                                stack.push((name, empty_entries));
                                cur = e + 1;
                                proof {
                                    lemma_frames_model(stack@);
                                    assert(entries_model(
                                        Seq::<(String, Value)>::empty(),
                                    ) =~= Seq::<(Seq<char>, ValueModel)>::empty());
                                    assert forall|w: int|
                                        0 <= w < frames_model(stack@).len() implies #[trigger] frames_model(
                                        stack@,
                                    )[w] == pframes.push(
                                        SpecFrame {
                                            tag: namev@,
                                            entries: Seq::empty(),
                                        },
                                    )[w] by {
                                        assert(frames_model(stack@)[w] == SpecFrame {
                                            tag: stack@[w].0@,
                                            entries: entries_model(stack@[w].1@),
                                        });
                                    }
                                    assert(frames_model(stack@) =~= pframes.push(
                                        SpecFrame { tag: namev@, entries: Seq::empty() },
                                    ));
                                }
                            },
                        }
                    }
                },
            }
        }
    }
}

// ---------------------------------------------------------------------
// The empty-document law
// ---------------------------------------------------------------------

/// An empty document — nothing but whitespace — never parses: there is
/// no root element to return.
pub proof fn lemma_xml_empty_fails(s: Seq<char>)
    requires
        crate::text::trim_spec(s).len() == 0,
    ensures
        xml_parse(s) is None,
{
    crate::text::lemma_trim_empty_all_ws(s);
    if s.len() > 0 {
        assert(s[0] != '<');
        let e = idx_of(s, '<', 0);
        crate::text::lemma_idx_of_bounds(s, '<', 0);
        assert(e == s.len()) by {
            if e < s.len() {
                assert(s[e as int] == '<');
                assert(crate::text::is_ascii_ws(s[e as int]));
            }
        }
        let raw = s.subrange(0, e as int);
        assert(raw =~= s);
        assert(trim_spec(raw).len() == 0);
        assert(xdecode(trim_spec(raw)) =~= Seq::<char>::empty());
        assert(xml_run(s, e, Seq::empty(), None, Seq::empty()) is None);
    }
}

} // verus!
