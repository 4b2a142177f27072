//! The YAML codec.
//!
//! Serializing emits plain block style, the YAML equivalent of compact
//! JSON: two-space indentation, `-` items for sequences, `key: value`
//! lines for mappings, nested non-empty containers on their own indented
//! block, `[]` / `{}` for empty containers, `~` for null, and double
//! quotes around any string that could read as something else. Nothing
//! idiosyncratic to YAML (anchors, tags, block scalars) is ever produced.
//! The emitted form is specified exactly by [`yaml_text`].
//!
//! Parsing reads the first document of a practical YAML subset: block
//! sequences and mappings by indentation (a sequence-item line may hold
//! one `key: value` pair), flow sequences and mappings in one line,
//! double- and single-quoted strings, plain scalars with the core type
//! inference (null, booleans, integers, floats). Mapping keys are taken
//! as text. An empty document is an error, as is a layout outside the
//! subset (block scalars and mappings spread over a sequence-item line
//! among them).

use vstd::prelude::*;
use crate::json::fold_entries;
use crate::num;
use crate::num::{int_parse, int_text, is_number_text};
use crate::text::{eq_ignore_ascii_case_spec, idx_of, trim_spec};
use crate::value::{Value, ValueModel, entries_model, elems_model, upsert};

verus! {

// ---------------------------------------------------------------------
// Serializing, specified exactly
// ---------------------------------------------------------------------

/// Whether a string needs quotes to stay a string: empty, readable as
/// another scalar, special leading or trailing characters, or characters
/// that structure YAML.
pub open spec fn y_needs_quote(t: Seq<char>) -> bool {
    ||| t.len() == 0
    ||| eq_ignore_ascii_case_spec(t, seq!['n', 'u', 'l', 'l'])
    ||| eq_ignore_ascii_case_spec(t, seq!['t', 'r', 'u', 'e'])
    ||| eq_ignore_ascii_case_spec(t, seq!['f', 'a', 'l', 's', 'e'])
    ||| t =~= seq!['~']
    ||| int_parse(t) is Some
    ||| is_number_text(t)
    ||| crate::text::is_ascii_ws(t[0])
    ||| crate::text::is_ascii_ws(t[t.len() - 1])
    ||| (t[0] == '-' || t[0] == '?' || t[0] == '*' || t[0] == '&' || t[0] == '!' || t[0] == '|'
        || t[0] == '>' || t[0] == '%' || t[0] == '@' || t[0] == '`' || t[0] == '"' || t[0]
        == '\'')
    ||| (exists|i: int|
        0 <= i < t.len() && (t[i] == ':' || t[i] == '#' || t[i] == ',' || t[i] == '[' || t[i]
            == ']' || t[i] == '{' || t[i] == '}' || t[i] == '\n' || t[i] == '\r' || t[i]
            == '\t'))
}

/// The escape of one character inside a double-quoted scalar.
pub open spec fn yesc_char(c: char) -> Seq<char> {
    if c == '"' {
        seq!['\\', '"']
    } else if c == '\\' {
        seq!['\\', '\\']
    } else if c == '\n' {
        seq!['\\', 'n']
    } else if c == '\r' {
        seq!['\\', 'r']
    } else if c == '\t' {
        seq!['\\', 't']
    } else {
        seq![c]
    }
}

/// The escaped body of a double-quoted scalar.
pub open spec fn yesc(s: Seq<char>) -> Seq<char>
    decreases s.len(),
{
    if s.len() == 0 {
        Seq::empty()
    } else {
        yesc_char(s[0]) + yesc(s.subrange(1, s.len() as int))
    }
}

/// A string scalar as emitted: bare, or double-quoted when it needs it.
pub open spec fn ystr(t: Seq<char>) -> Seq<char> {
    if y_needs_quote(t) {
        seq!['"'] + yesc(t) + seq!['"']
    } else {
        t
    }
}

/// A leaf value: anything but a non-empty container.
pub open spec fn is_leaf(m: ValueModel) -> bool {
    match m {
        ValueModel::Arr(a) => a.len() == 0,
        ValueModel::Obj(o) => o.len() == 0,
        _ => true,
    }
}

/// The text of a leaf value.
pub open spec fn yscalar(m: ValueModel) -> Seq<char> {
    match m {
        ValueModel::Null => seq!['~'],
        ValueModel::Bool(b) => if b {
            seq!['t', 'r', 'u', 'e']
        } else {
            seq!['f', 'a', 'l', 's', 'e']
        },
        ValueModel::Int(i) => int_text(i),
        ValueModel::Float(t) => t,
        ValueModel::Str(t) => ystr(t),
        ValueModel::Arr(_) => seq!['[', ']'],
        ValueModel::Obj(_) => seq!['{', '}'],
    }
}

/// Two spaces of indentation per depth.
pub open spec fn yind(d: nat) -> Seq<char>
    decreases d,
{
    if d == 0 {
        Seq::empty()
    } else {
        yind((d - 1) as nat) + seq![' ', ' ']
    }
}

/// The block lines of a non-empty container at depth `d`.
pub open spec fn yblock(m: ValueModel, d: nat) -> Seq<char>
    decreases m, 1int,
{
    match m {
        ValueModel::Arr(a) => yarr(a, a.len() as int, d),
        ValueModel::Obj(o) => ymap(o, o.len() as int, d),
        _ => Seq::empty(),
    }
}

/// The first `k` sequence items as `- ` lines at depth `d`.
pub open spec fn yarr(a: Seq<ValueModel>, k: int, d: nat) -> Seq<char>
    decreases a, k, 0int,
{
    if k <= 0 || k > a.len() {
        Seq::empty()
    } else {
        yarr(a, k - 1, d) + yind(d) + seq!['-'] + (if is_leaf(a[k - 1]) {
            seq![' '] + yscalar(a[k - 1]) + seq!['\n']
        } else {
            seq!['\n'] + yblock(a[k - 1], d + 1)
        })
    }
}

/// The first `k` mapping entries as `key: value` lines at depth `d`.
pub open spec fn ymap(o: Seq<(Seq<char>, ValueModel)>, k: int, d: nat) -> Seq<char>
    decreases o, k, 0int,
{
    if k <= 0 || k > o.len() {
        Seq::empty()
    } else {
        ymap(o, k - 1, d) + yind(d) + ystr(o[k - 1].0) + seq![':'] + (if is_leaf(o[k - 1].1) {
            seq![' '] + yscalar(o[k - 1].1) + seq!['\n']
        } else {
            seq!['\n'] + yblock(o[k - 1].1, d + 1)
        })
    }
}

/// A whole document: a leaf on one line, a non-empty container as its
/// block lines.
pub open spec fn yaml_text(m: ValueModel) -> Seq<char> {
    if is_leaf(m) {
        yscalar(m) + seq!['\n']
    } else {
        yblock(m, 0)
    }
}

// ---------------------------------------------------------------------
// Parsing, specified exactly: the documented subset as one spec parser
// ---------------------------------------------------------------------

/// Index of the first character after the run of spaces and tabs at `i`.
pub open spec fn yws_end(t: Seq<char>, i: nat) -> nat
    decreases t.len() - i when i <= t.len()
{
    if i < t.len() && (t[i as int] == ' ' || t[i as int] == '\t') {
        yws_end(t, i + 1)
    } else {
        i
    }
}

/// End of a plain flow scalar: the first comma or closing bracket.
pub open spec fn plain_end(t: Seq<char>, i: nat) -> nat
    decreases t.len() - i when i <= t.len()
{
    if i < t.len() && !(t[i as int] == ',' || t[i as int] == ']' || t[i as int] == '}') {
        plain_end(t, i + 1)
    } else {
        i
    }
}

/// End of a plain flow-mapping key: the first colon, comma or closing
/// brace.
pub open spec fn fkey_end(t: Seq<char>, i: nat) -> nat
    decreases t.len() - i when i <= t.len()
{
    if i < t.len() && !(t[i as int] == ':' || t[i as int] == ',' || t[i as int] == '}') {
        fkey_end(t, i + 1)
    } else {
        i
    }
}

/// The body of a double-quoted scalar beginning just after the quote:
/// `\n`, `\r`, `\t` decode, any other escaped character stands for
/// itself; an unclosed scalar or a trailing backslash fails.
pub open spec fn yq_str(t: Seq<char>, i: nat) -> Option<(Seq<char>, nat)>
    decreases t.len() - i when i <= t.len()
{
    if i >= t.len() {
        None
    } else {
        let c = t[i as int];
        if c == '"' {
            Some((Seq::empty(), i + 1))
        } else if c == '\\' {
            if i + 2 > t.len() {
                None
            } else {
                let e = t[i as int + 1];
                let ch = if e == 'n' {
                    '\n'
                } else if e == 'r' {
                    '\r'
                } else if e == 't' {
                    '\t'
                } else {
                    e
                };
                match yq_str(t, i + 2) {
                    Some((rest, j)) => Some((seq![ch] + rest, j)),
                    None => None,
                }
            }
        } else {
            match yq_str(t, i + 1) {
                Some((rest, j)) => Some((seq![c] + rest, j)),
                None => None,
            }
        }
    }
}

/// The body of a single-quoted scalar: a doubled quote stands for one
/// quote; an unclosed scalar fails.
pub open spec fn ys_str(t: Seq<char>, i: nat) -> Option<(Seq<char>, nat)>
    decreases t.len() - i when i <= t.len()
{
    if i >= t.len() {
        None
    } else {
        let c = t[i as int];
        if c == '\'' {
            if i + 1 < t.len() && t[i as int + 1] == '\'' {
                match ys_str(t, i + 2) {
                    Some((rest, j)) => Some((seq!['\''] + rest, j)),
                    None => None,
                }
            } else {
                Some((Seq::empty(), i + 1))
            }
        } else {
            match ys_str(t, i + 1) {
                Some((rest, j)) => Some((seq![c] + rest, j)),
                None => None,
            }
        }
    }
}

/// The value a plain scalar denotes: empty and `~` are null, then the
/// word literals (any case), then an integer, then a decimal numeral kept
/// as float text, else the text itself.
pub open spec fn yinfer_spec(t: Seq<char>) -> ValueModel {
    if t.len() == 0 {
        ValueModel::Null
    } else if t.len() == 1 && t[0] == '~' {
        ValueModel::Null
    } else if eq_ignore_ascii_case_spec(t, seq!['n', 'u', 'l', 'l']) {
        ValueModel::Null
    } else if eq_ignore_ascii_case_spec(t, seq!['t', 'r', 'u', 'e']) {
        ValueModel::Bool(true)
    } else if eq_ignore_ascii_case_spec(t, seq!['f', 'a', 'l', 's', 'e']) {
        ValueModel::Bool(false)
    } else {
        match int_parse(t) {
            Some(v) => ValueModel::Int(v),
            None => if is_number_text(t) {
                ValueModel::Float(t)
            } else {
                ValueModel::Str(t)
            },
        }
    }
}

/// One flow value beginning at `i` (no leading whitespace).
pub open spec fn yp_flow(t: Seq<char>, i: nat) -> Option<(ValueModel, nat)>
    decreases t.len() - i, 2int when i <= t.len()
{
    if i >= t.len() {
        None
    } else {
        let c = t[i as int];
        if c == '[' {
            let j = yws_end(t, i + 1);
            if !(i < j && j <= t.len()) {
                None
            } else if j < t.len() && t[j as int] == ']' {
                Some((ValueModel::Arr(Seq::empty()), j + 1))
            } else {
                match yp_fseq(t, j) {
                    Some((a, e)) => Some((ValueModel::Arr(a), e)),
                    None => None,
                }
            }
        } else if c == '{' {
            let j = yws_end(t, i + 1);
            if !(i < j && j <= t.len()) {
                None
            } else if j < t.len() && t[j as int] == '}' {
                Some((ValueModel::Obj(Seq::empty()), j + 1))
            } else {
                match yp_fmap(t, j) {
                    Some((ps, e)) => Some((ValueModel::Obj(fold_entries(ps)), e)),
                    None => None,
                }
            }
        } else if c == '"' {
            match yq_str(t, i + 1) {
                Some((st, j)) => Some((ValueModel::Str(st), j)),
                None => None,
            }
        } else if c == '\'' {
            match ys_str(t, i + 1) {
                Some((st, j)) => Some((ValueModel::Str(st), j)),
                None => None,
            }
        } else {
            let e = plain_end(t, i);
            if !(i < e && e <= t.len()) {
                None
            } else {
                Some((yinfer_spec(trim_spec(t.subrange(i as int, e as int))), e))
            }
        }
    }
}

/// The elements of a flow sequence from the first element on, and the
/// position after the closing bracket.
pub open spec fn yp_fseq(t: Seq<char>, i: nat) -> Option<(Seq<ValueModel>, nat)>
    decreases t.len() - i, 3int when i <= t.len()
{
    match yp_flow(t, i) {
        Some((v, j)) => if !(i < j && j <= t.len()) {
            None
        } else {
            let k = yws_end(t, j);
            if !(j <= k && k < t.len()) {
                None
            } else if t[k as int] == ']' {
                Some((seq![v], k + 1))
            } else if t[k as int] == ',' {
                let m = yws_end(t, k + 1);
                if !(i < m && m <= t.len()) {
                    None
                } else {
                    match yp_fseq(t, m) {
                        Some((a, e)) => Some((seq![v] + a, e)),
                        None => None,
                    }
                }
            } else {
                None
            }
        },
        None => None,
    }
}

/// The entries of a flow mapping from the first key on, duplicates still
/// present, and the position after the closing brace. A key is a quoted
/// scalar or the trimmed text before the colon.
pub open spec fn yp_fmap(t: Seq<char>, i: nat) -> Option<(Seq<(Seq<char>, ValueModel)>, nat)>
    decreases t.len() - i, 3int when i <= t.len()
{
    if i >= t.len() {
        None
    } else {
        let kp: Option<(Seq<char>, nat)> = if t[i as int] == '"' {
            yq_str(t, i + 1)
        } else if t[i as int] == '\'' {
            ys_str(t, i + 1)
        } else {
            let ke = fkey_end(t, i);
            if ke <= t.len() {
                Some((trim_spec(t.subrange(i as int, ke as int)), ke))
            } else {
                None
            }
        };
        match kp {
            Some((key, after_key)) => if !(i <= after_key && after_key <= t.len()) {
                None
            } else {
                let colon = yws_end(t, after_key);
                if !(after_key <= colon && colon < t.len() && t[colon as int] == ':') {
                    None
                } else {
                    let vstart = yws_end(t, colon + 1);
                    if !(i < vstart && vstart <= t.len()) {
                        None
                    } else {
                        match yp_flow(t, vstart) {
                            Some((v, j)) => if !(vstart < j && j <= t.len()) {
                                None
                            } else {
                                let k = yws_end(t, j);
                                if !(j <= k && k < t.len()) {
                                    None
                                } else if t[k as int] == '}' {
                                    Some((seq![(key, v)], k + 1))
                                } else if t[k as int] == ',' {
                                    let m = yws_end(t, k + 1);
                                    if !(i < m && m <= t.len()) {
                                        None
                                    } else {
                                        match yp_fmap(t, m) {
                                            Some((ps, e)) => Some((seq![(key, v)] + ps, e)),
                                            None => None,
                                        }
                                    }
                                } else {
                                    None
                                }
                            },
                            None => None,
                        }
                    }
                }
            },
            None => None,
        }
    }
}

/// A whole line as one value: flow syntax when it opens with a bracket
/// or quote (nothing but whitespace may follow it), else a plain scalar.
pub open spec fn yp_flow_line(t: Seq<char>) -> Option<ValueModel> {
    if t.len() > 0 && (t[0] == '[' || t[0] == '{' || t[0] == '"' || t[0] == '\'') {
        match yp_flow(t, 0) {
            Some((v, j)) => if j <= t.len() && yws_end(t, j) == t.len() {
                Some(v)
            } else {
                None
            },
            None => None,
        }
    } else {
        Some(yinfer_spec(t))
    }
}

/// Where a quoted key's closing quote puts the start of the colon
/// search.
pub open spec fn qskip(content: Seq<char>) -> nat {
    if content.len() > 0 && (content[0] == '"' || content[0] == '\'') {
        let k = idx_of(content, content[0], 1);
        if k < content.len() {
            k + 1
        } else {
            0
        }
    } else {
        0
    }
}

/// The first position at or after `i` holding a colon followed by a
/// space or the end of the line; the length when there is none.
pub open spec fn kc_from(content: Seq<char>, i: nat) -> nat
    decreases content.len() - i when i <= content.len()
{
    if i < content.len() {
        if content[i as int] == ':' && (i + 1 == content.len() || content[i as int + 1] == ' ') {
            i
        } else {
            kc_from(content, i + 1)
        }
    } else {
        content.len()
    }
}

/// The position of the colon that splits a mapping line, honoring a
/// quoted key; the length when there is none.
pub open spec fn key_colon_spec(content: Seq<char>) -> nat {
    if qskip(content) <= content.len() {
        kc_from(content, qskip(content))
    } else {
        content.len()
    }
}

/// First line index at or after `j`, up to `hi`, whose indentation does
/// not exceed `d`: the end of a nested child block.
pub open spec fn child_end(ls: Seq<(nat, Seq<char>)>, j: nat, hi: nat, d: nat) -> nat
    decreases hi - j when j <= hi <= ls.len()
{
    if j < hi && ls[j as int].0 > d {
        child_end(ls, j + 1, hi, d)
    } else {
        j
    }
}

/// The mapping key a line's text before the colon denotes: quotes around
/// the whole trimmed text are stripped, anything else is taken as it is.
pub open spec fn block_key(content: Seq<char>, kc: nat) -> Seq<char> {
    let keyraw = trim_spec(content.subrange(0, kc as int));
    if keyraw.len() >= 2 && (keyraw[0] == '"' || keyraw[0] == '\'') && keyraw[keyraw.len() - 1]
        == keyraw[0] {
        keyraw.subrange(1, keyraw.len() - 1)
    } else {
        keyraw
    }
}

/// The value text after a mapping line's colon, trimmed.
pub open spec fn block_rest(content: Seq<char>, kc: nat) -> Seq<char> {
    if kc + 1 >= content.len() {
        Seq::empty()
    } else {
        trim_spec(content.subrange(kc as int + 1, content.len() as int))
    }
}

/// The block of lines `lo..hi`: a sequence when the first line opens with
/// a dash, a scalar when no line-splitting colon is found (one line
/// only), else a mapping.
pub open spec fn yp_block(ls: Seq<(nat, Seq<char>)>, lo: nat, hi: nat) -> Option<ValueModel>
    decreases hi - lo, 1int when lo < hi <= ls.len()
{
    let d = ls[lo as int].0;
    let first = ls[lo as int].1;
    let seqm = first.len() >= 1 && first[0] == '-' && (first.len() == 1 || first[1] == ' ');
    if seqm {
        match yp_seq(ls, lo, hi, d) {
            Some(a) => Some(ValueModel::Arr(a)),
            None => None,
        }
    } else {
        let kc0: nat = if first.len() > 0 && (first[0] == '[' || first[0] == '{') {
            first.len()
        } else {
            key_colon_spec(first)
        };
        if kc0 == first.len() {
            if lo + 1 != hi {
                None
            } else {
                yp_flow_line(first)
            }
        } else {
            match yp_map(ls, lo, hi, d) {
                Some(ps) => Some(ValueModel::Obj(fold_entries(ps))),
                None => None,
            }
        }
    }
}

/// The items of a block sequence from line `lo` on: every line sits at
/// indentation `d` and opens with a dash; a bare dash takes the deeper
/// lines that follow as its value (null when there are none); a dash with
/// text takes that line's value — a `key: value` line becomes a mapping
/// of that one pair.
pub open spec fn yp_seq(ls: Seq<(nat, Seq<char>)>, lo: nat, hi: nat, d: nat) -> Option<
    Seq<ValueModel>,
>
    decreases hi - lo, 0int when lo <= hi <= ls.len()
{
    if lo >= hi {
        Some(Seq::empty())
    } else if ls[lo as int].0 != d {
        None
    } else {
        let content = ls[lo as int].1;
        if !(content.len() >= 1 && content[0] == '-' && (content.len() == 1 || content[1]
            == ' ')) {
            None
        } else {
            let rest: Seq<char> = if content.len() <= 2 {
                Seq::empty()
            } else {
                trim_spec(content.subrange(2, content.len() as int))
            };
            if rest.len() == 0 {
                let j = child_end(ls, lo + 1, hi, d);
                if !(lo + 1 <= j && j <= hi) {
                    None
                } else {
                    let v: Option<ValueModel> = if j == lo + 1 {
                        Some(ValueModel::Null)
                    } else {
                        yp_block(ls, lo + 1, j)
                    };
                    match v {
                        Some(bv) => match yp_seq(ls, j, hi, d) {
                            Some(a) => Some(seq![bv] + a),
                            None => None,
                        },
                        None => None,
                    }
                }
            } else {
                let kc = key_colon_spec(rest);
                let item: Option<ValueModel> = if kc < rest.len() {
                    match yp_flow_line(block_rest(rest, kc)) {
                        Some(fv) => Some(
                            ValueModel::Obj(seq![(block_key(rest, kc), fv)]),
                        ),
                        None => None,
                    }
                } else {
                    yp_flow_line(rest)
                };
                match item {
                    Some(fv) => match yp_seq(ls, lo + 1, hi, d) {
                        Some(a) => Some(seq![fv] + a),
                        None => None,
                    },
                    None => None,
                }
            }
        }
    }
}

/// The entries of a block mapping from line `lo` on, in line order with
/// duplicates still present: every line sits at indentation `d` and
/// splits at a colon; an empty value text takes the deeper lines that
/// follow (null when there are none).
pub open spec fn yp_map(ls: Seq<(nat, Seq<char>)>, lo: nat, hi: nat, d: nat) -> Option<
    Seq<(Seq<char>, ValueModel)>,
>
    decreases hi - lo, 0int when lo <= hi <= ls.len()
{
    if lo >= hi {
        Some(Seq::empty())
    } else if ls[lo as int].0 != d {
        None
    } else {
        let content = ls[lo as int].1;
        let kc = key_colon_spec(content);
        if kc == content.len() {
            None
        } else {
            let key = block_key(content, kc);
            let rest = block_rest(content, kc);
            if rest.len() == 0 {
                let j = child_end(ls, lo + 1, hi, d);
                if !(lo + 1 <= j && j <= hi) {
                    None
                } else {
                    let v: Option<ValueModel> = if j == lo + 1 {
                        Some(ValueModel::Null)
                    } else {
                        yp_block(ls, lo + 1, j)
                    };
                    match v {
                        Some(bv) => match yp_map(ls, j, hi, d) {
                            Some(ps) => Some(seq![(key, bv)] + ps),
                            None => None,
                        },
                        None => None,
                    }
                }
            } else {
                match yp_flow_line(rest) {
                    Some(fv) => match yp_map(ls, lo + 1, hi, d) {
                        Some(ps) => Some(seq![(key, fv)] + ps),
                        None => None,
                    },
                    None => None,
                }
            }
        }
    }
}

/// A line without its one trailing carriage return.
pub open spec fn strip_cr(l: Seq<char>) -> Seq<char> {
    if l.len() > 0 && l[l.len() - 1] == '\r' {
        l.subrange(0, l.len() - 1)
    } else {
        l
    }
}

/// The length of a line's leading run of spaces: its indentation.
pub open spec fn indent_end(l: Seq<char>, i: nat) -> nat
    decreases l.len() - i when i <= l.len()
{
    if i < l.len() && l[i as int] == ' ' {
        indent_end(l, i + 1)
    } else {
        i
    }
}

/// The content lines of the first document from position `pos` on, each
/// with its indentation, trimmed: blank and comment lines are dropped, a
/// leading document marker is skipped, and a marker after content or an
/// end marker ends the document. `seen` says whether content came before
/// `pos`.
pub open spec fn ylines_from(s: Seq<char>, pos: nat, seen: bool) -> Seq<(nat, Seq<char>)>
    decreases s.len() - pos when pos <= s.len()
{
    if pos >= s.len() {
        Seq::empty()
    } else {
        let e = idx_of(s, '\n', pos);
        if !(pos <= e && e <= s.len()) {
            Seq::empty()
        } else {
            let line = strip_cr(s.subrange(pos as int, e as int));
            let ind = indent_end(line, 0);
            if !(ind <= line.len()) {
                Seq::empty()
            } else {
                let ctrim = trim_spec(line.subrange(ind as int, line.len() as int));
                if ctrim.len() == 0 || ctrim[0] == '#' {
                    if e < s.len() {
                        ylines_from(s, e + 1, seen)
                    } else {
                        Seq::empty()
                    }
                } else if ctrim =~= seq!['-', '-', '-'] {
                    if seen {
                        Seq::empty()
                    } else if e < s.len() {
                        ylines_from(s, e + 1, seen)
                    } else {
                        Seq::empty()
                    }
                } else if ctrim =~= seq!['.', '.', '.'] {
                    Seq::empty()
                } else {
                    seq![(ind, ctrim)] + (if e < s.len() {
                        ylines_from(s, e + 1, true)
                    } else {
                        Seq::empty()
                    })
                }
            }
        }
    }
}

/// What a YAML text parses to in the codec's documented subset, or
/// `None` where the document is empty or outside the subset: the content
/// lines of the first document, read as one block.
pub open spec fn yaml_parse(s: Seq<char>) -> Option<ValueModel> {
    if trim_spec(s).len() == 0 {
        None
    } else {
        let ls = ylines_from(s, 0, false);
        if ls.len() == 0 {
            None
        } else {
            yp_block(ls, 0, ls.len())
        }
    }
}

// ---------------------------------------------------------------------
// Executable serializer
// ---------------------------------------------------------------------

/// Escaping distributes over concatenation.
pub proof fn lemma_yesc_app(a: Seq<char>, b: Seq<char>)
    ensures
        yesc(a + b) == yesc(a) + yesc(b),
    decreases a.len(),
{
    if a.len() == 0 {
        assert(a + b =~= b);
        assert(yesc(a) + yesc(b) =~= yesc(b));
    } else {
        let rest = a.subrange(1, a.len() as int);
        lemma_yesc_app(rest, b);
        assert((a + b).subrange(1, (a + b).len() as int) =~= rest + b);
        assert((a + b)[0] == a[0]);
        assert(yesc_char(a[0]) + (yesc(rest) + yesc(b)) =~= (yesc_char(a[0]) + yesc(rest)) + yesc(
            b,
        ));
    }
}

/// Executable check matching [`y_needs_quote`].
fn y_quote_check(t: &Vec<char>) -> (r: bool)
    ensures
        r == y_needs_quote(t@),
{
    if t.len() == 0 {
        return true;
    }
    let mut pat_null: Vec<char> = Vec::new();
    pat_null.push('n');
    pat_null.push('u');
    pat_null.push('l');
    pat_null.push('l');
    let mut pat_true: Vec<char> = Vec::new();
    pat_true.push('t');
    pat_true.push('r');
    pat_true.push('u');
    pat_true.push('e');
    let mut pat_false: Vec<char> = Vec::new();
    pat_false.push('f');
    pat_false.push('a');
    pat_false.push('l');
    pat_false.push('s');
    pat_false.push('e');
    proof {
        assert(pat_null@ =~= seq!['n', 'u', 'l', 'l']);
        assert(pat_true@ =~= seq!['t', 'r', 'u', 'e']);
        assert(pat_false@ =~= seq!['f', 'a', 'l', 's', 'e']);
    }
    if crate::text::eq_ignore_case(t, &pat_null) || crate::text::eq_ignore_case(t, &pat_true)
        || crate::text::eq_ignore_case(t, &pat_false) {
        return true;
    }
    if t.len() == 1 && t[0] == '~' {
        proof {
            assert(t@ =~= seq!['~']);
        }
        return true;
    }
    if num::parse_i64(t).is_some() {
        return true;
    }
    if num::number_check(t) {
        return true;
    }
    if crate::text::ascii_ws(t[0]) || crate::text::ascii_ws(t[t.len() - 1]) {
        return true;
    }
    let c0 = t[0];
    if c0 == '-' || c0 == '?' || c0 == '*' || c0 == '&' || c0 == '!' || c0 == '|' || c0 == '>'
        || c0 == '%' || c0 == '@' || c0 == '`' || c0 == '"' || c0 == '\'' {
        return true;
    }
    let mut i: usize = 0;
    while i < t.len()
        invariant
            i <= t@.len(),
            forall|w: int|
                0 <= w < i ==> !(#[trigger] t@[w] == ':' || t@[w] == '#' || t@[w] == ',' || t@[w]
                    == '[' || t@[w] == ']' || t@[w] == '{' || t@[w] == '}' || t@[w] == '\n'
                    || t@[w] == '\r' || t@[w] == '\t'),
        decreases t@.len() - i,
    {
        let c = t[i];
        if c == ':' || c == '#' || c == ',' || c == '[' || c == ']' || c == '{' || c == '}' || c
            == '\n' || c == '\r' || c == '\t' {
            proof {
                assert(t@[i as int] == c);
            }
            return true;
        }
        i += 1;
    }
    proof {
        if t@ =~= seq!['~'] {
            assert(t@.len() == 1 && t@[0] == '~');
        }
    }
    false
}

/// Append a string scalar, quoting when needed.
fn write_ystr(out: &mut String, t: &String)
    ensures
        final(out)@ == old(out)@ + ystr(t@),
{
    let chars = crate::text::to_chars(t.as_str());
    if !y_quote_check(&chars) {
        out.append(t.as_str());
    } else {
        crate::text::push_char(out, '"');
        let mut k: usize = 0;
        while k < chars.len()
            invariant
                k <= chars@.len(),
                chars@ == t@,
                y_needs_quote(t@),
                out@ == old(out)@.push('"') + yesc(t@.subrange(0, k as int)),
            decreases chars@.len() - k,
        {
            let c = chars[k];
            if c == '"' {
                crate::text::push_char(out, '\\');
                crate::text::push_char(out, '"');
            } else if c == '\\' {
                crate::text::push_char(out, '\\');
                crate::text::push_char(out, '\\');
            } else if c == '\n' {
                crate::text::push_char(out, '\\');
                crate::text::push_char(out, 'n');
            } else if c == '\r' {
                crate::text::push_char(out, '\\');
                crate::text::push_char(out, 'r');
            } else if c == '\t' {
                crate::text::push_char(out, '\\');
                crate::text::push_char(out, 't');
            } else {
                crate::text::push_char(out, c);
            }
            k += 1;
            proof {
                let pre = t@.subrange(0, k - 1);
                let post = t@.subrange(0, k as int);
                assert(post =~= pre + seq![t@[k - 1]]);
                lemma_yesc_app(pre, seq![t@[k - 1]]);
                assert(seq![t@[k - 1]].subrange(1, 1) =~= Seq::<char>::empty());
                assert(yesc(seq![t@[k - 1]].subrange(1, 1)) =~= Seq::<char>::empty());
                assert(yesc(seq![t@[k - 1]]) =~= yesc_char(t@[k - 1]));
            }
        }
        crate::text::push_char(out, '"');
        proof {
            assert(t@.subrange(0, t@.len() as int) =~= t@);
            assert((old(out)@.push('"') + yesc(t@)).push('"') =~= old(out)@ + (seq!['"'] + yesc(
                t@,
            ) + seq!['"']));
        }
    }
}

/// Executable leaf test matching [`is_leaf`].
fn leaf_x(v: &Value) -> (r: bool)
    ensures
        r == is_leaf(v.model()),
{
    match v {
        Value::Arr(a) => {
            proof {
                crate::value::lemma_elems_model_len(a@);
            }
            a.len() == 0
        },
        Value::Obj(o) => {
            proof {
                crate::value::lemma_entries_model_len(o@);
            }
            o.len() == 0
        },
        _ => true,
    }
}

/// Append the text of a leaf value.
fn write_yscalar(out: &mut String, v: &Value)
    requires
        is_leaf(v.model()),
    ensures
        final(out)@ == old(out)@ + yscalar(v.model()),
{
    match v {
        Value::Null => {
            crate::text::push_char(out, '~');
            proof {
                assert(old(out)@.push('~') =~= old(out)@ + yscalar(v.model()));
            }
        },
        Value::Bool(b) => {
            if *b {
                out.append("true");
                proof {
                    reveal_strlit("true");
                    assert(("true")@ =~= yscalar(v.model()));
                }
            } else {
                out.append("false");
                proof {
                    reveal_strlit("false");
                    assert(("false")@ =~= yscalar(v.model()));
                }
            }
        },
        Value::Int(i) => {
            let digits = num::i64_chars(*i);
            crate::text::append_chars(out, &digits);
        },
        Value::Float(t) => {
            out.append(t.as_str());
        },
        Value::Str(t) => {
            write_ystr(out, t);
        },
        Value::Arr(_) => {
            out.append("[]");
            proof {
                reveal_strlit("[]");
                assert(("[]")@ =~= yscalar(v.model()));
            }
        },
        Value::Obj(_) => {
            out.append("{}");
            proof {
                reveal_strlit("{}");
                assert(("{}")@ =~= yscalar(v.model()));
            }
        },
    }
}

/// Append the block lines of a non-empty container at the depth whose
/// indentation `ind` holds.
fn write_yblock(out: &mut String, v: &Value, ind: &Vec<char>, Ghost(d): Ghost<nat>)
    requires
        ind@ == yind(d),
        !is_leaf(v.model()),
    ensures
        final(out)@ == old(out)@ + yblock(v.model(), d),
    decreases v.model(),
{
    let mut ind2 = ind.clone();
    ind2.push(' ');
    ind2.push(' ');
    proof {
        assert(ind2@ =~= yind(d + 1));
    }
    match v {
        Value::Arr(a) => {
            proof {
                crate::value::lemma_elems_model_len(a@);
            }
            let ghost em = elems_model(a@);
            let mut i: usize = 0;
            proof {
                assert(old(out)@ + yarr(em, 0, d) =~= old(out)@);
            }
            while i < a.len()
                invariant
                    i <= a@.len(),
                    em == elems_model(a@),
                    em.len() == a@.len(),
                    ind@ == yind(d),
                    ind2@ == yind(d + 1),
                    forall|w: int| 0 <= w < a@.len() ==> em[w] == #[trigger] a@[w].model(),
                    v.model() == ValueModel::Arr(em),
                    out@ == old(out)@ + yarr(em, i as int, d),
                decreases a@.len() - i,
            {
                crate::text::append_chars(out, ind);
                crate::text::push_char(out, '-');
                proof {
                    assert(decreases_to!(v.model() => v.model()->Arr_0));
                    assert(v.model()->Arr_0 == em);
                    assert(decreases_to!(em => em[i as int]));
                    assert(a@[i as int].model() == em[i as int]);
                }
                if leaf_x(&a[i]) {
                    crate::text::push_char(out, ' ');
                    write_yscalar(out, &a[i]);
                    crate::text::push_char(out, '\n');
                    proof {
                        assert(old(out)@ + yarr(em, i as int, d) + yind(d) + seq!['-'] + (seq![
                            ' '] + yscalar(em[i as int]) + seq!['\n']) =~= old(out)@ + yarr(
                            em,
                            i as int + 1,
                            d,
                        ));
                    }
                } else {
                    crate::text::push_char(out, '\n');
                    write_yblock(out, &a[i], &ind2, Ghost(d + 1));
                    proof {
                        assert(old(out)@ + yarr(em, i as int, d) + yind(d) + seq!['-'] + (seq![
                            '\n'] + yblock(em[i as int], d + 1)) =~= old(out)@ + yarr(
                            em,
                            i as int + 1,
                            d,
                        ));
                    }
                }
                i += 1;
            }
        },
        Value::Obj(o) => {
            proof {
                crate::value::lemma_entries_model_len(o@);
            }
            let ghost en = entries_model(o@);
            let mut i: usize = 0;
            proof {
                assert(old(out)@ + ymap(en, 0, d) =~= old(out)@);
            }
            while i < o.len()
                invariant
                    i <= o@.len(),
                    en == entries_model(o@),
                    en.len() == o@.len(),
                    ind@ == yind(d),
                    ind2@ == yind(d + 1),
                    forall|w: int|
                        0 <= w < o@.len() ==> en[w] == (#[trigger] o@[w].0@, o@[w].1.model()),
                    v.model() == ValueModel::Obj(en),
                    out@ == old(out)@ + ymap(en, i as int, d),
                decreases o@.len() - i,
            {
                crate::text::append_chars(out, ind);
                write_ystr(out, &o[i].0);
                crate::text::push_char(out, ':');
                proof {
                    assert(decreases_to!(v.model() => v.model()->Obj_0));
                    assert(v.model()->Obj_0 == en);
                    assert(decreases_to!(en => en[i as int]));
                    assert(decreases_to!(en[i as int] => en[i as int].1));
                    assert(o@[i as int].1.model() == en[i as int].1);
                }
                if leaf_x(&o[i].1) {
                    crate::text::push_char(out, ' ');
                    write_yscalar(out, &o[i].1);
                    crate::text::push_char(out, '\n');
                    proof {
                        assert(old(out)@ + ymap(en, i as int, d) + yind(d) + ystr(en[i as int].0)
                            + seq![':'] + (seq![' '] + yscalar(en[i as int].1) + seq!['\n']) =~=
                            old(out)@ + ymap(en, i as int + 1, d));
                    }
                } else {
                    crate::text::push_char(out, '\n');
                    write_yblock(out, &o[i].1, &ind2, Ghost(d + 1));
                    proof {
                        assert(old(out)@ + ymap(en, i as int, d) + yind(d) + ystr(en[i as int].0)
                            + seq![':'] + (seq!['\n'] + yblock(en[i as int].1, d + 1)) =~= old(
                            out,
                        )@ + ymap(en, i as int + 1, d));
                    }
                }
                i += 1;
            }
        },
        _ => {
            proof {
                assert(false);
            }
        },
    }
}

/// Serialize a value as plain block-style YAML.
pub fn serialize(v: &Value) -> (r: String)
    ensures
        r@ == yaml_text(v.model()),
{
    let mut out = String::new();
    if leaf_x(v) {
        write_yscalar(&mut out, v);
        crate::text::push_char(&mut out, '\n');
        proof {
            assert((Seq::<char>::empty() + yscalar(v.model())).push('\n') =~= yaml_text(
                v.model(),
            ));
        }
    } else {
        let ind: Vec<char> = Vec::new();
        write_yblock(&mut out, v, &ind, Ghost(0));
        proof {
            assert(Seq::<char>::empty() + yblock(v.model(), 0) =~= yaml_text(v.model()));
        }
    }
    out
}

// ---------------------------------------------------------------------
// Executable parser (a practical subset; contract: a well-formed value,
// and an empty document always fails)
// ---------------------------------------------------------------------

/// Infer the value of a plain scalar: null forms, booleans, integers,
/// floats, else the text itself.
fn yinfer(t: &Vec<char>) -> (r: Value)
    ensures
        r.model() == yinfer_spec(t@),
        crate::value::wf(r.model()),
{
    if t.len() == 0 {
        return Value::Null;
    }
    if t.len() == 1 && t[0] == '~' {
        return Value::Null;
    }
    let mut pat_null: Vec<char> = Vec::new();
    pat_null.push('n');
    pat_null.push('u');
    pat_null.push('l');
    pat_null.push('l');
    let mut pat_true: Vec<char> = Vec::new();
    pat_true.push('t');
    pat_true.push('r');
    pat_true.push('u');
    pat_true.push('e');
    let mut pat_false: Vec<char> = Vec::new();
    pat_false.push('f');
    pat_false.push('a');
    pat_false.push('l');
    pat_false.push('s');
    pat_false.push('e');
    proof {
        assert(pat_null@ =~= seq!['n', 'u', 'l', 'l']);
        assert(pat_true@ =~= seq!['t', 'r', 'u', 'e']);
        assert(pat_false@ =~= seq!['f', 'a', 'l', 's', 'e']);
    }
    if crate::text::eq_ignore_case(t, &pat_null) {
        return Value::Null;
    }
    if crate::text::eq_ignore_case(t, &pat_true) {
        return Value::Bool(true);
    }
    if crate::text::eq_ignore_case(t, &pat_false) {
        return Value::Bool(false);
    }
    match num::parse_i64(t) {
        Some(v) => Value::Int(v),
        None => {
            proof {
                if num::is_number_text(t@) && !num::has_frac_or_exp(t@) {
                    num::lemma_plain_int(t@);
                }
            }
            if num::number_check(t) {
                Value::Float(crate::text::chars_to_string(t))
            } else {
                Value::Str(crate::text::chars_to_string(t))
            }
        },
    }
}

/// Skip spaces and tabs, matching [`yws_end`].
fn yws(t: &Vec<char>, i: usize) -> (r: usize)
    requires
        i <= t@.len(),
    ensures
        r as nat == yws_end(t@, i as nat),
        i <= r <= t@.len(),
{
    let mut k: usize = i;
    while k < t.len() && (t[k] == ' ' || t[k] == '\t')
        invariant
            i <= k <= t@.len(),
            yws_end(t@, i as nat) == yws_end(t@, k as nat),
        decreases t@.len() - k,
    {
        k += 1;
    }
    k
}

/// Read a double-quoted scalar body beginning just after the quote,
/// matching [`yq_str`].
fn qstring(t: &Vec<char>, i: usize) -> (r: Result<(String, usize), String>)
    requires
        i <= t@.len(),
    ensures
        match r {
            Ok(p) => yq_str(t@, i as nat) == Some((p.0@, p.1 as nat)) && i < p.1 <= t@.len(),
            Err(_) => yq_str(t@, i as nat) is None,
        },
{
    let mut acc = String::new();
    let mut cur: usize = i;
    loop
        invariant
            i <= cur <= t@.len(),
            yq_str(t@, i as nat) == crate::json::str_cont(acc@, yq_str(t@, cur as nat)),
        decreases t@.len() - cur,
    {
        let ghost pacc = acc@;
        if cur >= t.len() {
            return Err(crate::text::chars_to_string(
                &crate::text::to_chars("YAML quoted scalar is not closed"),
            ));
        }
        let c = t[cur];
        if c == '"' {
            proof {
                assert(pacc + Seq::<char>::empty() =~= pacc);
            }
            return Ok((acc, cur + 1));
        } else if c == '\\' {
            if t.len() - cur < 2 {
                return Err(crate::text::chars_to_string(
                    &crate::text::to_chars("YAML escape at the end of input"),
                ));
            }
            let e = t[cur + 1];
            let ch: char = if e == 'n' {
                '\n'
            } else if e == 'r' {
                '\r'
            } else if e == 't' {
                '\t'
            } else {
                e
            };
            crate::text::push_char(&mut acc, ch);
            cur += 2;
            proof {
                let nxt = yq_str(t@, cur as nat);
                if nxt is Some {
                    assert(pacc + (seq![ch] + (nxt->0).0) =~= pacc.push(ch) + (nxt->0).0);
                }
            }
        } else {
            crate::text::push_char(&mut acc, c);
            cur += 1;
            proof {
                let nxt = yq_str(t@, cur as nat);
                if nxt is Some {
                    assert(pacc + (seq![c] + (nxt->0).0) =~= pacc.push(c) + (nxt->0).0);
                }
            }
        }
    }
}

/// Read a single-quoted scalar body beginning just after the quote,
/// matching [`ys_str`]: a doubled quote stands for one quote.
fn sstring(t: &Vec<char>, i: usize) -> (r: Result<(String, usize), String>)
    requires
        i <= t@.len(),
    ensures
        match r {
            Ok(p) => ys_str(t@, i as nat) == Some((p.0@, p.1 as nat)) && i < p.1 <= t@.len(),
            Err(_) => ys_str(t@, i as nat) is None,
        },
{
    let mut acc = String::new();
    let mut cur: usize = i;
    loop
        invariant
            i <= cur <= t@.len(),
            ys_str(t@, i as nat) == crate::json::str_cont(acc@, ys_str(t@, cur as nat)),
        decreases t@.len() - cur,
    {
        let ghost pacc = acc@;
        if cur >= t.len() {
            return Err(crate::text::chars_to_string(
                &crate::text::to_chars("YAML quoted scalar is not closed"),
            ));
        }
        let c = t[cur];
        if c == '\'' {
            if cur + 1 < t.len() && t[cur + 1] == '\'' {
                crate::text::push_char(&mut acc, '\'');
                cur += 2;
                proof {
                    let nxt = ys_str(t@, cur as nat);
                    if nxt is Some {
                        assert(pacc + (seq!['\''] + (nxt->0).0) =~= pacc.push('\'')
                            + (nxt->0).0);
                    }
                }
            } else {
                proof {
                    assert(pacc + Seq::<char>::empty() =~= pacc);
                }
                return Ok((acc, cur + 1));
            }
        } else {
            crate::text::push_char(&mut acc, c);
            cur += 1;
            proof {
                let nxt = ys_str(t@, cur as nat);
                if nxt is Some {
                    assert(pacc + (seq![c] + (nxt->0).0) =~= pacc.push(c) + (nxt->0).0);
                }
            }
        }
    }
}

/// Parse one flow value beginning at `i` (no leading whitespace),
/// matching [`yp_flow`].
fn p_flow(t: &Vec<char>, i: usize) -> (r: Result<(Value, usize), String>)
    requires
        i <= t@.len(),
    ensures
        match r {
            Ok(p) => yp_flow(t@, i as nat) == Some((p.0.model(), p.1 as nat)) && i < p.1
                <= t@.len() && crate::value::wf(p.0.model()),
            Err(_) => yp_flow(t@, i as nat) is None,
        },
    decreases t@.len() - i,
{
    if i >= t.len() {
        return Err(crate::text::chars_to_string(
            &crate::text::to_chars("YAML flow value is missing"),
        ));
    }
    let c = t[i];
    if c == '[' {
        let first = yws(t, i + 1);
        if first < t.len() && t[first] == ']' {
            let out: Vec<Value> = Vec::new();
            proof {
                crate::value::lemma_elems_model_len(out@);
                assert(elems_model(out@) =~= Seq::<ValueModel>::empty());
            }
            return Ok((Value::Arr(out), first + 1));
        }
        let mut out: Vec<Value> = Vec::new();
        let mut cur: usize = first;
        proof {
            crate::value::lemma_elems_model_len(out@);
            assert(elems_model(out@) =~= Seq::<ValueModel>::empty());
            assert(Seq::<ValueModel>::empty() + (yp_fseq(t@, first as nat)->0).0 =~= (yp_fseq(
                t@,
                first as nat,
            )->0).0);
        }
        loop
            invariant
                i < first <= cur <= t@.len(),
                i < t@.len(),
                t@[i as int] == '[',
                first as nat == yws_end(t@, (i + 1) as nat),
                !(first < t@.len() && t@[first as int] == ']'),
                yp_fseq(t@, first as nat) == crate::json::items_cont(
                    elems_model(out@),
                    yp_fseq(t@, cur as nat),
                ),
                elems_model(out@).len() == out@.len(),
                forall|w: int|
                    0 <= w < out@.len() ==> crate::value::wf(#[trigger] elems_model(out@)[w]),
            decreases t@.len() - cur,
        {
            let ghost pcur = cur as nat;
            let ghost pms = elems_model(out@);
            let ghost pvec = out@;
            match p_flow(t, cur) {
                Err(e) => {
                    return Err(e);
                },
                Ok((v, j)) => {
                    let k = yws(t, j);
                    if k >= t.len() {
                        return Err(crate::text::chars_to_string(
                            &crate::text::to_chars("YAML flow sequence is not closed"),
                        ));
                    }
                    out.push(v);
                    proof {
                        crate::value::lemma_elems_model_len(pvec);
                        crate::value::lemma_elems_model_len(out@);
                        assert forall|w: int|
                            0 <= w < elems_model(out@).len() implies elems_model(out@)[w] == (
                        pms.push(v.model()))[w] by {
                            assert(elems_model(out@)[w] == out@[w].model());
                            if w < pvec.len() {
                                assert(out@[w] == pvec[w]);
                                assert(pms[w] == pvec[w].model());
                            }
                        }
                        assert(elems_model(out@) =~= pms.push(v.model()));
                    }
                    if t[k] == ']' {
                        proof {
                            assert(yp_fseq(t@, pcur) == Some(
                                (seq![v.model()], (k + 1) as nat),
                            ));
                            assert(pms + seq![v.model()] =~= elems_model(out@));
                            assert(yp_fseq(t@, first as nat) == Some(
                                (elems_model(out@), (k + 1) as nat),
                            ));
                        }
                        return Ok((Value::Arr(out), k + 1));
                    } else if t[k] == ',' {
                        cur = yws(t, k + 1);
                        proof {
                            let nxt = yp_fseq(t@, cur as nat);
                            if nxt is Some {
                                assert(pms + (seq![v.model()] + (nxt->0).0) =~= (pms + seq![
                                    v.model()]) + (nxt->0).0);
                                assert(pms + seq![v.model()] =~= elems_model(out@));
                            }
                        }
                    } else {
                        return Err(crate::text::chars_to_string(
                            &crate::text::to_chars("YAML flow sequence has a stray character"),
                        ));
                    }
                },
            }
        }
    } else if c == '{' {
        let first = yws(t, i + 1);
        if first < t.len() && t[first] == '}' {
            let out: Vec<(String, Value)> = Vec::new();
            proof {
                crate::value::lemma_entries_model_len(out@);
                assert(entries_model(out@) =~= Seq::<(Seq<char>, ValueModel)>::empty());
            }
            return Ok((Value::Obj(out), first + 1));
        }
        let mut out: Vec<(String, Value)> = Vec::new();
        let ghost mut ps = Seq::<(Seq<char>, ValueModel)>::empty();
        let mut cur: usize = first;
        proof {
            crate::value::lemma_entries_model_len(out@);
            assert(entries_model(out@) =~= Seq::<(Seq<char>, ValueModel)>::empty());
            assert(fold_entries(ps) =~= Seq::<(Seq<char>, ValueModel)>::empty());
            assert(Seq::<(Seq<char>, ValueModel)>::empty() + (yp_fmap(t@, first as nat)->0).0
                =~= (yp_fmap(t@, first as nat)->0).0);
        }
        loop
            invariant
                i < first <= cur <= t@.len(),
                i < t@.len(),
                t@[i as int] == '{',
                first as nat == yws_end(t@, (i + 1) as nat),
                !(first < t@.len() && t@[first as int] == '}'),
                yp_fmap(t@, first as nat) == crate::json::members_cont(
                    ps,
                    yp_fmap(t@, cur as nat),
                ),
                entries_model(out@) == fold_entries(ps),
                crate::value::keys_unique(entries_model(out@)),
                forall|w: int|
                    0 <= w < entries_model(out@).len() ==> crate::value::wf(
                        #[trigger] entries_model(out@)[w].1,
                    ),
            decreases t@.len() - cur,
        {
            let ghost pcur = cur as nat;
            let ghost pps = ps;
            let ghost pen = entries_model(out@);
            if cur >= t.len() {
                return Err(crate::text::chars_to_string(
                    &crate::text::to_chars("YAML flow mapping is not closed"),
                ));
            }
            let (key, after_key) = if t[cur] == '"' {
                match qstring(t, cur + 1) {
                    Ok(p) => p,
                    Err(e) => {
                        return Err(e);
                    },
                }
            } else if t[cur] == '\'' {
                match sstring(t, cur + 1) {
                    Ok(p) => p,
                    Err(e) => {
                        return Err(e);
                    },
                }
            } else {
                let mut ke: usize = cur;
                while ke < t.len() && t[ke] != ':' && t[ke] != ',' && t[ke] != '}'
                    invariant
                        cur <= ke <= t@.len(),
                        fkey_end(t@, cur as nat) == fkey_end(t@, ke as nat),
                    decreases t@.len() - ke,
                {
                    ke += 1;
                }
                let kt = crate::text::trim(&crate::text::subvec(t, cur, ke));
                (crate::text::chars_to_string(&kt), ke)
            };
            let colon = yws(t, after_key);
            if !(colon < t.len() && t[colon] == ':') {
                return Err(crate::text::chars_to_string(
                    &crate::text::to_chars("YAML flow mapping entry has no colon"),
                ));
            }
            let vstart = yws(t, colon + 1);
            match p_flow(t, vstart) {
                Err(e) => {
                    return Err(e);
                },
                Ok((v, j)) => {
                    let k = yws(t, j);
                    if k >= t.len() {
                        return Err(crate::text::chars_to_string(
                            &crate::text::to_chars("YAML flow mapping is not closed"),
                        ));
                    }
                    let ghost keyv = key@;
                    let ghost vm = v.model();
                    proof {
                        crate::value::lemma_upsert_keys_unique(pen, keyv, vm);
                        crate::value::lemma_upsert_values(pen, keyv, vm);
                    }
                    crate::value::obj_upsert(&mut out, key, v);
                    proof {
                        ps = pps.push((keyv, vm));
                        assert(ps.drop_last() =~= pps);
                        assert(fold_entries(ps) == upsert(fold_entries(pps), keyv, vm));
                        let en = entries_model(out@);
                        assert forall|w: int|
                            0 <= w < en.len() implies crate::value::wf(#[trigger] en[w].1) by {
                            if en[w] == (keyv, vm) {
                            } else {
                                let jj = choose|jj: int| 0 <= jj < pen.len() && en[w] == pen[jj];
                                assert(crate::value::wf(pen[jj].1));
                            }
                        }
                    }
                    if t[k] == '}' {
                        proof {
                            assert(yp_fmap(t@, pcur) == Some(
                                (seq![(keyv, vm)], (k + 1) as nat),
                            ));
                            assert(pps + seq![(keyv, vm)] =~= ps);
                            assert(yp_fmap(t@, first as nat) == Some((ps, (k + 1) as nat)));
                        }
                        return Ok((Value::Obj(out), k + 1));
                    } else if t[k] == ',' {
                        cur = yws(t, k + 1);
                        proof {
                            let nxt = yp_fmap(t@, cur as nat);
                            if nxt is Some {
                                assert(pps + (seq![(keyv, vm)] + (nxt->0).0) =~= ps
                                    + (nxt->0).0);
                            }
                        }
                    } else {
                        return Err(crate::text::chars_to_string(
                            &crate::text::to_chars("YAML flow mapping has a stray character"),
                        ));
                    }
                },
            }
        }
    } else if c == '"' {
        match qstring(t, i + 1) {
            Ok((st, j)) => Ok((Value::Str(st), j)),
            Err(e) => Err(e),
        }
    } else if c == '\'' {
        match sstring(t, i + 1) {
            Ok((st, j)) => Ok((Value::Str(st), j)),
            Err(e) => Err(e),
        }
    } else {
        let mut e: usize = i;
        while e < t.len() && t[e] != ',' && t[e] != ']' && t[e] != '}'
            invariant
                i <= e <= t@.len(),
                plain_end(t@, i as nat) == plain_end(t@, e as nat),
            decreases t@.len() - e,
        {
            e += 1;
        }
        if e == i {
            return Err(crate::text::chars_to_string(
                &crate::text::to_chars("YAML flow value is missing"),
            ));
        }
        let raw = crate::text::trim(&crate::text::subvec(t, i, e));
        Ok((yinfer(&raw), e))
    }
}

/// Parse a full line as a value, matching [`yp_flow_line`]: flow syntax
/// when it opens with a bracket or quote, else a plain scalar.
fn p_flow_line(t: &Vec<char>) -> (r: Result<Value, String>)
    ensures
        match r {
            Ok(v) => yp_flow_line(t@) == Some(v.model()) && crate::value::wf(v.model()),
            Err(_) => yp_flow_line(t@) is None,
        },
{
    if t.len() > 0 && (t[0] == '[' || t[0] == '{' || t[0] == '"' || t[0] == '\'') {
        match p_flow(t, 0) {
            Err(e) => Err(e),
            Ok((v, j)) => {
                let k = yws(t, j);
                if k == t.len() {
                    Ok(v)
                } else {
                    Err(crate::text::chars_to_string(
                        &crate::text::to_chars("YAML value has trailing characters"),
                    ))
                }
            },
        }
    } else {
        Ok(yinfer(t))
    }
}

/// Find, within `content`, the position of the colon that splits a
/// mapping line, honoring a quoted key; the length when there is none.
fn key_colon(content: &Vec<char>) -> (r: usize)
    ensures
        r as nat == key_colon_spec(content@),
        r <= content@.len(),
{
    let n = content.len();
    let mut start: usize = 0;
    if n > 0 && (content[0] == '"' || content[0] == '\'') {
        let q = content[0];
        let mut k: usize = 1;
        while k < n && content[k] != q
            invariant
                1 <= k <= content@.len(),
                n == content@.len(),
                q == content@[0],
                idx_of(content@, q, 1) == idx_of(content@, q, k as nat),
            decreases content@.len() - k,
        {
            k += 1;
        }
        if k < n {
            start = k + 1;
        }
    }
    proof {
        assert(start as nat == qskip(content@));
    }
    let mut i: usize = start;
    while i < n
        invariant
            start <= i <= content@.len(),
            n == content@.len(),
            start as nat == qskip(content@),
            kc_from(content@, start as nat) == kc_from(content@, i as nat),
        decreases content@.len() - i,
    {
        if content[i] == ':' && (i + 1 == n || content[i + 1] == ' ') {
            return i;
        }
        i += 1;
    }
    n
}

/// The model of an executable line list: each line's indentation and
/// its content's characters.
pub open spec fn lines_model(s: Seq<(usize, Vec<char>)>) -> Seq<(nat, Seq<char>)>
    decreases s.len(),
{
    if s.len() == 0 {
        Seq::empty()
    } else {
        seq![(s[0].0 as nat, s[0].1@)] + lines_model(s.subrange(1, s.len() as int))
    }
}

pub proof fn lemma_lines_model(s: Seq<(usize, Vec<char>)>)
    ensures
        lines_model(s).len() == s.len(),
        forall|i: int|
            0 <= i < s.len() ==> lines_model(s)[i] == ((#[trigger] s[i]).0 as nat, s[i].1@),
    decreases s.len(),
{
    if s.len() > 0 {
        let rest = s.subrange(1, s.len() as int);
        lemma_lines_model(rest);
        assert forall|i: int|
            0 <= i < s.len() implies lines_model(s)[i] == ((#[trigger] s[i]).0 as nat, s[i].1@) by {
            if i > 0 {
                assert(rest[i - 1] == s[i]);
                assert(lines_model(s)[i] == lines_model(rest)[i - 1]);
            }
        }
    }
}

/// Prefix a parsed block-sequence tail with already-parsed items.
pub open spec fn seq_cont(pre: Seq<ValueModel>, o: Option<Seq<ValueModel>>) -> Option<
    Seq<ValueModel>,
> {
    match o {
        Some(a) => Some(pre + a),
        None => None,
    }
}

/// Prefix a parsed block-mapping tail with already-parsed entries.
pub open spec fn map_cont(
    pre: Seq<(Seq<char>, ValueModel)>,
    o: Option<Seq<(Seq<char>, ValueModel)>>,
) -> Option<Seq<(Seq<char>, ValueModel)>> {
    match o {
        Some(ps) => Some(pre + ps),
        None => None,
    }
}

/// Parse the block of lines `lo..hi`, all indented at least as deep as
/// line `lo`, matching [`yp_block`].
fn p_block(lines: &Vec<(usize, Vec<char>)>, lo: usize, hi: usize) -> (r: Result<Value, String>)
    requires
        lo < hi <= lines@.len(),
    ensures
        match r {
            Ok(v) => yp_block(lines_model(lines@), lo as nat, hi as nat) == Some(v.model())
                && crate::value::wf(v.model()),
            Err(_) => yp_block(lines_model(lines@), lo as nat, hi as nat) is None,
        },
    decreases hi - lo,
{
    proof {
        lemma_lines_model(lines@);
    }
    let ghost ls = lines_model(lines@);
    let d = lines[lo].0;
    let first = &lines[lo].1;
    let seq_mode = first.len() >= 1 && first[0] == '-' && (first.len() == 1 || first[1] == ' ');
    proof {
        assert(ls[lo as int] == (lines@[lo as int].0 as nat, lines@[lo as int].1@));
    }
    if seq_mode {
        let mut out: Vec<Value> = Vec::new();
        let mut idx: usize = lo;
        proof {
            crate::value::lemma_elems_model_len(out@);
            assert(elems_model(out@) =~= Seq::<ValueModel>::empty());
            assert(Seq::<ValueModel>::empty() + (yp_seq(ls, lo as nat, hi as nat, d as nat)->0)
                =~= (yp_seq(ls, lo as nat, hi as nat, d as nat)->0));
        }
        while idx < hi
            invariant
                lo <= idx <= hi <= lines@.len(),
                lo < hi,
                ls == lines_model(lines@),
                ls.len() == lines@.len(),
                forall|w: int|
                    0 <= w < lines@.len() ==> ls[w] == ((#[trigger] lines@[w]).0 as nat,
                    lines@[w].1@),
                d as nat == ls[lo as int].0,
                ls[lo as int].1.len() >= 1 && ls[lo as int].1[0] == '-' && (ls[lo as int].1.len()
                    == 1 || ls[lo as int].1[1] == ' '),
                yp_seq(ls, lo as nat, hi as nat, d as nat) == seq_cont(
                    elems_model(out@),
                    yp_seq(ls, idx as nat, hi as nat, d as nat),
                ),
                elems_model(out@).len() == out@.len(),
                forall|w: int|
                    0 <= w < out@.len() ==> crate::value::wf(#[trigger] elems_model(out@)[w]),
            decreases hi - idx,
        {
            let ghost pidx = idx as nat;
            let ghost pms = elems_model(out@);
            let ghost pvec = out@;
            let line = &lines[idx];
            if line.0 != d {
                return Err(crate::text::chars_to_string(
                    &crate::text::to_chars("YAML sequence has inconsistent indentation"),
                ));
            }
            let content = &line.1;
            proof {
                assert(content@ == ls[idx as int].1);
            }
            if !(content.len() >= 1 && content[0] == '-' && (content.len() == 1 || content[1]
                == ' ')) {
                return Err(crate::text::chars_to_string(
                    &crate::text::to_chars("YAML sequence item is malformed"),
                ));
            }
            let rest: Vec<char> = if content.len() <= 2 {
                Vec::new()
            } else {
                crate::text::trim(&crate::text::subvec(content, 2, content.len()))
            };
            proof {
                if content@.len() <= 2 {
                    assert(rest@ =~= Seq::<char>::empty());
                }
            }
            let v: Value;
            let next: usize;
            if rest.len() == 0 {
                let mut j: usize = idx + 1;
                while j < hi && lines[j].0 > d
                    invariant
                        idx + 1 <= j <= hi <= lines@.len(),
                        ls == lines_model(lines@),
                        ls.len() == lines@.len(),
                        forall|w: int|
                            0 <= w < lines@.len() ==> ls[w] == ((#[trigger] lines@[w]).0 as nat,
                            lines@[w].1@),
                        child_end(ls, (idx + 1) as nat, hi as nat, d as nat) == child_end(
                            ls,
                            j as nat,
                            hi as nat,
                            d as nat,
                        ),
                    decreases hi - j,
                {
                    proof {
                        assert(ls[j as int] == (lines@[j as int].0 as nat, lines@[j as int].1@));
                    }
                    j += 1;
                }
                proof {
                    assert(child_end(ls, (idx + 1) as nat, hi as nat, d as nat) == j as nat);
                }
                if j == idx + 1 {
                    v = Value::Null;
                } else {
                    match p_block(lines, idx + 1, j) {
                        Ok(bv) => {
                            v = bv;
                        },
                        Err(e) => {
                            return Err(e);
                        },
                    }
                }
                next = j;
            } else {
                let kc = key_colon(&rest);
                if kc < rest.len() {
                    let keyraw = crate::text::trim(&crate::text::subvec(&rest, 0, kc));
                    let ikey: String = if keyraw.len() >= 2 && (keyraw[0] == '"' || keyraw[0]
                        == '\'') && keyraw[keyraw.len() - 1] == keyraw[0] {
                        crate::text::chars_to_string(
                            &crate::text::subvec(&keyraw, 1, keyraw.len() - 1),
                        )
                    } else {
                        crate::text::chars_to_string(&keyraw)
                    };
                    proof {
                        assert(ikey@ == block_key(rest@, kc as nat));
                    }
                    let irest: Vec<char> = if kc + 1 >= rest.len() {
                        Vec::new()
                    } else {
                        crate::text::trim(&crate::text::subvec(&rest, kc + 1, rest.len()))
                    };
                    proof {
                        if kc + 1 >= rest@.len() {
                            assert(irest@ =~= Seq::<char>::empty());
                        }
                        assert(irest@ == block_rest(rest@, kc as nat));
                    }
                    match p_flow_line(&irest) {
                        Ok(fv) => {
                            let mut entry: Vec<(String, Value)> = Vec::new();
                            let ghost fvm = fv.model();
                            entry.push((ikey, fv));
                            proof {
                                crate::value::lemma_entries_model_len(entry@);
                                assert(entries_model(entry@) =~= seq![
                                    (block_key(rest@, kc as nat), fvm),
                                ]);
                            }
                            v = Value::Obj(entry);
                        },
                        Err(e) => {
                            return Err(e);
                        },
                    }
                } else {
                    match p_flow_line(&rest) {
                        Ok(fv) => {
                            v = fv;
                        },
                        Err(e) => {
                            return Err(e);
                        },
                    }
                }
                next = idx + 1;
            }
            out.push(v);
            idx = next;
            proof {
                crate::value::lemma_elems_model_len(pvec);
                crate::value::lemma_elems_model_len(out@);
                assert forall|w: int|
                    0 <= w < elems_model(out@).len() implies elems_model(out@)[w] == (pms.push(
                    v.model(),
                ))[w] by {
                    assert(elems_model(out@)[w] == out@[w].model());
                    if w < pvec.len() {
                        assert(out@[w] == pvec[w]);
                        assert(pms[w] == pvec[w].model());
                    }
                }
                assert(elems_model(out@) =~= pms.push(v.model()));
                let nxt = yp_seq(ls, idx as nat, hi as nat, d as nat);
                assert(yp_seq(ls, pidx, hi as nat, d as nat) == (match nxt {
                    Some(a) => Some(seq![v.model()] + a),
                    None => None,
                }));
                if nxt is Some {
                    assert(pms + (seq![v.model()] + (nxt->0)) =~= (pms + seq![v.model()])
                        + (nxt->0));
                    assert(pms + seq![v.model()] =~= elems_model(out@));
                }
            }
        }
        proof {
            assert(yp_seq(ls, hi as nat, hi as nat, d as nat) == Some(Seq::<ValueModel>::empty()));
            assert(elems_model(out@) + Seq::<ValueModel>::empty() =~= elems_model(out@));
            assert(yp_seq(ls, lo as nat, hi as nat, d as nat) == Some(elems_model(out@)));
        }
        return Ok(Value::Arr(out));
    }
    let kc0 = if first.len() > 0 && (first[0] == '[' || first[0] == '{') {
        first.len()
    } else {
        key_colon(first)
    };
    if kc0 == first.len() {
        if lo + 1 != hi {
            return Err(crate::text::chars_to_string(
                &crate::text::to_chars("YAML scalar is followed by more lines"),
            ));
        }
        return p_flow_line(first);
    }
    let mut out: Vec<(String, Value)> = Vec::new();
    let ghost mut ps = Seq::<(Seq<char>, ValueModel)>::empty();
    let mut idx: usize = lo;
    proof {
        crate::value::lemma_entries_model_len(out@);
        assert(entries_model(out@) =~= Seq::<(Seq<char>, ValueModel)>::empty());
        assert(fold_entries(ps) =~= Seq::<(Seq<char>, ValueModel)>::empty());
        assert(Seq::<(Seq<char>, ValueModel)>::empty() + (yp_map(
            ls,
            lo as nat,
            hi as nat,
            d as nat,
        )->0) =~= (yp_map(ls, lo as nat, hi as nat, d as nat)->0));
    }
    while idx < hi
        invariant
            lo <= idx <= hi <= lines@.len(),
            lo < hi,
            ls == lines_model(lines@),
            ls.len() == lines@.len(),
            forall|w: int|
                0 <= w < lines@.len() ==> ls[w] == ((#[trigger] lines@[w]).0 as nat,
                lines@[w].1@),
            d as nat == ls[lo as int].0,
            !(ls[lo as int].1.len() >= 1 && ls[lo as int].1[0] == '-' && (ls[lo as int].1.len()
                == 1 || ls[lo as int].1[1] == ' ')),
            !(ls[lo as int].1.len() > 0 && (ls[lo as int].1[0] == '[' || ls[lo as int].1[0]
                == '{')),
            key_colon_spec(ls[lo as int].1) < ls[lo as int].1.len(),
            yp_map(ls, lo as nat, hi as nat, d as nat) == map_cont(
                ps,
                yp_map(ls, idx as nat, hi as nat, d as nat),
            ),
            entries_model(out@) == fold_entries(ps),
            crate::value::keys_unique(entries_model(out@)),
            forall|w: int|
                0 <= w < entries_model(out@).len() ==> crate::value::wf(
                    #[trigger] entries_model(out@)[w].1,
                ),
        decreases hi - idx,
    {
        let ghost pidx = idx as nat;
        let ghost pps = ps;
        let ghost pen = entries_model(out@);
        let line = &lines[idx];
        if line.0 != d {
            return Err(crate::text::chars_to_string(
                &crate::text::to_chars("YAML mapping has inconsistent indentation"),
            ));
        }
        let content = &line.1;
        proof {
            assert(content@ == ls[idx as int].1);
        }
        let kc = key_colon(content);
        if kc == content.len() {
            return Err(crate::text::chars_to_string(
                &crate::text::to_chars("YAML mapping entry has no colon"),
            ));
        }
        let keyraw = crate::text::trim(&crate::text::subvec(content, 0, kc));
        let key: String = if keyraw.len() >= 2 && (keyraw[0] == '"' || keyraw[0] == '\'')
            && keyraw[keyraw.len() - 1] == keyraw[0] {
            crate::text::chars_to_string(
                &crate::text::subvec(&keyraw, 1, keyraw.len() - 1),
            )
        } else {
            crate::text::chars_to_string(&keyraw)
        };
        proof {
            assert(key@ == block_key(content@, kc as nat));
        }
        let rest: Vec<char> = if kc + 1 >= content.len() {
            Vec::new()
        } else {
            crate::text::trim(&crate::text::subvec(content, kc + 1, content.len()))
        };
        proof {
            if kc + 1 >= content@.len() {
                assert(rest@ =~= Seq::<char>::empty());
            }
            assert(rest@ == block_rest(content@, kc as nat));
        }
        let v: Value;
        let next: usize;
        if rest.len() == 0 {
            let mut j: usize = idx + 1;
            while j < hi && lines[j].0 > d
                invariant
                    idx + 1 <= j <= hi <= lines@.len(),
                    ls == lines_model(lines@),
                    ls.len() == lines@.len(),
                    forall|w: int|
                        0 <= w < lines@.len() ==> ls[w] == ((#[trigger] lines@[w]).0 as nat,
                        lines@[w].1@),
                    child_end(ls, (idx + 1) as nat, hi as nat, d as nat) == child_end(
                        ls,
                        j as nat,
                        hi as nat,
                        d as nat,
                    ),
                decreases hi - j,
            {
                proof {
                    assert(ls[j as int] == (lines@[j as int].0 as nat, lines@[j as int].1@));
                }
                j += 1;
            }
            proof {
                assert(child_end(ls, (idx + 1) as nat, hi as nat, d as nat) == j as nat);
            }
            if j == idx + 1 {
                v = Value::Null;
            } else {
                match p_block(lines, idx + 1, j) {
                    Ok(bv) => {
                        v = bv;
                    },
                    Err(e) => {
                        return Err(e);
                    },
                }
            }
            next = j;
        } else {
            match p_flow_line(&rest) {
                Ok(fv) => {
                    v = fv;
                },
                Err(e) => {
                    return Err(e);
                },
            }
            next = idx + 1;
        }
        let ghost keyv = key@;
        let ghost vm = v.model();
        proof {
            crate::value::lemma_upsert_keys_unique(pen, keyv, vm);
            crate::value::lemma_upsert_values(pen, keyv, vm);
        }
        crate::value::obj_upsert(&mut out, key, v);
        idx = next;
        proof {
            ps = pps.push((keyv, vm));
            assert(ps.drop_last() =~= pps);
            assert(fold_entries(ps) == upsert(fold_entries(pps), keyv, vm));
            let en = entries_model(out@);
            assert forall|w: int|
                0 <= w < en.len() implies crate::value::wf(#[trigger] en[w].1) by {
                if en[w] == (keyv, vm) {
                } else {
                    let jj = choose|jj: int| 0 <= jj < pen.len() && en[w] == pen[jj];
                    assert(crate::value::wf(pen[jj].1));
                }
            }
            let nxt = yp_map(ls, idx as nat, hi as nat, d as nat);
            assert(yp_map(ls, pidx, hi as nat, d as nat) == (match nxt {
                Some(rs) => Some(seq![(keyv, vm)] + rs),
                None => None,
            }));
            if nxt is Some {
                assert(pps + (seq![(keyv, vm)] + (nxt->0)) =~= ps + (nxt->0));
            }
        }
    }
    proof {
        assert(yp_map(ls, hi as nat, hi as nat, d as nat) == Some(
            Seq::<(Seq<char>, ValueModel)>::empty(),
        ));
        assert(ps + Seq::<(Seq<char>, ValueModel)>::empty() =~= ps);
        assert(yp_map(ls, lo as nat, hi as nat, d as nat) == Some(ps));
    }
    Ok(Value::Obj(out))
}

/// Parse the first YAML document of the text, matching [`yaml_parse`].
/// An empty document (nothing but whitespace, comments and markers) is
/// an error.
pub fn parse(s: &Vec<char>) -> (r: Result<Value, String>)
    ensures
        match r {
            Ok(v) => yaml_parse(s@) == Some(v.model()) && crate::value::wf(v.model()),
            Err(_) => yaml_parse(s@) is None,
        },
        trim_spec(s@).len() == 0 ==> r is Err,
{
    let whole = crate::text::trim(s);
    if whole.len() == 0 {
        return Err(crate::text::chars_to_string(
            &crate::text::to_chars("empty YAML document"),
        ));
    }
    let mut doc_start: Vec<char> = Vec::new();
    doc_start.push('-');
    doc_start.push('-');
    doc_start.push('-');
    let mut doc_end: Vec<char> = Vec::new();
    doc_end.push('.');
    doc_end.push('.');
    doc_end.push('.');
    proof {
        assert(doc_start@ =~= seq!['-', '-', '-']);
        assert(doc_end@ =~= seq!['.', '.', '.']);
    }
    let mut lines: Vec<(usize, Vec<char>)> = Vec::new();
    let mut pos: usize = 0;
    let mut seen_content = false;
    let mut stop = false;
    proof {
        lemma_lines_model(lines@);
        assert(lines_model(lines@) =~= Seq::<(nat, Seq<char>)>::empty());
        assert(Seq::<(nat, Seq<char>)>::empty() + ylines_from(s@, 0, false) =~= ylines_from(
            s@,
            0,
            false,
        ));
    }
    while !stop
        invariant
            pos <= s@.len(),
            doc_start@ == seq!['-', '-', '-'],
            doc_end@ == seq!['.', '.', '.'],
            trim_spec(s@).len() != 0,
            ylines_from(s@, 0, false) == lines_model(lines@) + ylines_from(
                s@,
                pos as nat,
                seen_content,
            ),
            stop ==> pos == s@.len(),
        decreases 2 * (s@.len() - pos) + (if stop { 0int } else { 1int }),
    {
        let ghost ppos = pos as nat;
        let ghost pseen = seen_content;
        let ghost plm = lines_model(lines@);
        if pos == s.len() {
            stop = true;
        } else {
            let e = crate::text::find_char(s, '\n', pos);
            proof {
                crate::text::lemma_idx_of_bounds(s@, '\n', pos as nat);
            }
            let mut line = crate::text::subvec(s, pos, e);
            let ghost line0 = s@.subrange(pos as int, e as int);
            if line.len() > 0 && line[line.len() - 1] == '\r' {
                line = crate::text::subvec(&line, 0, line.len() - 1);
            }
            proof {
                assert(line@ == strip_cr(line0));
            }
            let mut ind: usize = 0;
            while ind < line.len() && line[ind] == ' '
                invariant
                    ind <= line@.len(),
                    indent_end(line@, 0) == indent_end(line@, ind as nat),
                decreases line@.len() - ind,
            {
                ind += 1;
            }
            proof {
                assert(ind as nat == indent_end(line@, 0));
            }
            let content = crate::text::subvec(&line, ind, line.len());
            let ctrim = crate::text::trim(&content);
            proof {
                assert(ctrim@ == trim_spec(line@.subrange(ind as int, line@.len() as int)));
            }
            if ctrim.len() == 0 || ctrim[0] == '#' {
                // a blank or comment line
                if e >= s.len() {
                    pos = s.len();
                    stop = true;
                    proof {
                        assert(ylines_from(s@, ppos, pseen) =~= ylines_from(
                            s@,
                            s@.len(),
                            seen_content,
                        ));
                    }
                } else {
                    pos = e + 1;
                }
            } else if crate::text::chars_eq(&ctrim, &doc_start) {
                if seen_content {
                    pos = s.len();
                    stop = true;
                    proof {
                        assert(ylines_from(s@, ppos, pseen) =~= ylines_from(
                            s@,
                            s@.len(),
                            seen_content,
                        ));
                    }
                } else if e >= s.len() {
                    pos = s.len();
                    stop = true;
                    proof {
                        assert(ylines_from(s@, ppos, pseen) =~= ylines_from(
                            s@,
                            s@.len(),
                            seen_content,
                        ));
                    }
                } else {
                    pos = e + 1;
                }
            } else if crate::text::chars_eq(&ctrim, &doc_end) {
                pos = s.len();
                stop = true;
                proof {
                    assert(ylines_from(s@, ppos, pseen) =~= ylines_from(
                        s@,
                        s@.len(),
                        seen_content,
                    ));
                }
            } else {
                let ghost indv = ind as nat;
                let ghost ctrimv = ctrim@;
                let ghost plv = lines@;
                lines.push((ind, ctrim));
                seen_content = true;
                proof {
                    lemma_lines_model(plv);
                    lemma_lines_model(lines@);
                    assert forall|w: int|
                        0 <= w < lines_model(lines@).len() implies lines_model(lines@)[w] == (
                    plm.push((indv, ctrimv)))[w] by {
                        assert(lines_model(lines@)[w] == (lines@[w].0 as nat, lines@[w].1@));
                        if w < plv.len() {
                            assert(lines@[w] == plv[w]);
                            assert(plm[w] == (plv[w].0 as nat, plv[w].1@));
                        }
                    }
                    assert(lines_model(lines@) =~= plm.push((indv, ctrimv)));
                }
                if e >= s.len() {
                    pos = s.len();
                    stop = true;
                    proof {
                        assert(ylines_from(s@, ppos, pseen) =~= seq![(indv, ctrimv)]
                            + Seq::<(nat, Seq<char>)>::empty());
                        assert(plm + (seq![(indv, ctrimv)] + Seq::<(nat, Seq<char>)>::empty())
                            =~= lines_model(lines@));
                        assert(ylines_from(s@, s@.len(), seen_content) =~= Seq::<(
                            nat,
                            Seq<char>,
                        )>::empty());
                        assert(lines_model(lines@) + ylines_from(s@, s@.len(), seen_content)
                            =~= lines_model(lines@));
                    }
                } else {
                    pos = e + 1;
                    proof {
                        let tail = ylines_from(s@, pos as nat, true);
                        assert(ylines_from(s@, ppos, pseen) =~= seq![(indv, ctrimv)] + tail);
                        assert(plm + (seq![(indv, ctrimv)] + tail) =~= (plm.push(
                            (indv, ctrimv),
                        )) + tail);
                    }
                }
            }
        }
    }
    proof {
        assert(ylines_from(s@, s@.len(), seen_content) =~= Seq::<(nat, Seq<char>)>::empty());
        assert(lines_model(lines@) + Seq::<(nat, Seq<char>)>::empty() =~= lines_model(lines@));
        assert(ylines_from(s@, 0, false) == lines_model(lines@));
        lemma_lines_model(lines@);
    }
    if lines.len() == 0 {
        return Err(crate::text::chars_to_string(
            &crate::text::to_chars("empty YAML document"),
        ));
    }
    let n = lines.len();
    p_block(&lines, 0, n)
}

} // verus!
