//! The CSV codec.
//!
//! Parsing is lenient and total: the first record is the header, every
//! further record becomes an object keyed by the header fields, with
//! values kept as strings (CSV is untyped). Short rows simply omit the
//! missing keys; blank lines are skipped; a quote opens a quoted field in
//! which `""` stands for one quote.
//!
//! Serializing an array computes the header row as the union of the keys
//! of all contained objects, sorted lexicographically; each row then emits
//! one cell per header, empty for a missing key. A bare object serializes
//! its own keys (unsorted) over one data row; any other value becomes a
//! one-cell table under the header `value`. Nested arrays and objects
//! render as their compact JSON text inside one cell. A cell is quoted
//! exactly when it holds a comma, quote, newline or carriage return, or
//! when it is the only cell of its record and empty.

use vstd::prelude::*;
use crate::json;
use crate::json::{compact_text, fold_entries};
use crate::num::int_text;
use crate::text::{lex_lt};
use crate::value::{Value, ValueModel, has_key, key_value, keys_unique, entries_model,
    elems_model, entry_keys};

verus! {

// ---------------------------------------------------------------------
// Parsing, specified exactly
// ---------------------------------------------------------------------

/// A field or record boundary character.
pub open spec fn is_sep(c: char) -> bool {
    c == ',' || c == '\n' || c == '\r'
}

/// End of an unquoted field beginning at `i`.
pub open spec fn raw_end(s: Seq<char>, i: nat) -> nat
    decreases s.len() - i when i <= s.len()
{
    if i < s.len() && !is_sep(s[i as int]) {
        raw_end(s, i + 1)
    } else {
        i
    }
}

/// Content and end of a quoted field body beginning at `i` (just after
/// the opening quote). A doubled quote stands for one quote; after the
/// closing quote any characters up to the next separator are taken as
/// they are; a missing closing quote takes the rest of the text.
pub open spec fn qfield(s: Seq<char>, i: nat) -> (Seq<char>, nat)
    decreases s.len() - i when i <= s.len()
{
    if i >= s.len() {
        (Seq::empty(), i)
    } else if s[i as int] == '"' {
        if i + 1 < s.len() && s[i as int + 1] == '"' {
            let r = qfield(s, i + 2);
            (seq!['"'] + r.0, r.1)
        } else {
            let e = raw_end(s, i + 1);
            (s.subrange(i as int + 1, e as int), e)
        }
    } else {
        let r = qfield(s, i + 1);
        (seq![s[i as int]] + r.0, r.1)
    }
}

/// Content and end of the field beginning at `i`.
pub open spec fn field_at(s: Seq<char>, i: nat) -> (Seq<char>, nat)
    decreases s.len() - i when i <= s.len()
{
    if i < s.len() && s[i as int] == '"' {
        qfield(s, i + 1)
    } else {
        let e = raw_end(s, i);
        (s.subrange(i as int, e as int), e)
    }
}

/// The fields of the record beginning at `i`, and the record's end (the
/// position of its terminator, or the end of the text).
pub open spec fn rec_fields(s: Seq<char>, i: nat) -> (Seq<Seq<char>>, nat)
    decreases s.len() - i, 1int when i <= s.len()
{
    let f = field_at(s, i);
    if i <= f.1 && f.1 < s.len() && s[f.1 as int] == ',' {
        let rest = rec_fields(s, f.1 + 1);
        (seq![f.0] + rest.0, rest.1)
    } else {
        (seq![f.0], if i <= f.1 && f.1 <= s.len() {
            f.1
        } else {
            i
        })
    }
}

/// Position just after a record terminator at `e`: `\r\n` counts as one.
pub open spec fn skip_term(s: Seq<char>, e: nat) -> nat {
    if e < s.len() && s[e as int] == '\r' && e + 1 < s.len() && s[e as int + 1] == '\n' {
        e + 2
    } else {
        e + 1
    }
}

/// A record with one trailing empty field sheds it: a missing last cell
/// reads as an absent key, not an empty one.
pub open spec fn shed_last(f: Seq<Seq<char>>) -> Seq<Seq<char>> {
    if f.len() >= 2 && f.last().len() == 0 {
        f.drop_last()
    } else {
        f
    }
}

/// The records of the text from `i` on, blank lines skipped.
pub open spec fn rows_from(s: Seq<char>, i: nat) -> Seq<Seq<Seq<char>>>
    decreases s.len() - i, 2int when i <= s.len()
{
    if i >= s.len() {
        Seq::empty()
    } else {
        let r = rec_fields(s, i);
        let e = r.1;
        if i <= e && e <= s.len() {
            let n = skip_term(s, e);
            let tail = if n <= s.len() {
                rows_from(s, n)
            } else {
                Seq::empty()
            };
            if e == i {
                tail
            } else {
                seq![shed_last(r.0)] + tail
            }
        } else {
            Seq::empty()
        }
    }
}

/// All records of the text.
pub open spec fn csv_rows(s: Seq<char>) -> Seq<Seq<Seq<char>>> {
    rows_from(s, 0)
}

/// The header/field pairs a row contributes, in header order, stopping at
/// the shorter of the two.
pub open spec fn zip_pairs(hdr: Seq<Seq<char>>, row: Seq<Seq<char>>) -> Seq<
    (Seq<char>, ValueModel),
> {
    Seq::new(
        if hdr.len() <= row.len() {
            hdr.len()
        } else {
            row.len()
        },
        |k: int| (hdr[k], ValueModel::Str(row[k])),
    )
}

/// The object one data row parses to.
pub open spec fn row_entries(hdr: Seq<Seq<char>>, row: Seq<Seq<char>>) -> Seq<
    (Seq<char>, ValueModel),
> {
    fold_entries(zip_pairs(hdr, row))
}

/// The objects of the first `k` data rows.
pub open spec fn rows_value(hdr: Seq<Seq<char>>, rows: Seq<Seq<Seq<char>>>, k: int) -> Seq<
    ValueModel,
>
    decreases k,
{
    if k <= 0 || k > rows.len() {
        Seq::empty()
    } else {
        rows_value(hdr, rows, k - 1).push(ValueModel::Obj(row_entries(hdr, rows[k - 1])))
    }
}

/// What a CSV text parses to: an array of one object per data row, keyed
/// by the header row, all values strings.
pub open spec fn csv_model(s: Seq<char>) -> ValueModel {
    let rows = csv_rows(s);
    if rows.len() == 0 {
        ValueModel::Arr(Seq::empty())
    } else {
        ValueModel::Arr(
            rows_value(rows[0], rows.subrange(1, rows.len() as int), rows.len() - 1),
        )
    }
}

// ---------------------------------------------------------------------
// Serializing, specified exactly
// ---------------------------------------------------------------------

/// The bare text of one cell.
pub open spec fn cell_text(m: ValueModel) -> Seq<char> {
    match m {
        ValueModel::Null => Seq::empty(),
        ValueModel::Bool(b) => if b {
            seq!['t', 'r', 'u', 'e']
        } else {
            seq!['f', 'a', 'l', 's', 'e']
        },
        ValueModel::Int(i) => int_text(i),
        ValueModel::Float(t) => t,
        ValueModel::Str(t) => t,
        _ => compact_text(m),
    }
}

/// Whether a cell must be quoted: it holds a separator or quote, or it is
/// the only cell of its record and empty.
pub open spec fn needs_quote(t: Seq<char>, single: bool) -> bool {
    (exists|i: int| 0 <= i < t.len() && (t[i] == ',' || t[i] == '"' || t[i] == '\n' || t[i] == '\r'))
        || (single && t.len() == 0)
}

/// A cell's text with each quote doubled.
pub open spec fn dq(t: Seq<char>) -> Seq<char>
    decreases t.len(),
{
    if t.len() == 0 {
        Seq::empty()
    } else if t[0] == '"' {
        seq!['"', '"'] + dq(t.subrange(1, t.len() as int))
    } else {
        seq![t[0]] + dq(t.subrange(1, t.len() as int))
    }
}

/// A cell as it stands in the record.
pub open spec fn enc_cell(t: Seq<char>, single: bool) -> Seq<char> {
    if needs_quote(t, single) {
        seq!['"'] + dq(t) + seq!['"']
    } else {
        t
    }
}

/// The text of the first `k` cells of one record, comma separated.
pub open spec fn cells_text(cells: Seq<Seq<char>>, k: int) -> Seq<char>
    decreases k,
{
    if k <= 0 || k > cells.len() {
        Seq::empty()
    } else {
        cells_text(cells, k - 1) + (if k == 1 {
            Seq::empty()
        } else {
            seq![',']
        }) + enc_cell(cells[k - 1], cells.len() == 1)
    }
}

/// One whole record: its cells and the terminator.
pub open spec fn record_text(cells: Seq<Seq<char>>) -> Seq<char> {
    cells_text(cells, cells.len() as int) + seq!['\n']
}

/// Insert a key into a sorted key list, keeping order and uniqueness.
pub open spec fn sorted_insert(hs: Seq<Seq<char>>, k: Seq<char>) -> Seq<Seq<char>>
    decreases hs.len(),
{
    if hs.len() == 0 {
        seq![k]
    } else if lex_lt(k, hs[0]) {
        seq![k] + hs
    } else if k == hs[0] {
        hs
    } else {
        seq![hs[0]] + sorted_insert(hs.subrange(1, hs.len() as int), k)
    }
}

/// Insert the first `k` keys of a list, first to last.
pub open spec fn keys_into(hs: Seq<Seq<char>>, keys: Seq<Seq<char>>, k: int) -> Seq<Seq<char>>
    decreases k,
{
    if k <= 0 || k > keys.len() {
        hs
    } else {
        sorted_insert(keys_into(hs, keys, k - 1), keys[k - 1])
    }
}

/// The sorted union of the keys of the objects among the first `r` rows.
pub open spec fn union_from(rows: Seq<ValueModel>, r: int) -> Seq<Seq<char>>
    decreases r,
{
    if r <= 0 || r > rows.len() {
        Seq::empty()
    } else {
        let prev = union_from(rows, r - 1);
        match rows[r - 1] {
            ValueModel::Obj(o) => keys_into(prev, entry_keys(o), o.len() as int),
            _ => prev,
        }
    }
}

/// The cells of one array row: an object row emits one cell per header
/// (empty where the key is absent); any other element becomes a single
/// cell holding its compact JSON text.
pub open spec fn arr_row_cells(hdr: Seq<Seq<char>>, m: ValueModel) -> Seq<Seq<char>> {
    match m {
        ValueModel::Obj(o) => Seq::new(
            hdr.len(),
            |k: int|
                if has_key(o, hdr[k]) {
                    cell_text(key_value(o, hdr[k]))
                } else {
                    Seq::empty()
                },
        ),
        _ => seq![compact_text(m)],
    }
}

/// The records of the first `k` rows of an array.
pub open spec fn arr_rows_text(hdr: Seq<Seq<char>>, rows: Seq<ValueModel>, k: int) -> Seq<char>
    decreases k,
{
    if k <= 0 || k > rows.len() {
        Seq::empty()
    } else {
        arr_rows_text(hdr, rows, k - 1) + record_text(arr_row_cells(hdr, rows[k - 1]))
    }
}

/// What a value serializes to as CSV, when it can: an array needs a
/// non-empty header union, an object needs at least one key; everything
/// else becomes a one-cell table under the header `value`.
pub open spec fn csv_ser(m: ValueModel) -> Option<Seq<char>> {
    match m {
        ValueModel::Arr(rows) => {
            let hdr = union_from(rows, rows.len() as int);
            if hdr.len() == 0 {
                None
            } else {
                Some(record_text(hdr) + arr_rows_text(hdr, rows, rows.len() as int))
            }
        },
        ValueModel::Obj(o) => {
            if o.len() == 0 {
                None
            } else {
                Some(
                    record_text(entry_keys(o)) + record_text(
                        Seq::new(o.len(), |k: int| cell_text(o[k].1)),
                    ),
                )
            }
        },
        _ => Some(
            record_text(seq![seq!['v', 'a', 'l', 'u', 'e']]) + record_text(
                seq![compact_text(m)],
            ),
        ),
    }
}

// ---------------------------------------------------------------------
// Executable parser
// ---------------------------------------------------------------------

/// Executable scan matching [`raw_end`].
fn raw_end_x(s: &Vec<char>, i: usize) -> (r: usize)
    requires
        i <= s@.len(),
    ensures
        r as nat == raw_end(s@, i as nat),
        i <= r <= s@.len(),
{
    let mut k: usize = i;
    while k < s.len() && !(s[k] == ',' || s[k] == '\n' || s[k] == '\r')
        invariant
            i <= k <= s@.len(),
            raw_end(s@, i as nat) == raw_end(s@, k as nat),
        decreases s@.len() - k,
    {
        k += 1;
    }
    k
}

/// Parse a quoted field's body, matching [`qfield`].
fn p_qfield(s: &Vec<char>, i: usize) -> (r: (String, usize))
    requires
        i <= s@.len(),
    ensures
        qfield(s@, i as nat) == (r.0@, r.1 as nat),
        i <= r.1 <= s@.len(),
{
    let mut acc = String::new();
    let mut cur: usize = i;
    loop
        invariant
            i <= cur <= s@.len(),
            qfield(s@, i as nat).0 == acc@ + qfield(s@, cur as nat).0,
            qfield(s@, i as nat).1 == qfield(s@, cur as nat).1,
        decreases s@.len() - cur,
    {
        let ghost pacc = acc@;
        if cur >= s.len() {
            proof {
                assert(pacc + Seq::<char>::empty() =~= pacc);
            }
            return (acc, cur);
        }
        let c = s[cur];
        if c == '"' {
            if cur + 1 < s.len() && s[cur + 1] == '"' {
                crate::text::push_char(&mut acc, '"');
                cur += 2;
                proof {
                    assert(pacc + (seq!['"'] + qfield(s@, cur as nat).0) =~= pacc.push('"')
                        + qfield(s@, cur as nat).0);
                }
            } else {
                let e = raw_end_x(s, cur + 1);
                let tail = crate::text::subvec(s, cur + 1, e);
                crate::text::append_chars(&mut acc, &tail);
                proof {
                    assert(pacc + s@.subrange(cur as int + 1, e as int) =~= acc@);
                }
                return (acc, e);
            }
        } else {
            crate::text::push_char(&mut acc, c);
            cur += 1;
            proof {
                assert(pacc + (seq![s@[cur - 1]] + qfield(s@, cur as nat).0) =~= pacc.push(
                    s@[cur - 1],
                ) + qfield(s@, cur as nat).0);
            }
        }
    }
}

/// Parse one field, matching [`field_at`].
fn p_field(s: &Vec<char>, i: usize) -> (r: (String, usize))
    requires
        i <= s@.len(),
    ensures
        field_at(s@, i as nat) == (r.0@, r.1 as nat),
        i <= r.1 <= s@.len(),
{
    if i < s.len() && s[i] == '"' {
        p_qfield(s, i + 1)
    } else {
        let e = raw_end_x(s, i);
        let t = crate::text::subvec(s, i, e);
        (crate::text::chars_to_string(&t), e)
    }
}

/// Parse one record, matching [`rec_fields`].
fn p_record(s: &Vec<char>, i: usize) -> (r: (Vec<String>, usize))
    requires
        i <= s@.len(),
    ensures
        rec_fields(s@, i as nat) == (r.0.deep_view(), r.1 as nat),
        i <= r.1 <= s@.len(),
{
    let mut fs: Vec<String> = Vec::new();
    let mut cur: usize = i;
    loop
        invariant
            i <= cur <= s@.len(),
            rec_fields(s@, i as nat).0 == fs.deep_view() + rec_fields(s@, cur as nat).0,
            rec_fields(s@, i as nat).1 == rec_fields(s@, cur as nat).1,
        decreases s@.len() - cur, 1int,
    {
        let ghost pfs = fs.deep_view();
        let (f, j) = p_field(s, cur);
        if j < s.len() && s[j] == ',' {
            let ghost fv = f@;
            fs.push(f);
            cur = j + 1;
            proof {
                assert(fs.deep_view() =~= pfs.push(fv));
                assert(pfs + (seq![fv] + rec_fields(s@, cur as nat).0) =~= pfs.push(fv)
                    + rec_fields(s@, cur as nat).0);
            }
        } else {
            let ghost fv = f@;
            fs.push(f);
            proof {
                assert(fs.deep_view() =~= pfs.push(fv));
                assert(pfs + seq![fv] =~= pfs.push(fv));
            }
            return (fs, j);
        }
    }
}

/// Collect every record of the text, matching [`csv_rows`].
fn p_rows(s: &Vec<char>) -> (r: Vec<Vec<String>>)
    ensures
        r.deep_view() == csv_rows(s@),
{
    let mut rr: Vec<Vec<String>> = Vec::new();
    let mut cur: usize = 0;
    loop
        invariant
            cur <= s@.len(),
            csv_rows(s@) == rr.deep_view() + rows_from(s@, cur as nat),
        decreases s@.len() - cur,
    {
        let ghost prr = rr.deep_view();
        if cur >= s.len() {
            proof {
                assert(prr + Seq::<Seq<Seq<char>>>::empty() =~= prr);
            }
            return rr;
        }
        let (mut fields, e) = p_record(s, cur);
        if fields.len() >= 2 && fields[fields.len() - 1].as_str().is_empty() {
            let ghost before = fields.deep_view();
            fields.pop();
            proof {
                assert(before.last().len() == 0);
                assert(fields.deep_view() =~= before.drop_last());
                assert(fields.deep_view() =~= shed_last(before));
            }
        }
        let ghost fv = fields.deep_view();
        let ghost spec_n = skip_term(s@, e as nat);
        if e != cur {
            rr.push(fields);
            proof {
                assert(rr.deep_view() =~= prr.push(fv));
            }
        }
        if e >= s.len() {
            proof {
                assert(spec_n > s@.len());
                if e != cur as nat {
                    let tail = Seq::<Seq<Seq<char>>>::empty();
                    assert(prr + (seq![fv] + tail) =~= prr.push(fv));
                }
                assert(rr.deep_view() + Seq::<Seq<Seq<char>>>::empty() =~= rr.deep_view());
            }
            return rr;
        }
        let n: usize = if s[e] == '\r' && e + 1 < s.len() && s[e + 1] == '\n' {
            e + 2
        } else {
            e + 1
        };
        cur = n;
        proof {
            assert(cur as nat == spec_n);
            let tail = rows_from(s@, cur as nat);
            assert(prr + (seq![fv] + tail) =~= prr.push(fv) + tail);
        }
    }
}

/// Build the object of one data row, matching [`row_entries`].
fn p_row_obj(hdr: &Vec<String>, row: &Vec<String>) -> (r: Value)
    ensures
        r.model() == ValueModel::Obj(row_entries(hdr.deep_view(), row.deep_view())),
        crate::value::wf(r.model()),
{
    let n: usize = if hdr.len() <= row.len() {
        hdr.len()
    } else {
        row.len()
    };
    let ghost pairs = zip_pairs(hdr.deep_view(), row.deep_view());
    let mut o: Vec<(String, Value)> = Vec::new();
    let mut j: usize = 0;
    proof {
        crate::value::lemma_entries_model_len(o@);
        assert(entries_model(o@) =~= Seq::<(Seq<char>, ValueModel)>::empty());
        assert(pairs.subrange(0, 0) =~= Seq::<(Seq<char>, ValueModel)>::empty());
        assert(fold_entries(pairs.subrange(0, 0)) =~= Seq::<(Seq<char>, ValueModel)>::empty());
    }
    while j < n
        invariant
            j <= n,
            n == if hdr.deep_view().len() <= row.deep_view().len() {
                hdr.deep_view().len()
            } else {
                row.deep_view().len()
            },
            pairs == zip_pairs(hdr.deep_view(), row.deep_view()),
            pairs.len() == n,
            entries_model(o@) == fold_entries(pairs.subrange(0, j as int)),
            crate::value::keys_unique(entries_model(o@)),
            forall|w: int|
                0 <= w < entries_model(o@).len() ==> crate::value::wf(
                    #[trigger] entries_model(o@)[w].1,
                ),
        decreases n - j,
    {
        let ghost pen = entries_model(o@);
        let key = hdr[j].clone();
        let val = Value::Str(row[j].clone());
        let ghost keyv = key@;
        let ghost vm = val.model();
        proof {
            crate::value::lemma_upsert_keys_unique(pen, keyv, vm);
            crate::value::lemma_upsert_values(pen, keyv, vm);
        }
        crate::value::obj_upsert(&mut o, key, val);
        j += 1;
        proof {
            let pre = pairs.subrange(0, j - 1);
            let post = pairs.subrange(0, j as int);
            assert(post.drop_last() =~= pre);
            assert(post.last() == pairs[j - 1]);
            assert(pairs[j - 1] == (hdr.deep_view()[j - 1], ValueModel::Str(
                row.deep_view()[j - 1],
            )));
            assert(keyv == hdr.deep_view()[j - 1]);
            assert(vm == ValueModel::Str(row.deep_view()[j - 1]));
            let en = entries_model(o@);
            assert forall|w: int|
                0 <= w < en.len() implies crate::value::wf(#[trigger] en[w].1) by {
                if en[w] == (keyv, vm) {
                } else {
                    let jj = choose|jj: int| 0 <= jj < pen.len() && en[w] == pen[jj];
                    assert(crate::value::wf(pen[jj].1));
                }
            }
        }
    }
    proof {
        assert(pairs.subrange(0, n as int) =~= pairs);
    }
    Value::Obj(o)
}

/// Parse CSV text into an array of one object per data row, keyed by the
/// header row, every value a string.
pub fn parse(s: &Vec<char>) -> (r: Value)
    ensures
        r.model() == csv_model(s@),
        crate::value::wf(r.model()),
{
    let rows = p_rows(s);
    let ghost rv = rows.deep_view();
    if rows.len() == 0 {
        let out: Vec<Value> = Vec::new();
        proof {
            assert(elems_model(out@) =~= Seq::<ValueModel>::empty());
        }
        return Value::Arr(out);
    }
    let hdr = &rows[0];
    let mut out: Vec<Value> = Vec::new();
    let mut k: usize = 1;
    proof {
        crate::value::lemma_elems_model_len(out@);
        assert(elems_model(out@) =~= Seq::<ValueModel>::empty());
        assert(rows_value(rv[0], rv.subrange(1, rv.len() as int), 0) =~= Seq::<ValueModel>::empty());
    }
    while k < rows.len()
        invariant
            1 <= k <= rows@.len(),
            rv == rows.deep_view(),
            rv.len() == rows@.len(),
            rv.len() >= 1,
            hdr == &rows@[0],
            elems_model(out@) == rows_value(rv[0], rv.subrange(1, rv.len() as int), k - 1),
            elems_model(out@).len() == out@.len(),
            forall|w: int|
                0 <= w < out@.len() ==> crate::value::wf(#[trigger] elems_model(out@)[w]),
        decreases rows@.len() - k,
    {
        let ghost pout = out@;
        let ghost pms = elems_model(out@);
        let v = p_row_obj(hdr, &rows[k]);
        out.push(v);
        k += 1;
        proof {
            crate::value::lemma_elems_model_len(pout);
            crate::value::lemma_elems_model_len(out@);
            assert forall|w: int|
                0 <= w < elems_model(out@).len() implies elems_model(out@)[w] == (pms.push(
                v.model(),
            ))[w] by {
                assert(elems_model(out@)[w] == out@[w].model());
                if w < pout.len() {
                    assert(out@[w] == pout[w]);
                    assert(pms[w] == pout[w].model());
                }
            }
            assert(elems_model(out@) =~= pms.push(v.model()));
            assert(rows.deep_view()[0] =~= rows@[0].deep_view());
            assert(rows.deep_view()[k - 1] =~= rows@[k - 1].deep_view());
            assert(rv.subrange(1, rv.len() as int)[k - 2] == rv[k - 1]);
        }
    }
    proof {
        assert(rv.subrange(1, rv.len() as int).len() == rv.len() - 1);
    }
    Value::Arr(out)
}

// ---------------------------------------------------------------------
// Executable serializer
// ---------------------------------------------------------------------

/// Quote doubling distributes over concatenation.
pub proof fn lemma_dq_app(a: Seq<char>, b: Seq<char>)
    ensures
        dq(a + b) == dq(a) + dq(b),
    decreases a.len(),
{
    if a.len() == 0 {
        assert(a + b =~= b);
        assert(dq(a) + dq(b) =~= dq(b));
    } else {
        let rest = a.subrange(1, a.len() as int);
        lemma_dq_app(rest, b);
        assert((a + b).subrange(1, (a + b).len() as int) =~= rest + b);
        assert((a + b)[0] == a[0]);
        if a[0] == '"' {
            assert(seq!['"', '"'] + (dq(rest) + dq(b)) =~= (seq!['"', '"'] + dq(rest)) + dq(b));
        } else {
            assert(seq![a[0]] + (dq(rest) + dq(b)) =~= (seq![a[0]] + dq(rest)) + dq(b));
        }
    }
}

/// Append one encoded cell.
fn write_cell(out: &mut String, t: &String, single: bool)
    ensures
        final(out)@ == old(out)@ + enc_cell(t@, single),
{
    let chars = crate::text::to_chars(t.as_str());
    let mut quote = single && chars.len() == 0;
    let mut i: usize = 0;
    while i < chars.len()
        invariant
            i <= chars@.len(),
            chars@ == t@,
            quote == ((exists|w: int|
                0 <= w < i && (chars@[w] == ',' || chars@[w] == '"' || chars@[w] == '\n'
                    || chars@[w] == '\r')) || (single && chars@.len() == 0)),
        decreases chars@.len() - i,
    {
        let c = chars[i];
        if c == ',' || c == '"' || c == '\n' || c == '\r' {
            proof {
                assert(chars@[i as int] == ',' || chars@[i as int] == '"' || chars@[i as int]
                    == '\n' || chars@[i as int] == '\r');
            }
            quote = true;
        }
        i += 1;
    }
    proof {
        assert(quote == needs_quote(t@, single));
    }
    if !quote {
        out.append(t.as_str());
    } else {
        crate::text::push_char(out, '"');
        let mut k: usize = 0;
        while k < chars.len()
            invariant
                k <= chars@.len(),
                chars@ == t@,
                needs_quote(t@, single),
                out@ == old(out)@.push('"') + dq(t@.subrange(0, k as int)),
            decreases chars@.len() - k,
        {
            let c = chars[k];
            if c == '"' {
                crate::text::push_char(out, '"');
                crate::text::push_char(out, '"');
            } else {
                crate::text::push_char(out, c);
            }
            k += 1;
            proof {
                let pre = t@.subrange(0, k - 1);
                let post = t@.subrange(0, k as int);
                assert(post =~= pre + seq![t@[k - 1]]);
                lemma_dq_app(pre, seq![t@[k - 1]]);
                assert(seq![t@[k - 1]].subrange(1, 1) =~= Seq::<char>::empty());
                assert(dq(seq![t@[k - 1]].subrange(1, 1)) =~= Seq::<char>::empty());
                if t@[k - 1] == '"' {
                    assert(dq(seq![t@[k - 1]]) =~= seq!['"', '"']);
                } else {
                    assert(dq(seq![t@[k - 1]]) =~= seq![t@[k - 1]]);
                }
            }
        }
        crate::text::push_char(out, '"');
        proof {
            assert(t@.subrange(0, t@.len() as int) =~= t@);
            assert((old(out)@.push('"') + dq(t@)).push('"') =~= old(out)@ + (seq!['"'] + dq(t@)
                + seq!['"']));
        }
    }
}

/// The bare text of one cell, matching [`cell_text`].
fn cell_string(v: &Value) -> (r: String)
    ensures
        r@ == cell_text(v.model()),
{
    match v {
        Value::Null => String::new(),
        Value::Bool(b) => {
            let mut out = String::new();
            if *b {
                crate::text::push_char(&mut out, 't');
                crate::text::push_char(&mut out, 'r');
                crate::text::push_char(&mut out, 'u');
                crate::text::push_char(&mut out, 'e');
                proof {
                    assert(Seq::<char>::empty().push('t').push('r').push('u').push('e') =~=
                        cell_text(v.model()));
                }
            } else {
                crate::text::push_char(&mut out, 'f');
                crate::text::push_char(&mut out, 'a');
                crate::text::push_char(&mut out, 'l');
                crate::text::push_char(&mut out, 's');
                crate::text::push_char(&mut out, 'e');
                proof {
                    assert(Seq::<char>::empty().push('f').push('a').push('l').push('s').push('e')
                        =~= cell_text(v.model()));
                }
            }
            out
        },
        Value::Int(i) => {
            let digits = crate::num::i64_chars(*i);
            crate::text::chars_to_string(&digits)
        },
        Value::Float(t) => t.clone(),
        Value::Str(t) => t.clone(),
        _ => json::to_compact(v),
    }
}

/// Append one whole record: the cells, comma separated, then a newline.
fn write_record(out: &mut String, cells: &Vec<String>)
    ensures
        final(out)@ == old(out)@ + record_text(cells.deep_view()),
{
    let single = cells.len() == 1;
    let mut i: usize = 0;
    while i < cells.len()
        invariant
            i <= cells@.len(),
            single == (cells.deep_view().len() == 1),
            cells.deep_view().len() == cells@.len(),
            out@ == old(out)@ + cells_text(cells.deep_view(), i as int),
        decreases cells@.len() - i,
    {
        if i > 0 {
            crate::text::push_char(out, ',');
        }
        write_cell(out, &cells[i], single);
        i += 1;
        proof {
            let cv = cells.deep_view();
            assert(cv[i - 1] == cells@[i - 1]@);
            let prev = cells_text(cv, i - 1);
            if i == 1 {
                assert(old(out)@ + prev + enc_cell(cv[i - 1], cv.len() == 1) =~= old(out)@
                    + cells_text(cv, i as int));
            } else {
                assert(old(out)@ + prev + seq![','] + enc_cell(cv[i - 1], cv.len() == 1) =~= old(
                    out,
                )@ + cells_text(cv, i as int));
            }
        }
    }
    crate::text::push_char(out, '\n');
    proof {
        assert((old(out)@ + cells_text(cells.deep_view(), cells.deep_view().len() as int)).push(
            '\n',
        ) =~= old(out)@ + record_text(cells.deep_view()));
    }
}

/// Where the scan stopped determines what the sorted insert does.
pub proof fn lemma_sorted_insert_split(hv: Seq<Seq<char>>, kv: Seq<char>, idx: int)
    requires
        0 <= idx <= hv.len(),
        forall|w: int| 0 <= w < idx ==> lex_lt(#[trigger] hv[w], kv),
        idx < hv.len() ==> !lex_lt(hv[idx], kv),
    ensures
        sorted_insert(hv, kv) == if idx < hv.len() && hv[idx] == kv {
            hv
        } else {
            hv.insert(idx, kv)
        },
    decreases idx,
{
    if idx == 0 {
        if hv.len() == 0 {
            assert(sorted_insert(hv, kv) =~= hv.insert(0, kv));
        } else if hv[0] == kv {
        } else if lex_lt(kv, hv[0]) {
            assert(seq![kv] + hv =~= hv.insert(0, kv));
        } else {
            crate::text::lemma_lex_lt_total(kv, hv[0]);
            assert(false);
        }
    } else {
        assert(lex_lt(hv[0], kv));
        crate::text::lemma_lex_lt_irrefl(hv[0]);
        if lex_lt(kv, hv[0]) {
            crate::text::lemma_lex_lt_trans(kv, hv[0], kv);
            crate::text::lemma_lex_lt_irrefl(kv);
            assert(false);
        }
        assert(hv[0] != kv);
        let rest = hv.subrange(1, hv.len() as int);
        assert forall|w: int| 0 <= w < idx - 1 implies lex_lt(#[trigger] rest[w], kv) by {
            assert(rest[w] == hv[w + 1]);
        }
        if idx - 1 < rest.len() {
            assert(rest[idx - 1] == hv[idx]);
        }
        lemma_sorted_insert_split(rest, kv, idx - 1);
        if idx < hv.len() && hv[idx] == kv {
            assert(seq![hv[0]] + rest =~= hv);
        } else {
            assert(seq![hv[0]] + rest.insert(idx - 1, kv) =~= hv.insert(idx, kv));
        }
    }
}

/// Insert a key into the sorted header list, matching [`sorted_insert`].
fn insert_key(hs: &mut Vec<String>, k: &String)
    ensures
        final(hs).deep_view() == sorted_insert(old(hs).deep_view(), k@),
{
    let kc = crate::text::to_chars(k.as_str());
    let ghost hv = hs.deep_view();
    let mut idx: usize = 0;
    loop
        invariant
            idx <= hs@.len(),
            hs@ == old(hs)@,
            hv == hs.deep_view(),
            hv.len() == hs@.len(),
            kc@ == k@,
            forall|w: int| 0 <= w < idx ==> lex_lt(#[trigger] hv[w], k@),
        decreases hs@.len() - idx,
    {
        if idx >= hs.len() {
            hs.push(k.clone());
            proof {
                lemma_sorted_insert_split(hv, k@, hv.len() as int);
                assert forall|w: int|
                    0 <= w < hs.deep_view().len() implies hs.deep_view()[w] == hv.insert(
                    hv.len() as int,
                    k@,
                )[w] by {
                    assert(hs.deep_view()[w] == hs@[w]@);
                    if w < hv.len() {
                        assert(hs@[w] == old(hs)@[w]);
                    }
                }
                assert(hs.deep_view() =~= hv.insert(hv.len() as int, k@));
            }
            return;
        }
        let hc = crate::text::to_chars(hs[idx].as_str());
        proof {
            assert(hc@ == hv[idx as int]);
        }
        if crate::text::chars_lex_lt(&hc, &kc) {
            idx += 1;
        } else {
            if crate::text::chars_lex_lt(&kc, &hc) {
                hs.insert(idx, k.clone());
                proof {
                    lemma_sorted_insert_split(hv, k@, idx as int);
                    assert forall|w: int|
                        0 <= w < hs.deep_view().len() implies hs.deep_view()[w] == hv.insert(
                        idx as int,
                        k@,
                    )[w] by {
                        assert(hs.deep_view()[w] == hs@[w]@);
                        if w < idx {
                            assert(hs@[w] == old(hs)@[w]);
                        } else if w > idx {
                            assert(hs@[w] == old(hs)@[w - 1]);
                        }
                    }
                    assert(hs.deep_view() =~= hv.insert(idx as int, k@));
                }
                return;
            } else {
                proof {
                    crate::text::lemma_lex_lt_total(k@, hv[idx as int]);
                    lemma_sorted_insert_split(hv, k@, idx as int);
                }
                return;
            }
        }
    }
}

/// The sorted union of the keys of all objects in an array, matching
/// [`union_from`].
fn header_union(rows: &Vec<Value>) -> (r: Vec<String>)
    ensures
        r.deep_view() == union_from(elems_model(rows@), rows@.len() as int),
{
    proof {
        crate::value::lemma_elems_model_len(rows@);
    }
    let ghost ems = elems_model(rows@);
    let mut hs: Vec<String> = Vec::new();
    let mut r: usize = 0;
    proof {
        assert(hs.deep_view() =~= Seq::<Seq<char>>::empty());
    }
    while r < rows.len()
        invariant
            r <= rows@.len(),
            ems == elems_model(rows@),
            ems.len() == rows@.len(),
            forall|w: int| 0 <= w < rows@.len() ==> ems[w] == #[trigger] rows@[w].model(),
            hs.deep_view() == union_from(ems, r as int),
        decreases rows@.len() - r,
    {
        let ghost prev = hs.deep_view();
        match &rows[r] {
            Value::Obj(o) => {
                proof {
                    crate::value::lemma_entries_model_len(o@);
                }
                let ghost en = entries_model(o@);
                let mut j: usize = 0;
                while j < o.len()
                    invariant
                        j <= o@.len(),
                        en == entries_model(o@),
                        en.len() == o@.len(),
                        forall|w: int|
                            0 <= w < o@.len() ==> en[w] == (#[trigger] o@[w].0@, o@[w].1.model()),
                        hs.deep_view() == keys_into(prev, entry_keys(en), j as int),
                    decreases o@.len() - j,
                {
                    insert_key(&mut hs, &o[j].0);
                    j += 1;
                    proof {
                        assert(entry_keys(en)[j - 1] == en[j - 1].0);
                        assert(en[j - 1].0 == o@[j - 1].0@);
                    }
                }
                r += 1;
                proof {
                    assert(ems[r - 1] == rows@[r - 1].model());
                    assert(entry_keys(en).len() == en.len());
                }
            },
            _ => {
                r += 1;
                proof {
                    assert(ems[r - 1] == rows@[r - 1].model());
                }
            },
        }
    }
    hs
}

/// Index of the entry holding `key`, if any.
fn obj_index(o: &Vec<(String, Value)>, key: &String) -> (r: Option<usize>)
    ensures
        match r {
            Some(w) => w < o@.len() && entries_model(o@)[w as int].0 == key@,
            None => !has_key(entries_model(o@), key@),
        },
{
    proof {
        crate::value::lemma_entries_model_len(o@);
    }
    let ghost en = entries_model(o@);
    let mut idx: usize = 0;
    while idx < o.len()
        invariant
            idx <= o@.len(),
            en == entries_model(o@),
            en.len() == o@.len(),
            forall|w: int| 0 <= w < o@.len() ==> en[w] == (#[trigger] o@[w].0@, o@[w].1.model()),
            forall|w: int| 0 <= w < idx ==> (#[trigger] en[w]).0 != key@,
        decreases o@.len() - idx,
    {
        if o[idx].0 == *key {
            return Some(idx);
        }
        idx += 1;
    }
    proof {
        if has_key(en, key@) {
            let w = choose|w: int| 0 <= w < en.len() && en[w].0 == key@;
            assert(en[w].0 != key@);
        }
    }
    None
}

/// The cells of one array row, matching [`arr_row_cells`].
fn row_cells(hdr: &Vec<String>, row: &Value) -> (r: Vec<String>)
    requires
        crate::value::wf(row.model()),
    ensures
        r.deep_view() == arr_row_cells(hdr.deep_view(), row.model()),
{
    let ghost hv = hdr.deep_view();
    match row {
        Value::Obj(o) => {
            proof {
                crate::value::lemma_entries_model_len(o@);
            }
            let ghost en = entries_model(o@);
            let ghost want = arr_row_cells(hv, row.model());
            let mut cells: Vec<String> = Vec::new();
            let mut j: usize = 0;
            while j < hdr.len()
                invariant
                    j <= hdr@.len(),
                    hv == hdr.deep_view(),
                    hv.len() == hdr@.len(),
                    en == entries_model(o@),
                    en.len() == o@.len(),
                    forall|w: int|
                        0 <= w < o@.len() ==> en[w] == (#[trigger] o@[w].0@, o@[w].1.model()),
                    crate::value::keys_unique(en),
                    row.model() == ValueModel::Obj(en),
                    want == arr_row_cells(hv, row.model()),
                    want.len() == hv.len(),
                    cells.deep_view().len() == j as nat,
                    forall|w: int| 0 <= w < j ==> cells.deep_view()[w] == want[w],
                decreases hdr@.len() - j,
            {
                let ghost pcv = cells.deep_view();
                match obj_index(o, &hdr[j]) {
                    Some(w) => {
                        let cell = cell_string(&o[w].1);
                        proof {
                            assert(en[w as int] == (o@[w as int].0@, o@[w as int].1.model()));
                            crate::value::lemma_key_value_unique(en, hv[j as int], w as int);
                        }
                        cells.push(cell);
                    },
                    None => {
                        cells.push(String::new());
                    },
                }
                j += 1;
                proof {
                    assert forall|w: int|
                        0 <= w < j implies cells.deep_view()[w] == want[w] by {
                        assert(cells.deep_view()[w] == cells@[w]@);
                        if w < j - 1 {
                            assert(cells@[w] == cells@.subrange(0, j - 1)[w]);
                            assert(pcv[w] == want[w]);
                        }
                    }
                }
            }
            proof {
                assert(cells.deep_view() =~= want);
            }
            cells
        },
        _ => {
            let mut cells: Vec<String> = Vec::new();
            cells.push(json::to_compact(row));
            proof {
                assert(cells.deep_view() =~= seq![compact_text(row.model())]);
            }
            cells
        },
    }
}

/// Serialize a value as CSV text; the error says why the value has no
/// CSV form (no columns to write).
pub fn serialize(v: &Value) -> (r: Result<String, String>)
    requires
        crate::value::wf(v.model()),
    ensures
        match r {
            Ok(t) => csv_ser(v.model()) == Some(t@),
            Err(_) => csv_ser(v.model()) is None,
        },
{
    match v {
        Value::Arr(rows) => {
            proof {
                crate::value::lemma_elems_model_len(rows@);
            }
            let ghost ems = elems_model(rows@);
            let hdr = header_union(rows);
            if hdr.len() == 0 {
                proof {
                    assert(hdr.deep_view().len() == 0);
                }
                return Err(crate::text::chars_to_string(
                    &crate::text::to_chars("cannot write CSV: no columns"),
                ));
            }
            let ghost hv = hdr.deep_view();
            let mut out = String::new();
            write_record(&mut out, &hdr);
            let mut rix: usize = 0;
            proof {
                assert(Seq::<char>::empty() + record_text(hv) =~= record_text(hv));
            }
            while rix < rows.len()
                invariant
                    rix <= rows@.len(),
                    ems == elems_model(rows@),
                    ems.len() == rows@.len(),
                    forall|w: int| 0 <= w < rows@.len() ==> ems[w] == #[trigger] rows@[w].model(),
                    forall|w: int| 0 <= w < ems.len() ==> crate::value::wf(#[trigger] ems[w]),
                    hv == hdr.deep_view(),
                    v.model() == ValueModel::Arr(ems),
                    out@ == record_text(hv) + arr_rows_text(hv, ems, rix as int),
                decreases rows@.len() - rix,
            {
                proof {
                    assert(crate::value::wf(ems[rix as int]));
                    assert(ems[rix as int] == rows@[rix as int].model());
                }
                let cells = row_cells(&hdr, &rows[rix]);
                write_record(&mut out, &cells);
                rix += 1;
                proof {
                    assert(record_text(hv) + arr_rows_text(hv, ems, rix - 1) + record_text(
                        arr_row_cells(hv, ems[rix - 1]),
                    ) =~= record_text(hv) + arr_rows_text(hv, ems, rix as int));
                }
            }
            Ok(out)
        },
        Value::Obj(o) => {
            proof {
                crate::value::lemma_entries_model_len(o@);
            }
            let ghost en = entries_model(o@);
            if o.len() == 0 {
                return Err(crate::text::chars_to_string(
                    &crate::text::to_chars("cannot write CSV: empty object"),
                ));
            }
            let mut keys: Vec<String> = Vec::new();
            let mut cells: Vec<String> = Vec::new();
            let mut j: usize = 0;
            while j < o.len()
                invariant
                    j <= o@.len(),
                    en == entries_model(o@),
                    en.len() == o@.len(),
                    forall|w: int|
                        0 <= w < o@.len() ==> en[w] == (#[trigger] o@[w].0@, o@[w].1.model()),
                    keys.deep_view().len() == j as nat,
                    cells.deep_view().len() == j as nat,
                    forall|w: int| 0 <= w < j ==> keys.deep_view()[w] == entry_keys(en)[w],
                    forall|w: int| 0 <= w < j ==> cells.deep_view()[w] == cell_text(en[w].1),
                decreases o@.len() - j,
            {
                let ghost pk = keys.deep_view();
                let ghost pc = cells.deep_view();
                keys.push(o[j].0.clone());
                cells.push(cell_string(&o[j].1));
                j += 1;
                proof {
                    assert forall|w: int|
                        0 <= w < j implies keys.deep_view()[w] == entry_keys(en)[w] by {
                        assert(keys.deep_view()[w] == keys@[w]@);
                        if w < j - 1 {
                            assert(keys@[w] == keys@.subrange(0, j - 1)[w]);
                            assert(pk[w] == entry_keys(en)[w]);
                        } else {
                            assert(entry_keys(en)[w] == en[w].0);
                        }
                    }
                    assert forall|w: int|
                        0 <= w < j implies cells.deep_view()[w] == cell_text(en[w].1) by {
                        assert(cells.deep_view()[w] == cells@[w]@);
                        assert(en[w] == (o@[w].0@, o@[w].1.model()));
                        if w < j - 1 {
                            assert(cells@[w] == cells@.subrange(0, j - 1)[w]);
                            assert(pc[w] == cell_text(en[w].1));
                        }
                    }
                }
            }
            let mut out = String::new();
            proof {
                assert(keys.deep_view() =~= entry_keys(en));
                assert(cells.deep_view() =~= Seq::new(en.len(), |k: int| cell_text(en[k].1)));
            }
            write_record(&mut out, &keys);
            write_record(&mut out, &cells);
            proof {
                assert(Seq::<char>::empty() + record_text(entry_keys(en)) + record_text(
                    Seq::new(en.len(), |k: int| cell_text(en[k].1)),
                ) =~= record_text(entry_keys(en)) + record_text(
                    Seq::new(en.len(), |k: int| cell_text(en[k].1)),
                ));
            }
            Ok(out)
        },
        _ => {
            let mut hdrs: Vec<String> = Vec::new();
            let hword = crate::text::chars_to_string(&crate::text::to_chars("value"));
            proof {
                reveal_strlit("value");
                assert(hword@ =~= seq!['v', 'a', 'l', 'u', 'e']);
            }
            hdrs.push(hword);
            let mut cells: Vec<String> = Vec::new();
            cells.push(json::to_compact(v));
            let mut out = String::new();
            proof {
                assert(hdrs.deep_view() =~= seq![seq!['v', 'a', 'l', 'u', 'e']]);
                assert(cells.deep_view() =~= seq![compact_text(v.model())]);
            }
            write_record(&mut out, &hdrs);
            write_record(&mut out, &cells);
            proof {
                assert(Seq::<char>::empty() + record_text(seq![seq!['v', 'a', 'l', 'u', 'e']])
                    + record_text(seq![compact_text(v.model())]) =~= record_text(
                    seq![seq!['v', 'a', 'l', 'u', 'e']],
                ) + record_text(seq![compact_text(v.model())]));
            }
            Ok(out)
        },
    }
}

// ---------------------------------------------------------------------
// The header-determinism law
// ---------------------------------------------------------------------

/// Strictly sorted in the lexicographic order.
pub open spec fn sorted_headers(hs: Seq<Seq<char>>) -> bool {
    forall|i: int, j: int| 0 <= i < j < hs.len() ==> lex_lt(hs[i], hs[j])
}

/// Some object among the first `r` rows holds the key.
pub open spec fn some_row_has(rows: Seq<ValueModel>, r: int, k: Seq<char>) -> bool {
    exists|i: int| 0 <= i < r && i < rows.len() && rows[i] is Obj && has_key(rows[i]->Obj_0, k)
}

pub proof fn lemma_sorted_insert_props(hs: Seq<Seq<char>>, k: Seq<char>)
    requires
        sorted_headers(hs),
    ensures
        sorted_headers(sorted_insert(hs, k)),
        forall|x: Seq<char>| #[trigger] sorted_insert(hs, k).contains(x) ==> hs.contains(x) || x
            == k,
        forall|x: Seq<char>| #[trigger] hs.contains(x) ==> sorted_insert(hs, k).contains(x),
        sorted_insert(hs, k).contains(k),
    decreases hs.len(),
{
    let u = sorted_insert(hs, k);
    if hs.len() == 0 {
        assert(u =~= seq![k]);
        assert(u[0] == k);
        assert(u.contains(k));
        assert forall|x: Seq<char>| #[trigger] u.contains(x) implies hs.contains(x) || x == k by {
            let i = choose|i: int| 0 <= i < u.len() && u[i] == x;
            assert(i == 0);
        }
    } else if lex_lt(k, hs[0]) {
        assert(u =~= seq![k] + hs);
        assert(u[0] == k);
        assert(u.contains(k));
        assert forall|i: int, j: int| 0 <= i < j < u.len() implies lex_lt(u[i], u[j]) by {
            if i == 0 {
                assert(u[j] == hs[j - 1]);
                if j - 1 > 0 {
                    crate::text::lemma_lex_lt_trans(k, hs[0], hs[j - 1]);
                }
            } else {
                assert(u[i] == hs[i - 1]);
                assert(u[j] == hs[j - 1]);
            }
        }
        assert forall|x: Seq<char>| #[trigger] u.contains(x) implies hs.contains(x) || x == k by {
            let i = choose|i: int| 0 <= i < u.len() && u[i] == x;
            if i > 0 {
                assert(hs[i - 1] == x);
            }
        }
        assert forall|x: Seq<char>| #[trigger] hs.contains(x) implies u.contains(x) by {
            let i = choose|i: int| 0 <= i < hs.len() && hs[i] == x;
            assert(u[i + 1] == x);
        }
    } else if k == hs[0] {
        assert(u == hs);
        assert(hs[0] == k);
        assert(hs.contains(k));
    } else {
        let rest = hs.subrange(1, hs.len() as int);
        assert forall|a: int, b: int| 0 <= a < b < rest.len() implies lex_lt(rest[a], rest[b]) by {
            assert(rest[a] == hs[a + 1]);
            assert(rest[b] == hs[b + 1]);
        }
        lemma_sorted_insert_props(rest, k);
        let ur = sorted_insert(rest, k);
        assert(u =~= seq![hs[0]] + ur);
        crate::text::lemma_lex_lt_total(k, hs[0]);
        assert(lex_lt(hs[0], k));
        assert forall|i: int, j: int| 0 <= i < j < u.len() implies lex_lt(u[i], u[j]) by {
            if i == 0 {
                assert(u[j] == ur[j - 1]);
                assert(ur.contains(ur[j - 1]));
                if rest.contains(ur[j - 1]) {
                    let w = choose|w: int| 0 <= w < rest.len() && rest[w] == ur[j - 1];
                    assert(rest[w] == hs[w + 1]);
                    assert(lex_lt(hs[0], hs[w + 1]));
                } else {
                    assert(ur[j - 1] == k);
                }
            } else {
                assert(u[i] == ur[i - 1]);
                assert(u[j] == ur[j - 1]);
            }
        }
        assert(u.contains(k)) by {
            let w = choose|w: int| 0 <= w < ur.len() && ur[w] == k;
            assert(u[w + 1] == k);
        }
        assert forall|x: Seq<char>| #[trigger] u.contains(x) implies hs.contains(x) || x == k by {
            let i = choose|i: int| 0 <= i < u.len() && u[i] == x;
            if i == 0 {
                assert(hs[0] == x);
            } else {
                assert(ur[i - 1] == x);
                assert(ur.contains(x));
                if rest.contains(x) {
                    let w = choose|w: int| 0 <= w < rest.len() && rest[w] == x;
                    assert(hs[w + 1] == x);
                }
            }
        }
        assert forall|x: Seq<char>| #[trigger] hs.contains(x) implies u.contains(x) by {
            let i = choose|i: int| 0 <= i < hs.len() && hs[i] == x;
            if i == 0 {
                assert(u[0] == x);
            } else {
                assert(rest[i - 1] == x);
                assert(rest.contains(x));
                assert(ur.contains(x));
                let w = choose|w: int| 0 <= w < ur.len() && ur[w] == x;
                assert(u[w + 1] == x);
            }
        }
    }
}

pub proof fn lemma_keys_into_props(hs: Seq<Seq<char>>, keys: Seq<Seq<char>>, k: int)
    requires
        sorted_headers(hs),
        0 <= k <= keys.len(),
    ensures
        sorted_headers(keys_into(hs, keys, k)),
        forall|x: Seq<char>| #[trigger] keys_into(hs, keys, k).contains(x) ==> hs.contains(x)
            || exists|w: int| 0 <= w < k && keys[w] == x,
        forall|x: Seq<char>| #[trigger] hs.contains(x) ==> keys_into(hs, keys, k).contains(x),
        forall|w: int| 0 <= w < k ==> keys_into(hs, keys, k).contains(#[trigger] keys[w]),
    decreases k,
{
    if k > 0 {
        lemma_keys_into_props(hs, keys, k - 1);
        let prev = keys_into(hs, keys, k - 1);
        lemma_sorted_insert_props(prev, keys[k - 1]);
        let u = keys_into(hs, keys, k);
        assert forall|x: Seq<char>| #[trigger] u.contains(x) implies hs.contains(x) || exists|w: int|
            0 <= w < k && keys[w] == x by {
            if prev.contains(x) {
            } else {
                assert(x == keys[k - 1]);
            }
        }
        assert forall|w: int| 0 <= w < k implies u.contains(#[trigger] keys[w]) by {
            if w < k - 1 {
                assert(prev.contains(keys[w]));
            }
        }
    }
}

/// An object's entry keys as a list contain exactly its keys.
pub proof fn lemma_entry_keys(o: Seq<(Seq<char>, ValueModel)>)
    ensures
        entry_keys(o).len() == o.len(),
        forall|w: int| 0 <= w < o.len() ==> entry_keys(o)[w] == (#[trigger] o[w]).0,
{
    assert forall|w: int| 0 <= w < o.len() implies entry_keys(o)[w] == (#[trigger] o[w]).0 by {}
}

/// The header-determinism law: serializing an array computes its header
/// row as the union of the keys of all contained objects, sorted
/// lexicographically — whatever order the keys first appeared in.
pub proof fn lemma_csv_header_union(rows: Seq<ValueModel>, r: int)
    requires
        0 <= r <= rows.len(),
    ensures
        sorted_headers(union_from(rows, r)),
        forall|x: Seq<char>| #[trigger] union_from(rows, r).contains(x) <==> some_row_has(
            rows,
            r,
            x,
        ),
    decreases r,
{
    if r > 0 {
        lemma_csv_header_union(rows, r - 1);
        let prev = union_from(rows, r - 1);
        let u = union_from(rows, r);
        match rows[r - 1] {
            ValueModel::Obj(o) => {
                lemma_entry_keys(o);
                lemma_keys_into_props(prev, entry_keys(o), o.len() as int);
                assert forall|x: Seq<char>| #[trigger] u.contains(x) implies some_row_has(
                    rows,
                    r,
                    x,
                ) by {
                    if prev.contains(x) {
                        let i = choose|i: int|
                            0 <= i < r - 1 && i < rows.len() && rows[i] is Obj && has_key(
                                rows[i]->Obj_0,
                                x,
                            );
                        assert(some_row_has(rows, r, x));
                    } else {
                        let w = choose|w: int| 0 <= w < o.len() && entry_keys(o)[w] == x;
                        assert(o[w].0 == x);
                        assert(has_key(o, x));
                        assert(rows[r - 1] is Obj && has_key(rows[r - 1]->Obj_0, x));
                    }
                }
                assert forall|x: Seq<char>| some_row_has(rows, r, x) implies #[trigger] u.contains(
                    x,
                ) by {
                    let i = choose|i: int|
                        0 <= i < r && i < rows.len() && rows[i] is Obj && has_key(
                            rows[i]->Obj_0,
                            x,
                        );
                    if i < r - 1 {
                        assert(some_row_has(rows, r - 1, x));
                        assert(prev.contains(x));
                    } else {
                        let w = choose|w: int| 0 <= w < o.len() && o[w].0 == x;
                        assert(entry_keys(o)[w] == x);
                        assert(u.contains(entry_keys(o)[w]));
                    }
                }
            },
            _ => {
                assert forall|x: Seq<char>| #[trigger] u.contains(x) implies some_row_has(
                    rows,
                    r,
                    x,
                ) by {
                    let i = choose|i: int|
                        0 <= i < r - 1 && i < rows.len() && rows[i] is Obj && has_key(
                            rows[i]->Obj_0,
                            x,
                        );
                    assert(some_row_has(rows, r, x));
                }
                assert forall|x: Seq<char>| some_row_has(rows, r, x) implies #[trigger] u.contains(
                    x,
                ) by {
                    let i = choose|i: int|
                        0 <= i < r && i < rows.len() && rows[i] is Obj && has_key(
                            rows[i]->Obj_0,
                            x,
                        );
                    assert(i < r - 1);
                    assert(some_row_has(rows, r - 1, x));
                }
            },
        }
    } else {
        assert forall|x: Seq<char>| #[trigger] union_from(rows, r).contains(x) implies
            some_row_has(rows, r, x) by {
            let i = choose|i: int| 0 <= i < union_from(rows, r).len() && union_from(rows, r)[i]
                == x;
        }
        assert forall|x: Seq<char>| some_row_has(rows, r, x) implies #[trigger] union_from(
            rows,
            r,
        ).contains(x) by {
            let i = choose|i: int|
                0 <= i < r && i < rows.len() && rows[i] is Obj && has_key(rows[i]->Obj_0, x);
        }
    }
}

} // verus!
