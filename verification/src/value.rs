//! The canonical value model every codec reads and writes.
//!
//! A [`Value`] is a tagged union of null, booleans, numbers, strings,
//! ordered arrays and ordered objects. Numbers have two subkinds: integers
//! carried as `i64`, and non-integers carried as their decimal text (the
//! codecs own their own text rendering of numbers, so the text is the
//! canonical representation). Object keys are unique within one object and
//! keep insertion order.
//!
//! [`ValueModel`] is the mathematical view of a value: the same tree over
//! `int`, `Seq<char>` and `Seq`, which the contracts speak of.

use vstd::prelude::*;
use crate::num;

verus! {

/// The canonical in-memory representation bridging all formats.
pub enum Value {
    Null,
    Bool(bool),
    Int(i64),
    Float(String),
    Str(String),
    Arr(Vec<Value>),
    Obj(Vec<(String, Value)>),
}

/// The mathematical view of a [`Value`].
#[verifier::ext_equal]
pub enum ValueModel {
    Null,
    Bool(bool),
    Int(int),
    Float(Seq<char>),
    Str(Seq<char>),
    Arr(Seq<ValueModel>),
    Obj(Seq<(Seq<char>, ValueModel)>),
}

impl Value {
    /// The mathematical view of this value.
    pub open spec fn model(self) -> ValueModel
        decreases self, 1int,
    {
        match self {
            Value::Null => ValueModel::Null,
            Value::Bool(b) => ValueModel::Bool(b),
            Value::Int(i) => ValueModel::Int(i as int),
            Value::Float(t) => ValueModel::Float(t@),
            Value::Str(s) => ValueModel::Str(s@),
            Value::Arr(a) => ValueModel::Arr(elems_model(a@)),
            Value::Obj(o) => ValueModel::Obj(entries_model(o@)),
        }
    }
}

/// The models of a sequence of values, element by element.
pub open spec fn elems_model(s: Seq<Value>) -> Seq<ValueModel>
    decreases s, 0int,
{
    if s.len() == 0 {
        Seq::empty()
    } else {
        seq![s[0].model()] + elems_model(s.subrange(1, s.len() as int))
    }
}

/// The models of a sequence of key/value entries, entry by entry.
pub open spec fn entries_model(s: Seq<(String, Value)>) -> Seq<(Seq<char>, ValueModel)>
    decreases s, 0int,
{
    if s.len() == 0 {
        Seq::empty()
    } else {
        seq![(s[0].0@, s[0].1.model())] + entries_model(s.subrange(1, s.len() as int))
    }
}

impl View for Value {
    type V = ValueModel;

    open spec fn view(&self) -> ValueModel {
        self.model()
    }
}

pub proof fn lemma_elems_model_len(s: Seq<Value>)
    ensures
        elems_model(s).len() == s.len(),
        forall|i: int| 0 <= i < s.len() ==> elems_model(s)[i] == #[trigger] s[i].model(),
    decreases s.len(),
{
    if s.len() > 0 {
        let rest = s.subrange(1, s.len() as int);
        lemma_elems_model_len(rest);
        assert forall|i: int| 0 <= i < s.len() implies elems_model(s)[i] == #[trigger] s[i].model() by {
            if i > 0 {
                assert(rest[i - 1] == s[i]);
                assert(elems_model(s)[i] == elems_model(rest)[i - 1]);
            }
        }
    }
}

pub proof fn lemma_entries_model_len(s: Seq<(String, Value)>)
    ensures
        entries_model(s).len() == s.len(),
        forall|i: int|
            0 <= i < s.len() ==> entries_model(s)[i] == (#[trigger] s[i].0@, s[i].1.model()),
    decreases s.len(),
{
    if s.len() > 0 {
        let rest = s.subrange(1, s.len() as int);
        lemma_entries_model_len(rest);
        assert forall|i: int|
            0 <= i < s.len() implies entries_model(s)[i] == (#[trigger] s[i].0@, s[i].1.model()) by {
            if i > 0 {
                assert(rest[i - 1] == s[i]);
                assert(entries_model(s)[i] == entries_model(rest)[i - 1]);
            }
        }
    }
}

/// The keys of an object's entry sequence, in stored order.
pub open spec fn entry_keys(o: Seq<(Seq<char>, ValueModel)>) -> Seq<Seq<char>> {
    o.map_values(|p: (Seq<char>, ValueModel)| p.0)
}

/// No two entries share a key.
pub open spec fn keys_unique(o: Seq<(Seq<char>, ValueModel)>) -> bool {
    forall|i: int, j: int| 0 <= i < j < o.len() ==> o[i].0 != o[j].0
}

/// Whether the object holds an entry for `key`.
pub open spec fn has_key(o: Seq<(Seq<char>, ValueModel)>, key: Seq<char>) -> bool {
    exists|i: int| 0 <= i < o.len() && o[i].0 == key
}

/// The value stored under `key` (the last entry wins, matching insertion
/// where a duplicate key overwrites in place).
pub open spec fn key_value(o: Seq<(Seq<char>, ValueModel)>, key: Seq<char>) -> ValueModel
    decreases o.len(),
{
    if o.len() == 0 {
        ValueModel::Null
    } else if o.last().0 == key {
        o.last().1
    } else {
        key_value(o.drop_last(), key)
    }
}

/// Insert `key: v` into an entry sequence: an existing entry is replaced in
/// place, otherwise the entry is appended. The last write wins.
pub open spec fn upsert(
    o: Seq<(Seq<char>, ValueModel)>,
    key: Seq<char>,
    v: ValueModel,
) -> Seq<(Seq<char>, ValueModel)>
    decreases o.len(),
{
    if o.len() == 0 {
        seq![(key, v)]
    } else if o[0].0 == key {
        seq![(key, v)] + o.subrange(1, o.len() as int)
    } else {
        seq![o[0]] + upsert(o.subrange(1, o.len() as int), key, v)
    }
}

/// A well-formed value: object keys are unique, and a float's text is a
/// decimal numeral that is not an integer the `i64` range could hold (such
/// numbers are [`ValueModel::Int`]).
pub open spec fn wf(m: ValueModel) -> bool
    decreases m,
{
    match m {
        ValueModel::Null => true,
        ValueModel::Bool(_) => true,
        ValueModel::Int(i) => i64::MIN <= i <= i64::MAX,
        ValueModel::Float(t) => num::is_float_text(t),
        ValueModel::Str(_) => true,
        ValueModel::Arr(a) => forall|i: int| 0 <= i < a.len() ==> wf(#[trigger] a[i]),
        ValueModel::Obj(o) => keys_unique(o) && forall|i: int|
            0 <= i < o.len() ==> wf(#[trigger] o[i].1),
    }
}

pub proof fn lemma_upsert_keys_unique(o: Seq<(Seq<char>, ValueModel)>, key: Seq<char>, v: ValueModel)
    requires
        keys_unique(o),
    ensures
        keys_unique(upsert(o, key, v)),
        forall|k: Seq<char>|
            #[trigger] has_key(upsert(o, key, v), k) ==> has_key(o, k) || k == key,
        forall|k: Seq<char>| #[trigger] has_key(o, k) ==> has_key(upsert(o, key, v), k),
        has_key(upsert(o, key, v), key),
    decreases o.len(),
{
    let u = upsert(o, key, v);
    if o.len() == 0 {
        assert(u =~= seq![(key, v)]);
        assert(u[0].0 == key);
        assert forall|k: Seq<char>| #[trigger] has_key(u, k) implies has_key(o, k) || k == key by {
            let i = choose|i: int| 0 <= i < u.len() && u[i].0 == k;
            assert(i == 0);
        }
    } else if o[0].0 == key {
        assert(u[0].0 == key);
        assert forall|k: Seq<char>| #[trigger] has_key(u, k) implies has_key(o, k) || k == key by {
            let i = choose|i: int| 0 <= i < u.len() && u[i].0 == k;
            if i > 0 {
                assert(u[i].0 == o[i].0);
            }
        }
        assert forall|k: Seq<char>| #[trigger] has_key(o, k) implies has_key(u, k) by {
            let i = choose|i: int| 0 <= i < o.len() && o[i].0 == k;
            if i == 0 {
                assert(u[0].0 == k);
            } else {
                assert(u[i].0 == o[i].0);
            }
        }
    } else {
        let rest = o.subrange(1, o.len() as int);
        lemma_upsert_keys_unique(rest, key, v);
        let ur = upsert(rest, key, v);
        assert(u =~= seq![o[0]] + ur);
        assert(has_key(u, key)) by {
            let w = choose|w: int| 0 <= w < ur.len() && ur[w].0 == key;
            assert(u[w + 1].0 == key);
        }
        assert forall|i: int, j: int| 0 <= i < j < u.len() implies u[i].0 != u[j].0 by {
            if i == 0 {
                assert(u[j].0 == ur[j - 1].0);
                if u[j].0 == o[0].0 {
                    assert(has_key(ur, o[0].0));
                    if has_key(rest, o[0].0) {
                        let w = choose|w: int| 0 <= w < rest.len() && rest[w].0 == o[0].0;
                        assert(o[w + 1].0 == o[0].0);
                    }
                }
            } else {
                assert(u[i].0 == ur[i - 1].0);
                assert(u[j].0 == ur[j - 1].0);
            }
        }
        assert forall|k: Seq<char>| #[trigger] has_key(u, k) implies has_key(o, k) || k == key by {
            let i = choose|i: int| 0 <= i < u.len() && u[i].0 == k;
            if i == 0 {
                assert(o[0].0 == k);
            } else {
                assert(ur[i - 1].0 == k);
                assert(has_key(ur, k));
                if has_key(rest, k) {
                    let w = choose|w: int| 0 <= w < rest.len() && rest[w].0 == k;
                    assert(o[w + 1].0 == k);
                }
            }
        }
        assert forall|k: Seq<char>| #[trigger] has_key(o, k) implies has_key(u, k) by {
            let i = choose|i: int| 0 <= i < o.len() && o[i].0 == k;
            if i == 0 {
                assert(u[0].0 == k);
            } else {
                assert(rest[i - 1].0 == k);
                assert(has_key(rest, k));
                assert(has_key(ur, k));
                let w = choose|w: int| 0 <= w < ur.len() && ur[w].0 == k;
                assert(u[w + 1].0 == k);
            }
        }
    }
}

/// Replacing a present key edits the entry in place.
pub proof fn lemma_upsert_at(
    o: Seq<(Seq<char>, ValueModel)>,
    key: Seq<char>,
    v: ValueModel,
    idx: int,
)
    requires
        0 <= idx < o.len(),
        o[idx].0 == key,
        forall|w: int| 0 <= w < idx ==> o[w].0 != key,
    ensures
        upsert(o, key, v) == o.update(idx, (key, v)),
    decreases idx,
{
    if idx == 0 {
        assert(upsert(o, key, v) =~= o.update(0, (key, v)));
    } else {
        let rest = o.subrange(1, o.len() as int);
        assert(rest[idx - 1].0 == key);
        assert forall|w: int| 0 <= w < idx - 1 implies rest[w].0 != key by {
            assert(rest[w] == o[w + 1]);
        }
        lemma_upsert_at(rest, key, v, idx - 1);
        assert(seq![o[0]] + rest.update(idx - 1, (key, v)) =~= o.update(idx, (key, v)));
    }
}

/// Inserting an absent key appends the entry.
pub proof fn lemma_upsert_absent(o: Seq<(Seq<char>, ValueModel)>, key: Seq<char>, v: ValueModel)
    requires
        forall|w: int| 0 <= w < o.len() ==> o[w].0 != key,
    ensures
        upsert(o, key, v) == o.push((key, v)),
    decreases o.len(),
{
    if o.len() == 0 {
        assert(upsert(o, key, v) =~= o.push((key, v)));
    } else {
        let rest = o.subrange(1, o.len() as int);
        assert forall|w: int| 0 <= w < rest.len() implies rest[w].0 != key by {
            assert(rest[w] == o[w + 1]);
        }
        lemma_upsert_absent(rest, key, v);
        assert(seq![o[0]] + rest.push((key, v)) =~= o.push((key, v)));
    }
}

/// Every entry after an insert is the inserted pair or one of the old
/// entries.
pub proof fn lemma_upsert_values(o: Seq<(Seq<char>, ValueModel)>, key: Seq<char>, v: ValueModel)
    ensures
        forall|i: int|
            0 <= i < upsert(o, key, v).len() ==> (#[trigger] upsert(o, key, v)[i]) == (key, v)
                || exists|j: int| 0 <= j < o.len() && upsert(o, key, v)[i] == o[j],
    decreases o.len(),
{
    let u = upsert(o, key, v);
    if o.len() == 0 {
    } else if o[0].0 == key {
        assert forall|i: int|
            0 <= i < u.len() implies (#[trigger] u[i]) == (key, v) || exists|j: int|
            0 <= j < o.len() && u[i] == o[j] by {
            if i > 0 {
                assert(u[i] == o[i]);
            }
        }
    } else {
        let rest = o.subrange(1, o.len() as int);
        lemma_upsert_values(rest, key, v);
        let ur = upsert(rest, key, v);
        assert forall|i: int|
            0 <= i < u.len() implies (#[trigger] u[i]) == (key, v) || exists|j: int|
            0 <= j < o.len() && u[i] == o[j] by {
            if i == 0 {
                assert(u[0] == o[0]);
            } else {
                assert(u[i] == ur[i - 1]);
                if ur[i - 1] == (key, v) {
                } else {
                    let j = choose|j: int| 0 <= j < rest.len() && ur[i - 1] == rest[j];
                    assert(u[i] == o[j + 1]);
                }
            }
        }
    }
}

/// Insert `key: val` into an object's entries: replace in place when the
/// key is present, append when it is not.
pub fn obj_upsert(o: &mut Vec<(String, Value)>, key: String, val: Value)
    ensures
        entries_model(final(o)@) == upsert(entries_model(old(o)@), key@, val.model()),
{
    proof {
        lemma_entries_model_len(o@);
    }
    let ghost en = entries_model(old(o)@);
    let mut idx: usize = 0;
    while idx < o.len()
        invariant
            idx <= o@.len(),
            o@ == old(o)@,
            en == entries_model(o@),
            en.len() == o@.len(),
            forall|w: int| 0 <= w < o@.len() ==> en[w] == (#[trigger] o@[w].0@, o@[w].1.model()),
            forall|w: int| 0 <= w < idx ==> (#[trigger] en[w]).0 != key@,
        decreases o@.len() - idx,
    {
        if o[idx].0 == key {
            o.set(idx, (key, val));
            proof {
                lemma_upsert_at(en, key@, val.model(), idx as int);
                lemma_entries_model_len(o@);
                let up = en.update(idx as int, (key@, val.model()));
                assert forall|w: int|
                    0 <= w < entries_model(o@).len() implies entries_model(o@)[w] == up[w] by {
                    assert(entries_model(o@)[w] == (o@[w].0@, o@[w].1.model()));
                    if w != idx {
                        assert(o@[w] == old(o)@[w]);
                        assert(en[w] == (old(o)@[w].0@, old(o)@[w].1.model()));
                    }
                }
                assert(entries_model(o@) =~= up);
            }
            return;
        }
        idx += 1;
    }
    o.push((key, val));
    proof {
        lemma_upsert_absent(en, key@, val.model());
        lemma_entries_model_len(o@);
        let up = en.push((key@, val.model()));
        assert forall|w: int|
            0 <= w < entries_model(o@).len() implies entries_model(o@)[w] == up[w] by {
            assert(entries_model(o@)[w] == (o@[w].0@, o@[w].1.model()));
            if w < en.len() {
                assert(o@[w] == old(o)@[w]);
                assert(en[w] == (old(o)@[w].0@, old(o)@[w].1.model()));
            }
        }
        assert(entries_model(o@) =~= up);
    }
}

/// With unique keys, any matching entry gives the stored value.
pub proof fn lemma_key_value_unique(o: Seq<(Seq<char>, ValueModel)>, key: Seq<char>, w: int)
    requires
        keys_unique(o),
        0 <= w < o.len(),
        o[w].0 == key,
    ensures
        key_value(o, key) == o[w].1,
        has_key(o, key),
    decreases o.len(),
{
    if o.last().0 == key {
        assert(w == o.len() - 1);
    } else {
        assert(w < o.len() - 1);
        assert(o.drop_last()[w] == o[w]);
        lemma_key_value_unique(o.drop_last(), key, w);
    }
}

} // verus!
