//! JSON documents as plain values, and their exchange with text through
//! `serde_json`.
//!
//! The model ([`JsonModel`]) keeps an object's members in key order with no key
//! twice, which is how `serde_json` holds them (a `BTreeMap` keyed by `String`).
//! [`JsonValue`] is the library's own document type; the conversions to and from
//! `serde_json::Value` are verified against the contracts of a few small
//! trusted wrappers.

use vstd::prelude::*;
use crate::text::decimal;
use serde_json::Value as JsonDoc;

verus! {

// ---------------------------------------------------------------------------
// Text order.

/// `a` sorts strictly before `b`: lexicographic by code point, which is the
/// order of `String`'s `Ord` (byte order of UTF-8).
pub open spec fn text_lt(a: Seq<char>, b: Seq<char>) -> bool
    decreases a.len(),
{
    if a.len() == 0 {
        b.len() > 0
    } else if b.len() == 0 {
        false
    } else if (a[0] as int) < (b[0] as int) {
        true
    } else if a[0] == b[0] {
        text_lt(a.drop_first(), b.drop_first())
    } else {
        false
    }
}

/// Nothing sorts before itself.
pub proof fn lemma_text_lt_irreflexive(a: Seq<char>)
    ensures
        !text_lt(a, a),
    decreases a.len(),
{
    if a.len() > 0 {
        lemma_text_lt_irreflexive(a.drop_first());
    }
}

/// The text order is transitive.
pub proof fn lemma_text_lt_transitive(a: Seq<char>, b: Seq<char>, c: Seq<char>)
    requires
        text_lt(a, b),
        text_lt(b, c),
    ensures
        text_lt(a, c),
    decreases a.len(),
{
    if a.len() > 0 && b.len() > 0 && c.len() > 0 {
        if a[0] == b[0] && b[0] == c[0] {
            lemma_text_lt_transitive(a.drop_first(), b.drop_first(), c.drop_first());
        }
    }
}

/// Two different texts are ordered one way or the other.
pub proof fn lemma_text_lt_total(a: Seq<char>, b: Seq<char>)
    requires
        a != b,
    ensures
        text_lt(a, b) || text_lt(b, a),
    decreases a.len(),
{
    if a.len() > 0 && b.len() > 0 && a[0] == b[0] {
        if a.drop_first() == b.drop_first() {
            assert(a =~= seq![a[0]] + a.drop_first());
            assert(b =~= seq![b[0]] + b.drop_first());
        }
        lemma_text_lt_total(a.drop_first(), b.drop_first());
    } else if a.len() == 0 && b.len() == 0 {
        assert(a =~= b);
    }
}

/// The text order is asymmetric.
pub proof fn lemma_text_lt_asymmetric(a: Seq<char>, b: Seq<char>)
    requires
        text_lt(a, b),
    ensures
        !text_lt(b, a),
{
    if text_lt(b, a) {
        lemma_text_lt_transitive(a, b, a);
        lemma_text_lt_irreflexive(a);
    }
}

/// Whether `a` sorts strictly before `b`.
pub fn text_less(a: &str, b: &str) -> (r: bool)
    ensures
        r == text_lt(a@, b@),
{
    let la = a.unicode_len();
    let lb = b.unicode_len();
    let mut i: usize = 0;
    assert(a@.skip(0) =~= a@);
    assert(b@.skip(0) =~= b@);
    while i < la && i < lb
        invariant
            la == a@.len(),
            lb == b@.len(),
            i <= la,
            i <= lb,
            text_lt(a@, b@) == text_lt(a@.skip(i as int), b@.skip(i as int)),
        decreases la - i,
    {
        let ca = a.get_char(i);
        let cb = b.get_char(i);
        assert(a@.skip(i as int)[0] == ca);
        assert(b@.skip(i as int)[0] == cb);
        if (ca as u32) < (cb as u32) {
            return true;
        }
        if ca != cb {
            return false;
        }
        assert(a@.skip(i as int).drop_first() =~= a@.skip(i + 1));
        assert(b@.skip(i as int).drop_first() =~= b@.skip(i + 1));
        i = i + 1;
    }
    i == la && i < lb
}

// ---------------------------------------------------------------------------
// The model.

/// A JSON value as mathematics sees it.
pub enum JsonModel {
    Null,
    Bool(bool),
    /// A number, by its canonical text (as `serde_json` writes it).
    Number(Seq<char>),
    Str(Seq<char>),
    Array(Seq<JsonModel>),
    /// The members, in key order, each key once.
    Object(Seq<(Seq<char>, JsonModel)>),
}

/// The keys of a member list sort strictly increasing (so no key occurs twice).
pub open spec fn keys_sorted<A>(es: Seq<(Seq<char>, A)>) -> bool {
    forall|i: int, j: int| 0 <= i < j < es.len() ==> text_lt(#[trigger] es[i].0, #[trigger] es[j].0)
}

/// The value stored under `key`: the last member with that key.
pub open spec fn entry_value<A>(es: Seq<(Seq<char>, A)>, key: Seq<char>) -> Option<A>
    decreases es.len(),
{
    if es.len() == 0 {
        None
    } else if es.last().0 == key {
        Some(es.last().1)
    } else {
        entry_value(es.drop_last(), key)
    }
}

/// The member of `m` under `key`, when `m` is an object.
pub open spec fn model_get(m: JsonModel, key: Seq<char>) -> Option<JsonModel> {
    match m {
        JsonModel::Object(es) => entry_value(es, key),
        _ => None,
    }
}

/// The text of `m`, when it is a string.
pub open spec fn model_str(m: JsonModel) -> Option<Seq<char>> {
    match m {
        JsonModel::Str(s) => Some(s),
        _ => None,
    }
}

/// The items of `m`, when it is an array.
pub open spec fn model_items(m: JsonModel) -> Option<Seq<JsonModel>> {
    match m {
        JsonModel::Array(s) => Some(s),
        _ => None,
    }
}

/// `m` and everything inside it keeps object members in key order.
pub open spec fn json_wf(m: JsonModel) -> bool
    decreases m,
{
    match m {
        JsonModel::Array(items) => items_wf(items),
        JsonModel::Object(es) => keys_sorted(es) && entries_wf(es),
        _ => true,
    }
}

/// Every item is well formed.
pub open spec fn items_wf(s: Seq<JsonModel>) -> bool
    decreases s,
{
    if s.len() == 0 { true } else { items_wf(s.drop_last()) && json_wf(s.last()) }
}

/// Every member's value is well formed.
pub open spec fn entries_wf(s: Seq<(Seq<char>, JsonModel)>) -> bool
    decreases s,
{
    if s.len() == 0 { true } else { entries_wf(s.drop_last()) && json_wf(s.last().1) }
}

pub proof fn lemma_items_wf(s: Seq<JsonModel>)
    ensures
        items_wf(s) <==> forall|i: int| 0 <= i < s.len() ==> json_wf(#[trigger] s[i]),
    decreases s.len(),
{
    if s.len() > 0 {
        lemma_items_wf(s.drop_last());
        if items_wf(s) {
            assert forall|i: int| 0 <= i < s.len() implies json_wf(#[trigger] s[i]) by {
                if i < s.len() - 1 {
                    assert(s[i] == s.drop_last()[i]);
                }
            }
        }
        if forall|i: int| 0 <= i < s.len() ==> json_wf(#[trigger] s[i]) {
            assert forall|i: int| 0 <= i < s.drop_last().len() implies json_wf(#[trigger] s.drop_last()[i]) by {
                assert(s[i] == s.drop_last()[i]);
            }
            assert(json_wf(s[s.len() - 1]));
        }
    }
}

pub proof fn lemma_entries_wf(s: Seq<(Seq<char>, JsonModel)>)
    ensures
        entries_wf(s) <==> forall|i: int| 0 <= i < s.len() ==> json_wf(#[trigger] s[i].1),
    decreases s.len(),
{
    if s.len() > 0 {
        lemma_entries_wf(s.drop_last());
        if entries_wf(s) {
            assert forall|i: int| 0 <= i < s.len() implies json_wf(#[trigger] s[i].1) by {
                if i < s.len() - 1 {
                    assert(s[i] == s.drop_last()[i]);
                }
            }
        }
        if forall|i: int| 0 <= i < s.len() ==> json_wf(#[trigger] s[i].1) {
            assert forall|i: int| 0 <= i < s.drop_last().len() implies json_wf(#[trigger] s.drop_last()[i].1) by {
                assert(s[i] == s.drop_last()[i]);
            }
            assert(json_wf(s[s.len() - 1].1));
        }
    }
}

/// `m` is a value that `serde_json` reads back exactly from the text it
/// writes for it: arrays and objects nested at most `depth` deep, and every
/// number an integer that an `i64` or a `u64` holds. (Its reader refuses
/// nesting deeper than 127, and reads a fraction only to within rounding.)
pub open spec fn reads_back(m: JsonModel, depth: nat) -> bool
    decreases m,
{
    match m {
        JsonModel::Number(t) => exists|i: int| i64::MIN <= i <= u64::MAX && #[trigger] int_text(i) == t,
        JsonModel::Array(items) => depth > 0 && items_read_back(items, (depth - 1) as nat),
        JsonModel::Object(es) => depth > 0 && entries_read_back(es, (depth - 1) as nat),
        _ => true,
    }
}

/// Every item reads back within `depth`.
pub open spec fn items_read_back(s: Seq<JsonModel>, depth: nat) -> bool
    decreases s,
{
    if s.len() == 0 { true } else { items_read_back(s.drop_last(), depth) && reads_back(s.last(), depth) }
}

/// Every member's value reads back within `depth`.
pub open spec fn entries_read_back(s: Seq<(Seq<char>, JsonModel)>, depth: nat) -> bool
    decreases s,
{
    if s.len() == 0 { true } else { entries_read_back(s.drop_last(), depth) && reads_back(s.last().1, depth) }
}

pub proof fn lemma_items_read_back(s: Seq<JsonModel>, depth: nat)
    ensures
        items_read_back(s, depth) <==> forall|i: int| 0 <= i < s.len() ==> reads_back(#[trigger] s[i], depth),
    decreases s.len(),
{
    if s.len() > 0 {
        lemma_items_read_back(s.drop_last(), depth);
        if items_read_back(s, depth) {
            assert forall|i: int| 0 <= i < s.len() implies reads_back(#[trigger] s[i], depth) by {
                if i < s.len() - 1 {
                    assert(s[i] == s.drop_last()[i]);
                }
            }
        }
        if forall|i: int| 0 <= i < s.len() ==> reads_back(#[trigger] s[i], depth) {
            assert forall|i: int| 0 <= i < s.drop_last().len() implies reads_back(#[trigger] s.drop_last()[i], depth) by {
                assert(s[i] == s.drop_last()[i]);
            }
            assert(reads_back(s[s.len() - 1], depth));
        }
    }
}

pub proof fn lemma_entries_read_back(s: Seq<(Seq<char>, JsonModel)>, depth: nat)
    ensures
        entries_read_back(s, depth) <==> forall|i: int| 0 <= i < s.len() ==> reads_back(#[trigger] s[i].1, depth),
    decreases s.len(),
{
    if s.len() > 0 {
        lemma_entries_read_back(s.drop_last(), depth);
        if entries_read_back(s, depth) {
            assert forall|i: int| 0 <= i < s.len() implies reads_back(#[trigger] s[i].1, depth) by {
                if i < s.len() - 1 {
                    assert(s[i] == s.drop_last()[i]);
                }
            }
        }
        if forall|i: int| 0 <= i < s.len() ==> reads_back(#[trigger] s[i].1, depth) {
            assert forall|i: int| 0 <= i < s.drop_last().len() implies reads_back(#[trigger] s.drop_last()[i].1, depth) by {
                assert(s[i] == s.drop_last()[i]);
            }
            assert(reads_back(s[s.len() - 1].1, depth));
        }
    }
}

/// The canonical text of an integer.
pub open spec fn int_text(n: int) -> Seq<char> {
    if n < 0 { seq!['-'] + decimal((-n) as nat) } else { decimal(n as nat) }
}


// ---------------------------------------------------------------------------
// Member lists.

/// In a list whose keys sort strictly increasing, a key's value is the value
/// at the key's one position.
pub proof fn lemma_sorted_lookup<A>(es: Seq<(Seq<char>, A)>, j: int)
    requires
        keys_sorted(es),
        0 <= j < es.len(),
    ensures
        entry_value(es, es[j].0) == Some(es[j].1),
    decreases es.len(),
{
    if j < es.len() - 1 {
        let d = es.drop_last();
        assert(text_lt(es[j].0, es[es.len() - 1].0));
        lemma_text_lt_irreflexive(es[j].0);
        assert(keys_sorted(d)) by {
            assert forall|a: int, b: int| 0 <= a < b < d.len() implies text_lt(#[trigger] d[a].0, #[trigger] d[b].0) by {
                assert(d[a] == es[a] && d[b] == es[b]);
            }
        }
        assert(d[j] == es[j]);
        lemma_sorted_lookup(d, j);
    }
}

/// A key that no member carries has no value.
pub proof fn lemma_absent_lookup<A>(es: Seq<(Seq<char>, A)>, key: Seq<char>)
    requires
        forall|j: int| 0 <= j < es.len() ==> (#[trigger] es[j]).0 != key,
    ensures
        entry_value(es, key) is None,
    decreases es.len(),
{
    if es.len() > 0 {
        let d = es.drop_last();
        assert forall|j: int| 0 <= j < d.len() implies (#[trigger] d[j]).0 != key by {
            assert(d[j] == es[j]);
        }
        assert(es[es.len() - 1].0 != key);
        lemma_absent_lookup(d, key);
    }
}

/// A key that has a value is carried by some member with that value.
pub proof fn lemma_present_lookup<A>(es: Seq<(Seq<char>, A)>, key: Seq<char>)
    requires
        entry_value(es, key) is Some,
    ensures
        exists|j: int| 0 <= j < es.len() && (#[trigger] es[j]).0 == key && Some(es[j].1) == entry_value(es, key),
    decreases es.len(),
{
    if es.last().0 == key {
        assert(es[es.len() - 1].0 == key);
    } else {
        lemma_present_lookup(es.drop_last(), key);
        let j = choose|j: int| 0 <= j < es.drop_last().len() && (#[trigger] es.drop_last()[j]).0 == key
            && Some(es.drop_last()[j].1) == entry_value(es.drop_last(), key);
        assert(es[j] == es.drop_last()[j]);
    }
}

/// Looking a key up in `p + q`: what `q` says, else what `p` says.
pub proof fn lemma_entry_value_concat<A>(p: Seq<(Seq<char>, A)>, q: Seq<(Seq<char>, A)>, key: Seq<char>)
    ensures
        entry_value(p + q, key) == match entry_value(q, key) {
            Some(v) => Some(v),
            None => entry_value(p, key),
        },
    decreases q.len(),
{
    if q.len() == 0 {
        assert(p + q =~= p);
    } else {
        assert((p + q).drop_last() =~= p + q.drop_last());
        assert((p + q).last() == q.last());
        lemma_entry_value_concat(p, q.drop_last(), key);
    }
}

/// A key-sorted member list is determined by its lookups.
pub proof fn lemma_sorted_unique<A>(a: Seq<(Seq<char>, A)>, b: Seq<(Seq<char>, A)>)
    requires
        keys_sorted(a),
        keys_sorted(b),
        forall|k: Seq<char>| #[trigger] entry_value(a, k) == entry_value(b, k),
    ensures
        a == b,
    decreases a.len() + b.len(),
{
    if a.len() == 0 && b.len() == 0 {
        assert(a =~= b);
    } else if a.len() == 0 {
        lemma_sorted_lookup(b, b.len() - 1);
        lemma_absent_lookup(a, b[b.len() - 1].0);
    } else if b.len() == 0 {
        lemma_sorted_lookup(a, a.len() - 1);
        lemma_absent_lookup(b, a[a.len() - 1].0);
    } else {
        let ka = a[a.len() - 1].0;
        let kb = b[b.len() - 1].0;
        lemma_sorted_lookup(a, a.len() - 1);
        lemma_sorted_lookup(b, b.len() - 1);
        if ka != kb {
            lemma_present_lookup(b, ka);
            lemma_present_lookup(a, kb);
            let i = choose|j: int| 0 <= j < b.len() && (#[trigger] b[j]).0 == ka && Some(b[j].1) == entry_value(b, ka);
            let j = choose|j: int| 0 <= j < a.len() && (#[trigger] a[j]).0 == kb && Some(a[j].1) == entry_value(a, kb);
            assert(text_lt(a[j].0, ka));
            assert(text_lt(b[i].0, kb));
            lemma_text_lt_asymmetric(kb, ka);
        }
        assert(a.last() == b.last());
        let da = a.drop_last();
        let db = b.drop_last();
        assert(keys_sorted(da)) by {
            assert forall|x: int, y: int| 0 <= x < y < da.len() implies text_lt(#[trigger] da[x].0, #[trigger] da[y].0) by {
                assert(da[x] == a[x] && da[y] == a[y]);
            }
        }
        assert(keys_sorted(db)) by {
            assert forall|x: int, y: int| 0 <= x < y < db.len() implies text_lt(#[trigger] db[x].0, #[trigger] db[y].0) by {
                assert(db[x] == b[x] && db[y] == b[y]);
            }
        }
        assert forall|k: Seq<char>| #[trigger] entry_value(da, k) == entry_value(db, k) by {
            if k == ka {
                assert forall|j: int| 0 <= j < da.len() implies (#[trigger] da[j]).0 != k by {
                    assert(da[j] == a[j]);
                    assert(text_lt(a[j].0, ka));
                    lemma_text_lt_irreflexive(ka);
                }
                assert forall|j: int| 0 <= j < db.len() implies (#[trigger] db[j]).0 != k by {
                    assert(db[j] == b[j]);
                    assert(text_lt(b[j].0, kb));
                    lemma_text_lt_irreflexive(kb);
                }
                lemma_absent_lookup(da, k);
                lemma_absent_lookup(db, k);
            } else {
                assert(entry_value(a, k) == entry_value(da, k));
                assert(entry_value(b, k) == entry_value(db, k));
            }
        }
        lemma_sorted_unique(da, db);
        assert(a =~= da.push(a.last()));
        assert(b =~= db.push(b.last()));
    }
}

/// The object holding `entries`: its members sorted by key, each key with the
/// last value given for it.
pub open spec fn canonical_object(entries: Seq<(Seq<char>, JsonModel)>) -> JsonModel {
    JsonModel::Object(
        choose|es: Seq<(Seq<char>, JsonModel)>|
            keys_sorted(es) && forall|k: Seq<char>| #[trigger] entry_value(es, k) == entry_value(entries, k),
    )
}

/// `es` with `(k, v)` put in its place by key, replacing a member with key `k`.
pub open spec fn sorted_insert<A>(es: Seq<(Seq<char>, A)>, k: Seq<char>, v: A) -> Seq<(Seq<char>, A)>
    decreases es.len(),
{
    if es.len() == 0 {
        seq![(k, v)]
    } else if es.last().0 == k {
        es.drop_last().push((k, v))
    } else if text_lt(es.last().0, k) {
        es.push((k, v))
    } else {
        sorted_insert(es.drop_last(), k, v).push(es.last())
    }
}

/// The members of `entries` sorted by key, each key with its last value.
pub open spec fn sorted_entries<A>(entries: Seq<(Seq<char>, A)>) -> Seq<(Seq<char>, A)>
    decreases entries.len(),
{
    if entries.len() == 0 {
        Seq::empty()
    } else {
        sorted_insert(sorted_entries(entries.drop_last()), entries.last().0, entries.last().1)
    }
}

proof fn lemma_sorted_drop_last<A>(es: Seq<(Seq<char>, A)>)
    requires
        keys_sorted(es),
        es.len() > 0,
    ensures
        keys_sorted(es.drop_last()),
        forall|i: int| 0 <= i < es.len() - 1 ==> text_lt(#[trigger] es[i].0, es.last().0),
{
    let d = es.drop_last();
    assert forall|a: int, b: int| 0 <= a < b < d.len() implies text_lt(#[trigger] d[a].0, #[trigger] d[b].0) by {
        assert(d[a] == es[a] && d[b] == es[b]);
    }
    assert forall|i: int| 0 <= i < es.len() - 1 implies text_lt(#[trigger] es[i].0, es.last().0) by {
        assert(text_lt(es[i].0, es[es.len() - 1].0));
    }
}

/// Inserting keeps the order, sets `k`, and leaves every other key alone.
proof fn lemma_sorted_insert<A>(es: Seq<(Seq<char>, A)>, k: Seq<char>, v: A)
    requires
        keys_sorted(es),
    ensures
        keys_sorted(sorted_insert(es, k, v)),
        forall|key: Seq<char>| #[trigger] entry_value(sorted_insert(es, k, v), key)
            == if key == k { Some(v) } else { entry_value(es, key) },
        forall|i: int| 0 <= i < sorted_insert(es, k, v).len() ==> (#[trigger] sorted_insert(es, k, v)[i]).0 == k
            || exists|j: int| 0 <= j < es.len() && (#[trigger] es[j]).0 == sorted_insert(es, k, v)[i].0,
    decreases es.len(),
{
    let r = sorted_insert(es, k, v);
    if es.len() == 0 {
        assert(r == seq![(k, v)]);
        assert(keys_sorted(r));
        assert forall|key: Seq<char>| #[trigger] entry_value(r, key)
            == if key == k { Some(v) } else { entry_value(es, key) } by {
            assert(r.drop_last() =~= Seq::<(Seq<char>, A)>::empty());
            assert(entry_value(r.drop_last(), key) is None);
            assert(r.last() == (k, v));
        }
    } else {
        let d = es.drop_last();
        let last = es.last();
        lemma_sorted_drop_last(es);
        if last.0 == k {
            assert(r.drop_last() =~= d);
            assert forall|a: int, b: int| 0 <= a < b < r.len() implies text_lt(#[trigger] r[a].0, #[trigger] r[b].0) by {
                if b == r.len() - 1 {
                    assert(r[a] == es[a]);
                } else {
                    assert(r[a] == d[a] && r[b] == d[b]);
                }
            }
            assert forall|key: Seq<char>| #[trigger] entry_value(r, key)
                == if key == k { Some(v) } else { entry_value(es, key) } by {}
            assert forall|i: int| 0 <= i < r.len() implies (#[trigger] r[i]).0 == k
                || exists|j: int| 0 <= j < es.len() && (#[trigger] es[j]).0 == r[i].0 by {
                if i < r.len() - 1 {
                    assert(r[i] == es[i]);
                }
            }
        } else if text_lt(last.0, k) {
            assert(r.drop_last() =~= es);
            assert forall|a: int, b: int| 0 <= a < b < r.len() implies text_lt(#[trigger] r[a].0, #[trigger] r[b].0) by {
                if b == r.len() - 1 {
                    assert(r[a] == es[a]);
                    if a < es.len() - 1 {
                        lemma_text_lt_transitive(es[a].0, last.0, k);
                    }
                } else {
                    assert(r[a] == es[a] && r[b] == es[b]);
                }
            }
            assert forall|key: Seq<char>| #[trigger] entry_value(r, key)
                == if key == k { Some(v) } else { entry_value(es, key) } by {}
            assert forall|i: int| 0 <= i < r.len() implies (#[trigger] r[i]).0 == k
                || exists|j: int| 0 <= j < es.len() && (#[trigger] es[j]).0 == r[i].0 by {
                if i < r.len() - 1 {
                    assert(r[i] == es[i]);
                }
            }
        } else {
            lemma_text_lt_total(last.0, k);
            let rest = sorted_insert(d, k, v);
            lemma_sorted_insert(d, k, v);
            assert(r.drop_last() =~= rest);
            assert forall|a: int, b: int| 0 <= a < b < r.len() implies text_lt(#[trigger] r[a].0, #[trigger] r[b].0) by {
                if b == r.len() - 1 {
                    assert(r[a] == rest[a]);
                    if rest[a].0 != k {
                        let j = choose|j: int| 0 <= j < d.len() && (#[trigger] d[j]).0 == rest[a].0;
                        assert(d[j] == es[j]);
                    }
                } else {
                    assert(r[a] == rest[a] && r[b] == rest[b]);
                }
            }
            assert forall|key: Seq<char>| #[trigger] entry_value(r, key)
                == if key == k { Some(v) } else { entry_value(es, key) } by {
                if key == last.0 {
                    lemma_text_lt_irreflexive(k);
                } else {
                    assert(entry_value(r, key) == entry_value(rest, key));
                }
            }
            assert forall|i: int| 0 <= i < r.len() implies (#[trigger] r[i]).0 == k
                || exists|j: int| 0 <= j < es.len() && (#[trigger] es[j]).0 == r[i].0 by {
                if i < r.len() - 1 {
                    assert(r[i] == rest[i]);
                    if rest[i].0 != k {
                        let j = choose|j: int| 0 <= j < d.len() && (#[trigger] d[j]).0 == rest[i].0;
                        assert(d[j] == es[j]);
                    }
                } else {
                    assert(es[es.len() - 1] == r[i]);
                }
            }
        }
    }
}

/// Sorting a member list keeps its lookups.
proof fn lemma_sorted_entries<A>(entries: Seq<(Seq<char>, A)>)
    ensures
        keys_sorted(sorted_entries(entries)),
        forall|key: Seq<char>| #[trigger] entry_value(sorted_entries(entries), key) == entry_value(entries, key),
    decreases entries.len(),
{
    if entries.len() > 0 {
        lemma_sorted_entries(entries.drop_last());
        lemma_sorted_insert(sorted_entries(entries.drop_last()), entries.last().0, entries.last().1);
    }
}

/// The members of [`canonical_object`] are sorted by key and carry each key's
/// last value.
pub proof fn lemma_canonical_object(entries: Seq<(Seq<char>, JsonModel)>)
    ensures
        canonical_object(entries) is Object,
        keys_sorted(canonical_object(entries)->Object_0),
        forall|k: Seq<char>| #[trigger] model_get(canonical_object(entries), k) == entry_value(entries, k),
{
    lemma_sorted_entries(entries);
    let w = sorted_entries(entries);
    assert(keys_sorted(w) && forall|k: Seq<char>| #[trigger] entry_value(w, k) == entry_value(entries, k));
}

/// An object whose given members all read back within `depth - 1` reads
/// back within `depth`.
pub proof fn lemma_canonical_object_reads_back(entries: Seq<(Seq<char>, JsonModel)>, depth: nat)
    requires
        depth > 0,
        forall|j: int| 0 <= j < entries.len() ==> reads_back(#[trigger] entries[j].1, (depth - 1) as nat),
    ensures
        reads_back(canonical_object(entries), depth),
{
    lemma_canonical_object(entries);
    let es = canonical_object(entries)->Object_0;
    assert forall|i: int| 0 <= i < es.len() implies reads_back(#[trigger] es[i].1, (depth - 1) as nat) by {
        lemma_sorted_lookup(es, i);
        assert(model_get(canonical_object(entries), es[i].0) == entry_value(entries, es[i].0));
        lemma_present_lookup(entries, es[i].0);
        let j = choose|j: int| 0 <= j < entries.len() && (#[trigger] entries[j]).0 == es[i].0
            && Some(entries[j].1) == entry_value(entries, es[i].0);
        assert(entries[j].1 == es[i].1);
    }
    lemma_entries_read_back(es, (depth - 1) as nat);
}

// ---------------------------------------------------------------------------
// The library's document type.

#[verifier::external_type_specification]
#[verifier::external_body]
pub struct ExSerdeJsonValue(serde_json::Value);

#[verifier::external_type_specification]
#[verifier::external_body]
pub struct ExSerdeJsonNumber(serde_json::Number);

/// `serde_json::Number::clone` copies the number.
pub assume_specification[ <serde_json::Number as Clone>::clone ](n: &serde_json::Number) -> (r: serde_json::Number)
    ensures
        r == *n,
;

/// A JSON number: its canonical text, with the number it stands for.
#[derive(Debug)]
pub struct JsonNumber {
    text: String,
    raw: serde_json::Number,
}

impl View for JsonNumber {
    type V = Seq<char>;

    closed spec fn view(&self) -> Seq<char> {
        self.text@
    }
}

impl JsonNumber {
    /// The number's canonical text.
    pub fn text(&self) -> (r: &String)
        ensures
            r@ == self@,
    {
        &self.text
    }
}

impl Clone for JsonNumber {
    fn clone(&self) -> (r: Self)
        ensures
            r@ == self@,
    {
        JsonNumber { text: self.text.clone(), raw: self.raw.clone() }
    }
}

/// A JSON value, as plain data. Object members are kept in key order when the
/// value is built by [`JsonValue::object`] or read from text.
#[derive(Debug)]
pub enum JsonValue {
    Null,
    Bool(bool),
    Number(JsonNumber),
    String(String),
    Array(Vec<JsonValue>),
    Object(Vec<(String, JsonValue)>),
}

/// The model of a value.
pub open spec fn json_model(v: JsonValue) -> JsonModel
    decreases v,
{
    match v {
        JsonValue::Null => JsonModel::Null,
        JsonValue::Bool(b) => JsonModel::Bool(b),
        JsonValue::Number(n) => JsonModel::Number(n@),
        JsonValue::String(s) => JsonModel::Str(s@),
        JsonValue::Array(items) => JsonModel::Array(json_models(items@)),
        JsonValue::Object(es) => JsonModel::Object(json_entries(es@)),
    }
}

/// The models of a list of values.
pub open spec fn json_models(s: Seq<JsonValue>) -> Seq<JsonModel>
    decreases s,
{
    if s.len() == 0 { Seq::empty() } else { json_models(s.drop_last()).push(json_model(s.last())) }
}

/// The models of a member list.
pub open spec fn json_entries(s: Seq<(String, JsonValue)>) -> Seq<(Seq<char>, JsonModel)>
    decreases s,
{
    if s.len() == 0 {
        Seq::empty()
    } else {
        json_entries(s.drop_last()).push((s.last().0@, json_model(s.last().1)))
    }
}

impl View for JsonValue {
    type V = JsonModel;

    open spec fn view(&self) -> JsonModel {
        json_model(*self)
    }
}

pub proof fn lemma_json_models(s: Seq<JsonValue>)
    ensures
        json_models(s).len() == s.len(),
        forall|i: int| 0 <= i < s.len() ==> #[trigger] json_models(s)[i] == s[i]@,
    decreases s.len(),
{
    if s.len() > 0 {
        lemma_json_models(s.drop_last());
        assert forall|i: int| 0 <= i < s.len() implies #[trigger] json_models(s)[i] == s[i]@ by {
            if i < s.len() - 1 {
                assert(s.drop_last()[i] == s[i]);
            }
        }
    }
}

pub proof fn lemma_json_entries(s: Seq<(String, JsonValue)>)
    ensures
        json_entries(s).len() == s.len(),
        forall|i: int| 0 <= i < s.len() ==> #[trigger] json_entries(s)[i] == (s[i].0@, s[i].1@),
    decreases s.len(),
{
    if s.len() > 0 {
        lemma_json_entries(s.drop_last());
        assert forall|i: int| 0 <= i < s.len() implies #[trigger] json_entries(s)[i] == (s[i].0@, s[i].1@) by {
            if i < s.len() - 1 {
                assert(s.drop_last()[i] == s[i]);
            }
        }
    }
}

impl JsonValue {
    /// A string value.
    pub fn string(s: &str) -> (r: JsonValue)
        ensures
            r@ == JsonModel::Str(s@),
    {
        JsonValue::String(String::from_str(s))
    }

    /// The member under `key`, when this is an object that has one.
    pub fn get(&self, key: &str) -> (r: Option<&JsonValue>)
        ensures
            match r {
                Some(v) => model_get(self@, key@) == Some(v@),
                None => model_get(self@, key@) is None,
            },
    {
        match self {
            JsonValue::Object(es) => {
                let ghost all = json_entries(es@);
                proof { lemma_json_entries(es@); }
                let mut i: usize = es.len();
                assert(all.take(i as int) =~= all);
                assert(self@ == JsonModel::Object(all));
                while i > 0
                    invariant
                        self@ == JsonModel::Object(all),
                        i <= es@.len(),
                        all == json_entries(es@),
                        all.len() == es@.len(),
                        forall|k: int| 0 <= k < es@.len() ==> #[trigger] all[k] == (es@[k].0@, es@[k].1@),
                        entry_value(all, key@) == entry_value(all.take(i as int), key@),
                    decreases i,
                {
                    i = i - 1;
                    assert(all.take(i + 1).drop_last() =~= all.take(i as int));
                    assert(all.take(i + 1).last() == all[i as int]);
                    if es[i].0.as_str().unicode_len() == key.unicode_len() && text_equal(es[i].0.as_str(), key) {
                        assert(all[i as int].0 == key@);
                        assert(entry_value(all.take(i + 1), key@) == Some(all[i as int].1));
                        assert(self@ == JsonModel::Object(all));
                        return Some(&es[i].1);
                    }
                }
                assert(all.take(0) =~= Seq::<(Seq<char>, JsonModel)>::empty());
                assert(self@ == JsonModel::Object(all));
                None
            },
            _ => None,
        }
    }

    /// The text, when this is a string.
    pub fn as_str(&self) -> (r: Option<&String>)
        ensures
            match r {
                Some(s) => model_str(self@) == Some(s@),
                None => model_str(self@) is None,
            },
    {
        match self {
            JsonValue::String(s) => Some(s),
            _ => None,
        }
    }

    /// The items, when this is an array.
    pub fn as_array(&self) -> (r: Option<&Vec<JsonValue>>)
        ensures
            match r {
                Some(items) => model_items(self@) == Some(json_models(items@)),
                None => model_items(self@) is None,
            },
    {
        match self {
            JsonValue::Array(items) => Some(items),
            _ => None,
        }
    }
}

/// Whether two texts are equal.
pub fn text_equal(a: &str, b: &str) -> (r: bool)
    ensures
        r == (a@ == b@),
{
    let la = a.unicode_len();
    let lb = b.unicode_len();
    if la != lb {
        return false;
    }
    let mut i: usize = 0;
    while i < la
        invariant
            la == a@.len(),
            lb == b@.len(),
            la == lb,
            i <= la,
            forall|k: int| 0 <= k < i ==> a@[k] == b@[k],
        decreases la - i,
    {
        if a.get_char(i) != b.get_char(i) {
            return false;
        }
        i = i + 1;
    }
    assert(a@ =~= b@);
    true
}


/// Two lists with the same items by view have the same models.
pub proof fn lemma_json_models_ext(a: Seq<JsonValue>, b: Seq<JsonValue>)
    requires
        a.len() == b.len(),
        forall|i: int| 0 <= i < a.len() ==> (#[trigger] a[i])@ == b[i]@,
    ensures
        json_models(a) == json_models(b),
{
    lemma_json_models(a);
    lemma_json_models(b);
    assert(json_models(a) =~= json_models(b));
}

/// Two member lists with the same members by view have the same models.
pub proof fn lemma_json_entries_ext(a: Seq<(String, JsonValue)>, b: Seq<(String, JsonValue)>)
    requires
        a.len() == b.len(),
        forall|i: int| 0 <= i < a.len() ==> (#[trigger] a[i]).0@ == b[i].0@ && a[i].1@ == b[i].1@,
    ensures
        json_entries(a) == json_entries(b),
{
    lemma_json_entries(a);
    lemma_json_entries(b);
    assert(json_entries(a) =~= json_entries(b));
}

/// A copy of a value.
pub fn clone_value(v: &JsonValue) -> (r: JsonValue)
    ensures
        r@ == v@,
    decreases v,
{
    match v {
        JsonValue::Null => JsonValue::Null,
        JsonValue::Bool(b) => JsonValue::Bool(*b),
        JsonValue::Number(n) => JsonValue::Number(n.clone()),
        JsonValue::String(s) => JsonValue::String(s.clone()),
        JsonValue::Array(items) => {
            let mut out: Vec<JsonValue> = Vec::new();
            let mut i: usize = 0;
            while i < items.len()
                invariant
                    *v == JsonValue::Array(*items),
                    i <= items@.len(),
                    out@.len() == i,
                    forall|k: int| 0 <= k < i ==> (#[trigger] out@[k])@ == items@[k]@,
                decreases items@.len() - i,
            {
                proof {
                    assert(decreases_to!(*v => (*v)->Array_0));
                    assert(decreases_to!((*v)->Array_0 => items@));
                    assert(decreases_to!(items@ => items@[i as int]));
                }
                let c = clone_value(&items[i]);
                out.push(c);
                i = i + 1;
            }
            proof {
                lemma_json_models_ext(out@, items@);
            }
            JsonValue::Array(out)
        },
        JsonValue::Object(es) => {
            let mut out: Vec<(String, JsonValue)> = Vec::new();
            let mut i: usize = 0;
            while i < es.len()
                invariant
                    *v == JsonValue::Object(*es),
                    i <= es@.len(),
                    out@.len() == i,
                    forall|k: int| 0 <= k < i ==> (#[trigger] out@[k]).0@ == es@[k].0@ && out@[k].1@ == es@[k].1@,
                decreases es@.len() - i,
            {
                proof {
                    assert(decreases_to!(*v => (*v)->Object_0));
                    assert(decreases_to!((*v)->Object_0 => es@));
                    assert(decreases_to!(es@ => es@[i as int]));
                    assert(decreases_to!(es@[i as int] => es@[i as int].1));
                }
                let c = clone_value(&es[i].1);
                out.push((es[i].0.clone(), c));
                i = i + 1;
            }
            proof {
                lemma_json_entries_ext(out@, es@);
            }
            JsonValue::Object(out)
        },
    }
}

impl Clone for JsonValue {
    fn clone(&self) -> (r: Self)
        ensures
            r@ == self@,
    {
        clone_value(self)
    }
}

/// Where `key` belongs in a member list sorted by key: the first position whose
/// key does not sort before it.
fn key_position(out: &Vec<(String, JsonValue)>, key: &String) -> (p: usize)
    requires
        keys_sorted(json_entries(out@)),
    ensures
        p <= out@.len(),
        forall|i: int| 0 <= i < p ==> text_lt(#[trigger] out@[i].0@, key@),
        p < out@.len() ==> !text_lt(out@[p as int].0@, key@),
{
    let mut p: usize = 0;
    while p < out.len() && text_less(out[p].0.as_str(), key.as_str())
        invariant
            p <= out@.len(),
            forall|i: int| 0 <= i < p ==> text_lt(#[trigger] out@[i].0@, key@),
        decreases out@.len() - p,
    {
        p = p + 1;
    }
    p
}

impl JsonValue {
    /// An object holding `entries`: members sorted by key, and a key given twice
    /// keeps its later value.
    pub fn object(entries: Vec<(String, JsonValue)>) -> (r: JsonValue)
        ensures
            r@ == canonical_object(json_entries(entries@)),
            keys_sorted(r@->Object_0),
            forall|k: Seq<char>| #[trigger] entry_value(r@->Object_0, k) == entry_value(json_entries(entries@), k),
            (forall|i: int| 0 <= i < entries@.len() ==> json_wf((#[trigger] entries@[i]).1@)) ==> json_wf(r@),
    {
        let ghost all = json_entries(entries@);
        let ghost all_wf = forall|i: int| 0 <= i < entries@.len() ==> json_wf((#[trigger] entries@[i]).1@);
        proof { lemma_json_entries(entries@); }
        let mut entries = entries;
        let mut out: Vec<(String, JsonValue)> = Vec::new();
        assert(all.skip(all.len() as int) =~= Seq::<(Seq<char>, JsonModel)>::empty());
        assert(entries@ =~= entries@.take(entries@.len() as int));
        while entries.len() > 0
            invariant
                all.len() >= entries@.len(),
                forall|i: int| 0 <= i < entries@.len() ==> #[trigger] all[i] == (entries@[i].0@, entries@[i].1@),
                all_wf ==> forall|i: int| 0 <= i < entries@.len() ==> json_wf((#[trigger] entries@[i]).1@),
                all_wf ==> forall|i: int| 0 <= i < out@.len() ==> json_wf((#[trigger] out@[i]).1@),
                keys_sorted(json_entries(out@)),
                forall|k: Seq<char>| #[trigger] entry_value(json_entries(out@), k)
                    == entry_value(all.skip(entries@.len() as int), k),
            decreases entries@.len(),
        {
            let ghost n = entries@.len();
            let ghost before = json_entries(out@);
            proof { lemma_json_entries(out@); }
            let (key, value) = entries.pop().unwrap();
            let ghost kv = key@;
            assert(all[n - 1] == (key@, value@));
            let p = key_position(&out, &key);
            proof {
                assert(all.skip(n - 1) =~= seq![all[n - 1]] + all.skip(n as int));
                assert forall|k: Seq<char>| #[trigger] entry_value(all.skip(n - 1), k)
                    == match entry_value(all.skip(n as int), k) {
                        Some(v) => Some(v),
                        None => entry_value(seq![all[n - 1]], k),
                    } by {
                    lemma_entry_value_concat(seq![all[n - 1]], all.skip(n as int), k);
                }
                assert(seq![all[n - 1]].drop_last() =~= Seq::<(Seq<char>, JsonModel)>::empty());
            }
            if p < out.len() && out[p].0 == key {
                // A later member already set this key; it keeps its value.
                proof {
                    assert(before[p as int].0 == key@);
                    lemma_sorted_lookup(before, p as int);
                    assert forall|k: Seq<char>| #[trigger] entry_value(json_entries(out@), k)
                        == entry_value(all.skip(n - 1), k) by {
                        if k != kv {
                            let one = seq![all[n - 1]];
                            assert(one.last() == all[n - 1]);
                            assert(one.drop_last() =~= Seq::<(Seq<char>, JsonModel)>::empty());
                            assert(entry_value(one.drop_last(), k) is None);
                            assert(entry_value(one, k) is None);
                        }
                    }
                }
            } else {
                proof {
                    assert forall|i: int| 0 <= i < before.len() implies (#[trigger] before[i]).0 != key@ by {
                        if i < p {
                            lemma_text_lt_irreflexive(key@);
                        } else {
                            assert(p < out@.len());
                            assert(out@[p as int].0@ != key@);
                            lemma_text_lt_total(out@[p as int].0@, key@);
                            if i > p {
                                assert(text_lt(before[p as int].0, before[i].0));
                                lemma_text_lt_transitive(key@, before[p as int].0, before[i].0);
                                lemma_text_lt_irreflexive(key@);
                            }
                        }
                    }
                    lemma_absent_lookup(before, key@);
                }
                let ghost old_out = out@;
                out.insert(p, (key, value));
                proof {
                    lemma_json_entries(out@);
                    let after = json_entries(out@);
                    assert(out@ == old_out.insert(p as int, (key, value)));
                    assert(after.len() == before.len() + 1);
                    assert forall|i: int| 0 <= i < after.len() implies #[trigger] after[i] == if i < p {
                        before[i]
                    } else if i == p {
                        (key@, value@)
                    } else {
                        before[i - 1]
                    } by {
                        if i < p {
                            assert(out@[i] == old_out[i]);
                        } else if i > p {
                            assert(out@[i] == old_out[i - 1]);
                        }
                    }
                    assert(keys_sorted(after)) by {
                        assert forall|a: int, b: int| 0 <= a < b < after.len()
                            implies text_lt(#[trigger] after[a].0, #[trigger] after[b].0) by {
                            if p < out@.len() - 1 {
                                lemma_text_lt_total(old_out[p as int].0@, key@);
                            }
                            if a < p && b == p {
                            } else if a < p && b > p {
                                assert(text_lt(before[a].0, before[b - 1].0));
                            } else if a == p && b > p {
                                assert(before[p as int] == before[p as int]);
                                lemma_text_lt_total(before[p as int].0, key@);
                                if b - 1 > p {
                                    assert(text_lt(before[p as int].0, before[b - 1].0));
                                    lemma_text_lt_transitive(key@, before[p as int].0, before[b - 1].0);
                                }
                            } else if a > p {
                                assert(text_lt(before[a - 1].0, before[b - 1].0));
                            } else {
                                assert(text_lt(before[a].0, before[b].0));
                            }
                        }
                    }
                    assert forall|k: Seq<char>| #[trigger] entry_value(after, k) == if k == key@ {
                        Some(value@)
                    } else {
                        entry_value(before, k)
                    } by {
                        if k == key@ {
                            lemma_sorted_lookup(after, p as int);
                        } else if entry_value(before, k) is Some {
                            lemma_present_lookup(before, k);
                            let j = choose|j: int| 0 <= j < before.len() && (#[trigger] before[j]).0 == k
                                && Some(before[j].1) == entry_value(before, k);
                            lemma_sorted_lookup(before, j);
                            if j < p {
                                lemma_sorted_lookup(after, j);
                            } else {
                                lemma_sorted_lookup(after, j + 1);
                            }
                        } else {
                            assert forall|i: int| 0 <= i < after.len() implies (#[trigger] after[i]).0 != k by {
                                if after[i].0 == k {
                                    if i < p {
                                        lemma_sorted_lookup(before, i);
                                    } else if i > p {
                                        lemma_sorted_lookup(before, i - 1);
                                    }
                                }
                            }
                            lemma_absent_lookup(after, k);
                        }
                    }
                    assert forall|k: Seq<char>| #[trigger] entry_value(json_entries(out@), k)
                        == entry_value(all.skip(n - 1), k) by {
                        if k != kv {
                            let one = seq![all[n - 1]];
                            assert(one.last() == all[n - 1]);
                            assert(one.drop_last() =~= Seq::<(Seq<char>, JsonModel)>::empty());
                            assert(entry_value(one.drop_last(), k) is None);
                            assert(entry_value(one, k) is None);
                        }
                    }
                    if all_wf {
                        assert forall|i: int| 0 <= i < out@.len() implies json_wf((#[trigger] out@[i]).1@) by {
                            if i < p {
                                assert(out@[i] == old_out[i]);
                            } else if i > p {
                                assert(out@[i] == old_out[i - 1]);
                            } else {
                                assert(entries@.len() == n - 1);
                            }
                        }
                    }
                }
            }
        }
        proof {
            assert(all.skip(0) =~= all);
            lemma_json_entries(out@);
            if all_wf {
                lemma_entries_wf(json_entries(out@));
            }
            let es = json_entries(out@);
            let chosen = choose|c: Seq<(Seq<char>, JsonModel)>|
                keys_sorted(c) && forall|k: Seq<char>| #[trigger] entry_value(c, k) == entry_value(all, k);
            assert(keys_sorted(es) && forall|k: Seq<char>| #[trigger] entry_value(es, k) == entry_value(all, k));
            lemma_sorted_unique(chosen, es);
        }
        JsonValue::Object(out)
    }
}


// ---------------------------------------------------------------------------
// Exchange with `serde_json`.

/// What `serde_json::from_str::<serde_json::Value>` makes of a text: the value
/// read, or the text of the error it reports.
pub uninterp spec fn json_parse(text: Seq<char>) -> Result<JsonModel, Seq<char>>;

/// The compact text `serde_json` writes for a value (its `Display`).
pub uninterp spec fn json_text(m: JsonModel) -> Seq<char>;

/// The indented text `serde_json::to_string_pretty` writes for a value.
pub uninterp spec fn json_pretty_text(m: JsonModel) -> Seq<char>;

/// A `serde_json::Value`, with the model it stands for.
pub struct JsonNode {
    value: serde_json::Value,
    model: Ghost<JsonModel>,
}

impl View for JsonNode {
    type V = JsonModel;

    closed spec fn view(&self) -> JsonModel {
        self.model@
    }
}

/// One level of a value: its kind and immediate contents.
pub enum JsonShape {
    Null,
    Bool(bool),
    Number(JsonNumber),
    String(String),
    Array(Vec<JsonNode>),
    Object(Vec<(String, JsonNode)>),
}

/// The models of some nodes.
pub open spec fn node_models(s: Seq<JsonNode>) -> Seq<JsonModel> {
    s.map_values(|n: JsonNode| n@)
}

/// The models of a member list of nodes.
pub open spec fn node_entries(s: Seq<(String, JsonNode)>) -> Seq<(Seq<char>, JsonModel)> {
    s.map_values(|e: (String, JsonNode)| (e.0@, e.1@))
}

/// The model a shape describes.
pub open spec fn shape_model(s: JsonShape) -> JsonModel {
    match s {
        JsonShape::Null => JsonModel::Null,
        JsonShape::Bool(b) => JsonModel::Bool(b),
        JsonShape::Number(n) => JsonModel::Number(n@),
        JsonShape::String(t) => JsonModel::Str(t@),
        JsonShape::Array(items) => JsonModel::Array(node_models(items@)),
        JsonShape::Object(es) => JsonModel::Object(node_entries(es@)),
    }
}

/// Calls `serde_json::from_str::<serde_json::Value>`; the value read, or the
/// text of the error, is what [`json_parse`] names for the text.
#[verifier::external_body]
fn parse_node(text: &str) -> (r: Result<JsonNode, String>)
    ensures
        match r {
            Ok(n) => json_parse(text@) == Ok::<JsonModel, Seq<char>>(n@),
            Err(e) => json_parse(text@) == Err::<JsonModel, Seq<char>>(e@),
        },
{
    match serde_json::from_str::<serde_json::Value>(text) {
        Ok(value) => Ok(JsonNode { value, model: Ghost(json_parse(text@)->Ok_0) }),
        Err(error) => Err(error.to_string()),
    }
}

/// Takes a `serde_json::Value` apart one level (matching its variants). A
/// number's text is its `Display`; an object's members come in key order,
/// as the `BTreeMap` behind `serde_json::Map` iterates them.
#[verifier::external_body]
fn node_shape(n: JsonNode) -> (r: JsonShape)
    ensures
        shape_model(r) == n@,
        r matches JsonShape::Object(es) ==> keys_sorted(node_entries(es@)),
{
    let node = |value| JsonNode { value, model: Ghost(arbitrary()) };
    match n.value {
        JsonDoc::Null => JsonShape::Null,
        JsonDoc::Bool(b) => JsonShape::Bool(b),
        JsonDoc::Number(x) => JsonShape::Number(JsonNumber { text: x.to_string(), raw: x }),
        JsonDoc::String(t) => JsonShape::String(t),
        JsonDoc::Array(items) => JsonShape::Array(items.into_iter().map(node).collect()),
        JsonDoc::Object(m) => JsonShape::Object(m.into_iter().map(|(k, v)| (k, node(v))).collect()),
    }
}

/// Puts a `serde_json::Value` together from one level (the variants'
/// constructors; an object's members, whose keys are distinct and in order,
/// are collected into a `serde_json::Map`, which keeps them as given).
#[verifier::external_body]
fn node_build(s: JsonShape) -> (r: JsonNode)
    requires
        s matches JsonShape::Object(es) ==> keys_sorted(node_entries(es@)),
    ensures
        r@ == shape_model(s),
{
    let model = Ghost(shape_model(s));
    let value = match s {
        JsonShape::Null => JsonDoc::Null,
        JsonShape::Bool(b) => JsonDoc::Bool(b),
        JsonShape::Number(x) => JsonDoc::Number(x.raw),
        JsonShape::String(t) => JsonDoc::String(t),
        JsonShape::Array(items) => JsonDoc::Array(items.into_iter().map(|n| n.value).collect()),
        JsonShape::Object(es) => JsonDoc::Object(es.into_iter().map(|(k, n)| (k, n.value)).collect()),
    };
    JsonNode { value, model }
}

/// Calls `Display` of `serde_json::Value`: the compact text [`json_text`] names.
/// `serde_json::from_str` reads that text back as the same value when the value
/// is one [`reads_back`] describes.
#[verifier::external_body]
fn node_text(n: &JsonNode) -> (r: String)
    ensures
        r@ == json_text(n@) && (reads_back(n@, 127) ==> json_parse(r@) == Ok::<JsonModel, Seq<char>>(n@)),
{
    n.value.to_string()
}

/// Calls `serde_json::to_string_pretty`: the indented text [`json_pretty_text`]
/// names. A `Value` always serializes, so its error is never taken.
/// `serde_json::from_str` reads that text back as the same value when the value
/// is one [`reads_back`] describes.
#[verifier::external_body]
fn node_text_pretty(n: &JsonNode) -> (r: String)
    ensures
        r@ == json_pretty_text(n@) && (reads_back(n@, 127) ==> json_parse(r@) == Ok::<JsonModel, Seq<char>>(n@)),
{
    serde_json::to_string_pretty(&n.value).unwrap_or_default()
}

/// Calls `serde_json::Number::from(i64)`; its `Display` is the integer's
/// decimal text.
#[verifier::external_body]
fn number_from_i64(n: i64) -> (r: JsonNumber)
    ensures
        r@ == int_text(n as int),
{
    let raw = serde_json::Number::from(n);
    JsonNumber { text: raw.to_string(), raw }
}

/// Converts a `serde_json` value to the library's document type.
fn from_node(n: JsonNode) -> (r: JsonValue)
    ensures
        r@ == n@,
        json_wf(r@),
{
    let ghost m = n@;
    from_node_at(n, Ghost(m))
}

/// Converts a `serde_json` value whose model is `m`.
fn from_node_at(n: JsonNode, Ghost(m): Ghost<JsonModel>) -> (r: JsonValue)
    requires
        n@ == m,
    ensures
        r@ == m,
        json_wf(r@),
    decreases m,
{
    match node_shape(n) {
        JsonShape::Null => JsonValue::Null,
        JsonShape::Bool(b) => JsonValue::Bool(b),
        JsonShape::Number(x) => JsonValue::Number(x),
        JsonShape::String(t) => JsonValue::String(t),
        JsonShape::Array(items) => {
            let ghost ms = node_models(items@);
            let mut items = items;
            let mut out: Vec<JsonValue> = Vec::new();
            let mut i: usize = 0;
            let count = items.len();
            let ghost total = count as nat;
            while items.len() > 0
                invariant
                    total <= usize::MAX,
                    m == JsonModel::Array(ms),
                    ms.len() == total,
                    i + items@.len() == total,
                    forall|k: int| 0 <= k < items@.len() ==> (#[trigger] items@[k])@ == ms[i + k],
                    out@.len() == i,
                    forall|k: int| 0 <= k < i ==> (#[trigger] out@[k])@ == ms[k] && json_wf(ms[k]),
                decreases items@.len(),
            {
                let child = items.remove(0);
                assert(child@ == ms[i as int]);
                proof {
                    assert(decreases_to!(m => m->Array_0));
                    assert(decreases_to!(ms => ms[i as int]));
                    assert(decreases_to!(m => ms[i as int]));
                    assert(decreases_to!(m => child@));
                }
                let v = from_node_at(child, Ghost(child@));
                out.push(v);
                i = i + 1;
            }
            proof {
                lemma_json_models(out@);
                assert(json_models(out@) =~= ms);
                lemma_items_wf(ms);
            }
            JsonValue::Array(out)
        },
        JsonShape::Object(es) => {
            let ghost ms = node_entries(es@);
            let mut es = es;
            let mut out: Vec<(String, JsonValue)> = Vec::new();
            let mut i: usize = 0;
            let count = es.len();
            let ghost total = count as nat;
            while es.len() > 0
                invariant
                    total <= usize::MAX,
                    m == JsonModel::Object(ms),
                    keys_sorted(ms),
                    ms.len() == total,
                    i + es@.len() == total,
                    forall|k: int| 0 <= k < es@.len() ==> (#[trigger] es@[k]).0@ == ms[i + k].0
                        && es@[k].1@ == ms[i + k].1,
                    out@.len() == i,
                    forall|k: int| 0 <= k < i ==> (#[trigger] out@[k]).0@ == ms[k].0 && out@[k].1@ == ms[k].1
                        && json_wf(ms[k].1),
                decreases es@.len(),
            {
                let (key, child) = es.remove(0);
                assert(child@ == ms[i as int].1);
                proof {
                    assert(decreases_to!(m => m->Object_0));
                    assert(decreases_to!(ms => ms[i as int]));
                    assert(decreases_to!(ms[i as int] => ms[i as int].1));
                    assert(decreases_to!(m => ms[i as int].1));
                    assert(decreases_to!(m => child@));
                }
                let v = from_node_at(child, Ghost(child@));
                out.push((key, v));
                i = i + 1;
            }
            proof {
                lemma_json_entries(out@);
                assert(json_entries(out@) =~= ms);
                lemma_entries_wf(ms);
            }
            JsonValue::Object(out)
        },
    }
}

/// Converts a well-formed document to a `serde_json` value.
fn to_node(v: &JsonValue) -> (r: JsonNode)
    requires
        json_wf(v@),
    ensures
        r@ == v@,
    decreases v,
{
    match v {
        JsonValue::Null => node_build(JsonShape::Null),
        JsonValue::Bool(b) => node_build(JsonShape::Bool(*b)),
        JsonValue::Number(x) => node_build(JsonShape::Number(x.clone())),
        JsonValue::String(t) => node_build(JsonShape::String(t.clone())),
        JsonValue::Array(items) => {
            proof {
                lemma_json_models(items@);
                lemma_items_wf(json_models(items@));
                assert forall|k: int| 0 <= k < items@.len() implies json_wf((#[trigger] items@[k])@) by {
                    assert(json_models(items@)[k] == items@[k]@);
                }
            }
            let mut nodes: Vec<JsonNode> = Vec::new();
            let mut i: usize = 0;
            while i < items.len()
                invariant
                    *v == JsonValue::Array(*items),
                    i <= items@.len(),
                    forall|k: int| 0 <= k < items@.len() ==> json_wf((#[trigger] items@[k])@),
                    nodes@.len() == i,
                    forall|k: int| 0 <= k < i ==> (#[trigger] nodes@[k])@ == items@[k]@,
                decreases items@.len() - i,
            {
                proof {
                    assert(decreases_to!(*v => (*v)->Array_0));
                    assert(decreases_to!((*v)->Array_0 => items@));
                    assert(decreases_to!(items@ => items@[i as int]));
                }
                let node = to_node(&items[i]);
                nodes.push(node);
                i = i + 1;
            }
            let ghost nv = nodes@;
            let r = node_build(JsonShape::Array(nodes));
            proof {
                lemma_json_models(items@);
                assert(node_models(nv) =~= json_models(items@));
            }
            r
        },
        JsonValue::Object(es) => {
            proof {
                assert(v@ == JsonModel::Object(json_entries(es@)));
                assert(json_wf(JsonModel::Object(json_entries(es@))));
                assert(entries_wf(json_entries(es@)));
                lemma_json_entries(es@);
                lemma_entries_wf(json_entries(es@));
                assert forall|k: int| 0 <= k < es@.len() implies json_wf((#[trigger] es@[k]).1@) by {
                    assert(json_entries(es@)[k] == (es@[k].0@, es@[k].1@));
                    assert(json_wf(json_entries(es@)[k].1));
                }
            }
            let ghost ms = json_entries(es@);
            let mut nodes: Vec<(String, JsonNode)> = Vec::new();
            let mut i: usize = 0;
            while i < es.len()
                invariant
                    *v == JsonValue::Object(*es),
                    ms == json_entries(es@),
                    ms.len() == es@.len(),
                    forall|k: int| 0 <= k < es@.len() ==> #[trigger] ms[k] == (es@[k].0@, es@[k].1@),
                    forall|k: int| 0 <= k < es@.len() ==> json_wf((#[trigger] es@[k]).1@),
                    i <= es@.len(),
                    nodes@.len() == i,
                    forall|k: int| 0 <= k < i ==> (#[trigger] nodes@[k]).0@ == es@[k].0@ && nodes@[k].1@ == es@[k].1@,
                decreases es@.len() - i,
            {
                assert(ms[i as int] == (es@[i as int].0@, es@[i as int].1@));
                proof {
                    assert(decreases_to!(*v => (*v)->Object_0));
                    assert(decreases_to!((*v)->Object_0 => es@));
                    assert(decreases_to!(es@ => es@[i as int]));
                    assert(decreases_to!(es@[i as int] => es@[i as int].1));
                }
                let node = to_node(&es[i].1);
                nodes.push((es[i].0.clone(), node));
                i = i + 1;
            }
            let ghost nv = nodes@;
            assert(node_entries(nv) =~= ms);
            node_build(JsonShape::Object(nodes))
        },
    }
}

/// Every member's value is well formed.
pub open spec fn members_wf(es: Seq<(String, JsonValue)>) -> bool {
    forall|i: int| 0 <= i < es.len() ==> json_wf((#[trigger] es[i]).1@)
}

/// Every item is well formed.
pub open spec fn values_wf(items: Seq<JsonValue>) -> bool {
    forall|i: int| 0 <= i < items.len() ==> json_wf((#[trigger] items[i])@)
}

/// Appends a member to an object under construction.
pub fn push_member(es: &mut Vec<(String, JsonValue)>, key: &str, value: JsonValue)
    ensures
        json_entries(final(es)@) == json_entries(old(es)@).push((key@, value@)),
        members_wf(old(es)@) && json_wf(value@) ==> members_wf(final(es)@),
{
    let ghost before = es@;
    let k = String::from_str(key);
    es.push((k, value));
    proof {
        assert(es@ == before.push((k, value)));
        assert(es@.drop_last() =~= before);
    }
}

/// Appends an item to an array under construction.
pub fn push_item(items: &mut Vec<JsonValue>, value: JsonValue)
    ensures
        json_models(final(items)@) == json_models(old(items)@).push(value@),
        values_wf(old(items)@) && json_wf(value@) ==> values_wf(final(items)@),
{
    let ghost before = items@;
    items.push(value);
    proof {
        assert(items@ == before.push(value));
        assert(items@.drop_last() =~= before);
    }
}

/// An object from members built with [`push_member`].
pub fn object_of(es: Vec<(String, JsonValue)>) -> (r: JsonValue)
    ensures
        r@ == canonical_object(json_entries(es@)),
        members_wf(es@) ==> json_wf(r@),
{
    JsonValue::object(es)
}

/// An array from items built with [`push_item`].
pub fn array_of(items: Vec<JsonValue>) -> (r: JsonValue)
    ensures
        r@ == JsonModel::Array(json_models(items@)),
        values_wf(items@) ==> json_wf(r@),
{
    proof {
        lemma_json_models(items@);
        if values_wf(items@) {
            assert forall|i: int| 0 <= i < json_models(items@).len() implies json_wf(#[trigger] json_models(items@)[i]) by {
                assert(json_models(items@)[i] == items@[i]@);
            }
        }
        lemma_items_wf(json_models(items@));
    }
    JsonValue::Array(items)
}

impl JsonValue {
    /// Reads JSON text.
    pub fn parse(text: &str) -> (r: Result<JsonValue, String>)
        ensures
            match r {
                Ok(v) => json_parse(text@) == Ok::<JsonModel, Seq<char>>(v@) && json_wf(v@),
                Err(e) => json_parse(text@) == Err::<JsonModel, Seq<char>>(e@),
            },
    {
        match parse_node(text) {
            Ok(node) => Ok(from_node(node)),
            Err(e) => Err(e),
        }
    }

    /// The compact JSON text of a well-formed value.
    pub fn to_text(&self) -> (r: String)
        requires
            json_wf(self@),
        ensures
            r@ == json_text(self@),
            reads_back(self@, 127) ==> json_parse(r@) == Ok::<JsonModel, Seq<char>>(self@),
    {
        node_text(&to_node(self))
    }

    /// The indented JSON text of a well-formed value.
    pub fn to_text_pretty(&self) -> (r: String)
        requires
            json_wf(self@),
        ensures
            r@ == json_pretty_text(self@),
            reads_back(self@, 127) ==> json_parse(r@) == Ok::<JsonModel, Seq<char>>(self@),
    {
        node_text_pretty(&to_node(self))
    }

    /// An integer.
    pub fn integer(n: i64) -> (r: JsonValue)
        ensures
            r@ == JsonModel::Number(int_text(n as int)),
    {
        JsonValue::Number(number_from_i64(n))
    }
}

} // verus!
