//! The decoded object graph, as far as the patch tooling reads it.
//!
//! The container's object graph is decoded elsewhere; the tooling reads
//! only its shape — objects and lists — and the string references, each an
//! integer index into the string table.  Keeping a reference as an index
//! into an external table, not as an owned string, is what makes the patch
//! engine's index stability meaningful.  Every other leaf is opaque here.

use vstd::prelude::*;

verus! {

/// One node of the decoded object graph.
#[derive(Debug, PartialEq)]
pub enum Value {
    /// A keyed object; keys are the raw bytes of the key string.
    Object(Vec<(Vec<u8>, Value)>),
    /// An ordered list.
    List(Vec<Value>),
    /// A reference to the string table, by index.
    StringRef(u64),
    /// Any other leaf (a number, a boolean, a blob): its content plays no
    /// part in string collection.
    Scalar,
}

/// Every string-table index referenced under `v`, in depth-first order,
/// repeats included.
pub open spec fn string_refs(v: Value) -> Seq<u64>
    decreases v,
{
    match v {
        Value::StringRef(i) => seq![i],
        Value::Scalar => Seq::<u64>::empty(),
        Value::List(items) => string_refs_of_list(items@),
        Value::Object(fields) => string_refs_of_fields(fields@),
    }
}

/// The references of a list's elements, in order.
pub open spec fn string_refs_of_list(s: Seq<Value>) -> Seq<u64>
    decreases s,
{
    if s.len() == 0 {
        Seq::<u64>::empty()
    } else {
        string_refs_of_list(s.drop_last()) + string_refs(s.last())
    }
}

/// The references of an object's fields, in field order.
pub open spec fn string_refs_of_fields(s: Seq<(Vec<u8>, Value)>) -> Seq<u64>
    decreases s,
{
    if s.len() == 0 {
        Seq::<u64>::empty()
    } else {
        string_refs_of_fields(s.drop_last()) + string_refs(s.last().1)
    }
}

/// `acc` extended by the values of `s` it does not yet hold, each at its
/// first appearance, in order.
pub open spec fn dedup_append(acc: Seq<u64>, s: Seq<u64>) -> Seq<u64>
    decreases s.len(),
{
    if s.len() == 0 {
        acc
    } else {
        dedup_append(
            if acc.contains(s[0]) {
                acc
            } else {
                acc.push(s[0])
            },
            s.subrange(1, s.len() as int),
        )
    }
}

/// Deduplicating a concatenation is deduplicating one part after the other.
pub proof fn lemma_dedup_append_concat(acc: Seq<u64>, s1: Seq<u64>, s2: Seq<u64>)
    ensures
        dedup_append(acc, s1 + s2) == dedup_append(dedup_append(acc, s1), s2),
    decreases s1.len(),
{
    if s1.len() == 0 {
        assert(s1 + s2 =~= s2);
    } else {
        let acc2 = if acc.contains(s1[0]) {
            acc
        } else {
            acc.push(s1[0])
        };
        assert((s1 + s2)[0] == s1[0]);
        assert((s1 + s2).subrange(1, (s1 + s2).len() as int) =~= s1.subrange(
            1,
            s1.len() as int,
        ) + s2);
        lemma_dedup_append_concat(acc2, s1.subrange(1, s1.len() as int), s2);
    }
}

/// Whether `x` is among the collected values of `v`.
fn contains_u64(v: &Vec<u64>, x: u64) -> (b: bool)
    ensures
        b == v@.contains(x),
{
    let mut i: usize = 0;
    while i < v.len()
        invariant
            i <= v.len(),
            forall|k: int| 0 <= k < i ==> v@[k] != x,
        decreases v.len() - i,
    {
        if v[i] == x {
            return true;
        }
        i = i + 1;
    }
    false
}

/// Adds `x` to `acc` unless `acc` already holds it: first-appearance
/// collection, one value at a time.
pub fn push_unique(acc: &mut Vec<u64>, x: u64)
    ensures
        final(acc)@ == if old(acc)@.contains(x) {
            old(acc)@
        } else {
            old(acc)@.push(x)
        },
{
    if !contains_u64(acc, x) {
        acc.push(x);
    }
}

/// Adds to `acc` every reference under `v` that it does not yet hold, in
/// first-appearance order.
#[verifier::loop_isolation(false)]
fn collect_refs(v: &Value, acc: &mut Vec<u64>)
    ensures
        final(acc)@ == dedup_append(old(acc)@, string_refs(*v)),
    decreases *v,
{
    match v {
        Value::StringRef(i) => {
            let ghost start = acc@;
            if !contains_u64(acc, *i) {
                acc.push(*i);
            }
            proof {
                assert(string_refs(*v) == seq![*i]);
                let ghost acc2 = if start.contains(*i) {
                    start
                } else {
                    start.push(*i)
                };
                assert(seq![*i].subrange(1, 1) =~= Seq::<u64>::empty());
                assert(dedup_append(acc2, Seq::<u64>::empty()) == acc2);
                assert(acc@ == dedup_append(start, seq![*i]));
            }
        },
        Value::Scalar => {
            assert(string_refs(*v) =~= Seq::<u64>::empty());
        },
        Value::List(items) => {
            let ghost start = acc@;
            let mut k: usize = 0;
            while k < items.len()
                invariant
                    k <= items.len(),
                    acc@ == dedup_append(start, string_refs_of_list(items@.take(k as int))),
                decreases items.len() - k,
            {
                proof {
                    assert(*v == Value::List(*items));
                    assert(decreases_to!(*v => *items));
                    assert(decreases_to!(*items => items@));
                    assert(decreases_to!(items@ => items@[k as int]));
                    assert(decreases_to!(*v => items@[k as int]));
                }
                collect_refs(&items[k], acc);
                proof {
                    assert(items@.take(k + 1).drop_last() =~= items@.take(k as int));
                    assert(items@.take(k + 1).last() == items@[k as int]);
                    lemma_dedup_append_concat(
                        start,
                        string_refs_of_list(items@.take(k as int)),
                        string_refs(items@[k as int]),
                    );
                }
                k = k + 1;
            }
            proof {
                assert(items@.take(items@.len() as int) =~= items@);
            }
        },
        Value::Object(fields) => {
            let ghost start = acc@;
            let mut k: usize = 0;
            while k < fields.len()
                invariant
                    k <= fields.len(),
                    acc@ == dedup_append(start, string_refs_of_fields(fields@.take(k as int))),
                decreases fields.len() - k,
            {
                proof {
                    assert(*v == Value::Object(*fields));
                    assert(decreases_to!(*v => *fields));
                    assert(decreases_to!(*fields => fields@));
                    assert(decreases_to!(fields@ => fields@[k as int]));
                    assert(decreases_to!(fields@[k as int] => fields@[k as int].1));
                    assert(decreases_to!(*v => fields@[k as int].1));
                }
                collect_refs(&fields[k].1, acc);
                proof {
                    assert(fields@.take(k + 1).drop_last() =~= fields@.take(k as int));
                    assert(fields@.take(k + 1).last() == fields@[k as int]);
                    lemma_dedup_append_concat(
                        start,
                        string_refs_of_fields(fields@.take(k as int)),
                        string_refs(fields@[k as int].1),
                    );
                }
                k = k + 1;
            }
            proof {
                assert(fields@.take(fields@.len() as int) =~= fields@);
            }
        },
    }
}

/// Every string-table index referenced anywhere under `root`, each once, in
/// first-appearance order of a depth-first walk.
pub fn collect_string_indices(root: &Value) -> (r: Vec<u64>)
    ensures
        r@ == dedup_append(Seq::<u64>::empty(), string_refs(*root)),
{
    let mut acc: Vec<u64> = Vec::new();
    collect_refs(root, &mut acc);
    acc
}

/// The first `count` non-list items of `s`, nested lists flattened in
/// depth-first order: what a fixed-arity record looks like when some of its
/// fields arrive wrapped in sub-lists.
pub open spec fn spec_read_items(count: int, s: Seq<Value>) -> Seq<Value>
    decreases s,
{
    if count <= 0 || s.len() == 0 {
        Seq::<Value>::empty()
    } else {
        match s[0] {
            Value::List(l) => {
                let got = spec_read_items(count, l@);
                got + spec_read_items(count - got.len(), s.subrange(1, s.len() as int))
            },
            _ => seq![s[0]] + spec_read_items(count - 1, s.subrange(1, s.len() as int)),
        }
    }
}

/// Never more items than asked for.
pub proof fn lemma_read_items_len(count: int, s: Seq<Value>)
    requires
        count >= 0,
    ensures
        spec_read_items(count, s).len() <= count,
    decreases s,
{
    if count > 0 && s.len() > 0 {
        match s[0] {
            Value::List(l) => {
                lemma_read_items_len(count, l@);
                let got = spec_read_items(count, l@);
                lemma_read_items_len(count - got.len(), s.subrange(1, s.len() as int));
            },
            _ => {
                lemma_read_items_len(count - 1, s.subrange(1, s.len() as int));
            },
        }
    }
}

/// The value under the first field of `fields` whose key is `key`.
pub open spec fn spec_lookup(fields: Seq<(Vec<u8>, Value)>, key: Seq<u8>) -> Option<Value>
    decreases fields.len(),
{
    if fields.len() == 0 {
        None
    } else if fields[0].0@ == key {
        Some(fields[0].1)
    } else {
        spec_lookup(fields.subrange(1, fields.len() as int), key)
    }
}

/// The value under `key` when `v` is an object holding that key.
pub open spec fn spec_get(v: Value, key: Seq<u8>) -> Option<Value> {
    match v {
        Value::Object(fields) => spec_lookup(fields@, key),
        _ => None,
    }
}

/// Whether two byte strings are equal.
fn bytes_eq(a: &Vec<u8>, b: &[u8]) -> (r: bool)
    ensures
        r == (a@ == b@),
{
    if a.len() != b.len() {
        return false;
    }
    let mut i: usize = 0;
    while i < a.len()
        invariant
            i <= a.len(),
            a@.len() == b@.len(),
            forall|k: int| 0 <= k < i ==> a@[k] == b@[k],
        decreases a.len() - i,
    {
        if a[i] != *vstd::slice::slice_index_get(b, i) {
            return false;
        }
        i = i + 1;
    }
    proof {
        assert(a@ =~= b@);
    }
    true
}

/// Looks `key` up in `v`: the value under the first field with that key,
/// when `v` is an object that has one; nothing otherwise.
#[verifier::loop_isolation(false)]
pub fn get_value<'a>(v: &'a Value, key: &[u8]) -> (r: Option<&'a Value>)
    ensures
        match r {
            Some(x) => spec_get(*v, key@) == Some(*x),
            None => spec_get(*v, key@) is None,
        },
{
    match v {
        Value::Object(fields) => {
            let mut i: usize = 0;
            proof {
                assert(fields@.subrange(0, fields@.len() as int) =~= fields@);
            }
            while i < fields.len()
                invariant
                    i <= fields.len(),
                    spec_lookup(fields@, key@) == spec_lookup(
                        fields@.subrange(i as int, fields@.len() as int),
                        key@,
                    ),
                decreases fields.len() - i,
            {
                proof {
                    let tail = fields@.subrange(i as int, fields@.len() as int);
                    assert(tail[0] == fields@[i as int]);
                    assert(tail.subrange(1, tail.len() as int) =~= fields@.subrange(
                        i + 1,
                        fields@.len() as int,
                    ));
                }
                if bytes_eq(&fields[i].0, key) {
                    proof {
                        let tail = fields@.subrange(i as int, fields@.len() as int);
                        assert(tail[0] == fields@[i as int]);
                        assert(spec_lookup(tail, key@) == Some(fields@[i as int].1));
                        assert(*v == Value::Object(*fields));
                        assert(spec_get(*v, key@) == spec_lookup(fields@, key@));
                    }
                    return Some(&fields[i].1);
                }
                i = i + 1;
            }
            proof {
                assert(fields@.subrange(fields@.len() as int, fields@.len() as int) =~= Seq::<
                    (Vec<u8>, Value),
                >::empty());
            }
            None
        },
        _ => None,
    }
}

/// The string-table index `v` references, if it is a reference.
pub open spec fn spec_ref_of(v: Value) -> Option<u64> {
    match v {
        Value::StringRef(i) => Some(i),
        _ => None,
    }
}

/// One dialogue line, as read from a record of at least three items: who
/// speaks (a reference, or nothing for a monologue), the display name
/// substitute, and the spoken text.  Nothing when the record is shorter or
/// its text item is no string reference.
pub open spec fn spec_line_of(tl: Seq<Value>) -> Option<(Option<u64>, Option<u64>, u64)> {
    let items = spec_read_items(3, tl);
    if items.len() < 3 {
        None
    } else {
        match items[2] {
            Value::StringRef(t) => Some((spec_ref_of(items[0]), spec_ref_of(items[1]), t)),
            _ => None,
        }
    }
}

/// Decodes one dialogue record: the first three items of `record` (nested
/// lists flattened), read as speaker, display-name substitute, and text.
pub fn script_line(record: &Vec<Value>) -> (r: Option<(Option<u64>, Option<u64>, u64)>)
    ensures
        r == spec_line_of(record@),
{
    let items = read_items(3, record);
    proof {
        assert(seq_deref(items@).len() == items@.len());
    }
    if items.len() < 3 {
        return None;
    }
    proof {
        assert(seq_deref(items@)[0] == *items@[0]);
        assert(seq_deref(items@)[1] == *items@[1]);
        assert(seq_deref(items@)[2] == *items@[2]);
    }
    let text: u64 = match items[2] {
        Value::StringRef(t) => *t,
        _ => {
            return None;
        },
    };
    let character: Option<u64> = match items[0] {
        Value::StringRef(c) => Some(*c),
        _ => None,
    };
    let character_display: Option<u64> = match items[1] {
        Value::StringRef(c) => Some(*c),
        _ => None,
    };
    Some((character, character_display, text))
}

/// The values behind a sequence of borrows.
pub open spec fn seq_deref(s: Seq<&Value>) -> Seq<Value> {
    s.map_values(|x: &Value| *x)
}

/// Collects the first `count` non-list items of `list`, flattening nested
/// lists depth-first, and stopping early when the items run out.
pub fn read_items<'a>(count: usize, list: &'a Vec<Value>) -> (r: Vec<&'a Value>)
    ensures
        seq_deref(r@) == spec_read_items(count as int, list@),
    decreases list@,
{
    let mut r: Vec<&'a Value> = Vec::new();
    proof {
        assert(seq_deref(r@) =~= Seq::<Value>::empty());
        assert(list@.skip(0) =~= list@);
    }
    let mut i: usize = 0;
    while r.len() < count && i < list.len()
        invariant
            i <= list.len(),
            r@.len() <= count,
            spec_read_items(count as int, list@) == seq_deref(r@) + spec_read_items(
                count - r@.len(),
                list@.skip(i as int),
            ),
        decreases list.len() - i,
    {
        let ghost pre = r@;
        let child: &Value = &list[i];
        proof {
            assert(list@.skip(i as int)[0] == list@[i as int]);
            assert(list@.skip(i as int).subrange(1, list@.skip(i as int).len() as int)
                =~= list@.skip(i + 1));
        }
        match child {
            Value::List(l) => {
                proof {
                    assert(decreases_to!(list@ => l@));
                    lemma_read_items_len((count - r.len()) as int, l@);
                }
                let mut sub: Vec<&Value> = read_items(count - r.len(), l);
                let ghost subv = sub@;
                r.append(&mut sub);
                proof {
                    assert(seq_deref(r@) =~= seq_deref(pre) + seq_deref(subv));
                }
            },
            _ => {
                r.push(child);
                proof {
                    assert(seq_deref(r@) =~= seq_deref(pre) + seq![*child]);
                }
            },
        }
        i = i + 1;
    }
    proof {
        if r@.len() >= count as int {
            assert(spec_read_items(count - r@.len(), list@.skip(i as int)) =~= Seq::<
                Value,
            >::empty());
        } else {
            assert(list@.skip(i as int) =~= Seq::<Value>::empty());
        }
        assert(seq_deref(r@) + Seq::<Value>::empty() =~= seq_deref(r@));
    }
    r
}

} // verus!
