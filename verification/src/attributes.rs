//! Element attributes and the host writes that bring an element from one
//! set of attributes to another.

use vstd::prelude::*;
use crate::binding::str_eq;
use vstd::string::StringExecFns;
use indexmap::IndexMap;

verus! {

#[verifier::external_type_specification]
#[verifier::external_body]
#[verifier::reject_recursive_types(K)]
#[verifier::reject_recursive_types(V)]
#[verifier::reject_recursive_types(S)]
pub struct ExIndexMap<K, V, S>(IndexMap<K, V, S>);

/// The entries of an `IndexMap` of attributes, by name and value, in the
/// map's order.
pub uninterp spec fn index_map_entries(m: IndexMap<String, String>) -> Seq<(Seq<char>, Seq<char>)>;

/// Calls `IndexMap::iter`, copying each name and value: the entries of the
/// map in its order. The names are distinct, since an `IndexMap` holds each
/// key once.
#[verifier::external_body]
fn index_map_pairs(m: &IndexMap<String, String>) -> (r: Vec<(String, String)>)
    ensures
        pairs_view(r@) == index_map_entries(*m),
        distinct_names(r@),
{
    m.iter().map(|(k, v)| (k.clone(), v.clone())).collect()
}

/// Calls `IndexMap::get`, copying the value: the value stored for the
/// name, or `None` when the map has no such key.
#[verifier::external_body]
fn index_map_get(m: &IndexMap<String, String>, key: &String) -> (r: Option<String>)
    ensures
        value_found(entries_map(index_map_entries(*m)), key@, r),
{
    m.get(key).cloned()
}

/// Calls `IndexMap::contains_key`: whether the map has the name.
#[verifier::external_body]
fn index_map_contains_key(m: &IndexMap<String, String>, key: &String) -> (r: bool)
    ensures
        r == entries_map(index_map_entries(*m)).contains_key(key@),
{
    m.contains_key(key)
}

/// The attributes of an element.
pub enum Attributes {
    /// Attributes fixed at build time, by name and value.
    Static(Vec<(String, String)>),
    /// Attributes whose names are fixed and whose values may be absent.
    Dynamic { keys: Vec<String>, values: Vec<Option<String>> },
    /// Attributes built at run time, by name and value.
    IndexMap(IndexMap<String, String>),
}

/// One host attribute write.
#[derive(Debug)]
pub enum AttrOp {
    /// Sets the attribute to the value.
    Assign { key: String, value: String },
    /// Removes the attribute.
    Remove { key: String },
}

/// The name of the attribute an operation writes.
pub open spec fn op_key(op: AttrOp) -> Seq<char> {
    match op {
        AttrOp::Assign { key, .. } => key@,
        AttrOp::Remove { key } => key@,
    }
}

/// The attribute map after one write.
pub open spec fn apply_op(m: Map<Seq<char>, Seq<char>>, op: AttrOp) -> Map<Seq<char>, Seq<char>> {
    match op {
        AttrOp::Assign { key, value } => m.insert(key@, value@),
        AttrOp::Remove { key } => m.remove(key@),
    }
}

/// The attribute map after a sequence of writes.
pub open spec fn apply_ops(m: Map<Seq<char>, Seq<char>>, ops: Seq<AttrOp>) -> Map<Seq<char>, Seq<char>>
    decreases ops.len(),
{
    if ops.len() == 0 {
        m
    } else {
        apply_op(apply_ops(m, ops.drop_last()), ops.last())
    }
}

/// The name-value pairs present in a list of entries, as a map; a later
/// entry for a name wins.
pub open spec fn pairs_map(es: Seq<(String, String)>) -> Map<Seq<char>, Seq<char>>
    decreases es.len(),
{
    if es.len() == 0 {
        Map::empty()
    } else {
        pairs_map(es.drop_last()).insert(es.last().0@, es.last().1@)
    }
}

/// Name-value pairs seen as text.
pub open spec fn pairs_view(es: Seq<(String, String)>) -> Seq<(Seq<char>, Seq<char>)> {
    es.map_values(|e: (String, String)| (e.0@, e.1@))
}

/// Entries as a map from name to value; a later entry for a name wins.
pub open spec fn entries_map(es: Seq<(Seq<char>, Seq<char>)>) -> Map<Seq<char>, Seq<char>>
    decreases es.len(),
{
    if es.len() == 0 {
        Map::empty()
    } else {
        entries_map(es.drop_last()).insert(es.last().0, es.last().1)
    }
}

proof fn lemma_pairs_map_view(es: Seq<(String, String)>)
    ensures
        pairs_map(es) == entries_map(pairs_view(es)),
    decreases es.len(),
{
    if es.len() > 0 {
        assert(pairs_view(es).drop_last() =~= pairs_view(es.drop_last()));
        lemma_pairs_map_view(es.drop_last());
    }
}

/// The present name-value pairs of dynamic attributes, as a map; a later
/// entry for a name wins.
pub open spec fn dynamic_map(keys: Seq<String>, values: Seq<Option<String>>) -> Map<Seq<char>, Seq<char>>
    decreases keys.len(),
{
    if keys.len() == 0 || values.len() == 0 {
        Map::empty()
    } else {
        let m = dynamic_map(keys.drop_last(), values.drop_last());
        match values.last() {
            Some(v) => m.insert(keys.last()@, v@),
            None => m,
        }
    }
}

/// The attributes as a map from name to value.
pub open spec fn attrs_map(a: Attributes) -> Map<Seq<char>, Seq<char>> {
    match a {
        Attributes::Static(es) => pairs_map(es@),
        Attributes::Dynamic { keys, values } => dynamic_map(keys@, values@),
        Attributes::IndexMap(m) => entries_map(index_map_entries(m)),
    }
}

/// Dynamic attributes have a value slot for every name.
pub open spec fn attrs_wf(a: Attributes) -> bool {
    match a {
        Attributes::Dynamic { keys, values } => keys@.len() == values@.len(),
        _ => true,
    }
}

/// The pairs have distinct names.
pub open spec fn distinct_names(es: Seq<(String, String)>) -> bool {
    forall|i: int, j: int| 0 <= i < j < es.len() ==> (#[trigger] es[i]).0@ != (#[trigger] es[j]).0@
}

proof fn lemma_pairs_map_distinct(es: Seq<(String, String)>)
    requires
        distinct_names(es),
    ensures
        forall|i: int| 0 <= i < es.len() ==> #[trigger] pairs_map(es).contains_key(es[i].0@) && pairs_map(
            es,
        )[es[i].0@] == es[i].1@,
        forall|k: Seq<char>| #[trigger]
            pairs_map(es).contains_key(k) ==> exists|i: int| 0 <= i < es.len() && es[i].0@ == k,
    decreases es.len(),
{
    if es.len() > 0 {
        let init = es.drop_last();
        let last = es[es.len() - 1];
        assert(pairs_map(es) == pairs_map(init).insert(last.0@, last.1@));
        assert(distinct_names(init)) by {
            assert forall|i: int, j: int| 0 <= i < j < init.len() implies (#[trigger] init[i]).0@
                != (#[trigger] init[j]).0@ by {
                assert(init[i] == es[i] && init[j] == es[j]);
            }
        }
        lemma_pairs_map_distinct(init);
        assert forall|i: int| 0 <= i < es.len() implies #[trigger] pairs_map(es).contains_key(
            es[i].0@,
        ) && pairs_map(es)[es[i].0@] == es[i].1@ by {
            if i < es.len() - 1 {
                assert(init[i] == es[i]);
                assert(es[i].0@ != last.0@);
                assert(pairs_map(init).contains_key(init[i].0@));
            }
        }
        assert forall|k: Seq<char>| #[trigger]
            pairs_map(es).contains_key(k) implies exists|i: int| 0 <= i < es.len() && es[i].0@ == k by {
            if k != last.0@ {
                assert(pairs_map(init).contains_key(k));
                let i = choose|i: int| 0 <= i < init.len() && init[i].0@ == k;
                assert(es[i] == init[i]);
            } else {
                assert(es[es.len() - 1].0@ == k);
            }
        }
    }
}

proof fn lemma_apply_push(m: Map<Seq<char>, Seq<char>>, ops: Seq<AttrOp>, op: AttrOp)
    ensures
        apply_ops(m, ops.push(op)) == apply_op(apply_ops(m, ops), op),
{
    assert(ops.push(op).drop_last() =~= ops);
}

/// Some of the first `i` pairs has the name `k`.
pub open spec fn name_among(es: Seq<(String, String)>, i: int, k: Seq<char>) -> bool {
    exists|t: int| 0 <= t < i && es[t].0@ == k
}

/// Finds the value of a name among pairs with distinct names.
fn find_pair(es: &Vec<(String, String)>, key: &String) -> (r: Option<usize>)
    ensures
        r matches Some(i) ==> i < es@.len() && es@[i as int].0@ == key@,
        r is None ==> forall|i: int| 0 <= i < es@.len() ==> (#[trigger] es@[i]).0@ != key@,
{
    let mut i: usize = 0;
    while i < es.len()
        invariant
            i <= es@.len(),
            forall|t: int| 0 <= t < i ==> (#[trigger] es@[t]).0@ != key@,
        decreases es.len() - i,
    {
        if str_eq(es[i].0.as_str(), key.as_str()) {
            return Some(i);
        }
        i = i + 1;
    }
    None
}

/// An attribute write seen as its name and the value it sets, `None` for a
/// removal.
pub open spec fn op_view(op: AttrOp) -> (Seq<char>, Option<Seq<char>>) {
    match op {
        AttrOp::Assign { key, value } => (key@, Some(value@)),
        AttrOp::Remove { key } => (key@, None),
    }
}

/// The sets of a pairwise diff: one for every entry of `next`, in order,
/// whose name `prev` lacks or gives another value.
pub open spec fn set_writes(next: Seq<(String, String)>, prev: Seq<(String, String)>) -> Seq<
    (Seq<char>, Option<Seq<char>>),
>
    decreases next.len(),
{
    if next.len() == 0 {
        Seq::empty()
    } else {
        let w = set_writes(next.drop_last(), prev);
        let (k, v) = next.last();
        if pairs_map(prev).contains_key(k@) && pairs_map(prev)[k@] == v@ {
            w
        } else {
            w.push((k@, Some(v@)))
        }
    }
}

/// The removals of a pairwise diff: one for every entry of `prev`, in order,
/// whose name `next` lacks.
pub open spec fn removal_writes(next: Seq<(String, String)>, prev: Seq<(String, String)>) -> Seq<
    (Seq<char>, Option<Seq<char>>),
>
    decreases prev.len(),
{
    if prev.len() == 0 {
        Seq::empty()
    } else {
        let w = removal_writes(next, prev.drop_last());
        let k = prev.last().0;
        if pairs_map(next).contains_key(k@) {
            w
        } else {
            w.push((k@, None))
        }
    }
}

/// The writes of a pairwise diff: the sets, then the removals.
pub open spec fn pair_writes(next: Seq<(String, String)>, prev: Seq<(String, String)>) -> Seq<
    (Seq<char>, Option<Seq<char>>),
> {
    set_writes(next, prev) + removal_writes(next, prev)
}

/// What a lookup of `k` in a map answers: the value, or `None` when the
/// map has no such name.
pub open spec fn value_found(m: Map<Seq<char>, Seq<char>>, k: Seq<char>, r: Option<String>) -> bool {
    match r {
        Some(v) => m.contains_key(k) && m[k] == v@,
        None => !m.contains_key(k),
    }
}

/// The value of a name among pairs with distinct names.
fn value_of(es: &Vec<(String, String)>, key: &String) -> (r: Option<String>)
    requires
        distinct_names(es@),
    ensures
        value_found(pairs_map(es@), key@, r),
{
    proof {
        lemma_pairs_map_distinct(es@);
    }
    match find_pair(es, key) {
        Some(j) => Some(es[j].1.clone()),
        None => {
            proof {
                if pairs_map(es@).contains_key(key@) {
                    let t = choose|t: int| 0 <= t < es@.len() && es@[t].0@ == key@;
                    assert(es@[t].0@ != key@);
                }
            }
            None
        },
    }
}

/// True when a name is among pairs with distinct names.
fn has_name(es: &Vec<(String, String)>, key: &String) -> (r: bool)
    requires
        distinct_names(es@),
    ensures
        r == pairs_map(es@).contains_key(key@),
{
    proof {
        lemma_pairs_map_distinct(es@);
    }
    let r = find_pair(es, key).is_some();
    proof {
        if !r && pairs_map(es@).contains_key(key@) {
            let t = choose|t: int| 0 <= t < es@.len() && es@[t].0@ == key@;
            assert(es@[t].0@ != key@);
        }
    }
    r
}

/// The writes that bring an element with attributes `prev` to the
/// attributes `next`, both given as pairs with distinct names: a set for
/// every name whose value is next or changed, in the order of `next`, then a
/// removal for every name that `next` no longer has, in the order of `prev`.
pub fn diff_pairs(next: &Vec<(String, String)>, prev: &Vec<(String, String)>) -> (ops: Vec<AttrOp>)
    requires
        distinct_names(next@),
        distinct_names(prev@),
    ensures
        ops@.map_values(|op: AttrOp| op_view(op)) == pair_writes(next@, prev@),
        apply_ops(pairs_map(prev@), ops@) == pairs_map(next@),
{
    let old_value = |k: &String| -> (r: Option<String>)
        requires
            distinct_names(prev@),
        ensures
            value_found(pairs_map(prev@), k@, r),
        { value_of(prev, k) };
    let has_new = |k: &String| -> (r: bool)
        requires
            distinct_names(next@),
        ensures
            r == pairs_map(next@).contains_key(k@),
        { has_name(next, k) };
    diff_pairs_by(next, prev, old_value, has_new)
}

/// [`diff_pairs`], with the lookups of a name among the old values and among
/// the new names done by `old_value` and `has_new`.
fn diff_pairs_by<G: Fn(&String) -> Option<String>, C: Fn(&String) -> bool>(
    next: &Vec<(String, String)>,
    prev: &Vec<(String, String)>,
    old_value: G,
    has_new: C,
) -> (ops: Vec<AttrOp>)
    requires
        distinct_names(next@),
        distinct_names(prev@),
        forall|k: &String| old_value.requires((k,)),
        forall|k: &String| has_new.requires((k,)),
        forall|k: &String, r: Option<String>| #[trigger] old_value.ensures((k,), r) ==> value_found(
            pairs_map(prev@),
            k@,
            r,
        ),
        forall|k: &String, r: bool| #[trigger] has_new.ensures((k,), r) ==> r == pairs_map(
            next@,
        ).contains_key(k@),
    ensures
        ops@.map_values(|op: AttrOp| op_view(op)) == pair_writes(next@, prev@),
        apply_ops(pairs_map(prev@), ops@) == pairs_map(next@),
{
    let ghost mo = pairs_map(prev@);
    let ghost mn = pairs_map(next@);
    proof {
        lemma_pairs_map_distinct(next@);
        lemma_pairs_map_distinct(prev@);
    }
    let mut ops: Vec<AttrOp> = Vec::new();
    let ghost mut cur = mo;
    let mut i: usize = 0;
    while i < next.len()
        invariant
            i <= next@.len(),
            distinct_names(next@),
            distinct_names(prev@),
            mo == pairs_map(prev@),
            forall|k: &String| old_value.requires((k,)),
            forall|k: &String| has_new.requires((k,)),
            forall|k: &String, r: Option<String>| #[trigger] old_value.ensures((k,), r) ==> value_found(
                mo,
                k@,
                r,
            ),
            forall|k: &String, r: bool| #[trigger] has_new.ensures((k,), r) ==> r == mn.contains_key(k@),
            mn == pairs_map(next@),
            forall|t: int| 0 <= t < next@.len() ==> #[trigger] mn.contains_key(next@[t].0@) && mn[next@[t].0@]
                == next@[t].1@,
            forall|t: int| 0 <= t < prev@.len() ==> #[trigger] mo.contains_key(prev@[t].0@) && mo[prev@[t].0@]
                == prev@[t].1@,
            forall|k: Seq<char>| #[trigger]
                mo.contains_key(k) ==> exists|t: int| 0 <= t < prev@.len() && prev@[t].0@ == k,
            cur == apply_ops(mo, ops@),
            ops@.map_values(|op: AttrOp| op_view(op)) == set_writes(next@.take(i as int), prev@),
            forall|t: int| 0 <= t < i ==> #[trigger] cur.contains_key(next@[t].0@) && cur[next@[t].0@]
                == next@[t].1@,
            forall|k: Seq<char>|
                !name_among(next@, i as int, k) ==> (#[trigger] cur.contains_key(k)
                    == mo.contains_key(k) && (mo.contains_key(k) ==> cur[k] == mo[k])),
        decreases next.len() - i,
    {
        let ghost before = cur;
        proof {
            assert(forall|t: int| 0 <= t < i ==> before.contains_key(#[trigger] next@[t].0@));
        }
        let (key, value) = (&next[i].0, &next[i].1);
        let found = old_value(key);
        let changed = match &found {
            Some(ov) => !str_eq(ov.as_str(), value.as_str()),
            None => true,
        };
        if changed {
            let op = AttrOp::Assign { key: key.clone(), value: value.clone() };
            proof {
                lemma_apply_push(mo, ops@, op);
            }
            ops.push(op);
        }
        proof {
            assert(next@.take(i + 1).drop_last() =~= next@.take(i as int));
            assert(next@.take(i + 1).last() == next@[i as int]);
            assert(changed == !(mo.contains_key(key@) && mo[key@] == value@));
            assert(ops@.map_values(|op: AttrOp| op_view(op)) =~= set_writes(next@.take(i + 1), prev@));
            cur = apply_ops(mo, ops@);
            if changed {
                assert(cur == before.insert(next@[i as int].0@, next@[i as int].1@));
            } else {
                assert(cur == before);
                assert(mo.contains_key(key@) && mo[key@] == value@);
                assert(forall|t: int| 0 <= t < i ==> next@[t].0@ != next@[i as int].0@);
                assert(!name_among(next@, i as int, key@));
                assert(before.contains_key(key@) && before[key@] == mo[key@]);
            }
            assert forall|k: Seq<char>|
                !name_among(next@, i + 1, k) implies (#[trigger] cur.contains_key(k)
                == mo.contains_key(k) && (mo.contains_key(k) ==> cur[k] == mo[k])) by {
                assert(next@[i as int].0@ != k);
                assert(!name_among(next@, i as int, k));
                assert(before.contains_key(k) == mo.contains_key(k));
                assert(cur.contains_key(k) == before.contains_key(k));
            }
            assert forall|t: int| 0 <= t < i + 1 implies #[trigger] cur.contains_key(next@[t].0@)
                && cur[next@[t].0@] == next@[t].1@ by {
                if t < i {
                    assert(next@[t].0@ != next@[i as int].0@);
                    assert(before.contains_key(next@[t].0@) && before[next@[t].0@] == next@[t].1@);
                }
            }
        }
        i = i + 1;
    }
    proof {
        assert(next@.take(next@.len() as int) =~= next@);
        assert(prev@.take(0) =~= Seq::<(String, String)>::empty());
        assert(set_writes(next@, prev@) + removal_writes(next@, prev@.take(0)) =~= set_writes(next@, prev@));
    }
    let mut j: usize = 0;
    while j < prev.len()
        invariant
            j <= prev@.len(),
            distinct_names(next@),
            distinct_names(prev@),
            mo == pairs_map(prev@),
            forall|k: &String| old_value.requires((k,)),
            forall|k: &String| has_new.requires((k,)),
            forall|k: &String, r: Option<String>| #[trigger] old_value.ensures((k,), r) ==> value_found(
                mo,
                k@,
                r,
            ),
            forall|k: &String, r: bool| #[trigger] has_new.ensures((k,), r) ==> r == mn.contains_key(k@),
            mn == pairs_map(next@),
            forall|t: int| 0 <= t < next@.len() ==> #[trigger] mn.contains_key(next@[t].0@) && mn[next@[t].0@]
                == next@[t].1@,
            forall|k: Seq<char>| #[trigger]
                mn.contains_key(k) ==> exists|t: int| 0 <= t < next@.len() && next@[t].0@ == k,
            forall|t: int| 0 <= t < prev@.len() ==> #[trigger] mo.contains_key(prev@[t].0@),
            forall|k: Seq<char>| #[trigger]
                mo.contains_key(k) ==> exists|t: int| 0 <= t < prev@.len() && prev@[t].0@ == k,
            cur == apply_ops(mo, ops@),
            ops@.map_values(|op: AttrOp| op_view(op)) == set_writes(next@, prev@) + removal_writes(
                next@,
                prev@.take(j as int),
            ),
            forall|k: Seq<char>| #[trigger] mn.contains_key(k) ==> cur.contains_key(k) && cur[k] == mn[k],
            forall|k: Seq<char>|
                #[trigger] cur.contains_key(k) && !mn.contains_key(k) ==> exists|t: int|
                    j <= t < prev@.len() && prev@[t].0@ == k,
        decreases prev.len() - j,
    {
        let key = &prev[j].0;
        let ghost ops0 = ops@;
        let missing = !has_new(key);
        proof {
            assert(prev@.take(j + 1).drop_last() =~= prev@.take(j as int));
            assert(prev@.take(j + 1).last() == prev@[j as int]);
        }
        let ghost a = set_writes(next@, prev@);
        let ghost b = removal_writes(next@, prev@.take(j as int));
        if missing {
            let op = AttrOp::Remove { key: key.clone() };
            proof {
                lemma_apply_push(mo, ops@, op);
                assert(!mn.contains_key(key@));
                assert(op_view(op) == (key@, None::<Seq<char>>));
                assert(ops@.push(op).map_values(|op: AttrOp| op_view(op)) =~= (a + b).push(
                    (key@, None::<Seq<char>>),
                ));
                assert((a + b).push((key@, None::<Seq<char>>)) =~= a + b.push((key@, None::<Seq<char>>)));
            }
            ops.push(op);
        }
        proof {
            assert(missing == !mn.contains_key(key@));
            if missing {
                assert(removal_writes(next@, prev@.take(j + 1)) == b.push((key@, None::<Seq<char>>)));
            } else {
                assert(removal_writes(next@, prev@.take(j + 1)) == b);
            }
            assert(ops@.map_values(|op: AttrOp| op_view(op)) == set_writes(next@, prev@) + removal_writes(
                next@,
                prev@.take(j + 1),
            ));
            cur = apply_ops(mo, ops@);
            assert forall|k: Seq<char>|
                #[trigger] cur.contains_key(k) && !mn.contains_key(k) implies exists|t: int|
                j + 1 <= t < prev@.len() && prev@[t].0@ == k by {
                let t = choose|t: int| j <= t < prev@.len() && prev@[t].0@ == k;
                if t == j {
                    assert(false);
                }
            }
        }
        j = j + 1;
    }
    proof {
        assert(cur =~= mn);
        assert(prev@.take(prev@.len() as int) =~= prev@);
    }
    ops
}


proof fn lemma_pairs_map_eq(a: Seq<(String, String)>, m: Map<Seq<char>, Seq<char>>)
    requires
        distinct_names(a),
        forall|i: int| 0 <= i < a.len() ==> #[trigger] m.contains_key(a[i].0@) && m[a[i].0@] == a[i].1@,
        forall|k: Seq<char>| #[trigger] m.contains_key(k) ==> exists|i: int| 0 <= i < a.len() && a[i].0@ == k,
    ensures
        pairs_map(a) == m,
{
    lemma_pairs_map_distinct(a);
    assert forall|k: Seq<char>| #[trigger] pairs_map(a).contains_key(k) == m.contains_key(k) by {
        if m.contains_key(k) {
            let i = choose|i: int| 0 <= i < a.len() && a[i].0@ == k;
            assert(pairs_map(a).contains_key(a[i].0@));
        }
        if pairs_map(a).contains_key(k) {
            let i = choose|i: int| 0 <= i < a.len() && a[i].0@ == k;
            assert(m.contains_key(a[i].0@));
        }
    }
    assert forall|k: Seq<char>| #[trigger] pairs_map(a).contains_key(k) implies pairs_map(a)[k] == m[k] by {
        let i = choose|i: int| 0 <= i < a.len() && a[i].0@ == k;
        assert(m.contains_key(a[i].0@));
    }
    assert(pairs_map(a) =~= m);
}

/// Puts a name-value pair into pairs with distinct names: replaces the
/// value of the name, or adds the pair at the end.
fn insert_pair(es: &mut Vec<(String, String)>, key: String, value: String)
    requires
        distinct_names(old(es)@),
    ensures
        distinct_names(final(es)@),
        pairs_map(final(es)@) == pairs_map(old(es)@).insert(key@, value@),
{
    let ghost before = es@;
    let ghost target = pairs_map(before).insert(key@, value@);
    proof {
        lemma_pairs_map_distinct(before);
    }
    match find_pair(es, &key) {
        Some(j) => {
            es.set(j, (key, value));
            proof {
                let after = es@;
                assert(distinct_names(after)) by {
                    assert forall|a: int, b: int| 0 <= a < b < after.len() implies (
                    #[trigger] after[a]).0@ != (#[trigger] after[b]).0@ by {
                        if a != j && b != j {
                            assert(after[a] == before[a] && after[b] == before[b]);
                        } else if a == j {
                            assert(after[b] == before[b]);
                        } else {
                            assert(after[a] == before[a]);
                        }
                    }
                }
                assert forall|i: int| 0 <= i < after.len() implies #[trigger] target.contains_key(
                    after[i].0@,
                ) && target[after[i].0@] == after[i].1@ by {
                    if i != j {
                        assert(after[i] == before[i]);
                        assert(before[i].0@ != before[j as int].0@);
                    }
                }
                assert forall|k: Seq<char>| #[trigger] target.contains_key(k) implies exists|i: int|
                    0 <= i < after.len() && after[i].0@ == k by {
                    if k != key@ {
                        let i = choose|i: int| 0 <= i < before.len() && before[i].0@ == k;
                        assert(after[i] == before[i]);
                    } else {
                        assert(after[j as int].0@ == k);
                    }
                }
                lemma_pairs_map_eq(after, target);
            }
        },
        None => {
            es.push((key, value));
            proof {
                let after = es@;
                assert(after.drop_last() =~= before);
            }
        },
    }
}

/// The attributes that are present, as pairs with distinct names; a later
/// entry for a name wins.
pub fn collect_pairs(a: &Attributes) -> (r: Vec<(String, String)>)
    requires
        attrs_wf(*a),
    ensures
        distinct_names(r@),
        pairs_map(r@) == attrs_map(*a),
{
    let mut r: Vec<(String, String)> = Vec::new();
    match a {
        Attributes::IndexMap(m) => {
            let es = index_map_pairs(m);
            proof {
                lemma_pairs_map_view(es@);
            }
            return es;
        },
        Attributes::Static(es) => {
            let mut i: usize = 0;
            while i < es.len()
                invariant
                    i <= es@.len(),
                    distinct_names(r@),
                    pairs_map(r@) == pairs_map(es@.take(i as int)),
                decreases es.len() - i,
            {
                insert_pair(&mut r, es[i].0.clone(), es[i].1.clone());
                proof {
                    assert(es@.take(i + 1).drop_last() =~= es@.take(i as int));
                }
                i = i + 1;
            }
            proof {
                assert(es@.take(es@.len() as int) =~= es@);
            }
        },
        Attributes::Dynamic { keys, values } => {
            let mut i: usize = 0;
            while i < keys.len()
                invariant
                    i <= keys@.len(),
                    keys@.len() == values@.len(),
                    distinct_names(r@),
                    pairs_map(r@) == dynamic_map(keys@.take(i as int), values@.take(i as int)),
                decreases keys.len() - i,
            {
                proof {
                    assert(keys@.take(i + 1).drop_last() =~= keys@.take(i as int));
                    assert(values@.take(i + 1).drop_last() =~= values@.take(i as int));
                }
                match &values[i] {
                    Some(v) => insert_pair(&mut r, keys[i].clone(), v.clone()),
                    None => {},
                }
                i = i + 1;
            }
            proof {
                assert(keys@.take(keys@.len() as int) =~= keys@);
                assert(values@.take(values@.len() as int) =~= values@);
            }
        },
    }
    r
}


/// Some of the first `i` names is `k`.
pub open spec fn key_among(keys: Seq<String>, i: int, k: Seq<char>) -> bool {
    exists|u: int| 0 <= u < i && keys[u]@ == k
}

/// The names of dynamic attributes are distinct.
pub open spec fn distinct_keys(keys: Seq<String>) -> bool {
    forall|i: int, j: int| 0 <= i < j < keys.len() ==> (#[trigger] keys[i])@ != (#[trigger] keys[j])@
}

proof fn lemma_dynamic_map_distinct(keys: Seq<String>, values: Seq<Option<String>>, n: int)
    requires
        distinct_keys(keys),
        keys.len() == values.len(),
        0 <= n <= keys.len(),
    ensures
        forall|i: int|
            0 <= i < n ==> match #[trigger] values[i] {
                Some(v) => dynamic_map(keys.take(n), values.take(n)).contains_key(keys[i]@)
                    && dynamic_map(keys.take(n), values.take(n))[keys[i]@] == v@,
                None => !dynamic_map(keys.take(n), values.take(n)).contains_key(keys[i]@),
            },
        forall|k: Seq<char>|
            #[trigger] dynamic_map(keys.take(n), values.take(n)).contains_key(k) ==> exists|i: int|
                0 <= i < n && keys[i]@ == k,
    decreases n,
{
    if n > 0 {
        lemma_dynamic_map_distinct(keys, values, n - 1);
        assert(keys.take(n).drop_last() =~= keys.take(n - 1));
        assert(values.take(n).drop_last() =~= values.take(n - 1));
        let m0 = dynamic_map(keys.take(n - 1), values.take(n - 1));
        let m = dynamic_map(keys.take(n), values.take(n));
        assert(keys.take(n).last() == keys[n - 1]);
        assert(values.take(n).last() == values[n - 1]);
        assert forall|i: int| 0 <= i < n implies match #[trigger] values[i] {
            Some(v) => m.contains_key(keys[i]@) && m[keys[i]@] == v@,
            None => !m.contains_key(keys[i]@),
        } by {
            if i < n - 1 {
                assert(keys[i]@ != keys[n - 1]@);
                assert(match values[i] {
                    Some(v) => m0.contains_key(keys[i]@) && m0[keys[i]@] == v@,
                    None => !m0.contains_key(keys[i]@),
                });
            }
        }
        assert forall|k: Seq<char>| #[trigger] m.contains_key(k) implies exists|i: int|
            0 <= i < n && keys[i]@ == k by {
            if k != keys[n - 1]@ {
                assert(m0.contains_key(k));
                let i = choose|i: int| 0 <= i < n - 1 && keys[i]@ == k;
                assert(keys[i]@ == k);
            } else {
                assert(keys[n - 1]@ == k);
            }
        }
    }
}

fn keys_equal(a: &Vec<String>, b: &Vec<String>) -> (r: bool)
    ensures
        r == (a@.len() == b@.len() && forall|i: int| 0 <= i < a@.len() ==> (#[trigger] a@[i])@ == b@[i]@),
{
    if a.len() != b.len() {
        return false;
    }
    let mut i: usize = 0;
    while i < a.len()
        invariant
            a@.len() == b@.len(),
            i <= a@.len(),
            forall|t: int| 0 <= t < i ==> (#[trigger] a@[t])@ == b@[t]@,
        decreases a.len() - i,
    {
        if !str_eq(a[i].as_str(), b[i].as_str()) {
            return false;
        }
        i = i + 1;
    }
    true
}

/// The writes of dynamic attributes compared slot by slot, in slot order:
/// a set where a slot gains a value or changes it, a removal where it loses
/// one, nothing where it stays.
pub open spec fn slot_writes(
    keys: Seq<String>,
    next: Seq<Option<String>>,
    prev: Seq<Option<String>>,
) -> Seq<(Seq<char>, Option<Seq<char>>)>
    decreases keys.len(),
{
    if keys.len() == 0 || next.len() == 0 || prev.len() == 0 {
        Seq::empty()
    } else {
        let w = slot_writes(keys.drop_last(), next.drop_last(), prev.drop_last());
        let k = keys.last()@;
        match (next.last(), prev.last()) {
            (Some(n), Some(p)) => if n@ != p@ {
                w.push((k, Some(n@)))
            } else {
                w
            },
            (Some(n), None) => w.push((k, Some(n@))),
            (None, Some(_)) => w.push((k, None)),
            (None, None) => w,
        }
    }
}

/// The writes between dynamic attributes with the same names, slot by
/// slot: a new or changed value is set, a value gone is removed.
fn diff_dynamic(
    keys: &Vec<String>,
    next_values: &Vec<Option<String>>,
    prev_values: &Vec<Option<String>>,
) -> (ops: Vec<AttrOp>)
    requires
        keys@.len() == next_values@.len(),
        keys@.len() == prev_values@.len(),
    ensures
        ops@.map_values(|op: AttrOp| op_view(op)) == slot_writes(keys@, next_values@, prev_values@),
        distinct_keys(keys@) ==> apply_ops(dynamic_map(keys@, prev_values@), ops@) == dynamic_map(
            keys@,
            next_values@,
        ),
{
    let n = keys.len();
    let ghost mo = dynamic_map(keys@, prev_values@);
    let ghost mn = dynamic_map(keys@, next_values@);
    let mut ops: Vec<AttrOp> = Vec::new();
    let mut i: usize = 0;
    while i < n
        invariant
            n == keys@.len(),
            n == next_values@.len(),
            n == prev_values@.len(),
            i <= n,
            mo == dynamic_map(keys@, prev_values@),
            ops@.map_values(|op: AttrOp| op_view(op)) == slot_writes(
                keys@.take(i as int),
                next_values@.take(i as int),
                prev_values@.take(i as int),
            ),
            forall|t: int| #![trigger ops@[t]] 0 <= t < ops@.len() ==> exists|u: int| 0 <= u < i && op_key(ops@[t]) == keys@[u]@,
            forall|k: Seq<char>|
                !key_among(keys@, i as int, k) ==> #[trigger] apply_ops(mo, ops@).contains_key(k)
                    == mo.contains_key(k) && (mo.contains_key(k) ==> apply_ops(mo, ops@)[k] == mo[k]),
            distinct_keys(keys@) ==> forall|u: int|
                0 <= u < i ==> match #[trigger] next_values@[u] {
                    Some(v) => apply_ops(mo, ops@).contains_key(keys@[u]@) && apply_ops(mo, ops@)[keys@[u]@] == v@,
                    None => !apply_ops(mo, ops@).contains_key(keys@[u]@),
                },
        decreases n - i,
    {
        let ghost before = apply_ops(mo, ops@);
        let ghost ops0 = ops@;
        let op = match (&next_values[i], &prev_values[i]) {
            (Some(nv), Some(pv)) => {
                if !str_eq(nv.as_str(), pv.as_str()) {
                    Some(AttrOp::Assign { key: keys[i].clone(), value: nv.clone() })
                } else {
                    None
                }
            },
            (Some(nv), None) => Some(AttrOp::Assign { key: keys[i].clone(), value: nv.clone() }),
            (None, Some(_)) => Some(AttrOp::Remove { key: keys[i].clone() }),
            (None, None) => None,
        };
        match op {
            Some(op) => {
                proof {
                    lemma_apply_push(mo, ops@, op);
                }
                ops.push(op);
            },
            None => {},
        }
        proof {
            assert(keys@.take(i + 1).drop_last() =~= keys@.take(i as int));
            assert(next_values@.take(i + 1).drop_last() =~= next_values@.take(i as int));
            assert(prev_values@.take(i + 1).drop_last() =~= prev_values@.take(i as int));
            assert(ops@.map_values(|op: AttrOp| op_view(op)) =~= slot_writes(
                keys@.take(i + 1),
                next_values@.take(i + 1),
                prev_values@.take(i + 1),
            ));
            if distinct_keys(keys@) {
                lemma_dynamic_map_distinct(keys@, prev_values@, n as int);
                assert(keys@.take(n as int) =~= keys@);
                assert(prev_values@.take(n as int) =~= prev_values@);
            }
            let cur = apply_ops(mo, ops@);
            assert forall|t: int| #![trigger ops@[t]] 0 <= t < ops@.len() implies exists|u: int|
                0 <= u < i + 1 && op_key(ops@[t]) == keys@[u]@ by {
                if t < ops0.len() {
                    assert(ops@[t] == ops0[t]);
                    let u = choose|u: int| 0 <= u < i && op_key(ops0[t]) == keys@[u]@;
                } else {
                    assert(op_key(ops@[t]) == keys@[i as int]@);
                }
            }
            assert forall|k: Seq<char>|
                !key_among(keys@, i + 1, k) implies #[trigger] cur.contains_key(k)
                == mo.contains_key(k) && (mo.contains_key(k) ==> cur[k] == mo[k]) by {
                assert(keys@[i as int]@ != k);
                assert(!key_among(keys@, i as int, k));
                assert(before.contains_key(k) == mo.contains_key(k));
            }
            if distinct_keys(keys@) {
                assert forall|u: int| 0 <= u < i + 1 implies match #[trigger] next_values@[u] {
                    Some(v) => cur.contains_key(keys@[u]@) && cur[keys@[u]@] == v@,
                    None => !cur.contains_key(keys@[u]@),
                } by {
                    if u < i {
                        assert(keys@[u]@ != keys@[i as int]@);
                        assert(match next_values@[u] {
                            Some(v) => before.contains_key(keys@[u]@) && before[keys@[u]@] == v@,
                            None => !before.contains_key(keys@[u]@),
                        });
                    } else {
                        assert(forall|w: int| 0 <= w < i ==> #[trigger] keys@[w]@ != keys@[i as int]@);
                        assert(!key_among(keys@, i as int, keys@[i as int]@));
                        assert(before.contains_key(keys@[u]@) == mo.contains_key(keys@[u]@));
                        assert(match prev_values@[u] {
                            Some(v) => mo.contains_key(keys@[u]@) && mo[keys@[u]@] == v@,
                            None => !mo.contains_key(keys@[u]@),
                        });
                    }
                }
            }
        }
        i = i + 1;
    }
    proof {
        assert(keys@.take(n as int) =~= keys@);
        assert(next_values@.take(n as int) =~= next_values@);
        assert(prev_values@.take(n as int) =~= prev_values@);
        if distinct_keys(keys@) {
            let cur = apply_ops(mo, ops@);
            lemma_dynamic_map_distinct(keys@, next_values@, n as int);
            assert(keys@.take(n as int) =~= keys@);
            assert(next_values@.take(n as int) =~= next_values@);
            assert forall|k: Seq<char>| #[trigger] cur.contains_key(k) == mn.contains_key(k) by {
                if key_among(keys@, n as int, k) {
                    let u = choose|u: int| 0 <= u < n && keys@[u]@ == k;
                    assert(match next_values@[u] {
                        Some(v) => cur.contains_key(keys@[u]@),
                        None => !cur.contains_key(keys@[u]@),
                    });
                    assert(match next_values@[u] {
                        Some(v) => mn.contains_key(keys@[u]@),
                        None => !mn.contains_key(keys@[u]@),
                    });
                } else {
                    lemma_dynamic_map_distinct(keys@, prev_values@, n as int);
                    assert(keys@.take(n as int) =~= keys@);
                    assert(prev_values@.take(n as int) =~= prev_values@);
                    if mo.contains_key(k) {
                        let u = choose|u: int| 0 <= u < n && keys@[u]@ == k;
                    }
                    if mn.contains_key(k) {
                        let u = choose|u: int| 0 <= u < n && keys@[u]@ == k;
                    }
                }
            }
            assert forall|k: Seq<char>| #[trigger] cur.contains_key(k) implies cur[k] == mn[k] by {
                assert(mn.contains_key(k));
                let u = choose|u: int| 0 <= u < n && keys@[u]@ == k;
                assert(match next_values@[u] {
                    Some(v) => cur.contains_key(keys@[u]@) && cur[keys@[u]@] == v@,
                    None => !cur.contains_key(keys@[u]@),
                });
                assert(match next_values@[u] {
                    Some(v) => mn.contains_key(keys@[u]@) && mn[keys@[u]@] == v@,
                    None => !mn.contains_key(keys@[u]@),
                });
            }
            assert(cur =~= mn);
        }
    }
    ops
}


/// The slot-by-slot writes from `prev` to `next` when both are dynamic
/// attributes with the same names in the same order; `None` otherwise.
pub open spec fn dynamic_slot_diff(next: Attributes, prev: Attributes) -> Option<
    Seq<(Seq<char>, Option<Seq<char>>)>,
> {
    match (next, prev) {
        (
            Attributes::Dynamic { keys: nk, values: nv },
            Attributes::Dynamic { keys: pk, values: pv },
        ) => if nk@.len() == pk@.len() && forall|i: int| 0 <= i < nk@.len() ==> (#[trigger] nk@[i])@ == pk@[i]@ {
            Some(slot_writes(nk@, nv@, pv@))
        } else {
            None
        },
        _ => None,
    }
}

/// `w` is a pairwise diff between some listings of the two attribute maps,
/// each listing a name once: a set for each new or changed name and a
/// removal for each name gone, in an order the maps leave open.
pub open spec fn map_diff_writes(
    next: Map<Seq<char>, Seq<char>>,
    prev: Map<Seq<char>, Seq<char>>,
    w: Seq<(Seq<char>, Option<Seq<char>>)>,
) -> bool {
    exists|n: Seq<(String, String)>, p: Seq<(String, String)>|
        distinct_names(n) && distinct_names(p) && pairs_map(n) == next && pairs_map(p) == prev && w
            == #[trigger] pair_writes(n, p)
}

/// The writes from `prev` to `next` attributes: slot by slot for dynamic
/// attributes with the same names, entry by entry for run-time built ones,
/// and between the two maps otherwise.
pub open spec fn diff_writes(next: Attributes, prev: Attributes, w: Seq<(Seq<char>, Option<Seq<char>>)>) -> bool {
    match dynamic_slot_diff(next, prev) {
        Some(d) => w == d,
        None => match (next, prev) {
            (Attributes::IndexMap(n), Attributes::IndexMap(p)) => exists|ne: Seq<(String, String)>, pe: Seq<(String, String)>|
                pairs_view(ne) == index_map_entries(n) && pairs_view(pe) == index_map_entries(p) && w
                    == #[trigger] pair_writes(ne, pe),
            _ => map_diff_writes(attrs_map(next), attrs_map(prev), w),
        },
    }
}

/// The names of dynamic attributes are distinct; other attributes ask
/// nothing.
pub open spec fn dynamic_names_distinct(a: Attributes) -> bool {
    match a {
        Attributes::Dynamic { keys, .. } => distinct_keys(keys@),
        _ => true,
    }
}

impl Attributes {
    /// The writes that give a fresh element these attributes: every present
    /// attribute is set, in order.
    pub fn apply(&self) -> (ops: Vec<AttrOp>)
        requires
            attrs_wf(*self),
        ensures
            apply_ops(Map::empty(), ops@) == attrs_map(*self),
    {
        let mut ops: Vec<AttrOp> = Vec::new();
        match self {
            Attributes::IndexMap(m) => {
                let es = index_map_pairs(m);
                proof {
                    lemma_pairs_map_view(es@);
                }
                let mut i: usize = 0;
                while i < es.len()
                    invariant
                        i <= es@.len(),
                        apply_ops(Map::empty(), ops@) == pairs_map(es@.take(i as int)),
                    decreases es.len() - i,
                {
                    let op = AttrOp::Assign { key: es[i].0.clone(), value: es[i].1.clone() };
                    proof {
                        lemma_apply_push(Map::empty(), ops@, op);
                        assert(es@.take(i + 1).drop_last() =~= es@.take(i as int));
                    }
                    ops.push(op);
                    i = i + 1;
                }
                proof {
                    assert(es@.take(es@.len() as int) =~= es@);
                }
            },
            Attributes::Static(es) => {
                let mut i: usize = 0;
                while i < es.len()
                    invariant
                        i <= es@.len(),
                        apply_ops(Map::empty(), ops@) == pairs_map(es@.take(i as int)),
                    decreases es.len() - i,
                {
                    let op = AttrOp::Assign { key: es[i].0.clone(), value: es[i].1.clone() };
                    proof {
                        lemma_apply_push(Map::empty(), ops@, op);
                        assert(es@.take(i + 1).drop_last() =~= es@.take(i as int));
                    }
                    ops.push(op);
                    i = i + 1;
                }
                proof {
                    assert(es@.take(es@.len() as int) =~= es@);
                }
            },
            Attributes::Dynamic { keys, values } => {
                let mut i: usize = 0;
                while i < keys.len()
                    invariant
                        i <= keys@.len(),
                        keys@.len() == values@.len(),
                        apply_ops(Map::empty(), ops@) == dynamic_map(
                            keys@.take(i as int),
                            values@.take(i as int),
                        ),
                    decreases keys.len() - i,
                {
                    proof {
                        assert(keys@.take(i + 1).drop_last() =~= keys@.take(i as int));
                        assert(values@.take(i + 1).drop_last() =~= values@.take(i as int));
                    }
                    match &values[i] {
                        Some(v) => {
                            let op = AttrOp::Assign { key: keys[i].clone(), value: v.clone() };
                            proof {
                                lemma_apply_push(Map::empty(), ops@, op);
                            }
                            ops.push(op);
                        },
                        None => {},
                    }
                    i = i + 1;
                }
                proof {
                    assert(keys@.take(keys@.len() as int) =~= keys@);
                    assert(values@.take(values@.len() as int) =~= values@);
                }
            },
        }
        ops
    }

    /// The writes that bring an element from the `ancestor` attributes to
    /// these. Dynamic attributes with the same names are compared slot by
    /// slot, run-time built ones entry by entry; any other pair is compared
    /// as maps from name to value.
    pub fn apply_diff(&self, ancestor: &Attributes) -> (ops: Vec<AttrOp>)
        requires
            attrs_wf(*self),
            attrs_wf(*ancestor),
        ensures
            diff_writes(*self, *ancestor, ops@.map_values(|op: AttrOp| op_view(op))),
            dynamic_slot_diff(*self, *ancestor) is None || dynamic_names_distinct(*self) ==> apply_ops(
                attrs_map(*ancestor),
                ops@,
            ) == attrs_map(*self),
    {
        match (self, ancestor) {
            (
                Attributes::Dynamic { keys: next_keys, values: next_values },
                Attributes::Dynamic { keys: prev_keys, values: prev_values },
            ) => {
                if keys_equal(next_keys, prev_keys) {
                    let ops = diff_dynamic(next_keys, next_values, prev_values);
                    proof {
                        assert(dynamic_map(prev_keys@, prev_values@) == dynamic_map(
                            next_keys@,
                            prev_values@,
                        )) by {
                            lemma_dynamic_map_keys_view(next_keys@, prev_keys@, prev_values@);
                        }
                    }
                    return ops;
                }
            },
            (Attributes::IndexMap(next), Attributes::IndexMap(prev)) => {
                let next_pairs = index_map_pairs(next);
                let prev_pairs = index_map_pairs(prev);
                proof {
                    lemma_pairs_map_view(next_pairs@);
                    lemma_pairs_map_view(prev_pairs@);
                }
                let old_value = |k: &String| -> (r: Option<String>)
                    ensures
                        value_found(entries_map(index_map_entries(*prev)), k@, r),
                    { index_map_get(prev, k) };
                let has_new = |k: &String| -> (r: bool)
                    ensures
                        r == entries_map(index_map_entries(*next)).contains_key(k@),
                    { index_map_contains_key(next, k) };
                return diff_pairs_by(&next_pairs, &prev_pairs, old_value, has_new);
            },
            _ => {},
        }
        let next = collect_pairs(self);
        let prev = collect_pairs(ancestor);
        diff_pairs(&next, &prev)
    }
}

proof fn lemma_dynamic_map_keys_view(a: Seq<String>, b: Seq<String>, values: Seq<Option<String>>)
    requires
        a.len() == b.len(),
        forall|i: int| 0 <= i < a.len() ==> (#[trigger] a[i])@ == b[i]@,
    ensures
        dynamic_map(b, values) == dynamic_map(a, values),
    decreases a.len(),
{
    if a.len() > 0 && values.len() > 0 {
        let a0 = a.drop_last();
        let b0 = b.drop_last();
        assert forall|i: int| 0 <= i < a0.len() implies (#[trigger] a0[i])@ == b0[i]@ by {
            assert(a0[i] == a[i] && b0[i] == b[i]);
        }
        lemma_dynamic_map_keys_view(a0, b0, values.drop_last());
        assert(a.last()@ == b.last()@);
    }
}

/// The `value` to write on an input or textarea going from `prev` to
/// `next`: a new or changed value, or the empty text when the value is
/// gone; nothing otherwise.
pub fn value_apply_diff(next: &Option<String>, prev: &Option<String>) -> (r: Option<String>)
    ensures
        match (*next, *prev) {
            (Some(n), Some(p)) => if n@ != p@ {
                r matches Some(v) && v@ == n@
            } else {
                r is None
            },
            (Some(n), None) => r matches Some(v) && v@ == n@,
            (None, Some(_)) => r matches Some(v) && v@ == Seq::<char>::empty(),
            (None, None) => r is None,
        },
{
    match (next, prev) {
        (Some(n), Some(p)) => {
            if !str_eq(n.as_str(), p.as_str()) {
                Some(n.clone())
            } else {
                None
            }
        },
        (Some(n), None) => Some(n.clone()),
        (None, Some(_)) => Some(String::new()),
        (None, None) => None,
    }
}

/// The text written for the `checked` state of an input.
pub fn checked_text(checked: bool) -> (s: &'static str)
    ensures
        checked ==> s@ == "true"@,
        !checked ==> s@ == "false"@,
{
    if checked {
        "true"
    } else {
        "false"
    }
}

/// The writes for the fields of an input going from `prev_value` to the
/// new state: `checked` whenever it is given, then the value change.
pub fn input_apply_diff(checked: Option<bool>, next_value: &Option<String>, prev_value: &Option<String>) -> (ops: Vec<AttrOp>)
    ensures
        ops@.len() == (if checked is Some { 1int } else { 0int }) + (if value_changes(*next_value, *prev_value) { 1int } else { 0int }),
        checked matches Some(c) ==> ops@[0] matches AttrOp::Assign { key, value } && key@ == "checked"@
            && value@ == (if c { "true"@ } else { "false"@ }),
        value_changes(*next_value, *prev_value) ==> (ops@.last() matches AttrOp::Assign { key, value }
            && key@ == "value"@ && value@ == (match *next_value {
                Some(n) => n@,
                None => Seq::<char>::empty(),
            })),
{
    let mut ops: Vec<AttrOp> = Vec::new();
    if let Some(c) = checked {
        ops.push(AttrOp::Assign { key: String::from_str("checked"), value: String::from_str(checked_text(c)) });
    }
    if let Some(v) = value_apply_diff(next_value, prev_value) {
        ops.push(AttrOp::Assign { key: String::from_str("value"), value: v });
    }
    ops
}

/// Going from `prev` to `next` writes a value.
pub open spec fn value_changes(next: Option<String>, prev: Option<String>) -> bool {
    match (next, prev) {
        (Some(n), Some(p)) => n@ != p@,
        (None, None) => false,
        _ => true,
    }
}

} // verus!
