//! The insertion-ordered collections of the `indexmap` crate, as the rest of
//! the library sees them. What a collection holds is a sequence in
//! insertion order. The functions that call the crate are not proved: each
//! states what the crate's documentation says of the method that it calls.

use crate::ast::{names_of, Connective, Formula, Name};
use indexmap::{IndexMap, IndexSet};
use vstd::prelude::*;

verus! {

/// `indexmap::IndexSet`, a set that keeps the order of insertion; nothing
/// inside it is visible to proofs.
#[verifier::external_type_specification]
#[verifier::external_body]
#[verifier::reject_recursive_types(T)]
#[verifier::reject_recursive_types(S)]
pub struct ExIndexSet<T, S>(IndexSet<T, S>);

/// `indexmap::IndexMap`, a map that keeps the order of insertion; nothing
/// inside it is visible to proofs.
#[verifier::external_type_specification]
#[verifier::external_body]
#[verifier::reject_recursive_types(K)]
#[verifier::reject_recursive_types(V)]
#[verifier::reject_recursive_types(S)]
pub struct ExIndexMap<K, V, S>(IndexMap<K, V, S>);

/// The formulas that a set of formulas holds, in insertion order.
pub uninterp spec fn formula_set_items(set: IndexSet<Connective>) -> Seq<Formula>;

/// The entries of an assignment, in insertion order.
pub uninterp spec fn assignment_entries(map: IndexMap<String, bool>) -> Seq<(Name, bool)>;

/// A sequence without repeats after `item` was offered to it: unchanged where
/// it holds the item already, else with the item at its end.
pub open spec fn insert_last<A>(items: Seq<A>, item: A) -> Seq<A> {
    if items.contains(item) {
        items
    } else {
        items.push(item)
    }
}

/// The value that the first entry with this key holds.
pub open spec fn lookup(entries: Seq<(Name, bool)>, key: Name) -> Option<bool>
    decreases entries.len(),
{
    if entries.len() == 0 {
        None
    } else if entries[0].0 == key {
        Some(entries[0].1)
    } else {
        lookup(entries.drop_first(), key)
    }
}

/// The place of the first entry with this key, or the length where there is none.
pub open spec fn position(entries: Seq<(Name, bool)>, key: Name) -> int
    decreases entries.len(),
{
    if entries.len() == 0 {
        0
    } else if entries[0].0 == key {
        0
    } else {
        1 + position(entries.drop_first(), key)
    }
}

/// The entries after `key` was bound to `value`: the entry with that key is
/// updated in place, and a new key comes last.
pub open spec fn put(entries: Seq<(Name, bool)>, key: Name, value: bool) -> Seq<(Name, bool)> {
    let at = position(entries, key);
    if at < entries.len() {
        entries.update(at, (key, value))
    } else {
        entries.push((key, value))
    }
}

/// `IndexSet::new`: the new set holds nothing.
#[verifier::external_body]
pub(crate) fn formula_set_new() -> (set: IndexSet<Connective>)
    ensures
        formula_set_items(set) == Seq::<Formula>::empty(),
{
    IndexSet::new()
}

/// `IndexSet::insert`: a formula that the set holds already leaves it as it
/// is and gives `false`; any other formula is put last and gives `true`.
/// The set holds a formula where it holds one that is equal to it, and
/// formulas are equal where they are the same formula.
#[verifier::external_body]
pub(crate) fn formula_set_insert(set: &mut IndexSet<Connective>, value: Connective) -> (added: bool)
    ensures
        added == !formula_set_items(*old(set)).contains(value@),
        formula_set_items(*final(set)) == insert_last(formula_set_items(*old(set)), value@),
{
    set.insert(value)
}

/// `IndexSet::iter`: the items come out in insertion order; each is copied.
#[verifier::external_body]
pub(crate) fn formula_set_to_vec(set: &IndexSet<Connective>) -> (items: Vec<Connective>)
    ensures
        Seq::new(items@.len(), |i: int| items@[i]@) == formula_set_items(*set),
{
    set.iter().cloned().collect()
}

/// `IndexMap::new`: the new map holds nothing.
#[verifier::external_body]
pub(crate) fn assignment_new() -> (map: IndexMap<String, bool>)
    ensures
        assignment_entries(map) == Seq::<(Name, bool)>::empty(),
{
    IndexMap::new()
}

/// `IndexMap::insert`: a key that the map holds keeps its place and takes
/// the new value, and the old value is returned; a new key comes last with
/// its value, and `None` is returned.
#[verifier::external_body]
pub(crate) fn assignment_insert(map: &mut IndexMap<String, bool>, key: String, value: bool) -> (previous:
    Option<bool>)
    ensures
        previous == lookup(assignment_entries(*old(map)), key@),
        assignment_entries(*final(map)) == put(assignment_entries(*old(map)), key@, value),
{
    map.insert(key, value)
}

/// `IndexMap::clone`: the copy holds the same entries in the same order.
#[verifier::external_body]
pub(crate) fn assignment_clone(map: &IndexMap<String, bool>) -> (copy: IndexMap<String, bool>)
    ensures
        assignment_entries(copy) == assignment_entries(*map),
{
    map.clone()
}

/// `IndexMap::keys`: the keys come out in insertion order; each is copied.
#[verifier::external_body]
pub(crate) fn assignment_keys(map: &IndexMap<String, bool>) -> (keys: Vec<String>)
    ensures
        names_of(keys@) == Seq::new(
            assignment_entries(*map).len(),
            |i: int| assignment_entries(*map)[i].0,
        ),
{
    map.keys().cloned().collect()
}

/// `IndexMap::values`: the values come out in insertion order.
#[verifier::external_body]
pub(crate) fn assignment_values(map: &IndexMap<String, bool>) -> (values: Vec<bool>)
    ensures
        values@ == Seq::new(
            assignment_entries(*map).len(),
            |i: int| assignment_entries(*map)[i].1,
        ),
{
    map.values().cloned().collect()
}

/// `IndexMap::get`: the value stored for the key, if the map holds the key.
#[verifier::external_body]
pub(crate) fn assignment_get(map: &IndexMap<String, bool>, key: &String) -> (value: Option<bool>)
    ensures
        value == lookup(assignment_entries(*map), key@),
{
    map.get(key).cloned()
}

} // verus!
