//! Storage with stable keys.
//!
//! The arenas are slot maps and the name table of a scope is a linked hash
//! map. Verus does not look inside either. This module says what each of
//! them holds, as a map, and states for every operation the analysis uses
//! what it does to that map. Nothing here is proved: these contracts are
//! taken from the collections' own source.
//!
//! An identifier holds the 64 bits that `slotmap::KeyData::as_ffi` gives
//! for a key of the slot map; `KeyData::from_ffi` makes the key of them
//! again. Identifiers are made nowhere else, so each one stands for
//! exactly one key.

use crate::ids::{ScopeId, ValueId, VarId};
use crate::scope::{Scope, Value, Var};
use linked_hash_map::LinkedHashMap;
use slotmap::{DefaultKey, Key, KeyData, SlotMap};
use vstd::prelude::*;

verus! {

/// The number of entries beyond which an arena accepts no more.
pub const ARENA_CAPACITY: usize = 0xFFFF_FFFE;

/// A `slotmap::SlotMap` keyed by `slotmap::DefaultKey`. Entries are only
/// ever added, so a key stays valid for as long as the arena lives. The
/// verifier does not look inside: what an arena holds is what
/// [`value_arena_map`], [`var_arena_map`] and [`scope_arena_map`] say.
#[verifier::external_body]
#[verifier::reject_recursive_types(V)]
#[derive(Debug)]
pub struct Arena<V> {
    slots: SlotMap<DefaultKey, V>,
}

/// `linked_hash_map::LinkedHashMap`, opaque to the verifier.
#[verifier::external_type_specification]
#[verifier::external_body]
#[verifier::reject_recursive_types(K)]
#[verifier::reject_recursive_types(V)]
#[verifier::reject_recursive_types(S)]
pub struct ExLinkedHashMap<K, V, S>(LinkedHashMap<K, V, S>);

/// The values that an arena of values holds, by key.
pub uninterp spec fn value_arena_map(arena: Arena<Value>) -> Map<ValueId, Value>;

/// The bindings that an arena of variables holds, by key.
pub uninterp spec fn var_arena_map(arena: Arena<Var>) -> Map<VarId, Var>;

/// The scopes that an arena of scopes holds, by key.
pub uninterp spec fn scope_arena_map(arena: Arena<Scope>) -> Map<ScopeId, Scope>;

/// The entries of a name table: for each name, the binding it was last
/// inserted with.
pub uninterp spec fn name_table_map(table: LinkedHashMap<String, VarId>) -> Map<Seq<char>, VarId>;

/// `SlotMap::new`: a fresh arena holds nothing.
#[verifier::external_body]
pub(crate) fn value_arena_new() -> (arena: Arena<Value>)
    ensures
        value_arena_map(arena) == (Map::<ValueId, Value>::empty()),
{
    Arena { slots: SlotMap::new() }
}

/// `SlotMap::insert`: stores `value` under a key that was not in use and
/// returns that key; every other entry stays. The slot map panics when it
/// is full, which an arena below its capacity is not.
#[verifier::external_body]
pub(crate) fn value_arena_insert(arena: &mut Arena<Value>, value: Value) -> (id: ValueId)
    requires
        value_arena_map(*old(arena)).dom().finite(),
        value_arena_map(*old(arena)).len() < ARENA_CAPACITY,
    ensures
        !value_arena_map(*old(arena)).contains_key(id),
        value_arena_map(*final(arena)) == value_arena_map(*old(arena)).insert(id, value),
{
    ValueId { bits: arena.slots.insert(value).data().as_ffi() }
}

/// `SlotMap::get`: the entry stored under `id`, if there is one.
#[verifier::external_body]
pub(crate) fn value_arena_get(arena: &Arena<Value>, id: ValueId) -> (found: Option<&Value>)
    ensures
        found == (if value_arena_map(*arena).contains_key(id) {
            Some(&value_arena_map(*arena)[id])
        } else {
            None
        }),
{
    arena.slots.get(KeyData::from_ffi(id.bits).into())
}

/// `SlotMap::new`: a fresh arena holds nothing.
#[verifier::external_body]
pub(crate) fn var_arena_new() -> (arena: Arena<Var>)
    ensures
        var_arena_map(arena) == (Map::<VarId, Var>::empty()),
{
    Arena { slots: SlotMap::new() }
}

/// `SlotMap::insert`: stores `var` under a key that was not in use and
/// returns that key; every other entry stays. The slot map panics when it
/// is full, which an arena below its capacity is not.
#[verifier::external_body]
pub(crate) fn var_arena_insert(arena: &mut Arena<Var>, var: Var) -> (id: VarId)
    requires
        var_arena_map(*old(arena)).dom().finite(),
        var_arena_map(*old(arena)).len() < ARENA_CAPACITY,
    ensures
        !var_arena_map(*old(arena)).contains_key(id),
        var_arena_map(*final(arena)) == var_arena_map(*old(arena)).insert(id, var),
{
    VarId { bits: arena.slots.insert(var).data().as_ffi() }
}

/// `SlotMap::get`: the entry stored under `id`, if there is one.
#[verifier::external_body]
pub(crate) fn var_arena_get(arena: &Arena<Var>, id: VarId) -> (found: Option<&Var>)
    ensures
        found == (if var_arena_map(*arena).contains_key(id) {
            Some(&var_arena_map(*arena)[id])
        } else {
            None
        }),
{
    arena.slots.get(KeyData::from_ffi(id.bits).into())
}

/// `SlotMap::get_mut`: the entry stored under `id`, if there is one, for
/// writing. What is written replaces that entry and no other.
#[verifier::external_body]
pub(crate) fn var_arena_get_mut(arena: &mut Arena<Var>, id: VarId) -> (found: Option<&mut Var>)
    ensures
        match found {
            Some(slot) => var_arena_map(*old(arena)).contains_key(id)
                && *slot == var_arena_map(*old(arena))[id]
                && var_arena_map(*final(arena)) == var_arena_map(*old(arena)).insert(
                id,
                *final(slot),
            ),
            None => !var_arena_map(*old(arena)).contains_key(id)
                && var_arena_map(*final(arena)) == var_arena_map(*old(arena)),
        },
{
    arena.slots.get_mut(KeyData::from_ffi(id.bits).into())
}

/// `SlotMap::new`: a fresh arena holds nothing.
#[verifier::external_body]
pub(crate) fn scope_arena_new() -> (arena: Arena<Scope>)
    ensures
        scope_arena_map(arena) == (Map::<ScopeId, Scope>::empty()),
{
    Arena { slots: SlotMap::new() }
}

/// `SlotMap::insert`: stores `scope` under a key that was not in use and
/// returns that key; every other entry stays. The slot map panics when it
/// is full, which an arena below its capacity is not.
#[verifier::external_body]
pub(crate) fn scope_arena_insert(arena: &mut Arena<Scope>, scope: Scope) -> (id: ScopeId)
    requires
        scope_arena_map(*old(arena)).dom().finite(),
        scope_arena_map(*old(arena)).len() < ARENA_CAPACITY,
    ensures
        !scope_arena_map(*old(arena)).contains_key(id),
        scope_arena_map(*final(arena)) == scope_arena_map(*old(arena)).insert(id, scope),
{
    ScopeId { bits: arena.slots.insert(scope).data().as_ffi() }
}

/// `SlotMap::get`: the entry stored under `id`, if there is one.
#[verifier::external_body]
pub(crate) fn scope_arena_get(arena: &Arena<Scope>, id: ScopeId) -> (found: Option<&Scope>)
    ensures
        found == (if scope_arena_map(*arena).contains_key(id) {
            Some(&scope_arena_map(*arena)[id])
        } else {
            None
        }),
{
    arena.slots.get(KeyData::from_ffi(id.bits).into())
}

/// `SlotMap::get_mut`: the entry stored under `id`, if there is one, for
/// writing. What is written replaces that entry and no other.
#[verifier::external_body]
pub(crate) fn scope_arena_get_mut(arena: &mut Arena<Scope>, id: ScopeId) -> (found: Option<
    &mut Scope,
>)
    ensures
        match found {
            Some(slot) => scope_arena_map(*old(arena)).contains_key(id)
                && *slot == scope_arena_map(*old(arena))[id]
                && scope_arena_map(*final(arena)) == scope_arena_map(*old(arena)).insert(
                id,
                *final(slot),
            ),
            None => !scope_arena_map(*old(arena)).contains_key(id)
                && scope_arena_map(*final(arena)) == scope_arena_map(*old(arena)),
        },
{
    arena.slots.get_mut(KeyData::from_ffi(id.bits).into())
}

/// `LinkedHashMap::new`: a fresh table holds nothing.
#[verifier::external_body]
pub(crate) fn name_table_new() -> (table: LinkedHashMap<String, VarId>)
    ensures
        name_table_map(table) == (Map::<Seq<char>, VarId>::empty()),
{
    LinkedHashMap::new()
}

/// `LinkedHashMap::insert`: `name` now stands for `id`, whether or not it
/// stood for something before; every other name stays.
#[verifier::external_body]
pub(crate) fn name_table_insert(table: &mut LinkedHashMap<String, VarId>, name: String, id: VarId)
    ensures
        name_table_map(*final(table)) == name_table_map(*old(table)).insert(name@, id),
{
    table.insert(name, id);
}

/// `LinkedHashMap::get`: what `name` stands for, if anything.
#[verifier::external_body]
pub(crate) fn name_table_get(table: &LinkedHashMap<String, VarId>, name: &str) -> (found: Option<
    VarId,
>)
    ensures
        found == name_table_map(*table).get(name@),
{
    table.get(name).copied()
}

} // verus!
