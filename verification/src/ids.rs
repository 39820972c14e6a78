//! Stable identifiers for the entries of the arenas.

use vstd::prelude::*;

verus! {

/// Identifies one scope of a scope tree.
#[derive(Clone, Copy, PartialEq, Eq, Structural, Debug, Hash)]
pub struct ScopeId {
    pub(crate) bits: u64,
}

/// Identifies one variable binding inside the scope that owns it.
#[derive(Clone, Copy, PartialEq, Eq, Structural, Debug, Hash)]
pub struct VarId {
    pub(crate) bits: u64,
}

/// Identifies one stored value inside the scope that owns it.
#[derive(Clone, Copy, PartialEq, Eq, Structural, Debug, Hash)]
pub struct ValueId {
    pub(crate) bits: u64,
}

/// One number for a binding of a scope, different for different bindings.
pub(crate) closed spec fn binding_key(scope: ScopeId, var: VarId) -> u128 {
    (scope.bits * 0x1_0000_0000_0000_0000 + var.bits) as u128
}

/// Different bindings have different numbers.
pub(crate) proof fn lemma_binding_key_injective(a: ScopeId, x: VarId, b: ScopeId, y: VarId)
    requires
        binding_key(a, x) == binding_key(b, y),
    ensures
        a == b,
        x == y,
{
    assert(a.bits * 0x1_0000_0000_0000_0000 + x.bits == b.bits * 0x1_0000_0000_0000_0000 + y.bits);
}

/// The number of a binding.
pub(crate) fn binding_key_of(scope: ScopeId, var: VarId) -> (key: u128)
    ensures
        key == binding_key(scope, var),
{
    let high: u128 = scope.bits as u128;
    let low: u128 = var.bits as u128;
    high * 0x1_0000_0000_0000_0000 + low
}

} // verus!
