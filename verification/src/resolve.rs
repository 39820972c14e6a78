//! Name lookup: from a name to the binding it stands for, from a binding
//! through its aliases to a value, and from there to a function.

use crate::ids::{
    binding_key, binding_key_of, lemma_binding_key_injective, ScopeId, ValueId, VarId,
};
use crate::manager::{ManagerView, ScopeManager};
use crate::scope::{Value, ValueView, Var};
use crate::syntax::{Parameter, ParameterView, parameter_views};
use std::collections::HashSet;
use vstd::prelude::*;
use vstd::set_lib::lemma_len_subset;

verus! {

broadcast use vstd::std_specs::hash::group_hash_axioms;

impl ManagerView {
    /// What looking `name` up finds, starting at the scope `id` and going
    /// outwards for at most `fuel` steps. In the scope the search started
    /// from (`at_start`), the answer is the binding itself; further out, it
    /// is an alias of the binding found.
    pub open spec fn lookup(
        self,
        id: ScopeId,
        name: Seq<char>,
        at_start: bool,
        fuel: nat,
    ) -> Option<Var>
        decreases fuel,
    {
        if !self.scopes.contains_key(id) {
            None
        } else if self.scopes[id].names.contains_key(name) {
            if at_start {
                self.scopes[id].vars.get(self.scopes[id].names[name])
            } else {
                Some(Var::Reference(id, self.scopes[id].names[name]))
            }
        } else {
            match self.scopes[id].parent {
                Some(parent) => if fuel > 0 {
                    self.lookup(parent, name, false, (fuel - 1) as nat)
                } else {
                    None
                },
                None => None,
            }
        }
    }

    /// What looking `name` up from the scope `id` finds.
    pub open spec fn lookup_from(self, id: ScopeId, name: Seq<char>, at_start: bool) -> Option<Var> {
        self.lookup(id, name, at_start, self.depth[id])
    }

    /// What `name` stands for in the innermost open scope.
    pub open spec fn find_var(self, name: Seq<char>) -> Option<Var> {
        match self.current() {
            Some(id) => self.lookup_from(id, name, true),
            None => None,
        }
    }

    /// The binding `var` of the scope `scope`.
    pub open spec fn var_at(self, scope: ScopeId, var: VarId) -> Option<Var> {
        if self.scopes.contains_key(scope) {
            self.scopes[scope].vars.get(var)
        } else {
            None
        }
    }

    /// The value `value` of the scope `scope`.
    pub open spec fn value_at(self, scope: ScopeId, value: ValueId) -> Option<ValueView> {
        if self.scopes.contains_key(scope) {
            self.scopes[scope].values.get(value)
        } else {
            None
        }
    }

    /// Where the chain of aliases that starts at a binding ends, if it ends
    /// at a value within `fuel` steps.
    pub open spec fn follow(self, scope: ScopeId, var: VarId, fuel: nat) -> Option<
        (ScopeId, ValueId),
    >
        decreases fuel,
    {
        match self.var_at(scope, var) {
            None => None,
            Some(Var::Local(value)) => Some((scope, value)),
            Some(Var::Reference(s, v)) => if fuel > 0 {
                self.follow(s, v, (fuel - 1) as nat)
            } else {
                None
            },
        }
    }

    /// The chain of aliases that starts at the binding ends at a value.
    pub open spec fn resolves(self, scope: ScopeId, var: VarId) -> bool {
        exists|fuel: nat| (#[trigger] self.follow(scope, var, fuel)) is Some
    }

    /// The scope and value at which the chain of aliases that starts at a
    /// binding ends. `None` when the chain runs into a binding that does
    /// not exist, or never ends.
    pub open spec fn resolve_reference(self, scope: ScopeId, var: VarId) -> Option<
        (ScopeId, ValueId),
    > {
        if self.resolves(scope, var) {
            self.follow(
                scope,
                var,
                choose|fuel: nat| (#[trigger] self.follow(scope, var, fuel)) is Some,
            )
        } else {
            None
        }
    }

    /// The scope and value that `name` denotes in the innermost open scope.
    pub open spec fn target_of(self, name: Seq<char>) -> Option<(ScopeId, ValueId)> {
        match self.find_var(name) {
            None => None,
            Some(Var::Local(value)) => Some((self.stack.last(), value)),
            Some(Var::Reference(scope, var)) => self.resolve_reference(scope, var),
        }
    }

    /// The function that `name` denotes in the innermost open scope: the
    /// scope that owns it and its parameters.
    pub open spec fn function_named(self, name: Seq<char>) -> Option<
        (ScopeId, Seq<ParameterView>),
    > {
        match self.target_of(name) {
            None => None,
            Some((scope, value)) => match self.value_at(scope, value) {
                Some(ValueView::Function(parameters)) => Some((scope, parameters)),
                _ => None,
            },
        }
    }

    /// Every binding of every scope.
    pub open spec fn bindings(self) -> Set<(ScopeId, VarId)> {
        Set::new(|b: (ScopeId, VarId)| self.var_at(b.0, b.1) is Some)
    }

    /// The bindings of the scopes in `scopes`.
    pub open spec fn bindings_of(self, scopes: Set<ScopeId>) -> Set<(ScopeId, VarId)> {
        Set::new(|b: (ScopeId, VarId)| scopes.contains(b.0) && self.var_at(b.0, b.1) is Some)
    }

    /// The bindings in `cycle` are aliases of one another, in a ring.
    pub open spec fn ring(self, cycle: Seq<(ScopeId, VarId)>) -> bool {
        &&& cycle.len() > 0
        &&& forall|i: int|
            0 <= i < cycle.len() ==> self.var_at((#[trigger] cycle[i]).0, cycle[i].1) == Some(
                Var::Reference(
                    cycle[if i + 1 < cycle.len() { i + 1 } else { 0 }].0,
                    cycle[if i + 1 < cycle.len() { i + 1 } else { 0 }].1,
                ),
            )
    }
}

/// More fuel does not change where a chain of aliases ends.
pub proof fn lemma_follow_more_fuel(m: ManagerView, scope: ScopeId, var: VarId, fuel: nat, more: nat)
    requires
        m.follow(scope, var, fuel) is Some,
        fuel <= more,
    ensures
        m.follow(scope, var, more) == m.follow(scope, var, fuel),
    decreases fuel,
{
    match m.var_at(scope, var) {
        Some(Var::Reference(s, v)) => {
            lemma_follow_more_fuel(m, s, v, (fuel - 1) as nat, (more - 1) as nat);
        },
        _ => {},
    }
}

/// A chain of aliases that ends within some fuel ends where
/// `resolve_reference` says.
pub proof fn lemma_resolve_is_follow(m: ManagerView, scope: ScopeId, var: VarId, fuel: nat)
    requires
        m.follow(scope, var, fuel) is Some,
    ensures
        m.resolve_reference(scope, var) == m.follow(scope, var, fuel),
{
    let chosen = choose|f: nat| (#[trigger] m.follow(scope, var, f)) is Some;
    if chosen <= fuel {
        lemma_follow_more_fuel(m, scope, var, chosen, fuel);
    } else {
        lemma_follow_more_fuel(m, scope, var, fuel, chosen);
    }
}

/// An alias resolves to whatever the binding it stands for resolves to.
pub proof fn lemma_resolve_step(m: ManagerView, scope: ScopeId, var: VarId)
    requires
        m.var_at(scope, var) is Some,
        m.var_at(scope, var)->0 is Reference,
    ensures
        m.resolve_reference(scope, var) == m.resolve_reference(
            m.var_at(scope, var)->0->Reference_0,
            m.var_at(scope, var)->0->Reference_1,
        ),
{
    let s = m.var_at(scope, var)->0->Reference_0;
    let v = m.var_at(scope, var)->0->Reference_1;
    if m.resolves(s, v) {
        let fuel = choose|f: nat| (#[trigger] m.follow(s, v, f)) is Some;
        assert(m.follow(scope, var, fuel + 1) == m.follow(s, v, fuel));
        lemma_resolve_is_follow(m, s, v, fuel);
        lemma_resolve_is_follow(m, scope, var, fuel + 1);
    } else if m.resolves(scope, var) {
        let fuel = choose|f: nat| (#[trigger] m.follow(scope, var, f)) is Some;
        assert(fuel > 0);
        assert(m.follow(s, v, (fuel - 1) as nat) is Some);
    }
}

/// A binding that stands for a value of its own scope resolves to it.
pub proof fn lemma_resolve_local(m: ManagerView, scope: ScopeId, var: VarId)
    requires
        m.var_at(scope, var) is Some,
        m.var_at(scope, var)->0 is Local,
    ensures
        m.resolve_reference(scope, var) == Some((scope, m.var_at(scope, var)->0->Local_0)),
{
    assert(m.follow(scope, var, 0) is Some);
    lemma_resolve_is_follow(m, scope, var, 0);
}

/// A binding that does not exist resolves to nothing.
pub proof fn lemma_resolve_missing(m: ManagerView, scope: ScopeId, var: VarId)
    requires
        m.var_at(scope, var) is None,
    ensures
        m.resolve_reference(scope, var) is None,
{
    assert forall|fuel: nat| (#[trigger] m.follow(scope, var, fuel)) is None by {}
}

/// No binding on a ring of aliases leads to a value.
pub proof fn lemma_ring_never_ends(m: ManagerView, cycle: Seq<(ScopeId, VarId)>, i: int, fuel: nat)
    requires
        m.ring(cycle),
        0 <= i < cycle.len(),
    ensures
        m.follow(cycle[i].0, cycle[i].1, fuel) is None,
    decreases fuel,
{
    if fuel > 0 {
        let next = if i + 1 < cycle.len() {
            i + 1
        } else {
            0
        };
        lemma_ring_never_ends(m, cycle, next, (fuel - 1) as nat);
    }
}

/// A binding on a ring of aliases resolves to nothing.
pub proof fn lemma_ring_unresolved(m: ManagerView, cycle: Seq<(ScopeId, VarId)>, i: int)
    requires
        m.ring(cycle),
        0 <= i < cycle.len(),
    ensures
        m.resolve_reference(cycle[i].0, cycle[i].1) is None,
{
    assert forall|fuel: nat| (#[trigger] m.follow(cycle[i].0, cycle[i].1, fuel)) is None by {
        lemma_ring_never_ends(m, cycle, i, fuel);
    }
}

/// Finitely many scopes with finitely many bindings each hold finitely
/// many bindings.
pub proof fn lemma_bindings_of_finite(m: ManagerView, scopes: Set<ScopeId>)
    requires
        scopes.finite(),
        forall|s: ScopeId| m.scopes.contains_key(s) ==> (#[trigger] m.scopes[s]).wf(),
    ensures
        m.bindings_of(scopes).finite(),
    decreases scopes.len(),
{
    if scopes.is_empty() {
        assert(m.bindings_of(scopes) =~= Set::empty());
    } else {
        let x = scopes.choose();
        let rest = scopes.remove(x);
        lemma_bindings_of_finite(m, rest);
        if m.scopes.contains_key(x) {
            let own = m.scopes[x].vars.dom().map(|v: VarId| (x, v));
            assert(m.scopes[x].wf());
            m.scopes[x].vars.dom().lemma_map_finite(|v: VarId| (x, v));
            assert forall|b: (ScopeId, VarId)| m.bindings_of(scopes).contains(b) implies (
            m.bindings_of(rest) + own).contains(b) by {
                if b.0 == x {
                    assert(m.scopes[x].vars.dom().contains(b.1));
                    assert(own.contains((x, b.1)));
                }
            }
            assert(m.bindings_of(scopes) =~= m.bindings_of(rest) + own);
        } else {
            assert(m.bindings_of(scopes) =~= m.bindings_of(rest));
        }
    }
}

/// A sound scope tree holds finitely many bindings.
pub proof fn lemma_bindings_finite(m: ManagerView)
    requires
        m.wf(),
    ensures
        m.bindings().finite(),
{
    lemma_bindings_of_finite(m, m.scopes.dom());
    assert(m.bindings() =~= m.bindings_of(m.scopes.dom()));
}

/// Distinct members of a finite set are no more than the set holds.
pub proof fn lemma_distinct_members<A>(members: Seq<A>, set: Set<A>)
    requires
        set.finite(),
        members.no_duplicates(),
        forall|i: int| 0 <= i < members.len() ==> set.contains(#[trigger] members[i]),
    ensures
        members.len() <= set.len(),
{
    members.unique_seq_to_set();
    assert(members.to_set().subset_of(set)) by {
        assert forall|a: A| members.to_set().contains(a) implies set.contains(a) by {
            let i = choose|i: int| 0 <= i < members.len() && members[i] == a;
            assert(set.contains(members[i]));
        }
    }
    lemma_len_subset(members.to_set(), set);
}

impl ScopeManager {
    /// The value stored under `value` in the scope `scope`.
    pub fn get_value(&self, scope: ScopeId, value: ValueId) -> (found: Option<&Value>)
        ensures
            match found {
                Some(v) => self@.value_at(scope, value) == Some(v@),
                None => self@.value_at(scope, value) is None,
            },
    {
        match self.get_scope(scope) {
            Some(s) => s.value(value),
            None => None,
        }
    }

    /// The binding stored under `var` in the scope `scope`.
    pub fn get_var(&self, scope: ScopeId, var: VarId) -> (found: Option<Var>)
        ensures
            found == self@.var_at(scope, var),
    {
        match self.get_scope(scope) {
            Some(s) => match s.var(var) {
                Some(v) => Some(*v),
                None => None,
            },
            None => None,
        }
    }

    /// Follows the chain of aliases that starts at the binding `var` of
    /// `scope` to the value it ends at. A chain that runs into a missing
    /// binding or back into itself resolves to nothing. Each binding on
    /// the chain is looked at once.
    pub fn resolve_reference(&self, scope: ScopeId, var: VarId) -> (target: Option<
        (ScopeId, ValueId),
    >)
        requires
            self.wf(),
        ensures
            target == self@.resolve_reference(scope, var),
    {
        let mut seen: HashSet<u128> = HashSet::new();
        let ghost mut path: Seq<(ScopeId, VarId)> = Seq::empty();
        let mut s = scope;
        let mut v = var;
        proof {
            lemma_bindings_finite(self@);
        }
        loop
            invariant
                self@.bindings().finite(),
                path.no_duplicates(),
                forall|key: u128|
                    seen@.contains(key) <==> exists|i: int|
                        0 <= i < path.len() && #[trigger] binding_key(path[i].0, path[i].1) == key,
                forall|i: int|
                    0 <= i < path.len() ==> self@.var_at((#[trigger] path[i]).0, path[i].1) == Some(
                        if i + 1 < path.len() {
                            Var::Reference(path[i + 1].0, path[i + 1].1)
                        } else {
                            Var::Reference(s, v)
                        },
                    ),
                self@.resolve_reference(scope, var) == self@.resolve_reference(s, v),
                path.len() <= self@.bindings().len(),
            decreases self@.bindings().len() - path.len(),
        {
            match self.get_var(s, v) {
                None => {
                    proof {
                        lemma_resolve_missing(self@, s, v);
                    }
                    return None;
                },
                Some(Var::Local(value)) => {
                    proof {
                        lemma_resolve_local(self@, s, v);
                    }
                    return Some((s, value));
                },
                Some(Var::Reference(next_scope, next_var)) => {
                    let ghost before = seen@;
                    if !seen.insert(binding_key_of(s, v)) {
                        proof {
                            let at = choose|i: int|
                                0 <= i < path.len() && #[trigger] binding_key(path[i].0, path[i].1)
                                    == binding_key(s, v);
                            lemma_binding_key_injective(path[at].0, path[at].1, s, v);
                            let cycle = path.subrange(at, path.len() as int);
                            assert forall|i: int| 0 <= i < cycle.len() implies self@.var_at(
                                (#[trigger] cycle[i]).0,
                                cycle[i].1,
                            ) == Some(
                                Var::Reference(
                                    cycle[if i + 1 < cycle.len() {
                                        i + 1
                                    } else {
                                        0
                                    }].0,
                                    cycle[if i + 1 < cycle.len() {
                                        i + 1
                                    } else {
                                        0
                                    }].1,
                                ),
                            ) by {
                                assert(cycle[i] == path[at + i]);
                            }
                            assert(cycle[0] == (s, v));
                            lemma_ring_unresolved(self@, cycle, 0);
                        }
                        return None;
                    }
                    proof {
                        lemma_resolve_step(self@, s, v);
                        let longer = path.push((s, v));
                        assert forall|i: int| 0 <= i < path.len() implies path[i] != (s, v) by {
                            if path[i] == (s, v) {
                                assert(binding_key(path[i].0, path[i].1) == binding_key(s, v));
                                assert(before.contains(binding_key(s, v)));
                            }
                        }
                        assert(longer.no_duplicates());
                        assert forall|i: int| 0 <= i < longer.len() implies self@.bindings().contains(
                         #[trigger] longer[i]) by {
                            if i < path.len() {
                                assert(self@.var_at(path[i].0, path[i].1) is Some);
                            }
                        }
                        lemma_distinct_members(longer, self@.bindings());
                        assert forall|key: u128|
                            seen@.contains(key) <==> exists|i: int|
                                0 <= i < longer.len() && #[trigger] binding_key(
                                    longer[i].0,
                                    longer[i].1,
                                ) == key by {
                            if seen@.contains(key) {
                                if key == binding_key(s, v) {
                                    assert(binding_key(
                                        longer[path.len() as int].0,
                                        longer[path.len() as int].1,
                                    ) == key);
                                } else {
                                    assert(before.contains(key));
                                    let i = choose|i: int|
                                        0 <= i < path.len() && #[trigger] binding_key(
                                            path[i].0,
                                            path[i].1,
                                        ) == key;
                                    assert(binding_key(longer[i].0, longer[i].1) == key);
                                }
                            }
                            if exists|i: int|
                                0 <= i < longer.len() && #[trigger] binding_key(
                                    longer[i].0,
                                    longer[i].1,
                                ) == key {
                                let i = choose|i: int|
                                    0 <= i < longer.len() && #[trigger] binding_key(
                                        longer[i].0,
                                        longer[i].1,
                                    ) == key;
                                if i < path.len() {
                                    assert(binding_key(path[i].0, path[i].1) == key);
                                    assert(before.contains(key));
                                }
                            }
                        }
                        path = longer;
                    }
                    s = next_scope;
                    v = next_var;
                },
            }
        }
    }

    /// What `name` stands for in the innermost open scope: the binding
    /// itself when that scope binds the name, an alias of the nearest
    /// enclosing binding otherwise.
    pub fn find_var(&self, name: &str) -> (found: Option<Var>)
        requires
            self.wf(),
        ensures
            found == self@.find_var(name@),
    {
        let mut id = match self.get_current_scope_id() {
            Some(id) => id,
            None => {
                return None;
            },
        };
        let mut at_start = true;
        let ghost mut fuel = self@.depth[id];
        assert(self@.scopes.contains_key(self@.stack[self@.stack.len() - 1]));
        loop
            invariant
                self.wf(),
                self@.scopes.contains_key(id),
                self@.depth[id] <= fuel,
                self@.find_var(name@) == self@.lookup(id, name@, at_start, fuel),
            decreases fuel,
        {
            let scope = match self.get_scope(id) {
                Some(scope) => scope,
                None => {
                    return None;
                },
            };
            match scope.get_var_id(name) {
                Some(var) => {
                    if at_start {
                        return match scope.var(var) {
                            Some(v) => Some(*v),
                            None => None,
                        };
                    } else {
                        return Some(Var::Reference(id, var));
                    }
                },
                None => {},
            }
            match scope.parent() {
                Some(parent) => {
                    proof {
                        assert(self@.ranked(id));
                        fuel = (fuel - 1) as nat;
                    }
                    at_start = false;
                    id = parent;
                },
                None => {
                    return None;
                },
            }
        }
    }

    /// The function that `name` denotes in the innermost open scope: the
    /// scope that owns it and its parameters.
    pub fn find_function(&self, name: &str) -> (found: Option<(ScopeId, &Vec<Parameter>)>)
        requires
            self.wf(),
        ensures
            match found {
                Some((scope, parameters)) => self@.function_named(name@) == Some(
                    (scope, parameter_views(parameters@)),
                ),
                None => self@.function_named(name@) is None,
            },
    {
        let target = match self.find_var(name) {
            None => None,
            Some(Var::Local(value)) => match self.get_current_scope_id() {
                Some(current) => Some((current, value)),
                None => None,
            },
            Some(Var::Reference(scope, var)) => self.resolve_reference(scope, var),
        };
        match target {
            None => None,
            Some((scope, value)) => match self.get_value(scope, value) {
                Some(Value::Function(parameters)) => Some((scope, parameters)),
                _ => None,
            },
        }
    }
}

} // verus!
