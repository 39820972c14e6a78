//! One lexical scope: the values and bindings it owns.

use crate::arena::{
    name_table_get, name_table_insert, name_table_map, name_table_new, value_arena_get,
    value_arena_insert, value_arena_map, value_arena_new, var_arena_get, var_arena_get_mut,
    var_arena_insert, var_arena_map, var_arena_new, Arena, ARENA_CAPACITY,
};
pub use crate::ids::{ScopeId, ValueId, VarId};
pub use crate::manager::ScopeManager;
use crate::syntax::{parameter_views, Parameter, ParameterView};
use linked_hash_map::LinkedHashMap;
use vstd::prelude::*;

verus! {

/// What a name is bound to.
#[derive(Clone, Copy, PartialEq, Eq, Structural, Debug)]
pub enum Var {
    /// The binding owns a value of the same scope.
    Local(ValueId),
    /// The binding stands for another binding, possibly of another scope.
    Reference(ScopeId, VarId),
}

/// A value that was bound to a name. Only functions are told apart from
/// everything else.
#[derive(Clone, PartialEq, Eq, Debug)]
pub enum Value {
    /// A function, with its declared parameters in order.
    Function(Vec<Parameter>),
    /// Any other value.
    Other,
}

/// What contracts say of a [`Value`].
pub enum ValueView {
    Function(Seq<ParameterView>),
    Other,
}

impl View for Value {
    type V = ValueView;

    open spec fn view(&self) -> ValueView {
        match self {
            Value::Function(parameters) => ValueView::Function(parameter_views(parameters@)),
            Value::Other => ValueView::Other,
        }
    }
}

/// What contracts say of a [`Scope`].
pub struct ScopeView {
    /// The values the scope owns.
    pub values: Map<ValueId, ValueView>,
    /// The bindings the scope owns.
    pub vars: Map<VarId, Var>,
    /// The binding each name currently stands for.
    pub names: Map<Seq<char>, VarId>,
    /// The enclosing scope, if any.
    pub parent: Option<ScopeId>,
    /// A label for diagnostics.
    pub name: Option<Seq<char>>,
}

impl ScopeView {
    /// A scope that holds nothing yet.
    pub open spec fn empty(parent: Option<ScopeId>, name: Option<Seq<char>>) -> ScopeView {
        ScopeView { values: Map::empty(), vars: Map::empty(), names: Map::empty(), parent, name }
    }

    /// Both arenas hold finitely many entries, and every name stands for
    /// a binding that the scope holds.
    pub open spec fn wf(self) -> bool {
        &&& self.values.dom().finite()
        &&& self.vars.dom().finite()
        &&& forall|name: Seq<char>| #[trigger]
            self.names.contains_key(name) ==> self.vars.contains_key(self.names[name])
    }

    /// Both arenas can take `n` more entries.
    pub open spec fn has_room(self, n: nat) -> bool {
        self.values.len() + n <= ARENA_CAPACITY && self.vars.len() + n <= ARENA_CAPACITY
    }

    /// The scope after it stored `value` under `id`.
    pub open spec fn with_value(self, id: ValueId, value: ValueView) -> ScopeView {
        ScopeView { values: self.values.insert(id, value), ..self }
    }

    /// The scope after it stored `var` under `id` and made `name` stand for it.
    pub open spec fn with_var(self, name: Seq<char>, id: VarId, var: Var) -> ScopeView {
        ScopeView { vars: self.vars.insert(id, var), names: self.names.insert(name, id), ..self }
    }

    /// The scope after it bound `name` to a value of its own.
    pub open spec fn with_local(
        self,
        name: Seq<char>,
        var: VarId,
        id: ValueId,
        value: ValueView,
    ) -> ScopeView {
        self.with_value(id, value).with_var(name, var, Var::Local(id))
    }

    /// `post` is `self` after it bound `name` to `value` under keys that
    /// were not in use. The keys can be read off `post`: the name stands
    /// for the new binding, and the new binding for the new value.
    pub open spec fn binds(self, name: Seq<char>, value: ValueView, post: ScopeView) -> bool {
        let var = post.names[name];
        let id = post.vars[var]->Local_0;
        !self.vars.contains_key(var) && !self.values.contains_key(id) && post == self.with_local(
            name,
            var,
            id,
            value,
        )
    }

    /// `self` is `before` with one more binding and one more value: `name`
    /// stands for the new binding, which owns the new value, `value`.
    /// Everything `before` held is still there.
    pub open spec fn bound_anew(self, before: ScopeView, name: Seq<char>, value: ValueView) -> bool {
        &&& self.names.contains_key(name)
        &&& !before.vars.contains_key(self.names[name])
        &&& self.vars.get(self.names[name]) matches Some(Var::Local(id))
        &&& !before.values.contains_key(id)
        &&& self.values.get(id) == Some(value)
        &&& before.values.submap_of(self.values)
        &&& before.vars.submap_of(self.vars)
        &&& self.names == before.names.insert(name, self.names[name])
        &&& self.parent == before.parent
    }

    /// The binding that `name` stands for, when the name is known and the
    /// binding exists.
    pub open spec fn var_named(self, name: Seq<char>) -> Option<Var> {
        if self.names.contains_key(name) {
            self.vars.get(self.names[name])
        } else {
            None
        }
    }
}

/// A lexical block's bindings. Values and bindings are only ever added;
/// binding a name again makes the name stand for the new binding and leaves
/// the old one in place.
#[derive(Debug)]
pub struct Scope {
    value_arena: Arena<Value>,
    var_arena: Arena<Var>,
    var_names: LinkedHashMap<String, VarId>,
    parent: Option<ScopeId>,
    name: Option<String>,
}

impl View for Scope {
    type V = ScopeView;

    closed spec fn view(&self) -> ScopeView {
        ScopeView {
            values: value_arena_map(self.value_arena).map_values(|v: Value| v@),
            vars: var_arena_map(self.var_arena),
            names: name_table_map(self.var_names),
            parent: self.parent,
            name: match self.name {
                Some(name) => Some(name@),
                None => None,
            },
        }
    }
}

impl Scope {
    /// The scope is sound; see [`ScopeView::wf`].
    pub open spec fn wf(&self) -> bool {
        self@.wf()
    }

    /// An empty scope without a label.
    pub fn new(parent: Option<ScopeId>) -> (scope: Scope)
        ensures
            scope@ == ScopeView::empty(parent, None),
            scope.wf(),
    {
        let scope = Scope {
            value_arena: value_arena_new(),
            var_arena: var_arena_new(),
            var_names: name_table_new(),
            parent,
            name: None,
        };
        assert(scope@.values =~= Map::empty());
        scope
    }

    /// An empty scope labelled `name`.
    pub fn new_named(parent: Option<ScopeId>, name: String) -> (scope: Scope)
        ensures
            scope@ == ScopeView::empty(parent, Some(name@)),
            scope.wf(),
    {
        let scope = Scope {
            value_arena: value_arena_new(),
            var_arena: var_arena_new(),
            var_names: name_table_new(),
            parent,
            name: Some(name),
        };
        assert(scope@.values =~= Map::empty());
        scope
    }

    /// Stores `value` and returns its key.
    pub fn alloc_value(&mut self, value: Value) -> (id: ValueId)
        requires
            old(self).wf(),
            old(self)@.values.len() < ARENA_CAPACITY,
        ensures
            !old(self)@.values.contains_key(id),
            final(self)@ == old(self)@.with_value(id, value@),
            final(self).wf(),
    {
        assert(self@.values.dom() =~= value_arena_map(self.value_arena).dom());
        let id = value_arena_insert(&mut self.value_arena, value);
        assert(self@.values =~= old(self)@.values.insert(id, value@));
        id
    }

    /// Stores `var`, makes `name` stand for it and returns its key.
    pub fn alloc_var(&mut self, name: String, var: Var) -> (id: VarId)
        requires
            old(self).wf(),
            old(self)@.vars.len() < ARENA_CAPACITY,
        ensures
            !old(self)@.vars.contains_key(id),
            final(self)@ == old(self)@.with_var(name@, id, var),
            final(self).wf(),
    {
        let id = var_arena_insert(&mut self.var_arena, var);
        name_table_insert(&mut self.var_names, name, id);
        id
    }

    /// Stores `value` and binds `name` to it. Returns the key of the binding.
    pub fn alloc_local(&mut self, name: String, value: Value) -> (var: VarId)
        requires
            old(self).wf(),
            old(self)@.has_room(1),
        ensures
            !old(self)@.vars.contains_key(var),
            final(self)@.vars.contains_key(var),
            final(self)@.vars[var] is Local,
            !old(self)@.values.contains_key(final(self)@.vars[var]->Local_0),
            final(self)@ == old(self)@.with_local(
                name@,
                var,
                final(self)@.vars[var]->Local_0,
                value@,
            ),
            old(self)@.binds(name@, value@, final(self)@),
            final(self).wf(),
    {
        let ghost value_view = value@;
        let id = self.alloc_value(value);
        let var = self.alloc_var(name, Var::Local(id));
        assert(self@ == old(self)@.with_local(name@, var, id, value_view));
        var
    }

    /// Binds `name` as an alias of the binding `var` of `scope`.
    pub fn alloc_reference(&mut self, name: String, scope: ScopeId, var: VarId) -> (id: VarId)
        requires
            old(self).wf(),
            old(self)@.vars.len() < ARENA_CAPACITY,
        ensures
            !old(self)@.vars.contains_key(id),
            final(self)@ == old(self)@.with_var(name@, id, Var::Reference(scope, var)),
            final(self).wf(),
    {
        self.alloc_var(name, Var::Reference(scope, var))
    }

    /// The key of the binding that `name` stands for.
    pub fn get_var_id(&self, name: &str) -> (id: Option<VarId>)
        ensures
            id == self@.names.get(name@),
    {
        name_table_get(&self.var_names, name)
    }

    /// The binding stored under `id`.
    pub fn var(&self, id: VarId) -> (var: Option<&Var>)
        ensures
            match var {
                Some(v) => self@.vars.get(id) == Some(*v),
                None => self@.vars.get(id) is None,
            },
    {
        var_arena_get(&self.var_arena, id)
    }

    /// The value stored under `id`.
    pub fn value(&self, id: ValueId) -> (value: Option<&Value>)
        ensures
            match value {
                Some(v) => self@.values.get(id) == Some(v@),
                None => self@.values.get(id) is None,
            },
    {
        value_arena_get(&self.value_arena, id)
    }

    /// The binding that `name` stands for.
    pub fn get_var(&self, name: &str) -> (var: Option<&Var>)
        ensures
            match var {
                Some(v) => self@.var_named(name@) == Some(*v),
                None => self@.var_named(name@) is None,
            },
    {
        match self.get_var_id(name) {
            Some(id) => self.var(id),
            None => None,
        }
    }

    /// The binding that `name` stands for, for writing. What is written
    /// replaces that binding and nothing else.
    pub fn get_var_mut(&mut self, name: &str) -> (var: Option<&mut Var>)
        ensures
            match var {
                Some(v) => old(self)@.var_named(name@) == Some(*v) && final(self)@ == (ScopeView {
                    vars: old(self)@.vars.insert(old(self)@.names[name@], *final(v)),
                    ..old(self)@
                }),
                None => old(self)@.var_named(name@) is None && final(self)@ == old(self)@,
            },
            old(self).wf() ==> final(self).wf(),
    {
        match self.get_var_id(name) {
            Some(id) => var_arena_get_mut(&mut self.var_arena, id),
            None => None,
        }
    }

    /// The enclosing scope.
    pub fn parent(&self) -> (parent: Option<ScopeId>)
        ensures
            parent == self@.parent,
    {
        self.parent
    }

    /// The scope's label.
    pub fn name(&self) -> (name: Option<&str>)
        ensures
            match name {
                Some(n) => self@.name == Some(n@),
                None => self@.name is None,
            },
    {
        match &self.name {
            Some(n) => Some(n.as_str()),
            None => None,
        }
    }

    /// The same scope, labelled `name`.
    pub fn with_name(self, name: String) -> (scope: Scope)
        ensures
            scope@ == (ScopeView { name: Some(name@), ..self@ }),
            self.wf() ==> scope.wf(),
    {
        let mut scope = self;
        scope.name = Some(name);
        scope
    }

    /// Labels the scope `name`.
    pub fn set_name(&mut self, name: String)
        ensures
            final(self)@ == (ScopeView { name: Some(name@), ..old(self)@ }),
            old(self).wf() ==> final(self).wf(),
    {
        self.name = Some(name);
    }
}

} // verus!
