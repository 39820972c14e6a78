//! The scope tree and the traversal state of one analysis pass.

use crate::arena::{
    scope_arena_get, scope_arena_get_mut, scope_arena_insert, scope_arena_map, scope_arena_new,
    Arena, ARENA_CAPACITY,
};
use crate::hint::{hint_views, Hint, HintView};
use crate::ids::ScopeId;
use crate::scope::{Scope, ScopeView, Value, ValueView};
use std::collections::HashMap;
use vstd::prelude::*;

verus! {

broadcast use vstd::std_specs::hash::group_hash_axioms;

/// The views of a list of names, in order.
pub open spec fn name_views(names: Seq<String>) -> Seq<Seq<char>> {
    names.map_values(|n: String| n@)
}

/// What contracts say of a [`ScopeManager`].
pub struct ManagerView {
    /// Every scope created so far.
    pub scopes: Map<ScopeId, ScopeView>,
    /// The scopes that are open, innermost last.
    pub stack: Seq<ScopeId>,
    /// The scope created for each block.
    pub node_refs: Map<usize, ScopeId>,
    /// The hints produced so far.
    pub hints: Seq<HintView>,
    /// Labels waiting for the scopes that will be opened next.
    pub name_stack: Seq<Seq<char>>,
    /// How many scopes enclose each scope.
    pub depth: Map<ScopeId, nat>,
    /// How many times a scope was pushed on the stack since the pass began.
    pub opened: nat,
    /// How many times a scope was popped off the stack since the pass began.
    pub closed: nat,
}

impl ManagerView {
    /// The state a pass starts in: the global scope `root`, open.
    pub open spec fn initial(root: ScopeId) -> ManagerView {
        ManagerView {
            scopes: Map::empty().insert(root, ScopeView::empty(None, Some("global"@))),
            stack: seq![root],
            node_refs: Map::empty(),
            hints: Seq::empty(),
            name_stack: Seq::empty(),
            depth: Map::empty().insert(root, 0nat),
            opened: 0,
            closed: 0,
        }
    }

    /// The innermost open scope.
    pub open spec fn current(self) -> Option<ScopeId> {
        if self.stack.len() > 0 {
            Some(self.stack.last())
        } else {
            None
        }
    }

    /// The outermost open scope.
    pub open spec fn root(self) -> Option<ScopeId> {
        if self.stack.len() > 0 {
            Some(self.stack[0])
        } else {
            None
        }
    }

    /// The label that the next scope will take.
    pub open spec fn pending_name(self) -> Option<Seq<char>> {
        if self.name_stack.len() > 0 {
            Some(self.name_stack.last())
        } else {
            None
        }
    }

    /// The depth of a scope opened now.
    pub open spec fn next_depth(self) -> nat {
        match self.current() {
            Some(parent) => self.depth[parent] + 1,
            None => 0,
        }
    }

    /// `s` lies deeper than its parent, which exists.
    pub open spec fn ranked(self, s: ScopeId) -> bool {
        match self.scopes[s].parent {
            Some(p) => self.scopes.contains_key(p) && self.depth[p] < self.depth[s],
            None => true,
        }
    }

    /// The scope tree is sound: finitely many scopes, each with finite
    /// arenas; every open scope and every scope recorded for a block
    /// exists; every scope's chain of parents ends; and the stack holds
    /// what was pushed and not yet popped.
    pub open spec fn wf(self) -> bool {
        &&& self.scopes.dom().finite()
        &&& forall|node: usize| #[trigger]
            self.node_refs.contains_key(node) ==> self.scopes.contains_key(self.node_refs[node])
        &&& forall|s: ScopeId| self.scopes.contains_key(s) ==> (#[trigger] self.scopes[s]).wf()
        &&& forall|i: int|
            0 <= i < self.stack.len() ==> self.scopes.contains_key(#[trigger] self.stack[i])
        &&& forall|s: ScopeId| #[trigger]
            self.scopes.contains_key(s) ==> self.depth.contains_key(s) && self.ranked(s)
        &&& self.stack.len() + self.closed == self.opened + 1
    }

    /// The state after a scope labelled `name` was opened for the block
    /// `node` under the key `id`.
    pub open spec fn open_named(self, id: ScopeId, node: usize, name: Option<Seq<char>>) -> ManagerView {
        ManagerView {
            scopes: self.scopes.insert(id, ScopeView::empty(self.current(), name)),
            stack: self.stack.push(id),
            node_refs: self.node_refs.insert(node, id),
            depth: self.depth.insert(id, self.next_depth()),
            opened: self.opened + 1,
            ..self
        }
    }

    /// The state after a scope was opened for the block `node` under the
    /// key `id`. The scope takes the pending label, if there is one.
    pub open spec fn open(self, id: ScopeId, node: usize) -> ManagerView {
        ManagerView {
            name_stack: if self.name_stack.len() > 0 {
                self.name_stack.drop_last()
            } else {
                self.name_stack
            },
            ..self.open_named(id, node, self.pending_name())
        }
    }

    /// The state after the innermost open scope was closed.
    pub open spec fn close(self) -> ManagerView {
        if self.stack.len() > 0 {
            ManagerView { stack: self.stack.drop_last(), closed: self.closed + 1, ..self }
        } else {
            self
        }
    }

    /// The state after the outermost open scope was made current again.
    pub open spec fn reenter_root(self) -> ManagerView {
        ManagerView { stack: self.stack.push(self.stack[0]), opened: self.opened + 1, ..self }
    }

    /// The state after `name` was put aside as the label of the scope
    /// opened next.
    pub open spec fn name_next(self, name: Seq<char>) -> ManagerView {
        ManagerView { name_stack: self.name_stack.push(name), ..self }
    }

    /// The state with `scope` in the place of the scope `id`.
    pub open spec fn with_scope(self, id: ScopeId, scope: ScopeView) -> ManagerView {
        ManagerView { scopes: self.scopes.insert(id, scope), ..self }
    }

    /// The state after `hints` were appended.
    pub open spec fn with_hints(self, hints: Seq<HintView>) -> ManagerView {
        ManagerView { hints: self.hints + hints, ..self }
    }

    /// `post` is the state after the scope `id` bound `name` to `value`
    /// and `name` was put aside as the label of the scope opened next.
    pub open spec fn bound_in(
        self,
        id: ScopeId,
        name: Seq<char>,
        value: ValueView,
        post: ManagerView,
    ) -> bool {
        &&& self.scopes.contains_key(id)
        &&& post.scopes.contains_key(id)
        &&& self.scopes[id].binds(name, value, post.scopes[id])
        &&& post == self.with_scope(id, post.scopes[id]).name_next(name)
    }

    /// `post` has the scopes of `self`, each with the parent it has in
    /// `self`, and the same scopes are open.
    pub open spec fn same_tree(self, post: ManagerView) -> bool {
        &&& post.stack == self.stack
        &&& post.scopes.dom() == self.scopes.dom()
        &&& forall|s: ScopeId| #[trigger]
            self.scopes.contains_key(s) ==> post.scopes[s].parent == self.scopes[s].parent
    }

    /// Every scope of `self` is a scope of `post`, and every value and
    /// binding it holds is in `post` as it is in `self`.
    pub open spec fn kept_by(self, post: ManagerView) -> bool {
        forall|s: ScopeId| #[trigger]
            self.scopes.contains_key(s) ==> post.scopes.contains_key(s)
                && self.scopes[s].values.submap_of(post.scopes[s].values)
                && self.scopes[s].vars.submap_of(post.scopes[s].vars)
    }

    /// No arena holds more than `n` entries.
    pub open spec fn within(self, n: nat) -> bool {
        &&& self.scopes.len() <= n
        &&& forall|s: ScopeId| #[trigger]
            self.scopes.contains_key(s) ==> self.scopes[s].values.len() <= n
                && self.scopes[s].vars.len() <= n
    }
}

/// Mapping the values of a map commutes with inserting an entry.
pub broadcast proof fn lemma_map_values_insert<K, V, W>(m: Map<K, V>, k: K, v: V, f: spec_fn(V) -> W)
    ensures
        #[trigger] m.insert(k, v).map_values(f) == m.map_values(f).insert(k, f(v)),
{
    assert(m.insert(k, v).map_values(f) =~= m.map_values(f).insert(k, f(v)));
}

/// Replacing a scope by a sound one with the same parent keeps the tree
/// sound.
pub proof fn lemma_with_scope_wf(m: ManagerView, id: ScopeId, scope: ScopeView)
    requires
        m.wf(),
        m.scopes.contains_key(id),
        scope.wf(),
        scope.parent == m.scopes[id].parent,
    ensures
        m.with_scope(id, scope).wf(),
{
    let post = m.with_scope(id, scope);
    assert(post.scopes.dom() =~= m.scopes.dom());
    assert forall|s: ScopeId| #[trigger] post.scopes.contains_key(s) implies post.depth.contains_key(
        s,
    ) && post.ranked(s) by {
        assert(m.scopes.contains_key(s));
        assert(m.ranked(s));
    }
}

/// What is kept by a state that is kept by another is kept by that other.
pub proof fn lemma_kept_by_kept(first: ManagerView, second: ManagerView, third: ManagerView)
    requires
        first.kept_by(second),
        second.kept_by(third),
    ensures
        first.kept_by(third),
{
    assert forall|s: ScopeId| #[trigger] first.scopes.contains_key(s) implies third.scopes.contains_key(
        s,
    ) && first.scopes[s].values.submap_of(third.scopes[s].values) && first.scopes[s].vars.submap_of(
        third.scopes[s].vars,
    ) by {
        assert(second.scopes.contains_key(s));
        vstd::map_lib::lemma_submap_of_trans(
            first.scopes[s].values,
            second.scopes[s].values,
            third.scopes[s].values,
        );
        vstd::map_lib::lemma_submap_of_trans(
            first.scopes[s].vars,
            second.scopes[s].vars,
            third.scopes[s].vars,
        );
    }
}

/// The scope tree of one pass, the stack of open scopes, and what the pass
/// has produced so far.
pub struct ScopeManager {
    scopes: Arena<Scope>,
    stack: Vec<ScopeId>,
    node_refs: HashMap<usize, ScopeId>,
    hints: Vec<Hint>,
    name_stack: Vec<String>,
    depth: Ghost<Map<ScopeId, nat>>,
    opened: Ghost<nat>,
    closed: Ghost<nat>,
}

impl View for ScopeManager {
    type V = ManagerView;

    closed spec fn view(&self) -> ManagerView {
        ManagerView {
            scopes: scope_arena_map(self.scopes).map_values(|s: Scope| s@),
            stack: self.stack@,
            node_refs: self.node_refs@,
            hints: hint_views(self.hints@),
            name_stack: name_views(self.name_stack@),
            depth: self.depth@,
            opened: self.opened@,
            closed: self.closed@,
        }
    }
}

impl ScopeManager {
    /// The scope tree is sound; see [`ManagerView::wf`].
    pub open spec fn wf(&self) -> bool {
        self@.wf()
    }

    proof fn lemma_scopes_dom(&self)
        ensures
            self@.scopes.dom() == scope_arena_map(self.scopes).dom(),
            forall|s: ScopeId| #[trigger]
                self@.scopes.contains_key(s) ==> self@.scopes[s] == scope_arena_map(self.scopes)[s]@,
    {
        assert(self@.scopes.dom() =~= scope_arena_map(self.scopes).dom());
    }

    /// A manager that holds the global scope and nothing else.
    pub fn fresh() -> (manager: ScopeManager)
        ensures
            manager@.stack.len() == 1,
            manager@ == ManagerView::initial(manager@.stack[0]),
            manager.wf(),
    {
        let mut scopes = scope_arena_new();
        let global = scope_arena_insert(&mut scopes, Scope::new_named(None, "global".to_string()));
        let mut stack: Vec<ScopeId> = Vec::new();
        stack.push(global);
        let manager = ScopeManager {
            scopes,
            stack,
            node_refs: HashMap::new(),
            hints: Vec::new(),
            name_stack: Vec::new(),
            depth: Ghost(Map::empty().insert(global, 0nat)),
            opened: Ghost(0),
            closed: Ghost(0),
        };
        proof {
            let init = ManagerView::initial(global);
            assert(manager@.scopes =~= init.scopes);
            assert(manager@.stack =~= init.stack);
            assert(manager@.node_refs =~= init.node_refs);
            assert(manager@.hints =~= init.hints);
            assert(manager@.name_stack =~= init.name_stack);
        }
        manager
    }

    /// The hints produced so far, in the order they were produced.
    pub fn hints(&self) -> (hints: &Vec<Hint>)
        ensures
            hint_views(hints@) == self@.hints,
    {
        &self.hints
    }

    /// Gives up the manager for the hints it produced.
    pub fn into_hints(self) -> (hints: Vec<Hint>)
        ensures
            hint_views(hints@) == self@.hints,
    {
        self.hints
    }

    /// The key of the innermost open scope.
    pub fn get_current_scope_id(&self) -> (id: Option<ScopeId>)
        ensures
            id == self@.current(),
    {
        if self.stack.len() > 0 {
            Some(self.stack[self.stack.len() - 1])
        } else {
            None
        }
    }

    /// The key of the outermost open scope.
    pub fn get_root_scope_id(&self) -> (id: Option<ScopeId>)
        ensures
            id == self@.root(),
    {
        if self.stack.len() > 0 {
            Some(self.stack[0])
        } else {
            None
        }
    }

    /// The scope stored under `id`.
    pub fn get_scope(&self, id: ScopeId) -> (scope: Option<&Scope>)
        ensures
            match scope {
                Some(s) => self@.scopes.get(id) == Some(s@),
                None => self@.scopes.get(id) is None,
            },
    {
        proof {
            self.lemma_scopes_dom();
        }
        scope_arena_get(&self.scopes, id)
    }

    /// The scope stored under `id`, for writing. What is written replaces
    /// that scope and nothing else.
    pub fn get_scope_mut(&mut self, id: ScopeId) -> (scope: Option<&mut Scope>)
        ensures
            match scope {
                Some(s) => old(self)@.scopes.get(id) == Some(s@) && final(self)@ == old(
                    self,
                )@.with_scope(id, final(s)@),
                None => old(self)@.scopes.get(id) is None && final(self)@ == old(self)@,
            },
    {
        proof {
            self.lemma_scopes_dom();
        }
        broadcast use lemma_map_values_insert;

        scope_arena_get_mut(&mut self.scopes, id)
    }

    /// The scope stored under `id`; the same as [`ScopeManager::get_scope`].
    pub fn get_scope_by_id(&self, id: ScopeId) -> (scope: Option<&Scope>)
        ensures
            match scope {
                Some(s) => self@.scopes.get(id) == Some(s@),
                None => self@.scopes.get(id) is None,
            },
    {
        self.get_scope(id)
    }

    /// The scope stored under `id`, for writing; the same as
    /// [`ScopeManager::get_scope_mut`].
    pub fn get_scope_by_id_mut(&mut self, id: ScopeId) -> (scope: Option<&mut Scope>)
        ensures
            match scope {
                Some(s) => old(self)@.scopes.get(id) == Some(s@) && final(self)@ == old(
                    self,
                )@.with_scope(id, final(s)@),
                None => old(self)@.scopes.get(id) is None && final(self)@ == old(self)@,
            },
    {
        self.get_scope_mut(id)
    }

    /// The innermost open scope.
    pub fn get_current_scope(&self) -> (scope: Option<&Scope>)
        ensures
            match scope {
                Some(s) => self@.current() is Some && self@.scopes.get(self@.current()->0) == Some(
                    s@,
                ),
                None => self@.current() is None || self@.scopes.get(self@.current()->0) is None,
            },
    {
        match self.get_current_scope_id() {
            Some(id) => self.get_scope(id),
            None => None,
        }
    }

    /// The innermost open scope, for writing.
    pub fn get_current_scope_mut(&mut self) -> (scope: Option<&mut Scope>)
        ensures
            match scope {
                Some(s) => old(self)@.current() is Some && old(self)@.scopes.get(
                    old(self)@.current()->0,
                ) == Some(s@) && final(self)@ == old(self)@.with_scope(
                    old(self)@.current()->0,
                    final(s)@,
                ),
                None => (old(self)@.current() is None || old(self)@.scopes.get(
                    old(self)@.current()->0,
                ) is None) && final(self)@ == old(self)@,
            },
    {
        match self.get_current_scope_id() {
            Some(id) => self.get_scope_mut(id),
            None => None,
        }
    }

    /// Labels the innermost open scope `name`.
    pub fn name_current_scope(&mut self, name: String)
        ensures
            final(self)@ == (match old(self)@.current() {
                Some(id) => if old(self)@.scopes.contains_key(id) {
                    old(self)@.with_scope(
                        id,
                        ScopeView { name: Some(name@), ..old(self)@.scopes[id] },
                    )
                } else {
                    old(self)@
                },
                None => old(self)@,
            }),
            old(self).wf() ==> final(self).wf(),
    {
        match self.get_current_scope_mut() {
            Some(scope) => {
                scope.set_name(name);
            },
            None => {},
        }
        proof {
            if old(self).wf() && old(self)@.current() is Some {
                let id = old(self)@.current()->0;
                lemma_with_scope_wf(
                    old(self)@,
                    id,
                    ScopeView { name: Some(name@), ..old(self)@.scopes[id] },
                );
            }
        }
    }

    /// Puts `name` aside as the label of the scope opened next.
    pub fn name_next_scope(&mut self, name: String)
        ensures
            final(self)@ == old(self)@.name_next(name@),
    {
        self.name_stack.push(name);
        assert(self@.name_stack =~= old(self)@.name_stack.push(name@));
    }

    /// Opens a scope labelled `name` for the block `node`, inside the
    /// innermost open scope, and makes it current.
    pub fn open_scope_named(&mut self, name: String, node: usize) -> (id: ScopeId)
        requires
            old(self).wf(),
            old(self)@.scopes.len() < ARENA_CAPACITY,
        ensures
            !old(self)@.scopes.contains_key(id),
            final(self)@ == old(self)@.open_named(id, node, Some(name@)),
            final(self).wf(),
    {
        let parent = self.get_current_scope_id();
        self.insert_scope(Scope::new_named(parent, name), node)
    }

    /// Opens a scope for the block `node`, inside the innermost open scope,
    /// and makes it current. The scope takes the pending label, if any.
    pub fn open_scope(&mut self, node: usize) -> (id: ScopeId)
        requires
            old(self).wf(),
            old(self)@.scopes.len() < ARENA_CAPACITY,
        ensures
            !old(self)@.scopes.contains_key(id),
            final(self)@ == old(self)@.open(id, node),
            final(self).wf(),
    {
        let parent = self.get_current_scope_id();
        let ghost pre = self@;
        let scope = match self.name_stack.pop() {
            Some(name) => Scope::new_named(parent, name),
            None => Scope::new(parent),
        };
        proof {
            assert(self@.name_stack =~= if pre.name_stack.len() > 0 {
                pre.name_stack.drop_last()
            } else {
                pre.name_stack
            });
            assert(self@.node_refs == pre.node_refs);
            assert(self@.scopes == pre.scopes);
            assert forall|n: usize| #[trigger] self@.node_refs.contains_key(n) implies self@.scopes.contains_key(
                self@.node_refs[n],
            ) by {
                assert(pre.node_refs.contains_key(n));
            }
        }
        self.insert_scope(scope, node)
    }

    fn insert_scope(&mut self, scope: Scope, node: usize) -> (id: ScopeId)
        requires
            old(self).wf(),
            old(self)@.scopes.len() < ARENA_CAPACITY,
            scope.wf(),
            scope@.parent == old(self)@.current(),
            scope@ == ScopeView::empty(scope@.parent, scope@.name),
        ensures
            !old(self)@.scopes.contains_key(id),
            final(self)@ == old(self)@.open_named(id, node, scope@.name),
            final(self).wf(),
    {
        proof {
            self.lemma_scopes_dom();
        }
        let ghost pre = self@;
        let id = scope_arena_insert(&mut self.scopes, scope);
        self.node_refs.insert(node, id);
        self.stack.push(id);
        proof {
            self.depth@ = pre.depth.insert(id, pre.next_depth());
            self.opened@ = pre.opened + 1;
            let post = pre.open_named(id, node, scope@.name);
            assert(self@.scopes =~= post.scopes);
            assert(self@.stack =~= post.stack);
            assert(self@.node_refs =~= post.node_refs);
            assert(self@ == post);
            assert forall|s: ScopeId| #[trigger] post.scopes.contains_key(s) implies post.depth.contains_key(
                s,
            ) && post.ranked(s) by {
                if s != id {
                    assert(pre.scopes.contains_key(s));
                    assert(pre.ranked(s));
                } else if pre.stack.len() > 0 {
                    assert(pre.scopes.contains_key(pre.stack[pre.stack.len() - 1]));
                }
            }
            assert forall|i: int| 0 <= i < post.stack.len() implies post.scopes.contains_key(
                #[trigger] post.stack[i],
            ) by {
                if i < pre.stack.len() {
                    assert(pre.scopes.contains_key(pre.stack[i]));
                }
            }
        }
        id
    }

    /// Makes the outermost open scope current again, on top of the scopes
    /// that are open.
    pub fn reenter_root(&mut self)
        requires
            old(self).wf(),
            old(self)@.stack.len() > 0,
        ensures
            final(self)@ == old(self)@.reenter_root(),
            final(self).wf(),
    {
        let ghost pre = self@;
        let root = self.stack[0];
        self.stack.push(root);
        proof {
            self.opened@ = self.opened@ + 1;
            assert(self@.stack =~= pre.stack.push(pre.stack[0]));
            assert forall|n: usize| #[trigger] self@.node_refs.contains_key(n) implies self@.scopes.contains_key(
                self@.node_refs[n],
            ) by {
                assert(pre.node_refs.contains_key(n));
            }
            assert forall|i: int| 0 <= i < self@.stack.len() implies self@.scopes.contains_key(
                #[trigger] self@.stack[i],
            ) by {
                if i < pre.stack.len() {
                    assert(pre.scopes.contains_key(pre.stack[i]));
                } else {
                    assert(pre.scopes.contains_key(pre.stack[0]));
                }
            }
        }
    }

    /// Binds `name` to `value` in the scope `scope` and puts `name` aside
    /// as the label of the scope opened next.
    pub fn declare(&mut self, scope: ScopeId, name: String, value: Value)
        requires
            old(self).wf(),
            old(self)@.scopes.contains_key(scope),
            old(self)@.scopes[scope].has_room(1),
        ensures
            old(self)@.bound_in(scope, name@, value@, final(self)@),
            final(self).wf(),
    {
        let label = name.clone();
        let ghost pre = self@;
        match self.get_scope_mut(scope) {
            Some(s) => {
                s.alloc_local(name, value);
            },
            None => {},
        }
        proof {
            lemma_with_scope_wf(pre, scope, self@.scopes[scope]);
        }
        self.name_next_scope(label);
    }

    /// Appends `hint` to the hints produced so far.
    pub fn add_hint(&mut self, hint: Hint)
        ensures
            final(self)@ == old(self)@.with_hints(seq![hint@]),
    {
        self.hints.push(hint);
        assert(self@.hints =~= old(self)@.hints + seq![hint@]);
    }

    /// Appends `hints` to the hints produced so far.
    pub fn add_hints(&mut self, hints: Vec<Hint>)
        ensures
            final(self)@ == old(self)@.with_hints(hint_views(hints@)),
    {
        let ghost added = hint_views(hints@);
        let mut hints = hints;
        self.hints.append(&mut hints);
        assert(self@.hints =~= old(self)@.hints + added);
    }

    /// Closes the innermost open scope. The scope stays in the tree.
    pub fn close_scope(&mut self)
        ensures
            final(self)@ == old(self)@.close(),
            old(self).wf() ==> final(self).wf(),
    {
        let ghost pre = self@;
        match self.stack.pop() {
            Some(_) => {
                proof {
                    self.closed@ = self.closed@ + 1;
                    assert(self@.stack =~= pre.stack.drop_last());
                    if pre.wf() {
                        assert forall|i: int| 0 <= i < self@.stack.len() implies self@.scopes.contains_key(
                         #[trigger] self@.stack[i]) by {
                            assert(pre.scopes.contains_key(pre.stack[i]));
                        }
                    }
                }
            },
            None => {},
        }
    }

    /// The scope that was opened for the block `node`.
    pub fn get_scope_id(&self, node: usize) -> (id: Option<ScopeId>)
        ensures
            id == self@.node_refs.get(node),
    {
        match self.node_refs.get(&node) {
            Some(id) => Some(*id),
            None => None,
        }
    }
}

} // verus!
