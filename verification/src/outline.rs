//! The pass without its keys.
//!
//! Which keys the arenas hand out has no bearing on the hints. This module
//! says what the hints of a tree are without speaking of keys at all:
//! scopes are numbered in the order they are opened, and each scope is
//! nothing but the value of each of its names. It then proves that every
//! pass produces exactly those hints.

use crate::hint::HintView;
use crate::ids::ScopeId;
use crate::manager::ManagerView;
use crate::resolve::lemma_resolve_local;
use crate::scope::{ScopeView, ValueView, Var};
use crate::syntax::{
    parameter_views, Assignment, Ast, Expression, FunctionCall, LocalAssignment, Node, NodeKind,
    ParameterView, Prefix, Target,
};
use crate::text::trimmed;
use crate::traverse::{
    after_child, closes, lemma_assigned_upto, lemma_declared_upto, lemma_entered,
    lemma_reenter_root_wf, lemma_walked_children,
};
use crate::visitor::{
    assignment_pairs, bare_name, hints_of_call, lemma_bound_in, local_assignment_pairs, parameters_of,
    stored,
};
use vstd::prelude::*;

verus! {

/// A scope without its keys: the value of each name, and the number of the
/// enclosing scope.
pub struct Frame {
    pub names: Map<Seq<char>, ValueView>,
    pub parent: Option<nat>,
}

/// The state of a pass without its keys.
pub struct Outline {
    /// Every scope opened so far, in the order they were opened.
    pub frames: Seq<Frame>,
    /// The numbers of the scopes that are open, innermost last.
    pub stack: Seq<nat>,
    /// The hints produced so far.
    pub hints: Seq<HintView>,
}

impl Outline {
    /// The state a pass starts in: the global scope, open.
    pub open spec fn initial() -> Outline {
        Outline {
            frames: seq![Frame { names: Map::empty(), parent: None }],
            stack: seq![0nat],
            hints: Seq::empty(),
        }
    }

    /// The state after a scope was opened.
    pub open spec fn open(self) -> Outline {
        Outline {
            frames: self.frames.push(
                Frame {
                    names: Map::empty(),
                    parent: if self.stack.len() > 0 {
                        Some(self.stack.last())
                    } else {
                        None
                    },
                },
            ),
            stack: self.stack.push(self.frames.len()),
            ..self
        }
    }

    /// The state after the innermost open scope was closed.
    pub open spec fn close(self) -> Outline {
        if self.stack.len() > 0 {
            Outline { stack: self.stack.drop_last(), ..self }
        } else {
            self
        }
    }

    /// The state after the outermost open scope was made current again.
    pub open spec fn reenter_root(self) -> Outline {
        Outline { stack: self.stack.push(self.stack[0]), ..self }
    }

    /// The state after the scope `at` bound `name` to `value`.
    pub open spec fn bind(self, at: nat, name: Seq<char>, value: ValueView) -> Outline {
        Outline {
            frames: self.frames.update(
                at as int,
                Frame {
                    names: self.frames[at as int].names.insert(name, value),
                    ..self.frames[at as int]
                },
            ),
            ..self
        }
    }

    /// The value of `name` in the nearest scope that binds it, going
    /// outwards from the scope `from`.
    pub open spec fn value_named(self, from: nat, name: Seq<char>) -> Option<ValueView>
        decreases from,
    {
        if from >= self.frames.len() {
            None
        } else if self.frames[from as int].names.contains_key(name) {
            Some(self.frames[from as int].names[name])
        } else {
            match self.frames[from as int].parent {
                Some(parent) => if parent < from {
                    self.value_named(parent, name)
                } else {
                    None
                },
                None => None,
            }
        }
    }

    /// The parameters of the function that `name` denotes in the
    /// innermost open scope.
    pub open spec fn parameters_named(self, name: Seq<char>) -> Option<Seq<ParameterView>> {
        if self.stack.len() == 0 {
            None
        } else {
            match self.value_named(self.stack.last(), name) {
                Some(ValueView::Function(parameters)) => Some(parameters),
                _ => None,
            }
        }
    }

    /// Which function each name denotes in the innermost open scope.
    pub open spec fn resolver(self) -> spec_fn(Seq<char>) -> Option<Seq<ParameterView>> {
        |name: Seq<char>| self.parameters_named(name)
    }

    /// The state after the pair `i` of an assignment was seen.
    pub open spec fn assign_pair(self, node: Assignment, i: nat) -> Outline {
        match node.variables@[i as int] {
            Target::Name(name) => if node.expressions@[i as int].is_value() {
                self.bind(self.stack[0], trimmed(name@), stored(node.expressions@[i as int]))
            } else {
                self
            },
            Target::Expression => self,
        }
    }

    /// The state after the first `n` pairs of an assignment were seen.
    pub open spec fn assign_upto(self, node: Assignment, n: nat) -> Outline
        decreases n,
    {
        if n == 0 {
            self
        } else {
            self.assign_upto(node, (n - 1) as nat).assign_pair(node, (n - 1) as nat)
        }
    }

    /// The state after the pair `i` of a local assignment was seen.
    pub open spec fn declare_pair(self, node: LocalAssignment, i: nat) -> Outline {
        if node.expressions@[i as int].is_value() && self.stack.len() > 0 {
            self.bind(
                self.stack.last(),
                trimmed(node.names@[i as int]@),
                stored(node.expressions@[i as int]),
            )
        } else {
            self
        }
    }

    /// The state after the first `n` pairs of a local assignment were
    /// seen.
    pub open spec fn declare_upto(self, node: LocalAssignment, n: nat) -> Outline
        decreases n,
    {
        if n == 0 {
            self
        } else {
            self.declare_upto(node, (n - 1) as nat).declare_pair(node, (n - 1) as nat)
        }
    }

    /// The state after a node of kind `kind` was entered.
    pub open spec fn enter(self, kind: NodeKind) -> Outline {
        match kind {
            NodeKind::Block(_) => self.open(),
            NodeKind::LocalFunction(node) => if self.stack.len() > 0 {
                self.bind(
                    self.stack.last(),
                    trimmed(node.name@),
                    ValueView::Function(parameter_views(node.parameters@)),
                )
            } else {
                self
            },
            NodeKind::FunctionDeclaration(node) => if self.stack.len() > 0 {
                match bare_name(node.name) {
                    Some(name) => self.reenter_root().bind(
                        self.stack[0],
                        name,
                        ValueView::Function(parameter_views(node.parameters@)),
                    ),
                    None => self.reenter_root(),
                }
            } else {
                self
            },
            NodeKind::Assignment(node) => if self.stack.len() > 0 {
                self.reenter_root().assign_upto(node, assignment_pairs(node))
            } else {
                self
            },
            NodeKind::LocalAssignment(node) => self.declare_upto(
                node,
                local_assignment_pairs(node),
            ),
            NodeKind::FunctionCall(node) => Outline {
                hints: self.hints + hints_of_call(self.resolver(), node),
                ..self
            },
        }
    }

    /// The state after a node of kind `kind` was left.
    pub open spec fn leave(self, kind: NodeKind) -> Outline {
        if closes(kind) {
            self.close()
        } else {
            self
        }
    }

    /// The state after `node` and everything nested in it was walked.
    pub open spec fn walk(self, node: Node) -> Outline
        decreases node, 0nat,
    {
        self.enter(node.kind).walk_children(node.children@, node.children@.len()).leave(node.kind)
    }

    /// The state after the first `n` of `children` were walked, in order.
    pub open spec fn walk_children(self, children: Seq<Node>, n: nat) -> Outline
        decreases children, n,
    {
        if n == 0 || n > children.len() {
            self
        } else {
            self.walk_children(children, (n - 1) as nat).walk(children[n - 1])
        }
    }
}

/// The hints of a syntax tree: one for each argument, of each call met
/// walking the tree, that has a parameter in the function the callee
/// denotes where the call is met.
pub open spec fn hints_of(ast: Ast) -> Seq<HintView> {
    Outline::initial().walk(ast.root).hints
}

/// Every name of the scope stands for a binding that owns a value of the
/// scope.
pub open spec fn tidy(scope: ScopeView) -> bool {
    forall|name: Seq<char>| #[trigger]
        scope.names.contains_key(name) ==> scope.vars.contains_key(scope.names[name])
            && scope.vars[scope.names[name]] is Local && scope.values.contains_key(
            scope.vars[scope.names[name]]->Local_0,
        )
}

/// The value of each name of a scope.
pub open spec fn env(scope: ScopeView) -> Map<Seq<char>, ValueView> {
    Map::new(
        |name: Seq<char>| scope.names.contains_key(name),
        |name: Seq<char>| scope.values[scope.vars[scope.names[name]]->Local_0],
    )
}

/// The frame numbered `index[s]` is the scope `s` without its keys.
pub open spec fn mirrors_scope(
    m: ManagerView,
    o: Outline,
    index: Map<ScopeId, nat>,
    s: ScopeId,
) -> bool {
    &&& tidy(m.scopes[s])
    &&& o.frames[index[s] as int].names == env(m.scopes[s])
    &&& match m.scopes[s].parent {
        Some(p) => m.scopes.contains_key(p) && o.frames[index[s] as int].parent == Some(index[p])
            && index[p] < index[s],
        None => o.frames[index[s] as int].parent is None,
    }
}

/// `o` is `m` without its keys, when the scopes of `m` are numbered by
/// `index`.
pub open spec fn mirrors(m: ManagerView, o: Outline, index: Map<ScopeId, nat>) -> bool {
    &&& index.dom() == m.scopes.dom()
    &&& forall|s: ScopeId| #[trigger] index.contains_key(s) ==> index[s] < o.frames.len()
    &&& forall|s: ScopeId, t: ScopeId|
        index.contains_key(s) && index.contains_key(t) && s != t ==> #[trigger] index[s]
            != #[trigger] index[t]
    &&& forall|s: ScopeId| #[trigger] m.scopes.contains_key(s) ==> mirrors_scope(m, o, index, s)
    &&& o.stack.len() == m.stack.len()
    &&& forall|i: int| 0 <= i < m.stack.len() ==> #[trigger] o.stack[i] == index[m.stack[i]]
    &&& o.hints == m.hints
}

impl ManagerView {
    /// The value that a binding found by a lookup from the scope `from`
    /// leads to.
    pub open spec fn value_of(self, found: Option<Var>, from: ScopeId) -> Option<ValueView> {
        match found {
            None => None,
            Some(Var::Local(value)) => self.value_at(from, value),
            Some(Var::Reference(scope, var)) => match self.resolve_reference(scope, var) {
                Some((owner, value)) => self.value_at(owner, value),
                None => None,
            },
        }
    }
}

/// Looking a name up finds, with its keys, what the outline finds without.
pub proof fn lemma_lookup_mirrors(
    m: ManagerView,
    o: Outline,
    index: Map<ScopeId, nat>,
    s: ScopeId,
    name: Seq<char>,
    at_start: bool,
    fuel: nat,
)
    requires
        m.wf(),
        mirrors(m, o, index),
        m.scopes.contains_key(s),
        m.depth[s] <= fuel,
    ensures
        m.value_of(m.lookup(s, name, at_start, fuel), s) == o.value_named(index[s], name),
        !at_start ==> !(m.lookup(s, name, at_start, fuel) matches Some(Var::Local(_))),
    decreases fuel,
{
    assert(mirrors_scope(m, o, index, s));
    assert(index.contains_key(s));
    if m.scopes[s].names.contains_key(name) {
        let var = m.scopes[s].names[name];
        if !at_start {
            lemma_resolve_local(m, s, var);
        }
    } else {
        match m.scopes[s].parent {
            Some(parent) => {
                assert(m.ranked(s));
                lemma_lookup_mirrors(m, o, index, parent, name, false, (fuel - 1) as nat);
            },
            None => {},
        }
    }
}

/// A name denotes the same function with keys and without.
pub proof fn lemma_parameters_named_mirrors(
    m: ManagerView,
    o: Outline,
    index: Map<ScopeId, nat>,
    name: Seq<char>,
)
    requires
        m.wf(),
        mirrors(m, o, index),
    ensures
        m.parameters_named(name) == o.parameters_named(name),
{
    if m.stack.len() > 0 {
        let current = m.stack.last();
        assert(m.scopes.contains_key(m.stack[m.stack.len() - 1]));
        assert(o.stack[m.stack.len() - 1] == index[m.stack[m.stack.len() - 1]]);
        lemma_lookup_mirrors(m, o, index, current, name, true, m.depth[current]);
    }
}

/// An expression denotes the same function under two resolvers that agree
/// on every name.
pub proof fn lemma_parameters_of_agree(
    first: spec_fn(Seq<char>) -> Option<Seq<ParameterView>>,
    second: spec_fn(Seq<char>) -> Option<Seq<ParameterView>>,
    expression: Expression,
)
    requires
        forall|name: Seq<char>| #[trigger] first(name) == second(name),
    ensures
        parameters_of(first, expression) == parameters_of(second, expression),
    decreases expression,
{
    match expression {
        Expression::ParenthesizedValue(inner) => lemma_parameters_of_agree(first, second, *inner),
        Expression::Parentheses(inner) => lemma_parameters_of_agree(first, second, *inner),
        _ => {},
    }
}

/// A call gets the same hints with keys and without.
pub proof fn lemma_call_hints_mirror(
    m: ManagerView,
    o: Outline,
    index: Map<ScopeId, nat>,
    call: FunctionCall,
)
    requires
        m.wf(),
        mirrors(m, o, index),
    ensures
        m.call_hints(call) == hints_of_call(o.resolver(), call),
{
    assert forall|name: Seq<char>| #[trigger] (m.resolver())(name) == (o.resolver())(name) by {
        lemma_parameters_named_mirrors(m, o, index, name);
    }
    match call.prefix {
        Prefix::Expression(expression) => {
            lemma_parameters_of_agree(m.resolver(), o.resolver(), expression);
        },
        _ => {},
    }
}

/// Opening a scope with a key is opening the next scope without.
pub proof fn lemma_open_mirrors(
    m: ManagerView,
    o: Outline,
    index: Map<ScopeId, nat>,
    id: ScopeId,
    node: usize,
)
    requires
        m.wf(),
        mirrors(m, o, index),
        !m.scopes.contains_key(id),
    ensures
        mirrors(m.open(id, node), o.open(), index.insert(id, o.frames.len())),
{
    let post = m.open(id, node);
    let next = index.insert(id, o.frames.len());
    let after = o.open();
    assert(next.dom() =~= post.scopes.dom());
    assert forall|s: ScopeId| #[trigger] post.scopes.contains_key(s) implies mirrors_scope(
        post,
        after,
        next,
        s,
    ) by {
        if s == id {
            assert(env(post.scopes[s]) =~= Map::empty());
            if m.stack.len() > 0 {
                assert(m.scopes.contains_key(m.stack[m.stack.len() - 1]));
                assert(o.stack[m.stack.len() - 1] == index[m.stack[m.stack.len() - 1]]);
                assert(index.contains_key(m.stack.last()));
            }
        } else {
            assert(m.scopes.contains_key(s));
            assert(mirrors_scope(m, o, index, s));
            assert(index.contains_key(s));
            assert(m.ranked(s));
        }
    }
    assert forall|i: int| 0 <= i < post.stack.len() implies #[trigger] after.stack[i]
        == next[post.stack[i]] by {
        if i < m.stack.len() {
            assert(o.stack[i] == index[m.stack[i]]);
            assert(m.scopes.contains_key(m.stack[i]));
        }
    }
}

/// Binding a name in a scope with its keys is binding it in the frame of
/// that scope without.
pub proof fn lemma_bound_in_mirrors(
    m: ManagerView,
    o: Outline,
    index: Map<ScopeId, nat>,
    id: ScopeId,
    name: Seq<char>,
    value: ValueView,
    post: ManagerView,
)
    requires
        m.wf(),
        mirrors(m, o, index),
        m.bound_in(id, name, value, post),
    ensures
        mirrors(post, o.bind(index[id], name, value), index),
{
    lemma_bound_in(m, id, name, value, post);
    let after = o.bind(index[id], name, value);
    let before = m.scopes[id];
    let scope = post.scopes[id];
    assert(index.contains_key(id));
    assert(mirrors_scope(m, o, index, id));
    assert forall|n: Seq<char>| #[trigger] scope.names.contains_key(n) implies scope.vars.contains_key(
        scope.names[n],
    ) && scope.vars[scope.names[n]] is Local && scope.values.contains_key(
        scope.vars[scope.names[n]]->Local_0,
    ) && scope.values[scope.vars[scope.names[n]]->Local_0] == env(before).insert(name, value)[n] by {
        if n != name {
            assert(before.names.contains_key(n));
        }
    }
    assert(env(scope) =~= env(before).insert(name, value));
    assert forall|s: ScopeId| #[trigger] post.scopes.contains_key(s) implies mirrors_scope(
        post,
        after,
        index,
        s,
    ) by {
        assert(m.scopes.contains_key(s));
        assert(mirrors_scope(m, o, index, s));
        assert(index.contains_key(s));
        if s != id {
            assert(index[s] != index[id]);
        }
    }
    assert forall|i: int| 0 <= i < post.stack.len() implies #[trigger] after.stack[i]
        == index[post.stack[i]] by {
        assert(o.stack[i] == index[m.stack[i]]);
    }
}

/// Closing a scope with keys is closing it without.
pub proof fn lemma_close_mirrors(m: ManagerView, o: Outline, index: Map<ScopeId, nat>)
    requires
        mirrors(m, o, index),
    ensures
        mirrors(m.close(), o.close(), index),
{
    if m.stack.len() > 0 {
        assert forall|i: int| 0 <= i < m.close().stack.len() implies #[trigger] o.close().stack[i]
            == index[m.close().stack[i]] by {
            assert(o.stack[i] == index[m.stack[i]]);
        }
        assert forall|s: ScopeId| #[trigger] m.close().scopes.contains_key(s) implies mirrors_scope(
            m.close(),
            o.close(),
            index,
            s,
        ) by {
            assert(mirrors_scope(m, o, index, s));
        }
    }
}

/// Making the outermost open scope current with keys is doing so without.
pub proof fn lemma_reenter_root_mirrors(m: ManagerView, o: Outline, index: Map<ScopeId, nat>)
    requires
        m.stack.len() > 0,
        mirrors(m, o, index),
    ensures
        mirrors(m.reenter_root(), o.reenter_root(), index),
{
    let post = m.reenter_root();
    let after = o.reenter_root();
    assert forall|i: int| 0 <= i < post.stack.len() implies #[trigger] after.stack[i]
        == index[post.stack[i]] by {
        if i < m.stack.len() {
            assert(o.stack[i] == index[m.stack[i]]);
        } else {
            assert(o.stack[0] == index[m.stack[0]]);
        }
    }
    assert forall|s: ScopeId| #[trigger] post.scopes.contains_key(s) implies mirrors_scope(
        post,
        after,
        index,
        s,
    ) by {
        assert(mirrors_scope(m, o, index, s));
    }
}

/// Seeing the pairs of an assignment with keys is seeing them without.
pub proof fn lemma_assigned_mirrors(
    start: ManagerView,
    o: Outline,
    index: Map<ScopeId, nat>,
    node: Assignment,
    k: nat,
    post: ManagerView,
)
    requires
        start.wf(),
        start.stack.len() > 0,
        mirrors(start, o, index),
        start.assigned_upto(node, k, post),
    ensures
        mirrors(post, o.assign_upto(node, k), index),
    decreases k,
{
    if k > 0 {
        let (j, mid) = choose|j: nat, mid: ManagerView|
            #![trigger mid.pair_assigned(node, j, post)]
            k == j + 1 && start.assigned_upto(node, j, mid) && mid.pair_assigned(node, j, post);
        lemma_assigned_mirrors(start, o, index, node, j, mid);
        lemma_assigned_upto(start, node, j, mid, 0);
        let before = o.assign_upto(node, j);
        assert(before.stack[0] == index[mid.stack[0]]);
        if mid != post {
            let target = node.variables@[j as int];
            lemma_bound_in_mirrors(
                mid,
                before,
                index,
                mid.stack[0],
                trimmed(target->Name_0@),
                stored(node.expressions@[j as int]),
                post,
            );
        }
    }
}

/// Seeing the pairs of a local assignment with keys is seeing them
/// without.
pub proof fn lemma_declared_mirrors(
    start: ManagerView,
    o: Outline,
    index: Map<ScopeId, nat>,
    node: LocalAssignment,
    k: nat,
    post: ManagerView,
)
    requires
        start.wf(),
        mirrors(start, o, index),
        start.declared_upto(node, k, post),
    ensures
        mirrors(post, o.declare_upto(node, k), index),
    decreases k,
{
    if k > 0 {
        let (j, mid) = choose|j: nat, mid: ManagerView|
            #![trigger mid.pair_declared(node, j, post)]
            k == j + 1 && start.declared_upto(node, j, mid) && mid.pair_declared(node, j, post);
        lemma_declared_mirrors(start, o, index, node, j, mid);
        lemma_declared_upto(start, node, j, mid, 0);
        let before = o.declare_upto(node, j);
        if mid != post {
            assert(before.stack[mid.stack.len() - 1] == index[mid.stack[mid.stack.len() - 1]]);
            lemma_bound_in_mirrors(
                mid,
                before,
                index,
                mid.stack.last(),
                trimmed(node.names@[j as int]@),
                stored(node.expressions@[j as int]),
                post,
            );
        }
    }
}

/// Entering a node with keys is entering it without.
pub proof fn lemma_entered_mirrors(
    pre: ManagerView,
    o: Outline,
    index: Map<ScopeId, nat>,
    kind: NodeKind,
    post: ManagerView,
) -> (next: Map<ScopeId, nat>)
    requires
        pre.wf(),
        pre.stack.len() > 0,
        mirrors(pre, o, index),
        pre.entered(kind, post),
    ensures
        mirrors(post, o.enter(kind), next),
{
    match kind {
        NodeKind::Block(node) => {
            lemma_open_mirrors(pre, o, index, post.stack.last(), node.id);
            index.insert(post.stack.last(), o.frames.len())
        },
        NodeKind::LocalFunction(node) => {
            assert(o.stack[pre.stack.len() - 1] == index[pre.stack[pre.stack.len() - 1]]);
            lemma_bound_in_mirrors(
                pre,
                o,
                index,
                pre.stack.last(),
                trimmed(node.name@),
                ValueView::Function(parameter_views(node.parameters@)),
                post,
            );
            index
        },
        NodeKind::FunctionDeclaration(node) => {
            lemma_reenter_root_wf(pre);
            lemma_reenter_root_mirrors(pre, o, index);
            assert(o.stack[0] == index[pre.stack[0]]);
            if bare_name(node.name) is Some {
                lemma_bound_in_mirrors(
                    pre.reenter_root(),
                    o.reenter_root(),
                    index,
                    pre.stack[0],
                    bare_name(node.name)->0,
                    ValueView::Function(parameter_views(node.parameters@)),
                    post,
                );
            }
            index
        },
        NodeKind::Assignment(node) => {
            lemma_reenter_root_wf(pre);
            lemma_reenter_root_mirrors(pre, o, index);
            lemma_assigned_mirrors(
                pre.reenter_root(),
                o.reenter_root(),
                index,
                node,
                assignment_pairs(node),
                post,
            );
            index
        },
        NodeKind::LocalAssignment(node) => {
            lemma_declared_mirrors(pre, o, index, node, local_assignment_pairs(node), post);
            index
        },
        NodeKind::FunctionCall(node) => {
            lemma_call_hints_mirror(pre, o, index, node);
            assert forall|s: ScopeId| #[trigger] post.scopes.contains_key(s) implies mirrors_scope(
                post,
                o.enter(kind),
                index,
                s,
            ) by {
                assert(mirrors_scope(pre, o, index, s));
            }
            assert forall|i: int| 0 <= i < post.stack.len() implies #[trigger] o.enter(
                kind,
            ).stack[i] == index[post.stack[i]] by {
                assert(o.stack[i] == index[pre.stack[i]]);
            }
            index
        },
    }
}

/// Walking a node with keys is walking it without.
pub proof fn lemma_walked_mirrors(
    pre: ManagerView,
    o: Outline,
    index: Map<ScopeId, nat>,
    node: Node,
    post: ManagerView,
) -> (next: Map<ScopeId, nat>)
    requires
        pre.wf(),
        pre.stack.len() > 0,
        mirrors(pre, o, index),
        pre.walked(node, post),
    ensures
        mirrors(post, o.walk(node), next),
    decreases node, 0nat,
{
    let (inside, done) = choose|inside: ManagerView, done: ManagerView|
        #![trigger pre.entered(node.kind, inside), done.left(node.kind)]
        pre.entered(node.kind, inside) && inside.walked_children(
            node.children@,
            node.children@.len(),
            done,
        ) && post == done.left(node.kind);
    lemma_entered(pre, node.kind, inside, 0);
    let entered = lemma_entered_mirrors(pre, o, index, node.kind, inside);
    let walked = lemma_walked_children_mirrors(
        inside,
        o.enter(node.kind),
        entered,
        node.children@,
        node.children@.len(),
        done,
    );
    if closes(node.kind) {
        lemma_close_mirrors(
            done,
            o.enter(node.kind).walk_children(node.children@, node.children@.len()),
            walked,
        );
    }
    walked
}

/// Walking the nodes nested in a node with keys is walking them without.
pub proof fn lemma_walked_children_mirrors(
    pre: ManagerView,
    o: Outline,
    index: Map<ScopeId, nat>,
    children: Seq<Node>,
    k: nat,
    post: ManagerView,
) -> (next: Map<ScopeId, nat>)
    requires
        pre.wf(),
        pre.stack.len() > 0,
        mirrors(pre, o, index),
        pre.walked_children(children, k, post),
    ensures
        mirrors(post, o.walk_children(children, k), next),
    decreases children, k,
{
    if k == 0 || k > children.len() {
        index
    } else {
        let (j, mid) = choose|j: nat, mid: ManagerView|
            #![trigger after_child(j, mid)]
            after_child(j, mid) && k == j + 1 && pre.walked_children(children, j, mid)
                && mid.walked(children[j as int], post);
        let before = lemma_walked_children_mirrors(pre, o, index, children, j, mid);
        lemma_walked_children(pre, children, j, mid, 0);
        lemma_walked_mirrors(mid, o.walk_children(children, j), before, children[j as int], post)
    }
}

/// The hints of a pass are the hints of its tree, whichever keys the
/// arenas handed out.
pub proof fn law_hints_determined(ast: Ast, end: ManagerView)
    requires
        ManagerView::pass(ast, end),
    ensures
        end.hints == hints_of(ast),
{
    let root = end.stack[0];
    let start = ManagerView::initial(root);
    let index = Map::<ScopeId, nat>::empty().insert(root, 0nat);
    assert(start.scopes.dom() =~= set![root]);
    assert(start.wf());
    assert(index.dom() =~= start.scopes.dom());
    assert(env(start.scopes[root]) =~= Map::empty());
    assert(mirrors_scope(start, Outline::initial(), index, root));
    assert(mirrors(start, Outline::initial(), index));
    let next = lemma_walked_mirrors(start, Outline::initial(), index, ast.root, end);
}

} // verus!
