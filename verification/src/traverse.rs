//! The pass itself: one walk over the syntax tree.
//!
//! Every node is entered, then the nodes nested inside it are walked in
//! order, then the node is left. What a walk does to the state is written
//! down as a relation between the state before and the state after; the
//! keys of the scopes and bindings that a walk creates are the only thing
//! the relation leaves open.

use crate::arena::ARENA_CAPACITY;
use crate::hint::{hint_views, Hint};
use crate::ids::ScopeId;
use crate::manager::{lemma_kept_by_kept, ManagerView, ScopeManager};
use crate::outline::{hints_of, law_hints_determined};
use crate::syntax::{Assignment, Ast, LocalAssignment, Node, NodeKind};
use crate::visitor::{assignment_pairs, lemma_bound_in, local_assignment_pairs};
use vstd::prelude::*;

verus! {

/// How many entries entering a node can add to any one arena.
pub open spec fn own_weight(kind: NodeKind) -> nat {
    match kind {
        NodeKind::Block(_) => 1,
        NodeKind::LocalFunction(_) => 1,
        NodeKind::FunctionDeclaration(_) => 1,
        NodeKind::Assignment(node) => assignment_pairs(node),
        NodeKind::LocalAssignment(node) => local_assignment_pairs(node),
        NodeKind::FunctionCall(_) => 0,
    }
}

/// How many entries walking a node can add to any one arena.
pub open spec fn weight(node: Node) -> nat
    decreases node, 0nat,
{
    own_weight(node.kind) + weights(node.children@, node.children@.len())
}

/// The weight of the first `n` of `children`.
pub open spec fn weights(children: Seq<Node>, n: nat) -> nat
    decreases children, n,
{
    if n == 0 || n > children.len() {
        0
    } else {
        weights(children, (n - 1) as nat) + weight(children[n - 1])
    }
}

/// Marks the state `state` that a walk is in after the child `index`.
pub open spec fn after_child(index: nat, state: ManagerView) -> bool {
    true
}

/// Whether leaving a node of this kind closes a scope.
pub open spec fn closes(kind: NodeKind) -> bool {
    kind is Block || kind is FunctionDeclaration || kind is Assignment
}

impl ManagerView {
    /// `post` is the state after a node of kind `kind` was entered.
    pub open spec fn entered(self, kind: NodeKind, post: ManagerView) -> bool {
        match kind {
            NodeKind::Block(node) => self.block_entered(node, post),
            NodeKind::LocalFunction(node) => self.local_function_entered(node, post),
            NodeKind::FunctionDeclaration(node) => self.function_declaration_entered(node, post),
            NodeKind::Assignment(node) => self.assignment_entered(node, post),
            NodeKind::LocalAssignment(node) => self.local_assignment_entered(node, post),
            NodeKind::FunctionCall(node) => post == self.with_hints(self.call_hints(node)),
        }
    }

    /// The state after a node of kind `kind` was left.
    pub open spec fn left(self, kind: NodeKind) -> ManagerView {
        if closes(kind) {
            self.close()
        } else {
            self
        }
    }

    /// `post` is the state after `node` and everything nested in it was
    /// walked.
    pub open spec fn walked(self, node: Node, post: ManagerView) -> bool
        decreases node, 0nat,
    {
        exists|inside: ManagerView, done: ManagerView|
            #![trigger self.entered(node.kind, inside), done.left(node.kind)]
            self.entered(node.kind, inside) && inside.walked_children(
                node.children@,
                node.children@.len(),
                done,
            ) && post == done.left(node.kind)
    }

    /// `post` is the state after the first `n` of `children` were walked,
    /// in order.
    pub open spec fn walked_children(self, children: Seq<Node>, n: nat, post: ManagerView) -> bool
        decreases children, n,
    {
        if n == 0 || n > children.len() {
            post == self
        } else {
            exists|k: nat, mid: ManagerView|
                #![trigger after_child(k, mid)]
                after_child(k, mid) && n == k + 1 && self.walked_children(children, k, mid)
                    && mid.walked(children[k as int], post)
        }
    }

    /// `end` is the state at the end of a pass over `ast`: the walk began
    /// with nothing but the global scope, which is the one scope still
    /// open.
    pub open spec fn pass(ast: Ast, end: ManagerView) -> bool {
        end.stack.len() == 1 && ManagerView::initial(end.stack[0]).walked(ast.root, end)
    }
}

/// Closing a scope keeps the scope tree sound.
pub proof fn lemma_close_wf(m: ManagerView)
    requires
        m.wf(),
    ensures
        m.close().wf(),
{
    if m.stack.len() > 0 {
        assert forall|i: int| 0 <= i < m.close().stack.len() implies m.close().scopes.contains_key(
            #[trigger] m.close().stack[i],
        ) by {
            assert(m.scopes.contains_key(m.stack[i]));
        }
    }
}

/// Making the outermost open scope current keeps the scope tree sound.
pub proof fn lemma_reenter_root_wf(m: ManagerView)
    requires
        m.wf(),
        m.stack.len() > 0,
    ensures
        m.reenter_root().wf(),
        m.reenter_root().close().stack == m.stack,
{
    let post = m.reenter_root();
    assert forall|i: int| 0 <= i < post.stack.len() implies post.scopes.contains_key(
        #[trigger] post.stack[i],
    ) by {
        if i < m.stack.len() {
            assert(m.scopes.contains_key(m.stack[i]));
        } else {
            assert(m.scopes.contains_key(m.stack[0]));
        }
    }
    assert(post.stack.drop_last() =~= m.stack);
}

/// Opening a scope under a key that was not in use keeps the scope tree
/// sound, and closing it again restores the stack.
pub proof fn lemma_open_wf(m: ManagerView, id: ScopeId, node: usize, n: nat)
    requires
        m.wf(),
        !m.scopes.contains_key(id),
    ensures
        m.open(id, node).wf(),
        m.within(n) ==> m.open(id, node).within(n + 1),
        m.open(id, node).close().stack == m.stack,
        m.kept_by(m.open(id, node)),
{
    let post = m.open(id, node);
    assert forall|s: ScopeId| #[trigger] post.scopes.contains_key(s) implies post.depth.contains_key(
        s,
    ) && post.ranked(s) by {
        if s != id {
            assert(m.scopes.contains_key(s));
            assert(m.ranked(s));
        } else if m.stack.len() > 0 {
            assert(m.scopes.contains_key(m.stack[m.stack.len() - 1]));
        }
    }
    assert forall|i: int| 0 <= i < post.stack.len() implies post.scopes.contains_key(
        #[trigger] post.stack[i],
    ) by {
        if i < m.stack.len() {
            assert(m.scopes.contains_key(m.stack[i]));
        }
    }
    if m.within(n) {
        assert forall|s: ScopeId| #[trigger]
            post.scopes.contains_key(s) implies post.scopes[s].values.len() <= n + 1
            && post.scopes[s].vars.len() <= n + 1 by {
            if s != id {
                assert(m.scopes.contains_key(s));
            }
        }
    }
    assert forall|k: usize| #[trigger] post.node_refs.contains_key(k) implies post.scopes.contains_key(
        post.node_refs[k],
    ) by {
        if k != node {
            assert(m.node_refs.contains_key(k));
        }
    }
    assert(post.stack.drop_last() =~= m.stack);
}

/// Binding a name in a scope adds at most one entry to any arena.
pub proof fn lemma_bound_in_within(
    pre: ManagerView,
    id: ScopeId,
    name: Seq<char>,
    value: crate::scope::ValueView,
    post: ManagerView,
    n: nat,
)
    requires
        pre.wf(),
        pre.bound_in(id, name, value, post),
    ensures
        pre.within(n) ==> post.within(n + 1),
{
    lemma_bound_in(pre, id, name, value, post);
    if pre.within(n) {
        assert forall|s: ScopeId| #[trigger]
            post.scopes.contains_key(s) implies post.scopes[s].values.len() <= n + 1
            && post.scopes[s].vars.len() <= n + 1 by {
            assert(pre.scopes.contains_key(s));
        }
    }
}

/// The state in which `k` more entries fit in every arena also has room
/// for them in each scope.
pub proof fn lemma_within_room(m: ManagerView, n: nat, k: nat, s: ScopeId)
    requires
        m.within(n),
        n + k <= ARENA_CAPACITY,
        m.scopes.contains_key(s),
    ensures
        m.scopes[s].has_room(k),
{
}

/// Seeing the first `k` pairs of an assignment keeps the scope tree sound
/// and the stack as it is, and adds at most `k` entries to any arena.
pub proof fn lemma_assigned_upto(
    start: ManagerView,
    node: Assignment,
    k: nat,
    post: ManagerView,
    n: nat,
)
    requires
        start.wf(),
        start.stack.len() > 0,
        start.assigned_upto(node, k, post),
    ensures
        post.wf(),
        start.within(n) ==> post.within(n + k),
        post.stack == start.stack,
        start.same_tree(post),
        start.kept_by(post),
        post.hints == start.hints,
        post.opened == start.opened,
        post.closed == start.closed,
        forall|s: ScopeId| s != start.stack[0] ==> post.scopes[s] == start.scopes[s],
    decreases k,
{
    if k > 0 {
        let (j, mid) = choose|j: nat, mid: ManagerView|
            #![trigger mid.pair_assigned(node, j, post)]
            k == j + 1 && start.assigned_upto(node, j, mid) && mid.pair_assigned(node, j, post);
        lemma_assigned_upto(start, node, j, mid, n);
        if mid != post {
            let target = node.variables@[j as int];
            let name = crate::text::trimmed(target->Name_0@);
            let value = crate::visitor::stored(node.expressions@[j as int]);
            lemma_bound_in(mid, mid.stack[0], name, value, post);
            lemma_bound_in_within(mid, mid.stack[0], name, value, post, n + j);
        }
        lemma_kept_by_kept(start, mid, post);
    }
}

/// Seeing the first `k` pairs of a local assignment keeps the scope tree
/// sound and the stack as it is, and adds at most `k` entries to any
/// arena.
pub proof fn lemma_declared_upto(
    start: ManagerView,
    node: LocalAssignment,
    k: nat,
    post: ManagerView,
    n: nat,
)
    requires
        start.wf(),
        start.declared_upto(node, k, post),
    ensures
        post.wf(),
        start.within(n) ==> post.within(n + k),
        post.stack == start.stack,
        start.same_tree(post),
        start.kept_by(post),
        post.hints == start.hints,
        post.opened == start.opened,
        post.closed == start.closed,
        forall|s: ScopeId|
            start.stack.len() > 0 && s != start.stack.last() ==> post.scopes[s] == start.scopes[s],
    decreases k,
{
    if k > 0 {
        let (j, mid) = choose|j: nat, mid: ManagerView|
            #![trigger mid.pair_declared(node, j, post)]
            k == j + 1 && start.declared_upto(node, j, mid) && mid.pair_declared(node, j, post);
        lemma_declared_upto(start, node, j, mid, n);
        if mid != post {
            let name = crate::text::trimmed(node.names@[j as int]@);
            let value = crate::visitor::stored(node.expressions@[j as int]);
            lemma_bound_in(mid, mid.stack.last(), name, value, post);
            lemma_bound_in_within(mid, mid.stack.last(), name, value, post, n + j);
        }
        lemma_kept_by_kept(start, mid, post);
    }
}

/// Entering a node keeps the scope tree sound, adds no more to any arena
/// than the node weighs, and changes the stack only by what leaving the
/// node undoes.
pub proof fn lemma_entered(pre: ManagerView, kind: NodeKind, post: ManagerView, n: nat)
    requires
        pre.wf(),
        pre.stack.len() > 0,
        pre.entered(kind, post),
    ensures
        post.wf(),
        pre.within(n) ==> post.within(n + own_weight(kind)),
        post.stack.len() > 0,
        post.left(kind).stack == pre.stack,
        post.opened - pre.opened == post.left(kind).closed - post.closed,
        post.closed == pre.closed,
        pre.hints.is_prefix_of(post.hints),
        pre.stack.is_prefix_of(post.stack),
        pre.kept_by(post),
{
    match kind {
        NodeKind::Block(node) => {
            lemma_open_wf(pre, post.stack.last(), node.id, n);
        },
        NodeKind::LocalFunction(node) => {
            let value = crate::scope::ValueView::Function(
                crate::syntax::parameter_views(node.parameters@),
            );
            let name = crate::text::trimmed(node.name@);
            lemma_bound_in(pre, pre.stack.last(), name, value, post);
            lemma_bound_in_within(pre, pre.stack.last(), name, value, post, n);
        },
        NodeKind::FunctionDeclaration(node) => {
            let value = crate::scope::ValueView::Function(
                crate::syntax::parameter_views(node.parameters@),
            );
            lemma_reenter_root_wf(pre);
            if crate::visitor::bare_name(node.name) is Some {
                let name = crate::visitor::bare_name(node.name)->0;
                lemma_bound_in(pre.reenter_root(), pre.stack[0], name, value, post);
                lemma_bound_in_within(pre.reenter_root(), pre.stack[0], name, value, post, n);
            }
            assert(post.stack.drop_last() =~= pre.stack);
        },
        NodeKind::Assignment(node) => {
            lemma_reenter_root_wf(pre);
            lemma_assigned_upto(pre.reenter_root(), node, assignment_pairs(node), post, n);
            assert(post.stack.drop_last() =~= pre.stack);
        },
        NodeKind::LocalAssignment(node) => {
            lemma_declared_upto(pre, node, local_assignment_pairs(node), post, n);
        },
        NodeKind::FunctionCall(node) => {
            assert(pre.hints =~= post.hints.subrange(0, pre.hints.len() as int));
        },
    }
}

/// What begins a list that begins another begins that other list.
pub proof fn lemma_prefix_of_prefix<A>(first: Seq<A>, second: Seq<A>, third: Seq<A>)
    requires
        first.is_prefix_of(second),
        second.is_prefix_of(third),
    ensures
        first.is_prefix_of(third),
{
    assert(first =~= third.subrange(0, first.len() as int)) by {
        assert(second == third.subrange(0, second.len() as int));
        assert(first == second.subrange(0, first.len() as int));
    }
}

/// Scope balance. Walking a node leaves the stack of open scopes as it
/// found it and closes exactly as many scopes as it opens; it keeps the
/// scope tree sound, adds no more to any arena than the node weighs, and
/// only ever appends to the hints.
pub proof fn lemma_walked(pre: ManagerView, node: Node, post: ManagerView, n: nat)
    requires
        pre.wf(),
        pre.stack.len() > 0,
        pre.walked(node, post),
    ensures
        post.wf(),
        pre.within(n) ==> post.within(n + weight(node)),
        post.stack == pre.stack,
        post.opened - pre.opened == post.closed - pre.closed,
        pre.hints.is_prefix_of(post.hints),
        pre.kept_by(post),
    decreases node, 0nat,
{
    let (inside, done) = choose|inside: ManagerView, done: ManagerView|
        #![trigger pre.entered(node.kind, inside), done.left(node.kind)]
        pre.entered(node.kind, inside) && inside.walked_children(
            node.children@,
            node.children@.len(),
            done,
        ) && post == done.left(node.kind);
    lemma_entered(pre, node.kind, inside, n);
    lemma_walked_children(
        inside,
        node.children@,
        node.children@.len(),
        done,
        n + own_weight(node.kind),
    );
    if closes(node.kind) {
        lemma_close_wf(done);
    }
    lemma_prefix_of_prefix(pre.hints, inside.hints, done.hints);
    lemma_kept_by_kept(pre, inside, done);
}

/// Scope balance, for the nodes nested in a node.
pub proof fn lemma_walked_children(
    pre: ManagerView,
    children: Seq<Node>,
    k: nat,
    post: ManagerView,
    n: nat,
)
    requires
        pre.wf(),
        pre.stack.len() > 0,
        pre.walked_children(children, k, post),
    ensures
        post.wf(),
        pre.within(n) ==> post.within(n + weights(children, k)),
        post.stack == pre.stack,
        post.opened - pre.opened == post.closed - pre.closed,
        pre.hints.is_prefix_of(post.hints),
        pre.kept_by(post),
    decreases children, k,
{
    if k == 0 || k > children.len() {
    } else {
        let (j, mid) = choose|j: nat, mid: ManagerView|
            #![trigger after_child(j, mid)]
            after_child(j, mid) && k == j + 1 && pre.walked_children(children, j, mid)
                && mid.walked(children[j as int], post);
        lemma_walked_children(pre, children, j, mid, n);
        lemma_walked(mid, children[j as int], post, n + weights(children, j));
        lemma_prefix_of_prefix(pre.hints, mid.hints, post.hints);
        lemma_kept_by_kept(pre, mid, post);
    }
}

impl Node {
    /// How many entries walking the node can add to any one arena, if that
    /// number fits in a `usize`.
    pub fn weigh(&self) -> (w: Option<usize>)
        ensures
            match w {
                Some(n) => n == weight(*self),
                None => weight(*self) > usize::MAX,
            },
        decreases self,
    {
        let own: usize = match &self.kind {
            NodeKind::Block(_) => 1,
            NodeKind::LocalFunction(_) => 1,
            NodeKind::FunctionDeclaration(_) => 1,
            NodeKind::Assignment(node) => if node.variables.len() <= node.expressions.len() {
                node.variables.len()
            } else {
                node.expressions.len()
            },
            NodeKind::LocalAssignment(node) => if node.names.len() <= node.expressions.len() {
                node.names.len()
            } else {
                node.expressions.len()
            },
            NodeKind::FunctionCall(_) => 0,
        };
        let mut total: usize = own;
        let mut i: usize = 0;
        while i < self.children.len()
            invariant
                i <= self.children.len(),
                own == own_weight(self.kind),
                total == own + weights(self.children@, i as nat),
            decreases self.children.len() - i,
        {
            let child = match self.children[i].weigh() {
                Some(n) => n,
                None => {
                    proof {
                        lemma_weights_grow(self.children@, (i + 1) as nat, self.children@.len());
                    }
                    return None;
                },
            };
            total = match total.checked_add(child) {
                Some(n) => n,
                None => {
                    proof {
                        lemma_weights_grow(self.children@, (i + 1) as nat, self.children@.len());
                    }
                    return None;
                },
            };
            i += 1;
        }
        Some(total)
    }
}

/// The weight of more children is no less.
pub proof fn lemma_weights_grow(children: Seq<Node>, k: nat, n: nat)
    requires
        k <= n <= children.len(),
    ensures
        weights(children, k) <= weights(children, n),
    decreases n,
{
    if k < n {
        lemma_weights_grow(children, k, (n - 1) as nat);
    }
}

impl Ast {
    /// Whether a pass over the tree stays within the capacity of the
    /// arenas.
    pub fn fits(&self) -> (fits: bool)
        ensures
            fits == (weight(self.root) < ARENA_CAPACITY),
    {
        match self.root.weigh() {
            Some(n) => n < ARENA_CAPACITY,
            None => false,
        }
    }
}

impl ScopeManager {
    /// Walks `node` and everything nested in it.
    pub fn visit_node(&mut self, node: &Node)
        requires
            old(self).wf(),
            old(self)@.stack.len() > 0,
            weight(*node) <= ARENA_CAPACITY,
            old(self)@.within((ARENA_CAPACITY - weight(*node)) as nat),
        ensures
            old(self)@.walked(*node, final(self)@),
            final(self).wf(),
        decreases node,
    {
        let ghost pre = self@;
        let ghost n = (ARENA_CAPACITY - weight(*node)) as nat;
        proof {
            if pre.stack.len() > 0 {
                assert(pre.scopes.contains_key(pre.stack[0]));
                assert(pre.scopes.contains_key(pre.stack[pre.stack.len() - 1]));
                lemma_within_room(pre, n, own_weight(node.kind), pre.stack[0]);
                lemma_within_room(pre, n, own_weight(node.kind), pre.stack.last());
            }
        }
        match &node.kind {
            NodeKind::Block(block) => self.visit_block(block),
            NodeKind::LocalFunction(function) => self.visit_local_function(function),
            NodeKind::FunctionDeclaration(function) => self.visit_function_declaration(function),
            NodeKind::Assignment(assignment) => self.visit_assignment(assignment),
            NodeKind::LocalAssignment(assignment) => self.visit_local_assignment(assignment),
            NodeKind::FunctionCall(call) => self.visit_function_call(call),
        }
        let ghost inside = self@;
        proof {
            assert(pre.entered(node.kind, inside));
            lemma_entered(pre, node.kind, inside, n);
        }
        let mut i: usize = 0;
        while i < node.children.len()
            invariant
                i <= node.children.len(),
                self.wf(),
                self@.stack == inside.stack,
                inside.stack.len() > 0,
                self@.within(n + own_weight(node.kind) + weights(node.children@, i as nat)),
                n + weight(*node) == ARENA_CAPACITY,
                inside.walked_children(node.children@, i as nat, self@),
            decreases node.children.len() - i,
        {
            let ghost mid = self@;
            proof {
                lemma_weights_grow(node.children@, (i + 1) as nat, node.children@.len());
            }
            self.visit_node(&node.children[i]);
            proof {
                lemma_walked(
                    mid,
                    node.children@[i as int],
                    self@,
                    n + own_weight(node.kind) + weights(node.children@, i as nat),
                );
                assert(after_child(i as nat, mid));
            }
            i += 1;
        }
        let ghost done = self@;
        match &node.kind {
            NodeKind::Block(block) => self.visit_block_end(block),
            NodeKind::FunctionDeclaration(function) => self.visit_function_declaration_end(
                function,
            ),
            NodeKind::Assignment(assignment) => self.visit_assignment_end(assignment),
            NodeKind::LocalAssignment(assignment) => self.visit_local_assignment_end(assignment),
            _ => {},
        }
        proof {
            assert(self@ == done.left(node.kind));
            assert(inside.walked_children(node.children@, node.children@.len(), done));
            assert(pre.walked(*node, self@));
        }
    }

    /// Runs the pass over `ast` from the state the manager is in.
    pub fn init(&mut self, ast: &Ast)
        requires
            old(self).wf(),
            old(self)@.stack.len() > 0,
            weight(ast.root) <= ARENA_CAPACITY,
            old(self)@.within((ARENA_CAPACITY - weight(ast.root)) as nat),
        ensures
            old(self)@.walked(ast.root, final(self)@),
            final(self).wf(),
    {
        self.visit_node(&ast.root);
    }

    /// Runs the pass over `ast`: builds the scope tree and produces the
    /// hints of the tree. At the end only the global scope is open, it
    /// has no parent and every other scope has one, and as many scopes
    /// were closed as were opened.
    pub fn new(ast: &Ast) -> (manager: ScopeManager)
        requires
            weight(ast.root) < ARENA_CAPACITY,
        ensures
            ManagerView::pass(*ast, manager@),
            manager@.hints == hints_of(*ast),
            manager@.opened == manager@.closed,
            manager@.stack.len() == 1,
            manager@.rooted(),
            manager.wf(),
    {
        let mut manager = ScopeManager::fresh();
        let ghost start = manager@;
        proof {
            assert(start.scopes.dom() =~= set![start.stack[0]]);
            assert(start.within(1));
        }
        manager.init(ast);
        proof {
            lemma_walked(start, ast.root, manager@, 1);
            law_hints_determined(*ast, manager@);
            crate::laws::law_scope_tree(*ast, manager@);
        }
        manager
    }
}

/// The pass as a function from a syntax tree to hints.
pub struct HintManager {
    pub ast: Ast,
    pub scope_manager: ScopeManager,
}

impl HintManager {
    /// The hints for `ast`, in the order the calls are met.
    pub fn get_hints(ast: &Ast) -> (hints: Vec<Hint>)
        requires
            weight(ast.root) < ARENA_CAPACITY,
        ensures
            hint_views(hints@) == hints_of(*ast),
    {
        ScopeManager::new(ast).into_hints()
    }
}

} // verus!
