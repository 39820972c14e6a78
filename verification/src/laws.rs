//! What holds of the analysis as a whole.

use crate::hint::{HintKind, HintView};
use crate::ids::{ScopeId, ValueId, VarId};
use crate::manager::ManagerView;
use crate::outline::{hints_of, Outline};
use crate::resolve::{lemma_resolve_local, lemma_resolve_step};
use crate::scope::{ValueView, Var};
use crate::visitor::stored;
use crate::syntax::{
    parameter_views, Assignment, Ast, Call, Expression, FunctionArgs, FunctionCall,
    FunctionDeclaration, LocalFunction, Node, NodeKind, ParameterView, Position, Prefix, Suffix,
    Target,
};
use crate::text::trimmed;
use crate::traverse::{
    after_child, lemma_assigned_upto, lemma_declared_upto, lemma_entered, lemma_open_wf,
    lemma_reenter_root_wf, lemma_walked, lemma_walked_children,
};
use crate::visitor::{
    assignment_pairs, bare_name, hint_position, labelled, lemma_bound_in, local_assignment_pairs, paired,
};
use vstd::prelude::*;

verus! {

impl ManagerView {
    /// Going outwards from the scope `from`, the scope `upto` is reached
    /// before any scope that binds `name`.
    pub open spec fn unshadowed(self, from: ScopeId, upto: ScopeId, name: Seq<char>) -> bool
        decreases self.depth[from],
    {
        if from == upto {
            true
        } else if !self.scopes.contains_key(from) || self.scopes[from].names.contains_key(name) {
            false
        } else {
            match self.scopes[from].parent {
                Some(parent) => self.depth[parent] < self.depth[from] && self.unshadowed(
                    parent,
                    upto,
                    name,
                ),
                None => false,
            }
        }
    }

    /// Going outwards from the scope `from`, no scope binds `name`.
    pub open spec fn unbound(self, from: ScopeId, name: Seq<char>) -> bool
        decreases self.depth[from],
    {
        if !self.scopes.contains_key(from) {
            true
        } else if self.scopes[from].names.contains_key(name) {
            false
        } else {
            match self.scopes[from].parent {
                Some(parent) => self.depth[parent] < self.depth[from] ==> self.unbound(
                    parent,
                    name,
                ),
                None => true,
            }
        }
    }

    /// The global scope, at the bottom of the stack, has no parent and is
    /// the only scope without one.
    pub open spec fn rooted(self) -> bool {
        &&& self.stack.len() > 0
        &&& self.scopes.contains_key(self.stack[0])
        &&& self.scopes[self.stack[0]].parent is None
        &&& forall|s: ScopeId| #[trigger]
            self.scopes.contains_key(s) && self.scopes[s].parent is None ==> s == self.stack[0]
    }
}

/// Scope balance. A pass over any syntax tree ends with the global scope
/// as the one open scope, and closes exactly as many scopes as it opens.
pub proof fn law_scope_balance(ast: Ast, end: ManagerView)
    requires
        ManagerView::pass(ast, end),
    ensures
        end.stack.len() == 1,
        end.opened == end.closed,
        end.wf(),
{
    let start = ManagerView::initial(end.stack[0]);
    assert(start.scopes.dom() =~= set![end.stack[0]]);
    assert(start.wf());
    assert(start.within(1));
    lemma_walked(start, ast.root, end, 1);
}

impl ManagerView {
    /// `met` is a state that the walk of `node` from `self` passes
    /// through: the state after the node was entered, or a state that the
    /// walk of the nodes nested in it passes through or ends in.
    pub open spec fn passes(self, node: Node, met: ManagerView) -> bool
        decreases node, 0nat,
    {
        exists|inside: ManagerView|
            #![trigger self.entered(node.kind, inside)]
            self.entered(node.kind, inside) && (met == inside || inside.passes_children(
                node.children@,
                node.children@.len(),
                met,
            ))
    }

    /// `met` is a state that the walk of the first `n` of `children` from
    /// `self` passes through or ends in.
    pub open spec fn passes_children(self, children: Seq<Node>, n: nat, met: ManagerView) -> bool
        decreases children, n,
    {
        if n == 0 || n > children.len() {
            false
        } else {
            exists|k: nat, mid: ManagerView|
                #![trigger after_child(k, mid)]
                after_child(k, mid) && n == k + 1 && (self.passes_children(children, k, met) || (
                self.walked_children(children, k, mid) && (mid.passes(children[k as int], met)
                    || mid.walked(children[k as int], met))))
        }
    }
}

/// Scope balance, along the way. In every state that the walk of a node
/// passes through, the scopes that were open when the walk began are still
/// open, in place, below whatever the walk has opened since: nothing pops
/// a scope that it did not push. In a pass, the stack is never shorter
/// than the global scope alone.
pub proof fn law_stack_never_shorter(pre: ManagerView, node: Node, met: ManagerView)
    requires
        pre.wf(),
        pre.stack.len() > 0,
        pre.passes(node, met),
    ensures
        pre.stack.is_prefix_of(met.stack),
        met.wf(),
    decreases node, 0nat,
{
    let inside = choose|inside: ManagerView|
        #![trigger pre.entered(node.kind, inside)]
        pre.entered(node.kind, inside) && (met == inside || inside.passes_children(
            node.children@,
            node.children@.len(),
            met,
        ));
    lemma_entered(pre, node.kind, inside, 0);
    if met != inside {
        lemma_stack_never_shorter_in_children(inside, node.children@, node.children@.len(), met);
        crate::traverse::lemma_prefix_of_prefix(pre.stack, inside.stack, met.stack);
    }
}

/// Scope balance, along the way, for the nodes nested in a node.
pub proof fn lemma_stack_never_shorter_in_children(
    pre: ManagerView,
    children: Seq<Node>,
    n: nat,
    met: ManagerView,
)
    requires
        pre.wf(),
        pre.stack.len() > 0,
        pre.passes_children(children, n, met),
    ensures
        pre.stack.is_prefix_of(met.stack),
        met.wf(),
    decreases children, n,
{
    let (k, mid) = choose|k: nat, mid: ManagerView|
        #![trigger after_child(k, mid)]
        after_child(k, mid) && n == k + 1 && (pre.passes_children(children, k, met) || (
        pre.walked_children(children, k, mid) && (mid.passes(children[k as int], met) || mid.walked(
            children[k as int],
            met,
        ))));
    if pre.passes_children(children, k, met) {
        lemma_stack_never_shorter_in_children(pre, children, k, met);
    } else {
        lemma_walked_children(pre, children, k, mid, 0);
        if mid.passes(children[k as int], met) {
            law_stack_never_shorter(mid, children[k as int], met);
        } else {
            lemma_walked(mid, children[k as int], met, 0);
        }
    }
}

/// Scope balance, for a part of a tree. Walking a node from any sound
/// state leaves the stack of open scopes as it found it, and closes
/// exactly as many scopes as it opens. The hints produced before the walk
/// stay, in place; the walk only appends. Every scope, value and binding
/// that existed before the walk exists after it, unchanged: nothing is
/// ever removed from an arena, so no alias loses what it stands for.
pub proof fn law_walk_balance(pre: ManagerView, node: Node, post: ManagerView)
    requires
        pre.wf(),
        pre.stack.len() > 0,
        pre.walked(node, post),
    ensures
        post.stack == pre.stack,
        post.opened - pre.opened == post.closed - pre.closed,
        post.wf(),
        pre.hints.is_prefix_of(post.hints),
        pre.kept_by(post),
{
    lemma_walked(pre, node, post, 0);
}

/// Alias termination. A chain of aliases, however long, that ends at a
/// binding which owns a value resolves to that value, in the scope of
/// that last binding.
pub proof fn law_alias_chain(m: ManagerView, chain: Seq<(ScopeId, VarId)>, value: ValueId)
    requires
        chain.len() > 0,
        forall|i: int|
            0 <= i < chain.len() - 1 ==> m.var_at((#[trigger] chain[i]).0, chain[i].1) == Some(
                Var::Reference(chain[i + 1].0, chain[i + 1].1),
            ),
        m.var_at(chain.last().0, chain.last().1) == Some(Var::Local(value)),
    ensures
        m.resolve_reference(chain[0].0, chain[0].1) == Some((chain.last().0, value)),
    decreases chain.len(),
{
    if chain.len() == 1 {
        lemma_resolve_local(m, chain[0].0, chain[0].1);
    } else {
        let rest = chain.subrange(1, chain.len() as int);
        assert forall|i: int| 0 <= i < rest.len() - 1 implies m.var_at(
            (#[trigger] rest[i]).0,
            rest[i].1,
        ) == Some(Var::Reference(rest[i + 1].0, rest[i + 1].1)) by {
            assert(rest[i] == chain[i + 1]);
            assert(rest[i + 1] == chain[i + 2]);
        }
        assert(rest.last() == chain.last());
        law_alias_chain(m, rest, value);
        assert(m.var_at(chain[0].0, chain[0].1) == Some(Var::Reference(chain[1].0, chain[1].1)));
        lemma_resolve_step(m, chain[0].0, chain[0].1);
        assert(rest[0] == chain[1]);
    }
}

/// Looking a name up from a scope gives the same answer in two states
/// that agree on every scope of the first.
pub proof fn lemma_lookup_frame(
    a: ManagerView,
    b: ManagerView,
    id: ScopeId,
    name: Seq<char>,
    at_start: bool,
    fuel: nat,
)
    requires
        a.wf(),
        a.scopes.contains_key(id),
        forall|s: ScopeId| #[trigger]
            a.scopes.contains_key(s) ==> b.scopes.contains_key(s) && b.scopes[s] == a.scopes[s],
    ensures
        b.lookup(id, name, at_start, fuel) == a.lookup(id, name, at_start, fuel),
    decreases fuel,
{
    if !a.scopes[id].names.contains_key(name) && fuel > 0 {
        match a.scopes[id].parent {
            Some(parent) => {
                assert(a.ranked(id));
                lemma_lookup_frame(a, b, parent, name, false, (fuel - 1) as nat);
            },
            None => {},
        }
    }
}

/// Shadowing. A binding made in a newly opened scope is what its name
/// denotes while that scope is open, whatever the name denoted outside.
/// Once the scope is closed, every name stands for what it stood for
/// before the scope was opened, and every scope that existed then is as
/// it was.
pub proof fn law_shadowing(
    m: ManagerView,
    inner: ScopeId,
    node: usize,
    name: Seq<char>,
    value: ValueView,
    bound: ManagerView,
)
    requires
        m.wf(),
        !m.scopes.contains_key(inner),
        m.open(inner, node).bound_in(inner, name, value, bound),
    ensures
        bound.target_of(name) matches Some((scope, id)) && scope == inner && bound.value_at(
            inner,
            id,
        ) == Some(value),
        forall|other: Seq<char>| #[trigger] bound.close().find_var(other) == m.find_var(other),
        forall|s: ScopeId| #[trigger]
            m.scopes.contains_key(s) ==> bound.close().scopes[s] == m.scopes[s],
{
    let opened = m.open(inner, node);
    lemma_open_wf(m, inner, node, 0);
    lemma_bound_in(opened, inner, name, value, bound);
    let after = bound.close();
    assert(after.stack =~= m.stack);
    assert forall|other: Seq<char>| #[trigger] after.find_var(other) == m.find_var(other) by {
        if m.stack.len() > 0 {
            let current = m.stack.last();
            assert(m.scopes.contains_key(m.stack[m.stack.len() - 1]));
            lemma_lookup_frame(m, after, current, other, true, m.depth[current]);
        }
    }
}

/// What looking a name up finds when the nearest scope that binds it is
/// `upto`.
pub proof fn lemma_lookup_unshadowed(
    m: ManagerView,
    from: ScopeId,
    upto: ScopeId,
    name: Seq<char>,
    at_start: bool,
    fuel: nat,
)
    requires
        m.wf(),
        m.scopes.contains_key(from),
        m.scopes.contains_key(upto),
        m.scopes[upto].names.contains_key(name),
        m.unshadowed(from, upto, name),
        m.depth[from] <= fuel,
    ensures
        m.lookup(from, name, at_start, fuel) == (if from == upto && at_start {
            m.scopes[upto].vars.get(m.scopes[upto].names[name])
        } else {
            Some(Var::Reference(upto, m.scopes[upto].names[name]))
        }),
    decreases m.depth[from],
{
    if from != upto {
        assert(m.ranked(from));
        let parent = m.scopes[from].parent->0;
        lemma_lookup_unshadowed(m, parent, upto, name, false, (fuel - 1) as nat);
    }
}

/// Global promotion. A function bound in a scope is what its name denotes
/// in every scope from which that scope is reached before another binding
/// of the name. The global scope is reached from every scope of a pass,
/// so a function recorded there is resolvable wherever it is not shadowed.
pub proof fn law_visible_from_enclosed_scopes(
    m: ManagerView,
    home: ScopeId,
    name: Seq<char>,
    value: ValueId,
    parameters: Seq<ParameterView>,
)
    requires
        m.wf(),
        m.stack.len() > 0,
        m.scopes.contains_key(home),
        m.scopes[home].var_named(name) == Some(Var::Local(value)),
        m.scopes[home].values.get(value) == Some(ValueView::Function(parameters)),
        m.unshadowed(m.stack.last(), home, name),
    ensures
        m.function_named(name) == Some((home, parameters)),
{
    let current = m.stack.last();
    assert(m.scopes.contains_key(m.stack[m.stack.len() - 1]));
    lemma_lookup_unshadowed(m, current, home, name, true, m.depth[current]);
    if current != home {
        lemma_resolve_local(m, home, m.scopes[home].names[name]);
    }
}

/// Global promotion, at the declaration. Right after a function
/// declaration is entered, its name denotes the declared function, owned
/// by the outermost open scope, however deeply the declaration is nested.
pub proof fn law_declared_function_is_global(
    pre: ManagerView,
    node: FunctionDeclaration,
    post: ManagerView,
)
    requires
        pre.wf(),
        pre.stack.len() > 0,
        bare_name(node.name) is Some,
        pre.function_declaration_entered(node, post),
    ensures
        post.function_named(bare_name(node.name)->0) == Some(
            (pre.stack[0], parameter_views(node.parameters@)),
        ),
{
    let root = pre.stack[0];
    let name = bare_name(node.name)->0;
    let value = ValueView::Function(parameter_views(node.parameters@));
    lemma_reenter_root_wf(pre);
    lemma_bound_in(pre.reenter_root(), root, name, value, post);
    let var = post.scopes[root].names[name];
    law_visible_from_enclosed_scopes(
        post,
        root,
        name,
        post.scopes[root].vars[var]->Local_0,
        parameter_views(node.parameters@),
    );
}

/// What looking a name up finds when no scope on the way out binds it.
pub proof fn lemma_lookup_unbound(
    m: ManagerView,
    from: ScopeId,
    name: Seq<char>,
    at_start: bool,
    fuel: nat,
)
    requires
        m.wf(),
        m.unbound(from, name),
    ensures
        m.lookup(from, name, at_start, fuel) is None,
    decreases fuel,
{
    if m.scopes.contains_key(from) && fuel > 0 {
        match m.scopes[from].parent {
            Some(parent) => {
                assert(m.ranked(from));
                lemma_lookup_unbound(m, parent, name, false, (fuel - 1) as nat);
            },
            None => {},
        }
    }
}

/// What looking a name up finds when a scope on the way out binds it.
pub proof fn lemma_lookup_bound(
    m: ManagerView,
    from: ScopeId,
    name: Seq<char>,
    at_start: bool,
    fuel: nat,
)
    requires
        m.wf(),
        m.scopes.contains_key(from),
        m.depth[from] <= fuel,
        !m.unbound(from, name),
    ensures
        m.lookup(from, name, at_start, fuel) is Some,
    decreases fuel,
{
    assert(m.scopes[from].wf());
    if !m.scopes[from].names.contains_key(name) {
        assert(m.ranked(from));
        let parent = m.scopes[from].parent->0;
        lemma_lookup_bound(m, parent, name, false, (fuel - 1) as nat);
    }
}

/// Looking a name up finds nothing exactly when neither the innermost
/// open scope nor any scope that encloses it binds the name.
pub proof fn law_unresolved_iff_unbound(m: ManagerView, name: Seq<char>)
    requires
        m.wf(),
        m.stack.len() > 0,
    ensures
        m.find_var(name) is None <==> m.unbound(m.stack.last(), name),
{
    let current = m.stack.last();
    assert(m.scopes.contains_key(m.stack[m.stack.len() - 1]));
    if m.unbound(current, name) {
        lemma_lookup_unbound(m, current, name, true, m.depth[current]);
    } else {
        lemma_lookup_bound(m, current, name, true, m.depth[current]);
    }
}

/// A call to a name that no open or enclosing scope has bound yet gives no
/// hints, whatever is bound to the name later.
pub proof fn law_unbound_name_gives_no_hints(m: ManagerView, call: FunctionCall)
    requires
        m.wf(),
        m.stack.len() > 0,
        call.prefix is Name,
        m.unbound(m.stack.last(), trimmed(call.prefix->Name_0@)),
    ensures
        m.call_hints(call) == Seq::<HintView>::empty(),
{
    let name = trimmed(call.prefix->Name_0@);
    lemma_lookup_unbound(m, m.stack.last(), name, true, m.depth[m.stack.last()]);
}

/// Hint pairing and arity mismatch. A call gets one hint for each index
/// that both its argument list and the callee's parameter list have, and
/// none for the tail of the longer list. The hint at an index is shown
/// where the argument at that index starts and is labelled with the name
/// of the parameter at that index.
pub proof fn law_pairing(arguments: Seq<Position>, labels: Seq<(Seq<char>, Position)>)
    ensures
        paired(arguments, labels).len() == if arguments.len() <= labels.len() {
            arguments.len()
        } else {
            labels.len()
        },
        forall|i: int|
            0 <= i < paired(arguments, labels).len() ==> (#[trigger] paired(arguments, labels)[i])
                == (HintView {
                position: hint_position(arguments[i]),
                label: labels[i].0,
                kind: HintKind::Parameter,
            }),
{
}

/// A node that is a block with nothing in it.
pub open spec fn empty_block(node: Node) -> bool {
    node.kind is Block && node.children@.len() == 0
}

/// A node that binds the one name `name`, as a local, to a function
/// literal with the parameters `parameters`, whose body is empty.
pub open spec fn local_function_literal(
    node: Node,
    name: Seq<char>,
    parameters: Seq<ParameterView>,
) -> bool {
    &&& node.kind matches NodeKind::LocalAssignment(assignment)
    &&& assignment.names@.len() == 1
    &&& assignment.expressions@.len() == 1
    &&& trimmed(assignment.names@[0]@) == name
    &&& assignment.expressions@[0] matches Expression::Function(declared)
    &&& parameter_views(declared@) == parameters
    &&& node.children@.len() == 1
    &&& empty_block(node.children@[0])
}

/// A node that assigns to the one bare name `name` a function literal
/// with the parameters `parameters`, whose body is empty.
pub open spec fn global_function_literal(
    node: Node,
    name: Seq<char>,
    parameters: Seq<ParameterView>,
) -> bool {
    &&& node.kind matches NodeKind::Assignment(assignment)
    &&& assignment.variables@.len() == 1
    &&& assignment.expressions@.len() == 1
    &&& assignment.variables@[0] matches Target::Name(written)
    &&& trimmed(written@) == name
    &&& assignment.expressions@[0] matches Expression::Function(declared)
    &&& parameter_views(declared@) == parameters
    &&& node.children@.len() == 1
    &&& empty_block(node.children@[0])
}

/// A node that calls `name` with a parenthesised list of arguments that
/// start at `arguments`.
pub open spec fn call_by_name(node: Node, name: Seq<char>, arguments: Seq<Position>) -> bool {
    &&& node.kind matches NodeKind::FunctionCall(call)
    &&& call.prefix matches Prefix::Name(written)
    &&& trimmed(written@) == name
    &&& call.suffixes@.len() > 0
    &&& call.suffixes@[0] matches Suffix::Call(
        Call::AnonymousCall(FunctionArgs::Parentheses(starts)),
    )
    &&& starts@ == arguments
    &&& node.children@.len() == 0
}

/// Walking an empty block opens a scope and closes it again.
pub proof fn lemma_walk_empty_block(o: Outline, node: Node)
    requires
        empty_block(node),
    ensures
        o.walk(node).frames == o.open().frames,
        o.walk(node).stack == o.stack,
        o.walk(node).hints == o.hints,
{
    let opened = o.enter(node.kind);
    assert(opened.walk_children(node.children@, 0) == opened);
    assert(opened.stack.drop_last() =~= o.stack);
}

/// Walking a call by name appends the hints of the call and nothing else.
pub proof fn lemma_walk_call_by_name(
    o: Outline,
    node: Node,
    name: Seq<char>,
    arguments: Seq<Position>,
)
    requires
        call_by_name(node, name, arguments),
    ensures
        o.walk(node).frames == o.frames,
        o.walk(node).stack == o.stack,
        o.walk(node).hints == o.hints + (match o.parameters_named(name) {
            Some(parameters) => paired(arguments, labelled(parameters)),
            None => Seq::empty(),
        }),
{
    let entered = o.enter(node.kind);
    assert(entered.walk_children(node.children@, 0) == entered);
}

/// Walking a local function literal binds its name in the innermost open
/// scope and opens and closes the scope of its body.
pub proof fn lemma_walk_local_function_literal(
    o: Outline,
    node: Node,
    name: Seq<char>,
    parameters: Seq<ParameterView>,
)
    requires
        local_function_literal(node, name, parameters),
        o.stack.len() > 0,
    ensures
        o.walk(node).frames == o.bind(
            o.stack.last(),
            name,
            ValueView::Function(parameters),
        ).open().frames,
        o.walk(node).stack == o.stack,
        o.walk(node).hints == o.hints,
{
    let assignment = node.kind->LocalAssignment_0;
    assert(o.declare_upto(assignment, 0) == o);
    let bound = o.enter(node.kind);
    assert(bound == o.bind(o.stack.last(), name, ValueView::Function(parameters)));
    lemma_walk_empty_block(bound, node.children@[0]);
    assert(bound.walk_children(node.children@, 0) == bound);
    assert(bound.walk_children(node.children@, 1) == bound.walk(node.children@[0]));
}

/// Walking a global function literal binds its name in the outermost open
/// scope and opens and closes the scope of its body there.
pub proof fn lemma_walk_global_function_literal(
    o: Outline,
    node: Node,
    name: Seq<char>,
    parameters: Seq<ParameterView>,
)
    requires
        global_function_literal(node, name, parameters),
        o.stack.len() > 0,
    ensures
        o.walk(node).frames == o.reenter_root().bind(
            o.stack[0],
            name,
            ValueView::Function(parameters),
        ).open().frames,
        o.walk(node).stack == o.stack,
        o.walk(node).hints == o.hints,
{
    let assignment = node.kind->Assignment_0;
    let entered = o.reenter_root();
    assert(entered.assign_upto(assignment, 0) == entered);
    let bound = o.enter(node.kind);
    assert(bound == entered.bind(o.stack[0], name, ValueView::Function(parameters)));
    lemma_walk_empty_block(bound, node.children@[0]);
    assert(bound.walk_children(node.children@, 0) == bound);
    assert(bound.walk_children(node.children@, 1) == bound.walk(node.children@[0]));
    assert(bound.stack.drop_last() =~= o.stack);
}

/// A node that declares the function `name` with the parameters
/// `parameters` and an empty body.
pub open spec fn function_declaration(
    node: Node,
    name: Seq<char>,
    parameters: Seq<ParameterView>,
) -> bool {
    &&& node.kind matches NodeKind::FunctionDeclaration(function)
    &&& bare_name(function.name) == Some(name)
    &&& parameter_views(function.parameters@) == parameters
    &&& node.children@.len() == 1
    &&& empty_block(node.children@[0])
}

/// Walking a function declaration binds its name in the outermost open
/// scope and opens and closes the scope of its body there.
pub proof fn lemma_walk_function_declaration(
    o: Outline,
    node: Node,
    name: Seq<char>,
    parameters: Seq<ParameterView>,
)
    requires
        function_declaration(node, name, parameters),
        o.stack.len() > 0,
    ensures
        o.walk(node).frames == o.reenter_root().bind(
            o.stack[0],
            name,
            ValueView::Function(parameters),
        ).open().frames,
        o.walk(node).stack == o.stack,
        o.walk(node).hints == o.hints,
{
    let bound = o.enter(node.kind);
    lemma_walk_empty_block(bound, node.children@[0]);
    assert(bound.walk_children(node.children@, 0) == bound);
    assert(bound.walk_children(node.children@, 1) == bound.walk(node.children@[0]));
    assert(bound.stack.drop_last() =~= o.stack);
}

/// Hint pairing, from source to hints. A document that declares a
/// function and then calls it by name gets, for that call, one hint for
/// each argument that has a parameter: shown where the argument starts and
/// labelled with the parameter's name. Arguments beyond the parameters,
/// and parameters beyond the arguments, get none.
pub proof fn law_declared_then_called(
    ast: Ast,
    name: Seq<char>,
    parameters: Seq<ParameterView>,
    arguments: Seq<Position>,
)
    requires
        ast.root.kind is Block,
        ast.root.children@.len() == 2,
        function_declaration(ast.root.children@[0], name, parameters),
        call_by_name(ast.root.children@[1], name, arguments),
    ensures
        hints_of(ast) == paired(arguments, labelled(parameters)),
        hints_of(ast).len() == if arguments.len() <= parameters.len() {
            arguments.len()
        } else {
            parameters.len()
        },
{
    let function = ValueView::Function(parameters);
    let s0 = Outline::initial();
    let s1 = s0.enter(ast.root.kind);
    assert(s1.stack =~= seq![0nat, 1nat]);
    lemma_walk_function_declaration(s1, ast.root.children@[0], name, parameters);
    let s2 = s1.walk(ast.root.children@[0]);
    assert(s1.walk_children(ast.root.children@, 0) == s1);
    assert(s1.walk_children(ast.root.children@, 1) == s2);
    assert(s2.frames[0].names[name] == function);
    assert(s2.frames[1].names =~= Map::empty());
    assert(s2.value_named(0, name) == Some(function));
    assert(s2.value_named(1, name) == Some(function));
    lemma_walk_call_by_name(s2, ast.root.children@[1], name, arguments);
    let s3 = s2.walk(ast.root.children@[1]);
    assert(s1.walk_children(ast.root.children@, 2) == s3);
    assert(s0.walk(ast.root) == s3.leave(ast.root.kind));
    assert(s3.hints =~= paired(arguments, labelled(parameters)));
}

/// Unsupported callee, from source to hints. A method call, or any other
/// call whose first suffix is not a parenthesised argument list, leaves
/// the state of the pass as it was: it adds no hint, whatever the names in
/// it stand for.
pub proof fn law_unsupported_call_in_source(o: Outline, node: Node)
    requires
        node.kind is FunctionCall,
        node.children@.len() == 0,
        node.kind->FunctionCall_0.suffixes@.len() == 0 || !(
        node.kind->FunctionCall_0.suffixes@[0] matches Suffix::Call(
            Call::AnonymousCall(FunctionArgs::Parentheses(_)),
        )),
    ensures
        o.walk(node) == o,
{
    let entered = o.enter(node.kind);
    assert(entered.hints =~= o.hints);
    assert(entered.walk_children(node.children@, 0) == entered);
}

/// An assignment makes the outermost open scope current, whatever it
/// assigns, and leaving it makes the scope that was current before
/// current again. Only the outermost open scope can have changed, and
/// everything it held before it still holds.
pub proof fn law_assignment_reenters_root(pre: ManagerView, node: Assignment, post: ManagerView)
    requires
        pre.wf(),
        pre.stack.len() > 0,
        pre.assignment_entered(node, post),
    ensures
        post.stack == pre.stack.push(pre.stack[0]),
        post.close().stack == pre.stack,
        post.opened == pre.opened + 1,
        post.close().closed == pre.closed + 1,
        post.hints == pre.hints,
        pre.kept_by(post),
        forall|s: ScopeId| s != pre.stack[0] ==> post.scopes[s] == pre.scopes[s],
        post.wf(),
{
    lemma_reenter_root_wf(pre);
    lemma_assigned_upto(pre.reenter_root(), node, assignment_pairs(node), post, 0);
    assert(post.stack.drop_last() =~= pre.stack);
}

/// Global promotion of an assignment. An assignment of one plain value to
/// one bare name, at any depth, adds to the outermost open scope a binding
/// that was not there, makes the name stand for it, and has it own the
/// value.
pub proof fn law_assignment_binds_in_root(
    pre: ManagerView,
    node: Assignment,
    post: ManagerView,
    name: Seq<char>,
)
    requires
        pre.wf(),
        pre.stack.len() > 0,
        node.variables@.len() == 1,
        node.expressions@.len() == 1,
        node.variables@[0] matches Target::Name(written) && trimmed(written@) == name,
        node.expressions@[0].is_value(),
        pre.assignment_entered(node, post),
    ensures
        post.scopes[pre.stack[0]].bound_anew(
            pre.scopes[pre.stack[0]],
            name,
            stored(node.expressions@[0]),
        ),
        post.target_of(name) is Some,
{
    let root = pre.stack[0];
    let start = pre.reenter_root();
    lemma_reenter_root_wf(pre);
    let (j, mid) = choose|j: nat, mid: ManagerView|
        #![trigger mid.pair_assigned(node, j, post)]
        1 == j + 1 && start.assigned_upto(node, j, mid) && mid.pair_assigned(node, j, post);
    assert(mid == start);
    lemma_bound_in(start, root, name, stored(node.expressions@[0]), post);
    let var = post.scopes[root].names[name];
    lemma_lookup_unshadowed(post, root, root, name, true, post.depth[root]);
}

/// Global promotion of a declaration. A function declaration with a bare
/// name, at any depth, adds to the outermost open scope a binding that was
/// not there, makes the name stand for it, and has it own the function.
/// The outermost open scope is made current, so that the block of the
/// declaration's body gets it as parent; leaving the declaration makes the
/// scope that was current before current again. No other scope changes.
pub proof fn law_declaration_binds_in_root(
    pre: ManagerView,
    node: FunctionDeclaration,
    post: ManagerView,
)
    requires
        pre.wf(),
        pre.stack.len() > 0,
        bare_name(node.name) is Some,
        pre.function_declaration_entered(node, post),
    ensures
        post.scopes[pre.stack[0]].bound_anew(
            pre.scopes[pre.stack[0]],
            bare_name(node.name)->0,
            ValueView::Function(parameter_views(node.parameters@)),
        ),
        post.stack == pre.stack.push(pre.stack[0]),
        post.close().stack == pre.stack,
        forall|s: ScopeId| s != pre.stack[0] ==> post.scopes[s] == pre.scopes[s],
        pre.kept_by(post),
        post.wf(),
{
    let value = ValueView::Function(parameter_views(node.parameters@));
    lemma_reenter_root_wf(pre);
    lemma_bound_in(pre.reenter_root(), pre.stack[0], bare_name(node.name)->0, value, post);
    assert(post.stack.drop_last() =~= pre.stack);
}

/// A local function adds to the innermost open scope a binding that was
/// not there, makes the function's name stand for it, and has it own the
/// function. The stack stays as it is and no other scope changes.
pub proof fn law_local_function_binds_in_current(
    pre: ManagerView,
    node: LocalFunction,
    post: ManagerView,
)
    requires
        pre.wf(),
        pre.stack.len() > 0,
        pre.local_function_entered(node, post),
    ensures
        post.scopes[pre.stack.last()].bound_anew(
            pre.scopes[pre.stack.last()],
            trimmed(node.name@),
            ValueView::Function(parameter_views(node.parameters@)),
        ),
        post.stack == pre.stack,
        forall|s: ScopeId| s != pre.stack.last() ==> post.scopes[s] == pre.scopes[s],
        pre.kept_by(post),
        post.wf(),
{
    let value = ValueView::Function(parameter_views(node.parameters@));
    lemma_bound_in(pre, pre.stack.last(), trimmed(node.name@), value, post);
}

/// Shadowing, from source to hints. A document binds a name to a
/// function, then in an inner block binds the name to another function
/// and calls it, then calls the name after the block. The inner call gets
/// the hints of the inner function and the outer call those of the outer
/// function.
pub proof fn law_shadowing_in_source(
    ast: Ast,
    name: Seq<char>,
    outer: Seq<ParameterView>,
    inner: Seq<ParameterView>,
    inner_arguments: Seq<Position>,
    outer_arguments: Seq<Position>,
)
    requires
        ast.root.kind is Block,
        ast.root.children@.len() == 3,
        local_function_literal(ast.root.children@[0], name, outer),
        ast.root.children@[1].kind is Block,
        ast.root.children@[1].children@.len() == 2,
        local_function_literal(ast.root.children@[1].children@[0], name, inner),
        call_by_name(ast.root.children@[1].children@[1], name, inner_arguments),
        call_by_name(ast.root.children@[2], name, outer_arguments),
    ensures
        hints_of(ast) == paired(inner_arguments, labelled(inner)) + paired(
            outer_arguments,
            labelled(outer),
        ),
{
    let block = ast.root.children@[1];
    let s0 = Outline::initial();
    let s1 = s0.enter(ast.root.kind);
    assert(s1.stack =~= seq![0nat, 1nat]);
    // local name = function(outer) end
    lemma_walk_local_function_literal(s1, ast.root.children@[0], name, outer);
    let s2 = s1.walk(ast.root.children@[0]);
    assert(s1.walk_children(ast.root.children@, 0) == s1);
    assert(s1.walk_children(ast.root.children@, 1) == s2);
    assert(s2.frames.len() == 3);
    assert(s2.frames[1].names[name] == ValueView::Function(outer));
    // do
    let s3 = s2.enter(block.kind);
    assert(s3.stack =~= seq![0nat, 1nat, 3nat]);
    //   local name = function(inner) end
    lemma_walk_local_function_literal(s3, block.children@[0], name, inner);
    let s4 = s3.walk(block.children@[0]);
    assert(s3.walk_children(block.children@, 0) == s3);
    assert(s3.walk_children(block.children@, 1) == s4);
    assert(s4.frames[3].names[name] == ValueView::Function(inner));
    assert(s4.value_named(3, name) == Some(ValueView::Function(inner)));
    //   name(inner_arguments)
    lemma_walk_call_by_name(s4, block.children@[1], name, inner_arguments);
    let s5 = s4.walk(block.children@[1]);
    assert(s3.walk_children(block.children@, 2) == s5);
    // end
    let s6 = s5.leave(block.kind);
    assert(s2.walk(block) == s6);
    assert(s6.stack =~= s2.stack);
    assert(s1.walk_children(ast.root.children@, 2) == s6);
    assert(s6.frames[1].names[name] == ValueView::Function(outer));
    assert(s6.value_named(1, name) == Some(ValueView::Function(outer)));
    // name(outer_arguments)
    lemma_walk_call_by_name(s6, ast.root.children@[2], name, outer_arguments);
    let s7 = s6.walk(ast.root.children@[2]);
    assert(s1.walk_children(ast.root.children@, 3) == s7);
    assert(s0.walk(ast.root) == s7.leave(ast.root.kind));
    assert(s7.hints =~= paired(inner_arguments, labelled(inner)) + paired(
        outer_arguments,
        labelled(outer),
    ));
}

/// Global promotion, from source to hints. A document calls a name, then
/// assigns a function to the bare name inside nested blocks, then calls
/// the name again, at the top and inside another block. The call before
/// the assignment gets no hints; both calls after it get the hints of the
/// function.
pub proof fn law_global_promotion_in_source(
    ast: Ast,
    name: Seq<char>,
    parameters: Seq<ParameterView>,
    early: Seq<Position>,
    late: Seq<Position>,
    nested: Seq<Position>,
)
    requires
        ast.root.kind is Block,
        ast.root.children@.len() == 4,
        call_by_name(ast.root.children@[0], name, early),
        ast.root.children@[1].kind is Block,
        ast.root.children@[1].children@.len() == 1,
        ast.root.children@[1].children@[0].kind is Block,
        ast.root.children@[1].children@[0].children@.len() == 1,
        global_function_literal(ast.root.children@[1].children@[0].children@[0], name, parameters),
        call_by_name(ast.root.children@[2], name, late),
        ast.root.children@[3].kind is Block,
        ast.root.children@[3].children@.len() == 1,
        call_by_name(ast.root.children@[3].children@[0], name, nested),
    ensures
        hints_of(ast) == paired(late, labelled(parameters)) + paired(nested, labelled(parameters)),
{
    let first = ast.root.children@[1];
    let second = first.children@[0];
    let last = ast.root.children@[3];
    let function = ValueView::Function(parameters);
    let s0 = Outline::initial();
    let s1 = s0.enter(ast.root.kind);
    assert(s1.stack =~= seq![0nat, 1nat]);
    // name(early): nothing binds the name yet
    assert(s1.frames[1].names =~= Map::empty());
    assert(s1.frames[0].names =~= Map::empty());
    assert(s1.value_named(0, name) is None);
    assert(s1.value_named(1, name) is None);
    lemma_walk_call_by_name(s1, ast.root.children@[0], name, early);
    let s2 = s1.walk(ast.root.children@[0]);
    assert(s1.walk_children(ast.root.children@, 0) == s1);
    assert(s1.walk_children(ast.root.children@, 1) == s2);
    assert(s2.hints =~= Seq::empty());
    // do do name = function(parameters) end end end
    let s3 = s2.enter(first.kind);
    assert(s3.stack =~= seq![0nat, 1nat, 2nat]);
    let s4 = s3.enter(second.kind);
    assert(s4.stack =~= seq![0nat, 1nat, 2nat, 3nat]);
    lemma_walk_global_function_literal(s4, second.children@[0], name, parameters);
    let s5 = s4.walk(second.children@[0]);
    assert(s4.walk_children(second.children@, 0) == s4);
    assert(s4.walk_children(second.children@, 1) == s5);
    let s6 = s5.leave(second.kind);
    assert(s3.walk(second) == s6);
    assert(s6.stack =~= s3.stack);
    assert(s3.walk_children(first.children@, 0) == s3);
    assert(s3.walk_children(first.children@, 1) == s6);
    let s7 = s6.leave(first.kind);
    assert(s2.walk(first) == s7);
    assert(s7.stack =~= s2.stack);
    assert(s1.walk_children(ast.root.children@, 2) == s7);
    assert(s7.frames.len() == 5);
    assert(s7.frames[0].names[name] == function);
    assert(s7.frames[1].names =~= Map::empty());
    assert(s7.value_named(0, name) == Some(function));
    assert(s7.value_named(1, name) == Some(function));
    // name(late)
    lemma_walk_call_by_name(s7, ast.root.children@[2], name, late);
    let s8 = s7.walk(ast.root.children@[2]);
    assert(s1.walk_children(ast.root.children@, 3) == s8);
    // do name(nested) end
    let s9 = s8.enter(last.kind);
    assert(s9.stack =~= seq![0nat, 1nat, 5nat]);
    assert(s9.frames[5].names =~= Map::empty());
    assert(s9.value_named(0, name) == Some(function));
    assert(s9.value_named(1, name) == Some(function));
    assert(s9.value_named(5, name) == Some(function));
    lemma_walk_call_by_name(s9, last.children@[0], name, nested);
    let s10 = s9.walk(last.children@[0]);
    assert(s9.walk_children(last.children@, 0) == s9);
    assert(s9.walk_children(last.children@, 1) == s10);
    let s11 = s10.leave(last.kind);
    assert(s8.walk(last) == s11);
    assert(s1.walk_children(ast.root.children@, 4) == s11);
    assert(s0.walk(ast.root) == s11.leave(ast.root.kind));
    assert(s11.hints =~= paired(late, labelled(parameters)) + paired(nested, labelled(parameters)));
}

/// Unsupported callee. A call whose first suffix is anything but a
/// parenthesised argument list gives no hints, whether or not the callee
/// resolves; a method call is one such.
pub proof fn law_unsupported_call_gives_no_hints(m: ManagerView, call: FunctionCall)
    requires
        call.suffixes@.len() == 0 || !(call.suffixes@[0] matches Suffix::Call(
            Call::AnonymousCall(FunctionArgs::Parentheses(_)),
        )),
    ensures
        m.call_hints(call) == Seq::<HintView>::empty(),
{
}

/// Entering a node keeps the global scope the only scope without a
/// parent.
pub proof fn lemma_entered_rooted(pre: ManagerView, kind: NodeKind, post: ManagerView)
    requires
        pre.wf(),
        pre.rooted(),
        pre.entered(kind, post),
    ensures
        post.rooted(),
        post.stack[0] == pre.stack[0],
{
    lemma_entered(pre, kind, post, 0);
    match kind {
        NodeKind::Block(node) => {
            assert forall|s: ScopeId| #[trigger]
                post.scopes.contains_key(s) && post.scopes[s].parent is None implies s
                == post.stack[0] by {
                if s != post.stack.last() {
                    assert(pre.scopes.contains_key(s));
                }
            }
        },
        NodeKind::LocalFunction(node) => {
            let value = ValueView::Function(parameter_views(node.parameters@));
            lemma_bound_in(pre, pre.stack.last(), trimmed(node.name@), value, post);
            lemma_same_parents(pre, post);
        },
        NodeKind::FunctionDeclaration(node) => {
            let value = ValueView::Function(parameter_views(node.parameters@));
            lemma_reenter_root_wf(pre);
            if bare_name(node.name) is Some {
                lemma_bound_in(
                    pre.reenter_root(),
                    pre.stack[0],
                    bare_name(node.name)->0,
                    value,
                    post,
                );
            }
            lemma_same_parents(pre.reenter_root(), post);
        },
        NodeKind::Assignment(node) => {
            lemma_reenter_root_wf(pre);
            lemma_assigned_upto(pre.reenter_root(), node, assignment_pairs(node), post, 0);
            lemma_same_parents(pre.reenter_root(), post);
        },
        NodeKind::LocalAssignment(node) => {
            lemma_declared_upto(pre, node, local_assignment_pairs(node), post, 0);
            lemma_same_parents(pre, post);
        },
        NodeKind::FunctionCall(node) => {},
    }
}

/// A state with the scopes of a rooted state, each with the parent it
/// had, and the same global scope at the bottom of the stack is rooted.
pub proof fn lemma_same_parents(pre: ManagerView, post: ManagerView)
    requires
        pre.rooted(),
        pre.same_tree(post),
    ensures
        post.rooted(),
{
    assert forall|s: ScopeId| #[trigger]
        post.scopes.contains_key(s) && post.scopes[s].parent is None implies s
        == post.stack[0] by {
        assert(pre.scopes.contains_key(s));
    }
}

/// Walking a node keeps the global scope the only scope without a parent.
pub proof fn lemma_walked_rooted(pre: ManagerView, node: Node, post: ManagerView)
    requires
        pre.wf(),
        pre.rooted(),
        pre.walked(node, post),
    ensures
        post.rooted(),
    decreases node, 0nat,
{
    let (inside, done) = choose|inside: ManagerView, done: ManagerView|
        #![trigger pre.entered(node.kind, inside), done.left(node.kind)]
        pre.entered(node.kind, inside) && inside.walked_children(
            node.children@,
            node.children@.len(),
            done,
        ) && post == done.left(node.kind);
    lemma_entered(pre, node.kind, inside, 0);
    lemma_entered_rooted(pre, node.kind, inside);
    lemma_walked_children_rooted(inside, node.children@, node.children@.len(), done);
    lemma_walked_children(inside, node.children@, node.children@.len(), done, 0);
}

/// Walking the nodes nested in a node keeps the global scope the only
/// scope without a parent.
pub proof fn lemma_walked_children_rooted(
    pre: ManagerView,
    children: Seq<Node>,
    k: nat,
    post: ManagerView,
)
    requires
        pre.wf(),
        pre.rooted(),
        pre.walked_children(children, k, post),
    ensures
        post.rooted(),
    decreases children, k,
{
    if k == 0 || k > children.len() {
    } else {
        let (j, mid) = choose|j: nat, mid: ManagerView|
            #![trigger after_child(j, mid)]
            after_child(j, mid) && k == j + 1 && pre.walked_children(children, j, mid)
                && mid.walked(children[j as int], post);
        lemma_walked_children(pre, children, j, mid, 0);
        lemma_walked_children_rooted(pre, children, j, mid);
        lemma_walked_rooted(mid, children[j as int], post);
    }
}

/// Scope tree. At the end of a pass the global scope has no parent and is
/// the only scope without one: the chain of parents of every other scope
/// ends at it, in as many steps as the scope is deep.
pub proof fn law_scope_tree(ast: Ast, end: ManagerView)
    requires
        ManagerView::pass(ast, end),
    ensures
        end.wf(),
        end.rooted(),
{
    let start = ManagerView::initial(end.stack[0]);
    assert(start.scopes.dom() =~= set![end.stack[0]]);
    assert(start.wf());
    lemma_walked_rooted(start, ast.root, end);
    law_scope_balance(ast, end);
}

} // verus!
