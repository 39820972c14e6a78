//! What the pass does at each node of the syntax tree.

use crate::arena::ARENA_CAPACITY;
use crate::hint::{hint_views, Hint, HintKind, HintPosition, HintView};
use crate::ids::ScopeId;
use crate::manager::{ManagerView, ScopeManager};
use crate::scope::{ScopeView, Value, ValueView};
pub use crate::table::Fields;
use crate::syntax::{
    clone_parameters, parameter_views, Assignment, Block, Call, Expression, FunctionArgs,
    FunctionCall, FunctionDeclaration, FunctionName, LocalAssignment, LocalFunction, Parameter,
    ParameterView,
    Position, Prefix, Suffix, Target,
};
use crate::text::{name_of, trimmed};
use vstd::prelude::*;

verus! {

/// The value that is recorded when a name is bound to `expression`.
pub open spec fn stored(expression: Expression) -> ValueView {
    match expression {
        Expression::Function(parameters) => ValueView::Function(parameter_views(parameters@)),
        _ => ValueView::Other,
    }
}

/// The label and declaration position of each parameter.
pub open spec fn labelled(parameters: Seq<ParameterView>) -> Seq<(Seq<char>, Position)> {
    parameters.map_values(|p: ParameterView| (trimmed(p.text), p.position))
}

/// The views of a list of labels, in order.
pub open spec fn label_views(labels: Seq<(String, Position)>) -> Seq<(Seq<char>, Position)> {
    labels.map_values(|l: (String, Position)| (l.0@, l.1))
}

/// Where the hint for an argument at `position` is shown.
pub open spec fn hint_position(position: Position) -> HintPosition {
    HintPosition { line: position.line as u32, character: position.character as u32 }
}

/// One hint for each argument that has a parameter at the same index:
/// shown where the argument starts, labelled with the parameter's name.
pub open spec fn paired(arguments: Seq<Position>, labels: Seq<(Seq<char>, Position)>) -> Seq<
    HintView,
> {
    Seq::new(
        if arguments.len() <= labels.len() {
            arguments.len()
        } else {
            labels.len()
        },
        |i: int|
            HintView {
                position: hint_position(arguments[i]),
                label: labels[i].0,
                kind: HintKind::Parameter,
            },
    )
}

/// The name that a declaration binds: the one name of a declaration that
/// has no path and no method. A function declared into a table or as a
/// method binds no name.
pub open spec fn bare_name(name: FunctionName) -> Option<Seq<char>> {
    if name.names@.len() == 1 && name.method is None {
        Some(trimmed(name.names@[0]@))
    } else {
        None
    }
}

/// How many bindings an assignment can record.
pub open spec fn assignment_pairs(node: Assignment) -> nat {
    if node.variables@.len() <= node.expressions@.len() {
        node.variables@.len()
    } else {
        node.expressions@.len()
    }
}

/// How many bindings a local assignment can record.
pub open spec fn local_assignment_pairs(node: LocalAssignment) -> nat {
    if node.names@.len() <= node.expressions@.len() {
        node.names@.len()
    } else {
        node.expressions@.len()
    }
}

/// The parameters of the function that `expression` denotes as a callee,
/// when `resolve` says which function a name denotes: those of the
/// function a bare name stands for, and those of what stands inside
/// parentheses. Any other expression, a function literal too, denotes no
/// function.
pub open spec fn parameters_of(
    resolve: spec_fn(Seq<char>) -> Option<Seq<ParameterView>>,
    expression: Expression,
) -> Option<Seq<ParameterView>>
    decreases expression,
{
    match expression {
        Expression::Name(name) => resolve(trimmed(name@)),
        Expression::ParenthesizedValue(inner) => parameters_of(resolve, *inner),
        Expression::Parentheses(inner) => parameters_of(resolve, *inner),
        Expression::Function(_) => None,
        Expression::OtherValue => None,
        Expression::Operation => None,
    }
}

/// The labels of the parameters of the function that a call calls, when
/// `resolve` says which function a name denotes.
pub open spec fn labels_of_call(
    resolve: spec_fn(Seq<char>) -> Option<Seq<ParameterView>>,
    call: FunctionCall,
) -> Option<Seq<(Seq<char>, Position)>> {
    match (match call.prefix {
        Prefix::Name(name) => resolve(trimmed(name@)),
        Prefix::Expression(expression) => parameters_of(resolve, expression),
        Prefix::Other => None,
    }) {
        Some(parameters) => Some(labelled(parameters)),
        None => None,
    }
}

/// The hints for one call, when `resolve` says which function a name
/// denotes: none unless the callee denotes a function and the call's
/// first suffix is a parenthesised argument list; else one for each
/// argument that has a parameter.
pub open spec fn hints_of_call(
    resolve: spec_fn(Seq<char>) -> Option<Seq<ParameterView>>,
    call: FunctionCall,
) -> Seq<HintView> {
    match labels_of_call(resolve, call) {
        None => Seq::empty(),
        Some(labels) => if call.suffixes@.len() > 0 {
            match call.suffixes@[0] {
                Suffix::Call(Call::AnonymousCall(FunctionArgs::Parentheses(arguments))) => paired(
                    arguments@,
                    labels,
                ),
                _ => Seq::empty(),
            }
        } else {
            Seq::empty()
        },
    }
}

impl ManagerView {
    /// The parameters of the function that `name` denotes.
    pub open spec fn parameters_named(self, name: Seq<char>) -> Option<Seq<ParameterView>> {
        match self.function_named(name) {
            Some((_, parameters)) => Some(parameters),
            None => None,
        }
    }

    /// Which function each name denotes in the innermost open scope.
    pub open spec fn resolver(self) -> spec_fn(Seq<char>) -> Option<Seq<ParameterView>> {
        |name: Seq<char>| self.parameters_named(name)
    }

    /// The parameters of the function that `expression` denotes.
    pub open spec fn expression_parameters(self, expression: Expression) -> Option<
        Seq<ParameterView>,
    > {
        parameters_of(self.resolver(), expression)
    }

    /// The labels of the parameters of the function that `expression`
    /// denotes.
    pub open spec fn extract_params(self, expression: Expression) -> Option<
        Seq<(Seq<char>, Position)>,
    > {
        match self.expression_parameters(expression) {
            Some(parameters) => Some(labelled(parameters)),
            None => None,
        }
    }

    /// The hints for one call: none unless the callee resolves to a
    /// function and the call's first suffix is a parenthesised argument
    /// list; else one for each argument that has a parameter.
    pub open spec fn call_hints(self, call: FunctionCall) -> Seq<HintView> {
        hints_of_call(self.resolver(), call)
    }

    /// `post` is the state after a block was entered: a scope that did not
    /// exist was opened for it.
    pub open spec fn block_entered(self, node: Block, post: ManagerView) -> bool {
        &&& post.stack.len() > 0
        &&& !self.scopes.contains_key(post.stack.last())
        &&& post == self.open(post.stack.last(), node.id)
    }

    /// `post` is the state after a local function was seen: the innermost
    /// open scope bound its name to the function.
    pub open spec fn local_function_entered(self, node: LocalFunction, post: ManagerView) -> bool {
        match self.current() {
            Some(id) => self.bound_in(
                id,
                trimmed(node.name@),
                ValueView::Function(parameter_views(node.parameters@)),
                post,
            ),
            None => post == self,
        }
    }

    /// `post` is the state after a function declaration was entered: the
    /// outermost open scope was made current and, if the declaration has
    /// a bare name, bound that name to the function.
    pub open spec fn function_declaration_entered(
        self,
        node: FunctionDeclaration,
        post: ManagerView,
    ) -> bool {
        if self.stack.len() > 0 {
            match bare_name(node.name) {
                Some(name) => self.reenter_root().bound_in(
                    self.stack[0],
                    name,
                    ValueView::Function(parameter_views(node.parameters@)),
                    post,
                ),
                None => post == self.reenter_root(),
            }
        } else {
            post == self
        }
    }

    /// `post` is the state after the pair `i` of an assignment was seen:
    /// the target `i` with the expression `i`. A pair of a bare name and
    /// a plain value is recorded in the outermost open scope; any other
    /// pair is passed over.
    pub open spec fn pair_assigned(self, node: Assignment, i: nat, post: ManagerView) -> bool {
        match node.variables@[i as int] {
            Target::Name(name) => if node.expressions@[i as int].is_value() {
                self.bound_in(self.stack[0], trimmed(name@), stored(node.expressions@[i as int]), post)
            } else {
                post == self
            },
            Target::Expression => post == self,
        }
    }

    /// `post` is the state after the first `n` pairs of an assignment were
    /// seen, in order.
    pub open spec fn assigned_upto(self, node: Assignment, n: nat, post: ManagerView) -> bool
        decreases n,
    {
        if n == 0 {
            post == self
        } else {
            exists|k: nat, mid: ManagerView|
                #![trigger mid.pair_assigned(node, k, post)]
                n == k + 1 && self.assigned_upto(node, k, mid) && mid.pair_assigned(
                    node,
                    k,
                    post,
                )
        }
    }

    /// `post` is the state after an assignment was entered: the outermost
    /// open scope was made current and recorded the pairs.
    pub open spec fn assignment_entered(self, node: Assignment, post: ManagerView) -> bool {
        if self.stack.len() > 0 {
            self.reenter_root().assigned_upto(node, assignment_pairs(node), post)
        } else {
            post == self
        }
    }

    /// `post` is the state after the pair `i` of a local assignment was
    /// seen. A name paired with a plain value is recorded in the innermost
    /// open scope; any other pair is passed over.
    pub open spec fn pair_declared(self, node: LocalAssignment, i: nat, post: ManagerView) -> bool {
        if node.expressions@[i as int].is_value() && self.stack.len() > 0 {
            self.bound_in(
                self.stack.last(),
                trimmed(node.names@[i as int]@),
                stored(node.expressions@[i as int]),
                post,
            )
        } else {
            post == self
        }
    }

    /// `post` is the state after the first `n` pairs of a local assignment
    /// were seen, in order.
    pub open spec fn declared_upto(self, node: LocalAssignment, n: nat, post: ManagerView) -> bool
        decreases n,
    {
        if n == 0 {
            post == self
        } else {
            exists|k: nat, mid: ManagerView|
                #![trigger mid.pair_declared(node, k, post)]
                n == k + 1 && self.declared_upto(node, k, mid) && mid.pair_declared(
                    node,
                    k,
                    post,
                )
        }
    }

    /// `post` is the state after a local assignment was seen.
    pub open spec fn local_assignment_entered(self, node: LocalAssignment, post: ManagerView) -> bool {
        self.declared_upto(node, local_assignment_pairs(node), post)
    }
}

/// One more pair of an assignment was seen.
pub proof fn lemma_assigned_step(
    start: ManagerView,
    node: Assignment,
    k: nat,
    mid: ManagerView,
    post: ManagerView,
)
    requires
        start.assigned_upto(node, k, mid),
        mid.pair_assigned(node, k, post),
    ensures
        start.assigned_upto(node, k + 1, post),
{
}

/// One more pair of a local assignment was seen.
pub proof fn lemma_declared_step(
    start: ManagerView,
    node: LocalAssignment,
    k: nat,
    mid: ManagerView,
    post: ManagerView,
)
    requires
        start.declared_upto(node, k, mid),
        mid.pair_declared(node, k, post),
    ensures
        start.declared_upto(node, k + 1, post),
{
}

/// Binding a name adds one value and one binding to a scope and leaves
/// the scope sound, with the parent it had.
pub proof fn lemma_binds(pre: ScopeView, name: Seq<char>, value: ValueView, post: ScopeView)
    requires
        pre.wf(),
        pre.binds(name, value, post),
    ensures
        post.wf(),
        post.parent == pre.parent,
        post.values.len() == pre.values.len() + 1,
        post.vars.len() == pre.vars.len() + 1,
{
}

/// Binding a name in a scope keeps the scope tree sound and leaves the
/// stack as it was.
pub proof fn lemma_bound_in(
    pre: ManagerView,
    id: ScopeId,
    name: Seq<char>,
    value: ValueView,
    post: ManagerView,
)
    requires
        pre.wf(),
        pre.bound_in(id, name, value, post),
    ensures
        post.wf(),
        post.stack == pre.stack,
        post.hints == pre.hints,
        post.scopes.dom() == pre.scopes.dom(),
        pre.same_tree(post),
        pre.kept_by(post),
        post.opened == pre.opened,
        post.closed == pre.closed,
        post.scopes[id].values.len() == pre.scopes[id].values.len() + 1,
        post.scopes[id].vars.len() == pre.scopes[id].vars.len() + 1,
        forall|s: ScopeId| s != id ==> post.scopes[s] == pre.scopes[s],
{
    lemma_binds(pre.scopes[id], name, value, post.scopes[id]);
    crate::manager::lemma_with_scope_wf(pre, id, post.scopes[id]);
    assert(post.scopes.dom() =~= pre.scopes.dom());
}

impl Expression {
    /// Whether the expression is a plain value.
    pub fn is_plain_value(&self) -> (plain: bool)
        ensures
            plain == self.is_value(),
    {
        match self {
            Expression::Function(_) => true,
            Expression::Name(_) => true,
            Expression::ParenthesizedValue(_) => true,
            Expression::OtherValue => true,
            Expression::Parentheses(_) => false,
            Expression::Operation => false,
        }
    }

    /// The value that is recorded when a name is bound to the expression.
    pub fn to_value(&self) -> (value: Value)
        ensures
            value@ == stored(*self),
    {
        match self {
            Expression::Function(parameters) => Value::Function(clone_parameters(parameters)),
            _ => Value::Other,
        }
    }
}

/// The label and declaration position of each parameter.
pub fn labels_of(parameters: &Vec<Parameter>) -> (labels: Vec<(String, Position)>)
    ensures
        label_views(labels@) == labelled(parameter_views(parameters@)),
{
    let mut labels: Vec<(String, Position)> = Vec::new();
    let mut i: usize = 0;
    while i < parameters.len()
        invariant
            i <= parameters.len(),
            labels.len() == i,
            forall|j: int|
                0 <= j < i ==> (#[trigger] labels@[j]).0@ == trimmed(parameters@[j].text@)
                    && labels@[j].1 == parameters@[j].position,
        decreases parameters.len() - i,
    {
        labels.push((name_of(parameters[i].text.as_str()), parameters[i].position));
        i += 1;
    }
    assert(label_views(labels@) =~= labelled(parameter_views(parameters@)));
    labels
}

/// Where the hint for an argument at `position` is shown.
pub fn to_hint_position(position: Position) -> (shown: HintPosition)
    ensures
        shown == hint_position(position),
{
    HintPosition { line: position.line as u32, character: position.character as u32 }
}

/// Pairs the arguments of a call with the labels of the callee's
/// parameters, index by index, and makes one hint for each pair.
pub fn pair_hints(arguments: &Vec<Position>, labels: Vec<(String, Position)>) -> (hints: Vec<Hint>)
    ensures
        hint_views(hints@) == paired(arguments@, label_views(labels@)),
{
    let mut hints: Vec<Hint> = Vec::new();
    let mut i: usize = 0;
    while i < arguments.len() && i < labels.len()
        invariant
            i <= arguments.len(),
            i <= labels.len(),
            hints.len() == i,
            forall|j: int|
                0 <= j < i ==> (#[trigger] hints@[j])@ == (HintView {
                    position: hint_position(arguments@[j]),
                    label: labels@[j].0@,
                    kind: HintKind::Parameter,
                }),
        decreases arguments.len() - i,
    {
        hints.push(
            Hint {
                position: to_hint_position(arguments[i]),
                label: labels[i].0.clone(),
                kind: HintKind::Parameter,
            },
        );
        i += 1;
    }
    assert(hint_views(hints@) =~= paired(arguments@, label_views(labels@)));
    hints
}

impl ScopeManager {
    /// The labels of the parameters of the function that `expression`
    /// denotes, if it denotes one.
    pub fn extract_params(&self, expression: &Expression) -> (labels: Option<
        Vec<(String, Position)>,
    >)
        requires
            self.wf(),
        ensures
            match labels {
                Some(l) => self@.extract_params(*expression) == Some(label_views(l@)),
                None => self@.extract_params(*expression) is None,
            },
        decreases expression,
    {
        match expression {
            Expression::ParenthesizedValue(inner) => self.extract_params(inner),
            Expression::Name(text) => {
                let name = name_of(text.as_str());
                match self.find_function(name.as_str()) {
                    Some((_, parameters)) => Some(labels_of(parameters)),
                    None => None,
                }
            },
            Expression::Parentheses(inner) => self.extract_params(inner),
            _ => None,
        }
    }

    /// Enters a block: opens a scope for it.
    pub fn visit_block(&mut self, node: &Block)
        requires
            old(self).wf(),
            old(self)@.scopes.len() < ARENA_CAPACITY,
        ensures
            old(self)@.block_entered(*node, final(self)@),
            final(self).wf(),
    {
        self.open_scope(node.id);
    }

    /// Leaves a block: closes its scope.
    pub fn visit_block_end(&mut self, node: &Block)
        ensures
            final(self)@ == old(self)@.close(),
            old(self).wf() ==> final(self).wf(),
    {
        self.close_scope();
    }

    /// Sees a local function: binds its name in the innermost open scope.
    pub fn visit_local_function(&mut self, node: &LocalFunction)
        requires
            old(self).wf(),
            old(self)@.current() is Some ==> old(self)@.scopes[old(self)@.current()->0].has_room(1),
        ensures
            old(self)@.local_function_entered(*node, final(self)@),
            final(self).wf(),
    {
        let current = match self.get_current_scope_id() {
            Some(id) => id,
            None => {
                return ;
            },
        };
        assert(self@.scopes.contains_key(self@.stack[self@.stack.len() - 1]));
        let name = name_of(node.name.as_str());
        self.declare(current, name, Value::Function(clone_parameters(&node.parameters)));
    }

    /// Enters a function declaration: makes the outermost open scope
    /// current and binds the declaration's name there, if it is a bare
    /// name.
    pub fn visit_function_declaration(&mut self, node: &FunctionDeclaration)
        requires
            old(self).wf(),
            old(self)@.root() is Some ==> old(self)@.scopes[old(self)@.root()->0].has_room(1),
        ensures
            old(self)@.function_declaration_entered(*node, final(self)@),
            final(self).wf(),
    {
        let root = match self.get_root_scope_id() {
            Some(id) => id,
            None => {
                return ;
            },
        };
        assert(self@.scopes.contains_key(self@.stack[0]));
        self.reenter_root();
        if node.name.names.len() == 1 && node.name.method.is_none() {
            let name = name_of(node.name.names[0].as_str());
            self.declare(root, name, Value::Function(clone_parameters(&node.parameters)));
        }
    }

    /// Leaves a function declaration: the scope that was current before it
    /// is current again.
    pub fn visit_function_declaration_end(&mut self, node: &FunctionDeclaration)
        ensures
            final(self)@ == old(self)@.close(),
            old(self).wf() ==> final(self).wf(),
    {
        self.close_scope();
    }

    /// Enters an assignment: makes the outermost open scope current and
    /// records there each bare name that is assigned a plain value.
    pub fn visit_assignment(&mut self, node: &Assignment)
        requires
            old(self).wf(),
            old(self)@.root() is Some ==> old(self)@.scopes[old(self)@.root()->0].has_room(
                assignment_pairs(*node),
            ),
        ensures
            old(self)@.assignment_entered(*node, final(self)@),
            final(self).wf(),
    {
        let root = match self.get_root_scope_id() {
            Some(id) => id,
            None => {
                return ;
            },
        };
        assert(self@.scopes.contains_key(self@.stack[0]));
        self.reenter_root();
        let ghost start = self@;
        let targets = node.variables.len();
        let n = if targets <= node.expressions.len() {
            targets
        } else {
            node.expressions.len()
        };
        let mut i: usize = 0;
        while i < n
            invariant
                i <= n,
                n == assignment_pairs(*node),
                targets == node.variables@.len(),
                self.wf(),
                self@.stack == start.stack,
                start.stack.len() > 0,
                root == start.stack[0],
                self@.scopes.contains_key(root),
                self@.scopes[root].has_room((n - i) as nat),
                start.assigned_upto(*node, i as nat, self@),
            decreases n - i,
        {
            let ghost before = self@;
            match &node.variables[i] {
                Target::Name(text) => {
                    if node.expressions[i].is_plain_value() {
                        let name = name_of(text.as_str());
                        self.declare(root, name, node.expressions[i].to_value());
                        proof {
                            lemma_bound_in(
                                before,
                                root,
                                trimmed(text@),
                                stored(node.expressions@[i as int]),
                                self@,
                            );
                        }
                    }
                },
                Target::Expression => {},
            }
            proof {
                assert(before.pair_assigned(*node, i as nat, self@));
                lemma_assigned_step(start, *node, i as nat, before, self@);
            }
            i += 1;
        }
    }

    /// Leaves an assignment: the scope that was current before it is
    /// current again.
    pub fn visit_assignment_end(&mut self, node: &Assignment)
        ensures
            final(self)@ == old(self)@.close(),
            old(self).wf() ==> final(self).wf(),
    {
        self.close_scope();
    }

    /// Sees a local assignment: records in the innermost open scope each
    /// name that is assigned a plain value.
    pub fn visit_local_assignment(&mut self, node: &LocalAssignment)
        requires
            old(self).wf(),
            old(self)@.current() is Some ==> old(self)@.scopes[old(self)@.current()->0].has_room(
                local_assignment_pairs(*node),
            ),
        ensures
            old(self)@.local_assignment_entered(*node, final(self)@),
            final(self).wf(),
    {
        let ghost start = self@;
        let n = if node.names.len() <= node.expressions.len() {
            node.names.len()
        } else {
            node.expressions.len()
        };
        let mut i: usize = 0;
        while i < n
            invariant
                i <= n,
                n == local_assignment_pairs(*node),
                self.wf(),
                self@.stack == start.stack,
                start.stack.len() > 0 ==> self@.scopes[start.stack.last()].has_room((n - i) as nat),
                start.declared_upto(*node, i as nat, self@),
            decreases n - i,
        {
            let ghost before = self@;
            if node.expressions[i].is_plain_value() {
                match self.get_current_scope_id() {
                    Some(current) => {
                        assert(self@.scopes.contains_key(self@.stack[self@.stack.len() - 1]));
                        let name = name_of(node.names[i].as_str());
                        self.declare(current, name, node.expressions[i].to_value());
                        proof {
                            lemma_bound_in(
                                before,
                                current,
                                trimmed(node.names@[i as int]@),
                                stored(node.expressions@[i as int]),
                                self@,
                            );
                        }
                    },
                    None => {},
                }
            }
            proof {
                assert(before.pair_declared(*node, i as nat, self@));
                lemma_declared_step(start, *node, i as nat, before, self@);
            }
            i += 1;
        }
    }

    /// Leaves a local assignment. Nothing changes.
    pub fn visit_local_assignment_end(&mut self, node: &LocalAssignment)
        ensures
            final(self)@ == old(self)@,
    {
    }

    /// Sees a call: resolves the callee and appends one hint for each
    /// argument that has a parameter.
    pub fn visit_function_call(&mut self, node: &FunctionCall)
        requires
            old(self).wf(),
            node.prefix is Name ==> old(self)@.stack.len() > 0,
        ensures
            final(self)@ == old(self)@.with_hints(old(self)@.call_hints(*node)),
            final(self).wf(),
    {
        assert(self@.with_hints(Seq::empty()) == self@) by {
            assert(self@.hints + Seq::<HintView>::empty() =~= self@.hints);
        }
        let labels = match &node.prefix {
            Prefix::Name(text) => {
                let name = name_of(text.as_str());
                match self.find_function(name.as_str()) {
                    Some((_, parameters)) => labels_of(parameters),
                    None => {
                        return ;
                    },
                }
            },
            Prefix::Expression(expression) => {
                match self.extract_params(expression) {
                    Some(labels) => labels,
                    None => {
                        return ;
                    },
                }
            },
            Prefix::Other => {
                return ;
            },
        };
        if node.suffixes.len() > 0 {
            match &node.suffixes[0] {
                Suffix::Call(Call::AnonymousCall(FunctionArgs::Parentheses(arguments))) => {
                    let hints = pair_hints(arguments, labels);
                    self.add_hints(hints);
                },
                _ => {},
            }
        }
    }
}

} // verus!
