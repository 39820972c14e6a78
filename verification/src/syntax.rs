//! The parts of a syntax tree that the analysis reads.
//!
//! A tree holds one node for every construct that opens a scope, introduces
//! a binding or calls a function. The children of a node are the constructs
//! nested inside it, in source order. Names are kept as they were written,
//! with whatever whitespace surrounded them.

use vstd::prelude::*;

verus! {

/// A place in the source text.
#[derive(Clone, Copy, PartialEq, Eq, Structural, Debug)]
pub struct Position {
    pub line: usize,
    pub character: usize,
}

/// A declared parameter of a function: its text as written and where it starts.
#[derive(Clone, PartialEq, Eq, Debug)]
pub struct Parameter {
    pub text: String,
    pub position: Position,
}

/// What contracts say of a [`Parameter`].
pub struct ParameterView {
    pub text: Seq<char>,
    pub position: Position,
}

impl View for Parameter {
    type V = ParameterView;

    open spec fn view(&self) -> ParameterView {
        ParameterView { text: self.text@, position: self.position }
    }
}

/// The views of a parameter list, in order.
pub open spec fn parameter_views(parameters: Seq<Parameter>) -> Seq<ParameterView> {
    parameters.map_values(|p: Parameter| p@)
}

/// Copies a parameter list.
pub fn clone_parameters(parameters: &Vec<Parameter>) -> (copy: Vec<Parameter>)
    ensures
        parameter_views(copy@) == parameter_views(parameters@),
{
    let mut copy: Vec<Parameter> = Vec::new();
    let mut i: usize = 0;
    while i < parameters.len()
        invariant
            i <= parameters.len(),
            copy.len() == i,
            forall|j: int| 0 <= j < i ==> copy@[j]@ == parameters@[j]@,
        decreases parameters.len() - i,
    {
        let p = &parameters[i];
        copy.push(Parameter { text: p.text.clone(), position: p.position });
        i += 1;
    }
    assert(parameter_views(copy@) =~= parameter_views(parameters@));
    copy
}

/// An expression, as far as the analysis tells expressions apart.
#[derive(PartialEq, Eq, Debug)]
pub enum Expression {
    /// A function literal with its declared parameters.
    Function(Vec<Parameter>),
    /// A bare variable name, as written.
    Name(String),
    /// A parenthesised expression that stands where a value is expected.
    ParenthesizedValue(Box<Expression>),
    /// Any other value: a literal, a table, a call, an indexed variable.
    OtherValue,
    /// A parenthesised expression.
    Parentheses(Box<Expression>),
    /// An expression built with a unary or binary operator.
    Operation,
}

impl Expression {
    /// Whether the expression is a plain value rather than a parenthesised
    /// or operator expression. Only plain values are recorded as bindings.
    pub open spec fn is_value(&self) -> bool {
        self is Function || self is Name || self is ParenthesizedValue || self is OtherValue
    }
}

/// The target of an assignment.
#[derive(Clone, PartialEq, Eq, Debug)]
pub enum Target {
    /// A bare name, as written.
    Name(String),
    /// Anything else: a field, an index.
    Expression,
}

/// What a call expression starts with.
#[derive(PartialEq, Eq, Debug)]
pub enum Prefix {
    /// A bare name, as written.
    Name(String),
    /// A parenthesised expression.
    Expression(Expression),
    /// Anything else. A call that starts with it gets no hints.
    Other,
}

/// The arguments of a call.
#[derive(Clone, PartialEq, Eq, Debug)]
pub enum FunctionArgs {
    /// A parenthesised argument list; each entry is where one argument starts.
    Parentheses(Vec<Position>),
    /// A single string literal.
    String,
    /// A single table constructor.
    TableConstructor,
}

/// A call suffix.
#[derive(Clone, PartialEq, Eq, Debug)]
pub enum Call {
    /// `f(...)`, `f "..."` or `f {...}`.
    AnonymousCall(FunctionArgs),
    /// `obj:method(...)`.
    MethodCall,
}

/// What follows the prefix of a call expression.
#[derive(Clone, PartialEq, Eq, Debug)]
pub enum Suffix {
    Call(Call),
    /// `.field` or `[index]`.
    Index,
}

/// A lexical block. `id` tells blocks of one tree apart.
#[derive(Clone, PartialEq, Eq, Debug)]
pub struct Block {
    pub id: usize,
}

/// `local function name(parameters) ... end`.
#[derive(Clone, PartialEq, Eq, Debug)]
pub struct LocalFunction {
    pub name: String,
    pub parameters: Vec<Parameter>,
}

/// The name a function is declared under: `a.b:m` has the names `a` and
/// `b` and the method `m`. Each part is kept as written.
#[derive(Clone, PartialEq, Eq, Debug)]
pub struct FunctionName {
    pub names: Vec<String>,
    pub method: Option<String>,
}

/// `function name(parameters) ... end`.
#[derive(Clone, PartialEq, Eq, Debug)]
pub struct FunctionDeclaration {
    pub name: FunctionName,
    pub parameters: Vec<Parameter>,
}

/// `variables = expressions`.
#[derive(PartialEq, Eq, Debug)]
pub struct Assignment {
    pub variables: Vec<Target>,
    pub expressions: Vec<Expression>,
}

/// `local names = expressions`.
#[derive(PartialEq, Eq, Debug)]
pub struct LocalAssignment {
    pub names: Vec<String>,
    pub expressions: Vec<Expression>,
}

/// A call expression or call statement.
#[derive(PartialEq, Eq, Debug)]
pub struct FunctionCall {
    pub prefix: Prefix,
    pub suffixes: Vec<Suffix>,
}

/// What a node of the tree is.
#[derive(PartialEq, Eq, Debug)]
pub enum NodeKind {
    Block(Block),
    LocalFunction(LocalFunction),
    FunctionDeclaration(FunctionDeclaration),
    Assignment(Assignment),
    LocalAssignment(LocalAssignment),
    FunctionCall(FunctionCall),
}

/// A node and the nodes nested inside it, in source order.
#[derive(PartialEq, Eq, Debug)]
pub struct Node {
    pub kind: NodeKind,
    pub children: Vec<Node>,
}

/// A whole syntax tree. The root is the outermost block of a document.
#[derive(PartialEq, Eq, Debug)]
pub struct Ast {
    pub root: Node,
}

} // verus!
