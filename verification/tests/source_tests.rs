use full_moon::ast;
use full_moon::node::Node as _;
use full_moon::tokenizer;
use full_moon::visitors::Visitor;
use lua_hints::hint::{Hint, HintKind, HintPosition};
use lua_hints::manager::ScopeManager;
use lua_hints::syntax::{
    Assignment, Ast, Block, Call, Expression, FunctionArgs, FunctionCall, FunctionDeclaration,
    FunctionName, LocalAssignment, LocalFunction, Node, NodeKind, Parameter, Position, Prefix,
    Suffix, Target,
};
use lua_hints::traverse::HintManager;

fn position(position: Option<tokenizer::Position>) -> Position {
    let position = position.unwrap_or_default();
    Position { line: position.line(), character: position.character() }
}

fn parameters(body: &ast::FunctionBody) -> Vec<Parameter> {
    body.parameters()
        .iter()
        .map(|p| Parameter { text: p.to_string(), position: position(p.start_position()) })
        .collect()
}

fn expression(e: &ast::Expression) -> Expression {
    match e {
        ast::Expression::Value { value } => match value.as_ref() {
            ast::Value::Function((_, body)) => Expression::Function(parameters(body)),
            ast::Value::ParenthesesExpression(inner) => {
                Expression::ParenthesizedValue(Box::new(expression(inner)))
            }
            ast::Value::Var(ast::Var::Name(name)) => Expression::Name(name.to_string()),
            _ => Expression::OtherValue,
        },
        ast::Expression::Parentheses { expression: inner, .. } => {
            Expression::Parentheses(Box::new(expression(inner)))
        }
        _ => Expression::Operation,
    }
}

fn suffix(s: &ast::Suffix) -> Suffix {
    match s {
        ast::Suffix::Call(ast::Call::AnonymousCall(arguments)) => {
            Suffix::Call(Call::AnonymousCall(match arguments {
                ast::FunctionArgs::Parentheses { arguments, .. } => FunctionArgs::Parentheses(
                    arguments.iter().map(|a| position(a.start_position())).collect(),
                ),
                ast::FunctionArgs::String(_) => FunctionArgs::String,
                _ => FunctionArgs::TableConstructor,
            }))
        }
        ast::Suffix::Call(_) => Suffix::Call(Call::MethodCall),
        _ => Suffix::Index,
    }
}

struct TreeBuilder {
    open: Vec<Node>,
    root: Option<Node>,
    blocks: usize,
}

impl TreeBuilder {
    fn enter(&mut self, kind: NodeKind) {
        self.open.push(Node { kind, children: Vec::new() });
    }

    fn leave(&mut self) {
        let node = self.open.pop().unwrap();
        match self.open.last_mut() {
            Some(parent) => parent.children.push(node),
            None => self.root = Some(node),
        }
    }
}

impl Visitor for TreeBuilder {
    fn visit_block(&mut self, _: &ast::Block) {
        let id = self.blocks;
        self.blocks += 1;
        self.enter(NodeKind::Block(Block { id }));
    }

    fn visit_block_end(&mut self, _: &ast::Block) {
        self.leave();
    }

    fn visit_local_function(&mut self, function: &ast::LocalFunction) {
        self.enter(NodeKind::LocalFunction(LocalFunction {
            name: function.name().to_string(),
            parameters: parameters(function.body()),
        }));
    }

    fn visit_local_function_end(&mut self, _: &ast::LocalFunction) {
        self.leave();
    }

    fn visit_function_declaration(&mut self, function: &ast::FunctionDeclaration) {
        self.enter(NodeKind::FunctionDeclaration(FunctionDeclaration {
            name: FunctionName {
                names: function.name().names().iter().map(|n| n.to_string()).collect(),
                method: function.name().method_name().map(|m| m.to_string()),
            },
            parameters: parameters(function.body()),
        }));
    }

    fn visit_function_declaration_end(&mut self, _: &ast::FunctionDeclaration) {
        self.leave();
    }

    fn visit_assignment(&mut self, assignment: &ast::Assignment) {
        self.enter(NodeKind::Assignment(Assignment {
            variables: assignment
                .variables()
                .iter()
                .map(|v| match v {
                    ast::Var::Name(name) => Target::Name(name.to_string()),
                    _ => Target::Expression,
                })
                .collect(),
            expressions: assignment.expressions().iter().map(expression).collect(),
        }));
    }

    fn visit_assignment_end(&mut self, _: &ast::Assignment) {
        self.leave();
    }

    fn visit_local_assignment(&mut self, assignment: &ast::LocalAssignment) {
        self.enter(NodeKind::LocalAssignment(LocalAssignment {
            names: assignment.names().iter().map(|n| n.to_string()).collect(),
            expressions: assignment.expressions().iter().map(expression).collect(),
        }));
    }

    fn visit_local_assignment_end(&mut self, _: &ast::LocalAssignment) {
        self.leave();
    }

    fn visit_function_call(&mut self, call: &ast::FunctionCall) {
        let prefix = match call.prefix() {
            ast::Prefix::Name(name) => Prefix::Name(name.to_string()),
            ast::Prefix::Expression(inner) => Prefix::Expression(expression(inner)),
            _ => Prefix::Other,
        };
        self.enter(NodeKind::FunctionCall(FunctionCall {
            prefix,
            suffixes: call.suffixes().map(suffix).collect(),
        }));
    }

    fn visit_function_call_end(&mut self, _: &ast::FunctionCall) {
        self.leave();
    }
}

fn tree(source: &str) -> Ast {
    let parsed = full_moon::parse(source).unwrap();
    let mut builder = TreeBuilder { open: Vec::new(), root: None, blocks: 0 };
    builder.visit_ast(&parsed);
    assert!(builder.open.is_empty());
    Ast { root: builder.root.unwrap() }
}

fn hints(source: &str) -> Vec<(u32, u32, String)> {
    let ast = tree(source);
    assert!(ast.fits());
    HintManager::get_hints(&ast)
        .into_iter()
        .map(|Hint { position: HintPosition { line, character }, label, kind }| {
            assert_eq!(kind, HintKind::Parameter);
            (line, character, label)
        })
        .collect()
}

fn hint(line: u32, character: u32, label: &str) -> (u32, u32, String) {
    (line, character, label.to_string())
}

#[test]
fn source_hint_pairing() {
    assert_eq!(
        hints("function add(x, y) return x + y end\nadd(1, 2)"),
        vec![hint(2, 5, "x"), hint(2, 8, "y")]
    );
}

#[test]
fn source_arity_mismatch() {
    assert_eq!(hints("function f(a,b,c) end\nf(1)"), vec![hint(2, 3, "a")]);
    assert_eq!(hints("function g(a) end\ng(1,2)"), vec![hint(2, 3, "a")]);
}

#[test]
fn source_method_call_gives_no_hints() {
    assert_eq!(hints("function method(a) end\nlocal obj = {}\nobj:method(1)"), vec![]);
    assert_eq!(hints("function obj(a) end\nobj:method(1)"), vec![]);
}

#[test]
fn source_indexed_call_gives_no_hints() {
    assert_eq!(hints("function t(a) end\nt.f(1)\nt[1](2)"), vec![]);
}

#[test]
fn source_shadowing() {
    let source = "local x = function(f) end\n\
                  do\n\
                  \x20 local x = function(g) end\n\
                  \x20 x(1)\n\
                  end\n\
                  x(2)";
    assert_eq!(hints(source), vec![hint(4, 5, "g"), hint(6, 3, "f")]);
}

#[test]
fn source_global_promotion() {
    let source = "early(1)\n\
                  do\n\
                  \x20 do\n\
                  \x20   early = function(p) end\n\
                  \x20 end\n\
                  end\n\
                  early(2)\n\
                  do early(3) end";
    assert_eq!(hints(source), vec![hint(7, 7, "p"), hint(8, 10, "p")]);
}

#[test]
fn source_function_declared_in_a_block_is_global() {
    let source = "do\n\
                  \x20 function deep(a, b) end\n\
                  end\n\
                  deep(1, 2)";
    assert_eq!(hints(source), vec![hint(4, 6, "a"), hint(4, 9, "b")]);
}

#[test]
fn source_local_function() {
    let source = "local function inc(n) return n + 1 end\ninc(5)";
    assert_eq!(hints(source), vec![hint(2, 5, "n")]);
}

#[test]
fn source_local_function_is_not_visible_outside_its_block() {
    let source = "do\n\
                  \x20 local function inner(v) end\n\
                  \x20 inner(1)\n\
                  end\n\
                  inner(2)";
    assert_eq!(hints(source), vec![hint(3, 9, "v")]);
}

#[test]
fn source_nested_calls_are_met_outermost_first() {
    let source = "function add(x, y) return x + y end\nadd(add(1, 2), 3)";
    assert_eq!(
        hints(source),
        vec![hint(2, 5, "x"), hint(2, 16, "y"), hint(2, 9, "x"), hint(2, 12, "y")]
    );
}

#[test]
fn source_recursive_call_inside_the_body() {
    let source = "function fact(n)\n  return n * fact(n - 1)\nend";
    assert_eq!(hints(source), vec![hint(2, 19, "n")]);
}

#[test]
fn source_parenthesised_callee() {
    let source = "function f(a) end\n(f)(1);\n((f))(2)";
    assert_eq!(hints(source), vec![hint(2, 5, "a"), hint(3, 7, "a")]);
}

// Without a separator the second line continues the call of the first.
#[test]
fn source_chained_call_is_one_call() {
    assert_eq!(hints("function f(a) end\n(f)(1)\n((f))(2)"), vec![hint(2, 5, "a")]);
}

#[test]
fn source_string_and_table_arguments_give_no_hints() {
    assert_eq!(hints("function f(a) end\nf \"text\"\nf { 1 }"), vec![]);
}

#[test]
fn source_call_before_declaration_is_unresolved() {
    assert_eq!(hints("f(1)\nfunction f(a) end\nf(2)"), vec![hint(3, 3, "a")]);
}

#[test]
fn source_variadic_parameter_is_labelled_as_written() {
    assert_eq!(
        hints("function v(a, ...) end\nv(1, 2, 3)"),
        vec![hint(2, 3, "a"), hint(2, 6, "...")]
    );
}

#[test]
fn source_non_function_binding_hides_an_outer_function() {
    let source = "local f = function(a) end\n\
                  do\n\
                  \x20 local f = 5\n\
                  \x20 f(1)\n\
                  end\n\
                  f(2)";
    assert_eq!(hints(source), vec![hint(6, 3, "a")]);
}

#[test]
fn source_empty_document() {
    assert_eq!(hints(""), vec![]);
}

#[test]
fn source_scopes_mirror_the_blocks() {
    let ast = tree("function f() do end end\nwhile true do end");
    let manager = ScopeManager::new(&ast);
    let root = manager.get_root_scope_id().unwrap();
    assert_eq!(manager.get_current_scope_id(), Some(root));
    let outer = manager.get_scope_id(0).unwrap();
    let body = manager.get_scope_id(1).unwrap();
    let inner = manager.get_scope_id(2).unwrap();
    let looped = manager.get_scope_id(3).unwrap();
    assert_eq!(manager.get_scope_id(4), None);
    assert_eq!(manager.get_scope(outer).unwrap().parent(), Some(root));
    assert_eq!(manager.get_scope(body).unwrap().parent(), Some(root));
    assert_eq!(manager.get_scope(body).unwrap().name(), Some("f"));
    assert_eq!(manager.get_scope(inner).unwrap().parent(), Some(body));
    assert_eq!(manager.get_scope(looped).unwrap().parent(), Some(outer));
}

// A name bound to another name holds a plain value, not the function.
#[test]
fn source_binding_to_a_name_is_not_an_alias() {
    let source = "function b(p) end\nlocal a = b\nlocal c = a\na(1)\nc(2)\nb(3)";
    assert_eq!(hints(source), vec![hint(6, 3, "p")]);
}

#[test]
fn source_multiple_assignment_pairs_in_order() {
    let source = "a, b = function(x) end, function(y) end\na(1)\nb(2)";
    assert_eq!(hints(source), vec![hint(2, 3, "x"), hint(3, 3, "y")]);
}

#[test]
fn source_assignment_to_a_field_binds_nothing() {
    let source = "t = {}\nt.x, a = function(p) end, 1 + 2\na(1)";
    assert_eq!(hints(source), vec![]);
}

#[test]
fn source_local_function_with_space_before_its_parameters() {
    let source = "local function f (a) end\nf(1)";
    assert_eq!(hints(source), vec![hint(2, 3, "a")]);
}

#[test]
fn source_function_literal_as_callee_gives_no_hints() {
    assert_eq!(hints("(function(a) end)(1)"), vec![]);
}

#[test]
fn source_local_names_are_paired_in_order() {
    let source = "local p, q = function(x) end, function(y) end\np(1)\nq(2)";
    assert_eq!(hints(source), vec![hint(2, 3, "x"), hint(3, 3, "y")]);
}

#[test]
fn source_function_declared_into_a_table_binds_no_name() {
    let ast = tree("t = {}\nfunction t.f(a) end\nfunction t:m(b) end\nfunction g(c) end");
    let manager = ScopeManager::new(&ast);
    let root = manager.get_root_scope_id().unwrap();
    let global = manager.get_scope(root).unwrap();
    assert!(global.get_var("t").is_some());
    assert!(global.get_var("g").is_some());
    assert!(global.get_var("t.f").is_none());
    assert!(global.get_var("f").is_none());
    assert!(global.get_var("t:m").is_none());
    assert!(global.get_var("m").is_none());
    assert_eq!(manager.get_current_scope_id(), Some(root));
    // The bodies of all three are opened with the global scope current.
    for block in 1..=3 {
        let body = manager.get_scope_id(block).unwrap();
        assert_eq!(manager.get_scope(body).unwrap().parent(), Some(root));
    }
}

#[test]
fn source_call_of_a_field_is_not_taken_for_a_global_of_that_name() {
    assert_eq!(hints("t = {}\nfunction t.f(a) end\nt.f(1)\nf(2)"), vec![]);
}

#[test]
fn source_local_function_calls_itself_in_its_body() {
    let source = "local function walk(node)\n  walk(node)\nend";
    assert_eq!(hints(source), vec![hint(2, 8, "node")]);
}

#[test]
fn source_declaration_nested_in_a_body_is_global() {
    let source = "function outer()\n  function inner(v) end\nend\ninner(1)";
    assert_eq!(hints(source), vec![hint(4, 7, "v")]);
}
