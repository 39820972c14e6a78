use lua_hints::hint::{Hint, HintKind, HintPosition};
use lua_hints::manager::ScopeManager;
use lua_hints::syntax::{
    Assignment, Ast, Block, Call, Expression, FunctionArgs, FunctionCall, FunctionDeclaration,
    FunctionName, LocalAssignment, LocalFunction, Node, NodeKind, Parameter, Position, Prefix,
    Suffix, Target,
};
use lua_hints::traverse::HintManager;

fn pos(line: usize, character: usize) -> Position {
    Position { line, character }
}

fn param(text: &str, line: usize, character: usize) -> Parameter {
    Parameter { text: text.to_string(), position: pos(line, character) }
}

fn block(id: usize, children: Vec<Node>) -> Node {
    Node { kind: NodeKind::Block(Block { id }), children }
}

fn function_declaration(name: &str, parameters: Vec<Parameter>, body: Node) -> Node {
    Node {
        kind: NodeKind::FunctionDeclaration(FunctionDeclaration {
            name: FunctionName { names: vec![name.to_string()], method: None },
            parameters,
        }),
        children: vec![body],
    }
}

fn local_function(name: &str, parameters: Vec<Parameter>, body: Node) -> Node {
    Node {
        kind: NodeKind::LocalFunction(LocalFunction { name: name.to_string(), parameters }),
        children: vec![body],
    }
}

fn local_assignment(names: &[&str], expressions: Vec<Expression>, children: Vec<Node>) -> Node {
    Node {
        kind: NodeKind::LocalAssignment(LocalAssignment {
            names: names.iter().map(|n| n.to_string()).collect(),
            expressions,
        }),
        children,
    }
}

fn assignment(names: &[&str], expressions: Vec<Expression>, children: Vec<Node>) -> Node {
    Node {
        kind: NodeKind::Assignment(Assignment {
            variables: names.iter().map(|n| Target::Name(n.to_string())).collect(),
            expressions,
        }),
        children,
    }
}

fn call(name: &str, arguments: Vec<Position>) -> Node {
    Node {
        kind: NodeKind::FunctionCall(FunctionCall {
            prefix: Prefix::Name(name.to_string()),
            suffixes: vec![Suffix::Call(Call::AnonymousCall(FunctionArgs::Parentheses(arguments)))],
        }),
        children: vec![],
    }
}

fn hint(line: u32, character: u32, label: &str) -> Hint {
    Hint {
        position: HintPosition { line, character },
        label: label.to_string(),
        kind: HintKind::Parameter,
    }
}

fn hints_for(root: Node) -> Vec<Hint> {
    let ast = Ast { root };
    assert!(ast.fits());
    HintManager::get_hints(&ast)
}

// function add(x, y) return x + y end
// add(1, 2)
#[test]
fn hint_pairing_names_each_argument() {
    let hints = hints_for(block(
        0,
        vec![
            function_declaration(
                "add",
                vec![param("x", 1, 14), param("y", 1, 17)],
                block(1, vec![]),
            ),
            call("add", vec![pos(2, 5), pos(2, 8)]),
        ],
    ));
    assert_eq!(hints, vec![hint(2, 5, "x"), hint(2, 8, "y")]);
}

// function f(a,b,c) end
// f(1)
#[test]
fn fewer_arguments_than_parameters() {
    let hints = hints_for(block(
        0,
        vec![
            function_declaration(
                "f",
                vec![param("a", 1, 12), param("b", 1, 14), param("c", 1, 16)],
                block(1, vec![]),
            ),
            call("f", vec![pos(2, 3)]),
        ],
    ));
    assert_eq!(hints, vec![hint(2, 3, "a")]);
}

// function g(a) end
// g(1,2)
#[test]
fn more_arguments_than_parameters() {
    let hints = hints_for(block(
        0,
        vec![
            function_declaration("g", vec![param("a", 1, 12)], block(1, vec![])),
            call("g", vec![pos(2, 3), pos(2, 5)]),
        ],
    ));
    assert_eq!(hints, vec![hint(2, 3, "a")]);
}

// function method(a) end
// obj:method(1)
#[test]
fn method_call_gives_no_hints() {
    let method_call = |prefix: &str| Node {
        kind: NodeKind::FunctionCall(FunctionCall {
            prefix: Prefix::Name(prefix.to_string()),
            suffixes: vec![Suffix::Call(Call::MethodCall)],
        }),
        children: vec![],
    };
    let hints = hints_for(block(
        0,
        vec![
            function_declaration("method", vec![param("a", 1, 17)], block(1, vec![])),
            function_declaration("obj", vec![param("b", 2, 14)], block(2, vec![])),
            method_call("obj"),
            method_call("method"),
        ],
    ));
    assert_eq!(hints, vec![]);
}

// local x = function(a) end
// do
//   local x = function(b) end
//   x(1)
// end
// x(2)
#[test]
fn inner_binding_shadows_and_outer_returns() {
    let hints = hints_for(block(
        0,
        vec![
            local_assignment(
                &["x"],
                vec![Expression::Function(vec![param("a", 1, 20)])],
                vec![block(1, vec![])],
            ),
            block(
                2,
                vec![
                    local_assignment(
                        &["x"],
                        vec![Expression::Function(vec![param("b", 3, 22)])],
                        vec![block(3, vec![])],
                    ),
                    call("x", vec![pos(4, 5)]),
                ],
            ),
            call("x", vec![pos(6, 3)]),
        ],
    ));
    assert_eq!(hints, vec![hint(4, 5, "b"), hint(6, 3, "a")]);
}

// early(1)
// do do
//   early = function(p) end
// end end
// early(2)
// do early(3) end
#[test]
fn global_assignment_is_seen_from_everywhere_after_it() {
    let hints = hints_for(block(
        0,
        vec![
            call("early", vec![pos(1, 7)]),
            block(
                1,
                vec![block(
                    2,
                    vec![assignment(
                        &["early"],
                        vec![Expression::Function(vec![param("p", 3, 20)])],
                        vec![block(3, vec![])],
                    )],
                )],
            ),
            call("early", vec![pos(5, 7)]),
            block(4, vec![call("early", vec![pos(6, 10)])]),
        ],
    ));
    assert_eq!(hints, vec![hint(5, 7, "p"), hint(6, 10, "p")]);
}

// local function inner(v) end      -- inside a block
// inner(1)                         -- outside: not visible
#[test]
fn local_function_is_not_seen_outside_its_block() {
    let hints = hints_for(block(
        0,
        vec![
            block(
                1,
                vec![
                    local_function("inner", vec![param("v", 1, 25)], block(2, vec![])),
                    call("inner", vec![pos(2, 9)]),
                ],
            ),
            call("inner", vec![pos(4, 7)]),
        ],
    ));
    assert_eq!(hints, vec![hint(2, 9, "v")]);
}

#[test]
fn names_are_looked_up_without_surrounding_whitespace() {
    let hints = hints_for(block(
        0,
        vec![
            function_declaration(" add ", vec![param(" x\n", 1, 14)], block(1, vec![])),
            call("\n  add", vec![pos(2, 7)]),
        ],
    ));
    assert_eq!(hints, vec![hint(2, 7, "x")]);
}

// local function f (a) end
// f(1)
#[test]
fn local_function_name_is_looked_up_without_surrounding_whitespace() {
    let hints = hints_for(block(
        0,
        vec![
            local_function("f ", vec![param("a", 1, 19)], block(1, vec![])),
            call("f", vec![pos(2, 3)]),
        ],
    ));
    assert_eq!(hints, vec![hint(2, 3, "a")]);
}

#[test]
fn call_with_another_kind_of_prefix_gives_no_hints() {
    let hints = hints_for(block(
        0,
        vec![
            function_declaration("f", vec![param("a", 1, 12)], block(1, vec![])),
            Node {
                kind: NodeKind::FunctionCall(FunctionCall {
                    prefix: Prefix::Other,
                    suffixes: vec![Suffix::Call(Call::AnonymousCall(FunctionArgs::Parentheses(
                        vec![pos(2, 3)],
                    )))],
                }),
                children: vec![],
            },
        ],
    ));
    assert_eq!(hints, vec![]);
}

// a, b = function(first) end, function(second) end
#[test]
fn assignment_pairs_each_target_with_the_expression_at_its_index() {
    let hints = hints_for(block(
        0,
        vec![
            assignment(
                &["a", "b"],
                vec![
                    Expression::Function(vec![param("first", 1, 19)]),
                    Expression::Function(vec![param("second", 1, 40)]),
                ],
                vec![block(1, vec![]), block(2, vec![])],
            ),
            call("a", vec![pos(2, 3)]),
            call("b", vec![pos(3, 3)]),
        ],
    ));
    assert_eq!(hints, vec![hint(2, 3, "first"), hint(3, 3, "second")]);
}

// t.x, a = function(p) end, 1 + 2
#[test]
fn assignment_without_a_bare_name_and_plain_value_pair_binds_nothing() {
    let ast = Ast {
        root: block(
            0,
            vec![
                Node {
                    kind: NodeKind::Assignment(Assignment {
                        variables: vec![Target::Expression, Target::Name("a".to_string())],
                        expressions: vec![
                            Expression::Function(vec![param("p", 1, 19)]),
                            Expression::Operation,
                        ],
                    }),
                    children: vec![block(1, vec![])],
                },
                call("a", vec![pos(2, 3)]),
            ],
        ),
    };
    let manager = ScopeManager::new(&ast);
    let root = manager.get_root_scope_id().unwrap();
    assert!(manager.get_scope(root).unwrap().get_var("a").is_none());
    assert!(manager.hints().is_empty());
    assert_eq!(manager.get_current_scope_id(), Some(root));
}

#[test]
fn operator_expression_records_no_binding() {
    let hints = hints_for(block(
        0,
        vec![
            local_assignment(
                &["f"],
                vec![Expression::Function(vec![param("a", 1, 20)])],
                vec![block(1, vec![])],
            ),
            local_assignment(&["f"], vec![Expression::Operation], vec![]),
            call("f", vec![pos(3, 3)]),
            local_assignment(&["f"], vec![Expression::OtherValue], vec![]),
            call("f", vec![pos(5, 3)]),
        ],
    ));
    assert_eq!(hints, vec![hint(3, 3, "a")]);
}

#[test]
fn parenthesised_callee_is_unwrapped() {
    let callee = |e: Expression| Node {
        kind: NodeKind::FunctionCall(FunctionCall {
            prefix: Prefix::Expression(e),
            suffixes: vec![Suffix::Call(Call::AnonymousCall(FunctionArgs::Parentheses(vec![
                pos(9, 9),
            ])))],
        }),
        children: vec![],
    };
    let hints = hints_for(block(
        0,
        vec![
            function_declaration("f", vec![param("a", 1, 12)], block(1, vec![])),
            callee(Expression::Parentheses(Box::new(Expression::ParenthesizedValue(Box::new(
                Expression::Name(" f ".to_string()),
            ))))),
            callee(Expression::Function(vec![param("lit", 3, 3)])),
            callee(Expression::Parentheses(Box::new(Expression::Function(vec![param(
                "lit", 3, 3,
            )])))),
            callee(Expression::Operation),
            callee(Expression::OtherValue),
        ],
    ));
    assert_eq!(hints, vec![hint(9, 9, "a")]);
}

#[test]
fn string_and_table_calls_give_no_hints() {
    let with_suffixes = |suffixes: Vec<Suffix>| Node {
        kind: NodeKind::FunctionCall(FunctionCall {
            prefix: Prefix::Name("f".to_string()),
            suffixes,
        }),
        children: vec![],
    };
    let args = || Suffix::Call(Call::AnonymousCall(FunctionArgs::Parentheses(vec![pos(2, 5)])));
    let hints = hints_for(block(
        0,
        vec![
            function_declaration("f", vec![param("a", 1, 12)], block(1, vec![])),
            with_suffixes(vec![Suffix::Call(Call::AnonymousCall(FunctionArgs::String))]),
            with_suffixes(vec![Suffix::Call(Call::AnonymousCall(FunctionArgs::TableConstructor))]),
            with_suffixes(vec![Suffix::Index, args()]),
            with_suffixes(vec![]),
            with_suffixes(vec![args(), args()]),
        ],
    ));
    assert_eq!(hints, vec![hint(2, 5, "a")]);
}

#[test]
fn pass_ends_with_only_the_global_scope_open() {
    let ast = Ast {
        root: block(
            0,
            vec![
                function_declaration("f", vec![], block(1, vec![block(2, vec![])])),
                assignment(&["g"], vec![Expression::OtherValue], vec![]),
                block(3, vec![]),
            ],
        ),
    };
    let manager = ScopeManager::new(&ast);
    let fresh = ScopeManager::fresh();
    assert_eq!(manager.get_current_scope_id(), manager.get_root_scope_id());
    assert_eq!(manager.get_current_scope_id(), fresh.get_root_scope_id());
    let global = manager.get_current_scope().unwrap();
    assert_eq!(global.name(), Some("global"));
    assert_eq!(global.parent(), None);
    assert!(global.get_var("f").is_some());
    assert!(global.get_var("g").is_some());
}

#[test]
fn blocks_take_pending_names_and_are_indexed_by_node() {
    let ast = Ast {
        root: block(
            7,
            vec![function_declaration("f", vec![], block(8, vec![])), block(9, vec![])],
        ),
    };
    let manager = ScopeManager::new(&ast);
    let root = manager.get_root_scope_id().unwrap();
    let outer = manager.get_scope_id(7).unwrap();
    let body = manager.get_scope_id(8).unwrap();
    let plain = manager.get_scope_id(9).unwrap();
    assert_eq!(manager.get_scope_id(10), None);
    assert_eq!(manager.get_scope(outer).unwrap().parent(), Some(root));
    assert_eq!(manager.get_scope(outer).unwrap().name(), None);
    // The body of a function declaration is opened while the global scope is current.
    assert_eq!(manager.get_scope(body).unwrap().parent(), Some(root));
    assert_eq!(manager.get_scope(body).unwrap().name(), Some("f"));
    assert_eq!(manager.get_scope(plain).unwrap().parent(), Some(outer));
    assert_eq!(manager.get_scope(plain).unwrap().name(), None);
}

#[test]
fn hint_position_keeps_the_low_32_bits() {
    let big = (1usize << 32) + 5;
    let hints = hints_for(block(
        0,
        vec![
            function_declaration("f", vec![param("a", 1, 12)], block(1, vec![])),
            call("f", vec![pos(big, 3)]),
        ],
    ));
    assert_eq!(hints, vec![hint(5, 3, "a")]);
}

#[test]
fn init_runs_the_pass_from_the_state_it_is_given() {
    let mut manager = ScopeManager::fresh();
    let root = manager.get_root_scope_id().unwrap();
    manager.declare(
        root,
        "known".to_string(),
        lua_hints::scope::Value::Function(vec![param("k", 1, 1)]),
    );
    let ast = Ast { root: block(0, vec![call("known", vec![pos(3, 7)])]) };
    manager.init(&ast);
    assert_eq!(manager.hints(), &vec![hint(3, 7, "k")]);
    assert_eq!(manager.get_current_scope_id(), Some(root));
}

#[test]
fn handlers_can_be_driven_one_by_one() {
    let mut manager = ScopeManager::fresh();
    let root = manager.get_root_scope_id().unwrap();
    let outer = Block { id: 0 };
    let body = Block { id: 1 };
    let declaration = FunctionDeclaration {
        name: FunctionName { names: vec!["f".to_string()], method: None },
        parameters: vec![param("a", 1, 12), param("b", 1, 15)],
    };
    let call_f = FunctionCall {
        prefix: Prefix::Name("f".to_string()),
        suffixes: vec![Suffix::Call(Call::AnonymousCall(FunctionArgs::Parentheses(vec![pos(
            2, 3,
        )])))],
    };
    manager.visit_block(&outer);
    let outer_scope = manager.get_current_scope_id().unwrap();
    manager.visit_function_declaration(&declaration);
    assert_eq!(manager.get_current_scope_id(), Some(root));
    manager.visit_block(&body);
    manager.visit_function_call(&call_f);
    manager.visit_block_end(&body);
    manager.visit_function_declaration_end(&declaration);
    assert_eq!(manager.get_current_scope_id(), Some(outer_scope));
    let local = LocalAssignment {
        names: vec!["f".to_string(), "unused".to_string()],
        expressions: vec![Expression::OtherValue],
    };
    manager.visit_local_assignment(&local);
    manager.visit_local_assignment_end(&local);
    manager.visit_function_call(&call_f);
    let global = Assignment {
        variables: vec![Target::Name("g".to_string()), Target::Expression],
        expressions: vec![Expression::Function(vec![param("x", 4, 14)])],
    };
    manager.visit_assignment(&global);
    assert_eq!(manager.get_current_scope_id(), Some(root));
    manager.visit_assignment_end(&global);
    let call_g = FunctionCall {
        prefix: Prefix::Name("g".to_string()),
        suffixes: vec![Suffix::Call(Call::AnonymousCall(FunctionArgs::Parentheses(vec![pos(
            5, 3,
        )])))],
    };
    manager.visit_function_call(&call_g);
    let inner = LocalFunction { name: "h".to_string(), parameters: vec![param("y", 6, 18)] };
    manager.visit_local_function(&inner);
    assert!(manager.get_scope(outer_scope).unwrap().get_var("h").is_some());
    assert!(manager.get_scope(outer_scope).unwrap().get_var("unused").is_none());
    manager.visit_block_end(&outer);
    assert_eq!(manager.get_current_scope_id(), Some(root));
    assert_eq!(manager.into_hints(), vec![hint(2, 3, "a"), hint(5, 3, "x")]);
}

#[test]
fn weight_counts_what_a_walk_can_add() {
    let ast = Ast {
        root: block(
            0,
            vec![
                function_declaration("f", vec![], block(1, vec![])),
                local_assignment(
                    &["a", "b", "c"],
                    vec![Expression::OtherValue, Expression::Operation],
                    vec![],
                ),
                call("f", vec![]),
            ],
        ),
    };
    assert_eq!(ast.root.weigh(), Some(5));
    assert!(ast.fits());
}

// function t.f(a) end; function t:m(b) end; f(1); m(2)
#[test]
fn declaration_with_a_path_or_a_method_binds_no_name() {
    let declared = |names: &[&str], method: Option<&str>, id: usize| Node {
        kind: NodeKind::FunctionDeclaration(FunctionDeclaration {
            name: FunctionName {
                names: names.iter().map(|n| n.to_string()).collect(),
                method: method.map(|m| m.to_string()),
            },
            parameters: vec![param("a", 1, 14)],
        }),
        children: vec![block(id, vec![])],
    };
    let ast = Ast {
        root: block(
            0,
            vec![
                declared(&["t", "f"], None, 1),
                declared(&["t"], Some("m"), 2),
                declared(&[], None, 3),
                call("f", vec![pos(4, 3)]),
                call("m", vec![pos(5, 3)]),
                call("t", vec![pos(6, 3)]),
            ],
        ),
    };
    let manager = ScopeManager::new(&ast);
    let root = manager.get_root_scope_id().unwrap();
    assert!(manager.hints().is_empty());
    assert!(manager.get_scope(root).unwrap().get_var("t").is_none());
    assert!(manager.get_scope(root).unwrap().get_var("f").is_none());
    assert_eq!(manager.get_current_scope_id(), Some(root));
    let body = manager.get_scope_id(1).unwrap();
    assert_eq!(manager.get_scope(body).unwrap().parent(), Some(root));
    assert_eq!(manager.get_scope(body).unwrap().name(), None);
}
