use lua_hints::hint::{Hint, HintKind, HintPosition};
use lua_hints::manager::ScopeManager;
use lua_hints::scope::{Value, Var};
use lua_hints::syntax::{Expression, Parameter, Position};
use lua_hints::text::{is_whitespace, name_of};
use lua_hints::visitor::{labels_of, pair_hints, to_hint_position};

fn params(names: &[&str]) -> Vec<Parameter> {
    names
        .iter()
        .enumerate()
        .map(|(i, n)| Parameter {
            text: n.to_string(),
            position: Position { line: 1, character: 10 + i },
        })
        .collect()
}

#[test]
fn fresh_manager_holds_the_global_scope() {
    let manager = ScopeManager::fresh();
    let root = manager.get_root_scope_id().unwrap();
    assert_eq!(manager.get_current_scope_id(), Some(root));
    let scope = manager.get_scope(root).unwrap();
    assert_eq!(scope.name(), Some("global"));
    assert_eq!(scope.parent(), None);
    assert!(manager.hints().is_empty());
    assert_eq!(manager.get_scope_id(0), None);
}

#[test]
fn open_scope_nests_under_the_current_scope() {
    let mut manager = ScopeManager::fresh();
    let root = manager.get_root_scope_id().unwrap();
    let a = manager.open_scope(1);
    let b = manager.open_scope_named("inner".to_string(), 2);
    assert_eq!(manager.get_current_scope_id(), Some(b));
    assert_eq!(manager.get_scope(a).unwrap().parent(), Some(root));
    assert_eq!(manager.get_scope(b).unwrap().parent(), Some(a));
    assert_eq!(manager.get_scope(b).unwrap().name(), Some("inner"));
    assert_eq!(manager.get_scope_id(1), Some(a));
    assert_eq!(manager.get_scope_id(2), Some(b));
    manager.close_scope();
    assert_eq!(manager.get_current_scope_id(), Some(a));
    manager.close_scope();
    manager.close_scope();
    assert_eq!(manager.get_current_scope_id(), None);
    manager.close_scope();
    assert_eq!(manager.get_current_scope_id(), None);
    assert!(manager.get_current_scope().is_none());
    assert!(manager.get_scope(b).is_some());
}

#[test]
fn pending_names_label_the_next_scopes_last_first() {
    let mut manager = ScopeManager::fresh();
    manager.name_next_scope("first".to_string());
    manager.name_next_scope("second".to_string());
    let a = manager.open_scope(1);
    let b = manager.open_scope(2);
    let c = manager.open_scope(3);
    assert_eq!(manager.get_scope(a).unwrap().name(), Some("second"));
    assert_eq!(manager.get_scope(b).unwrap().name(), Some("first"));
    assert_eq!(manager.get_scope(c).unwrap().name(), None);
    manager.name_current_scope("renamed".to_string());
    assert_eq!(manager.get_scope(c).unwrap().name(), Some("renamed"));
}

#[test]
fn find_var_gives_the_binding_in_the_current_scope_and_an_alias_further_out() {
    let mut manager = ScopeManager::fresh();
    let root = manager.get_root_scope_id().unwrap();
    manager.declare(root, "f".to_string(), Value::Function(params(&["a"])));
    let var = manager.get_scope(root).unwrap().get_var_id("f").unwrap();
    let direct = manager.find_var("f");
    assert!(matches!(direct, Some(Var::Local(_))));
    manager.open_scope(1);
    manager.open_scope(2);
    assert_eq!(manager.find_var("f"), Some(Var::Reference(root, var)));
    assert_eq!(manager.find_var("g"), None);
    let (scope, parameters) = manager.find_function("f").unwrap();
    assert_eq!(scope, root);
    assert_eq!(parameters, &params(&["a"]));
    assert!(manager.find_function("g").is_none());
}

#[test]
fn find_function_is_none_for_a_value_that_is_no_function() {
    let mut manager = ScopeManager::fresh();
    let root = manager.get_root_scope_id().unwrap();
    manager.declare(root, "f".to_string(), Value::Function(params(&["a"])));
    let inner = manager.open_scope(1);
    manager.declare(inner, "f".to_string(), Value::Other);
    assert!(manager.find_function("f").is_none());
    manager.close_scope();
    assert!(manager.find_function("f").is_some());
}

#[test]
fn alias_chain_resolves_to_the_value_at_its_end() {
    let mut manager = ScopeManager::fresh();
    let root = manager.get_root_scope_id().unwrap();
    manager.declare(root, "b".to_string(), Value::Function(params(&["p"])));
    let b = manager.get_scope(root).unwrap().get_var_id("b").unwrap();
    let value = match manager.get_scope(root).unwrap().var(b) {
        Some(Var::Local(value)) => *value,
        other => panic!("unexpected binding {:?}", other),
    };
    let s1 = manager.open_scope(1);
    let a = manager.get_scope_mut(s1).unwrap().alloc_reference("a".to_string(), root, b);
    let s2 = manager.open_scope(2);
    let c = manager.get_scope_mut(s2).unwrap().alloc_reference("c".to_string(), s1, a);
    let d = manager.get_scope_mut(s2).unwrap().alloc_reference("d".to_string(), s2, c);
    assert_eq!(manager.resolve_reference(s2, d), Some((root, value)));
    assert_eq!(manager.resolve_reference(s2, c), Some((root, value)));
    assert_eq!(manager.resolve_reference(s1, a), Some((root, value)));
    assert_eq!(manager.resolve_reference(root, b), Some((root, value)));
    assert_eq!(manager.get_value(root, value), Some(&Value::Function(params(&["p"]))));
    let (scope, parameters) = manager.find_function("d").unwrap();
    assert_eq!(scope, root);
    assert_eq!(parameters, &params(&["p"]));
}

#[test]
fn long_alias_chain_resolves() {
    let mut manager = ScopeManager::fresh();
    let root = manager.get_root_scope_id().unwrap();
    manager.declare(root, "v0".to_string(), Value::Other);
    let mut last = manager.get_scope(root).unwrap().get_var_id("v0").unwrap();
    let value = match manager.get_scope(root).unwrap().var(last) {
        Some(Var::Local(value)) => *value,
        other => panic!("unexpected binding {:?}", other),
    };
    for i in 1..200 {
        last = manager.get_scope_mut(root).unwrap().alloc_reference(format!("v{}", i), root, last);
    }
    assert_eq!(manager.resolve_reference(root, last), Some((root, value)));
}

#[test]
fn alias_cycle_resolves_to_nothing() {
    let mut manager = ScopeManager::fresh();
    let root = manager.get_root_scope_id().unwrap();
    manager.declare(root, "x".to_string(), Value::Other);
    manager.declare(root, "y".to_string(), Value::Other);
    let x = manager.get_scope(root).unwrap().get_var_id("x").unwrap();
    let y = manager.get_scope(root).unwrap().get_var_id("y").unwrap();
    let entry = manager.get_scope_mut(root).unwrap().alloc_reference("e".to_string(), root, x);
    *manager.get_scope_mut(root).unwrap().get_var_mut("x").unwrap() = Var::Reference(root, y);
    *manager.get_scope_mut(root).unwrap().get_var_mut("y").unwrap() = Var::Reference(root, x);
    assert_eq!(manager.resolve_reference(root, x), None);
    assert_eq!(manager.resolve_reference(root, y), None);
    assert_eq!(manager.resolve_reference(root, entry), None);
    assert!(manager.find_function("e").is_none());
}

#[test]
fn alias_of_itself_resolves_to_nothing() {
    let mut manager = ScopeManager::fresh();
    let root = manager.get_root_scope_id().unwrap();
    manager.declare(root, "x".to_string(), Value::Other);
    let x = manager.get_scope(root).unwrap().get_var_id("x").unwrap();
    *manager.get_scope_mut(root).unwrap().get_var_mut("x").unwrap() = Var::Reference(root, x);
    assert_eq!(manager.resolve_reference(root, x), None);
}

#[test]
fn dangling_alias_resolves_to_nothing() {
    let mut manager = ScopeManager::fresh();
    let root = manager.get_root_scope_id().unwrap();
    let inner = manager.open_scope(1);
    manager.declare(inner, "a".to_string(), Value::Other);
    manager.declare(inner, "b".to_string(), Value::Other);
    let b = manager.get_scope(inner).unwrap().get_var_id("b").unwrap();
    // The global scope has no binding under the key of the second binding of `inner`.
    let alias = manager.get_scope_mut(inner).unwrap().alloc_reference("c".to_string(), root, b);
    assert_eq!(manager.resolve_reference(inner, alias), None);
    assert_eq!(manager.resolve_reference(root, b), None);
    assert_eq!(manager.get_value(root, {
        match manager.get_scope(inner).unwrap().var(b) {
            Some(Var::Local(value)) => *value,
            other => panic!("unexpected binding {:?}", other),
        }
    }), None);
}

#[test]
fn get_current_scope_mut_writes_to_the_innermost_scope() {
    let mut manager = ScopeManager::fresh();
    let inner = manager.open_scope(1);
    manager.get_current_scope_mut().unwrap().alloc_local("x".to_string(), Value::Other);
    assert!(manager.get_scope(inner).unwrap().get_var("x").is_some());
    let root = manager.get_root_scope_id().unwrap();
    assert!(manager.get_scope(root).unwrap().get_var("x").is_none());
    assert!(manager.get_current_scope().unwrap().get_var("x").is_some());
}

#[test]
fn extract_params_reads_names_and_parentheses() {
    let mut manager = ScopeManager::fresh();
    let root = manager.get_root_scope_id().unwrap();
    manager.declare(root, "f".to_string(), Value::Function(params(&[" a ", "b"])));
    let expected = vec![
        ("a".to_string(), Position { line: 1, character: 10 }),
        ("b".to_string(), Position { line: 1, character: 11 }),
    ];
    assert_eq!(manager.extract_params(&Expression::Name("f ".to_string())), Some(expected.clone()));
    assert_eq!(
        manager.extract_params(&Expression::Parentheses(Box::new(Expression::Name(
            "f".to_string()
        )))),
        Some(expected.clone())
    );
    assert_eq!(
        manager.extract_params(&Expression::ParenthesizedValue(Box::new(Expression::Name(
            "\tf\n".to_string()
        )))),
        Some(expected)
    );
    // A function literal is no name: it denotes no function to hint for.
    assert_eq!(manager.extract_params(&Expression::Function(params(&[" a ", "b"]))), None);
    assert_eq!(
        manager.extract_params(&Expression::Parentheses(Box::new(Expression::Function(params(
            &["a"]
        ))))),
        None
    );
    assert_eq!(manager.extract_params(&Expression::Name("g".to_string())), None);
    assert_eq!(manager.extract_params(&Expression::OtherValue), None);
    assert_eq!(manager.extract_params(&Expression::Operation), None);
}

#[test]
fn pair_hints_stops_at_the_shorter_list() {
    let labels = labels_of(&params(&["a", "b"]));
    let arguments = vec![
        Position { line: 3, character: 4 },
        Position { line: 3, character: 7 },
        Position { line: 3, character: 10 },
    ];
    let hints = pair_hints(&arguments, labels);
    assert_eq!(
        hints,
        vec![
            Hint {
                position: HintPosition { line: 3, character: 4 },
                label: "a".to_string(),
                kind: HintKind::Parameter
            },
            Hint {
                position: HintPosition { line: 3, character: 7 },
                label: "b".to_string(),
                kind: HintKind::Parameter
            },
        ]
    );
    assert!(pair_hints(&vec![], labels_of(&params(&["a"]))).is_empty());
    assert!(pair_hints(&arguments, vec![]).is_empty());
}

#[test]
fn name_of_removes_surrounding_whitespace_only() {
    assert_eq!(name_of("  add\t\n"), "add");
    assert_eq!(name_of("a b"), "a b");
    assert_eq!(name_of(""), "");
    assert_eq!(name_of(" \n "), "");
    assert_eq!(name_of("f --[[c]] "), "f --[[c]]");
}

#[test]
fn to_hint_position_truncates_to_32_bits() {
    assert_eq!(
        to_hint_position(Position { line: 7, character: 9 }),
        HintPosition { line: 7, character: 9 }
    );
    let wide = u32::MAX as usize;
    assert_eq!(
        to_hint_position(Position { line: wide, character: wide }),
        HintPosition { line: u32::MAX, character: u32::MAX }
    );
}

#[test]
fn add_hints_appends_in_order() {
    let mut manager = ScopeManager::fresh();
    let hint = |c: u32| Hint {
        position: HintPosition { line: 1, character: c },
        label: "p".to_string(),
        kind: HintKind::Parameter,
    };
    manager.add_hint(hint(1));
    manager.add_hints(vec![hint(2), hint(3)]);
    assert_eq!(manager.hints(), &vec![hint(1), hint(2), hint(3)]);
    assert_eq!(manager.into_hints(), vec![hint(1), hint(2), hint(3)]);
}

#[test]
fn reenter_root_makes_the_global_scope_current_until_closed() {
    let mut manager = ScopeManager::fresh();
    let root = manager.get_root_scope_id().unwrap();
    let inner = manager.open_scope(1);
    manager.reenter_root();
    assert_eq!(manager.get_current_scope_id(), Some(root));
    let body = manager.open_scope(2);
    assert_eq!(manager.get_scope(body).unwrap().parent(), Some(root));
    manager.close_scope();
    manager.close_scope();
    assert_eq!(manager.get_current_scope_id(), Some(inner));
}

#[test]
fn get_var_reads_a_binding_by_scope_and_key() {
    let mut manager = ScopeManager::fresh();
    let root = manager.get_root_scope_id().unwrap();
    let inner = manager.open_scope(1);
    manager.declare(inner, "x".to_string(), Value::Other);
    let x = manager.get_scope(inner).unwrap().get_var_id("x").unwrap();
    assert!(matches!(manager.get_var(inner, x), Some(Var::Local(_))));
    assert_eq!(manager.get_var(root, x), None);
}

#[test]
fn scopes_can_be_read_and_written_by_key() {
    let mut manager = ScopeManager::fresh();
    let inner = manager.open_scope(1);
    manager.get_scope_by_id_mut(inner).unwrap().alloc_local("x".to_string(), Value::Other);
    assert!(manager.get_scope_by_id(inner).unwrap().get_var("x").is_some());
    let other = ScopeManager::fresh();
    assert!(other.get_scope_by_id(inner).is_none());
}

#[test]
fn whitespace_is_what_the_standard_library_takes_it_to_be() {
    for code in 0..=0x10FFFFu32 {
        if let Some(c) = char::from_u32(code) {
            assert_eq!(is_whitespace(c), c.is_whitespace(), "U+{:04X}", code);
        }
    }
}

#[test]
fn name_of_agrees_with_trimming_by_hand() {
    for text in ["\u{a0}f\u{3000}", "\u{2003}a b\u{85}\r\n", "\u{200b}f", "x\u{180e}", "\u{feff}y"] {
        let by_hand: String = {
            let chars: Vec<char> = text.chars().collect();
            let start = chars.iter().position(|c| !is_whitespace(*c)).unwrap_or(chars.len());
            let end = chars.iter().rposition(|c| !is_whitespace(*c)).map_or(start, |i| i + 1);
            chars[start..end].iter().collect()
        };
        assert_eq!(name_of(text), by_hand, "{:?}", text);
    }
    assert_eq!(name_of("\u{a0}f\u{3000}"), "f");
    assert_eq!(name_of("\u{200b}f"), "\u{200b}f");
}
