use lua_hints::scope::{Scope, ScopeManager, Value, Var};
use lua_hints::syntax::{Parameter, Position};

fn function(names: &[&str]) -> Value {
    Value::Function(
        names
            .iter()
            .enumerate()
            .map(|(i, n)| Parameter {
                text: n.to_string(),
                position: Position { line: 1, character: 10 + i },
            })
            .collect(),
    )
}

#[test]
fn new_scope_has_no_bindings() {
    let scope = Scope::new(None);
    assert!(scope.get_var("x").is_none());
    assert!(scope.get_var_id("x").is_none());
    assert!(scope.name().is_none());
    assert!(scope.parent().is_none());
}

#[test]
fn new_named_scope_keeps_parent_and_name() {
    let manager = ScopeManager::fresh();
    let root = manager.get_root_scope_id().unwrap();
    let scope = Scope::new_named(Some(root), "body".to_string());
    assert_eq!(scope.name(), Some("body"));
    assert_eq!(scope.parent(), Some(root));
    let renamed = scope.with_name("other".to_string());
    assert_eq!(renamed.name(), Some("other"));
    assert_eq!(renamed.parent(), Some(root));
}

#[test]
fn alloc_local_binds_the_name() {
    let mut scope = Scope::new(None);
    let var = scope.alloc_local("x".to_string(), Value::Other);
    assert_eq!(scope.get_var_id("x"), Some(var));
    match scope.get_var("x") {
        Some(Var::Local(value)) => assert_eq!(scope.value(*value), Some(&Value::Other)),
        other => panic!("unexpected binding {:?}", other),
    }
}

#[test]
fn alloc_value_returns_distinct_keys() {
    let mut scope = Scope::new(None);
    let a = scope.alloc_value(function(&["p"]));
    let b = scope.alloc_value(Value::Other);
    assert_ne!(a, b);
    assert_eq!(scope.value(a), Some(&function(&["p"])));
    assert_eq!(scope.value(b), Some(&Value::Other));
}

#[test]
fn rebinding_a_name_keeps_the_old_binding_alive() {
    let mut scope = Scope::new(None);
    let first = scope.alloc_local("x".to_string(), function(&["a"]));
    let second = scope.alloc_local("x".to_string(), Value::Other);
    assert_ne!(first, second);
    assert_eq!(scope.get_var_id("x"), Some(second));
    match scope.var(first) {
        Some(Var::Local(value)) => assert_eq!(scope.value(*value), Some(&function(&["a"]))),
        other => panic!("unexpected binding {:?}", other),
    }
}

#[test]
fn alloc_var_and_alloc_reference_store_what_they_are_given() {
    let manager = ScopeManager::fresh();
    let root = manager.get_root_scope_id().unwrap();
    let mut scope = Scope::new(None);
    let value = scope.alloc_value(Value::Other);
    let direct = scope.alloc_var("d".to_string(), Var::Local(value));
    let alias = scope.alloc_reference("a".to_string(), root, direct);
    assert_eq!(scope.get_var("d"), Some(&Var::Local(value)));
    assert_eq!(scope.get_var("a"), Some(&Var::Reference(root, direct)));
    assert_eq!(scope.get_var_id("a"), Some(alias));
}

#[test]
fn get_var_mut_replaces_one_binding() {
    let manager = ScopeManager::fresh();
    let root = manager.get_root_scope_id().unwrap();
    let mut scope = Scope::new(None);
    let x = scope.alloc_local("x".to_string(), Value::Other);
    let y = scope.alloc_local("y".to_string(), Value::Other);
    let before_y = *scope.var(y).unwrap();
    *scope.get_var_mut("x").unwrap() = Var::Reference(root, y);
    assert_eq!(scope.var(x), Some(&Var::Reference(root, y)));
    assert_eq!(scope.var(y), Some(&before_y));
    assert!(scope.get_var_mut("z").is_none());
}

#[test]
fn keys_of_another_scope_are_not_found() {
    let mut big = Scope::new(None);
    big.alloc_local("a".to_string(), Value::Other);
    let second = big.alloc_local("b".to_string(), Value::Other);
    let mut small = Scope::new(None);
    small.alloc_local("a".to_string(), Value::Other);
    assert!(small.var(second).is_none());
    assert!(big.var(second).is_some());
}
