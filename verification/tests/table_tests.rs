use lua_hints::table::{Field, TableConstructor};
use lua_hints::visitor::Fields;

fn sample() -> TableConstructor<String> {
    // { 10, a = 20, ["k"] = 30, 40, a = 50, ["k"] = 60, [ "q" ] = 70 }
    TableConstructor {
        fields: vec![
            Field::NoKey("10".to_string()),
            Field::NameKey { key: "a".to_string(), value: "20".to_string() },
            Field::ExpressionKey { key: "\"k\"".to_string(), value: "30".to_string() },
            Field::NoKey("40".to_string()),
            Field::NameKey { key: "a ".to_string(), value: "50".to_string() },
            Field::ExpressionKey { key: "\"k\"".to_string(), value: "60".to_string() },
            Field::ExpressionKey { key: "\"q\"".to_string(), value: "70".to_string() },
        ],
    }
}

#[test]
fn named_fields_keeps_order_and_keys_as_written() {
    let table = sample();
    let named = table.named_fields();
    assert_eq!(
        named,
        vec![("a".to_string(), &"20".to_string()), ("a ".to_string(), &"50".to_string())]
    );
}

#[test]
fn named_field_finds_the_first_exact_match() {
    let table = sample();
    assert_eq!(table.named_field("a".to_string()), Some(&"20".to_string()));
    assert_eq!(table.named_field("a ".to_string()), Some(&"50".to_string()));
    assert_eq!(table.named_field("b".to_string()), None);
}

#[test]
fn indexed_fields_are_the_fields_without_a_key() {
    let table = sample();
    assert_eq!(table.indexed_fields(), vec![&"10".to_string(), &"40".to_string()]);
    assert_eq!(table.indexed_field(0), Some(&"10".to_string()));
    assert_eq!(table.indexed_field(1), Some(&"40".to_string()));
    assert_eq!(table.indexed_field(2), None);
}

#[test]
fn expr_fields_are_the_fields_with_a_key_expression() {
    let table = sample();
    let k = "\"k\"".to_string();
    let q = "\"q\"".to_string();
    assert_eq!(
        table.expr_fields(),
        vec![(&k, &"30".to_string()), (&k, &"60".to_string()), (&q, &"70".to_string())]
    );
    assert_eq!(table.expr_field(&k), Some(&"30".to_string()));
    assert_eq!(table.expr_field(&q), Some(&"70".to_string()));
    assert_eq!(table.expr_field(&"k".to_string()), None);
}

#[test]
fn empty_table_has_no_fields() {
    let table: TableConstructor<u64> = TableConstructor { fields: vec![] };
    assert!(table.named_fields().is_empty());
    assert!(table.indexed_fields().is_empty());
    assert!(table.expr_fields().is_empty());
    assert_eq!(table.named_field("a".to_string()), None);
    assert_eq!(table.indexed_field(0), None);
    assert_eq!(table.expr_field(&1), None);
}
