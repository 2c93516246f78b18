use entity_values::Entity;
use entity_values::UntypedValue;
use entity_values::Value;

#[test]
fn merge_overwrites_deletes_and_keeps() {
    let mut base = Entity::from_entries(vec![
        ("a".to_owned(), Value::Int(1)),
        ("b".to_owned(), Value::String("x".to_owned())),
    ]);
    let update = Entity::from_entries(vec![
        ("b".to_owned(), Value::Null),
        ("c".to_owned(), Value::Bool(true)),
    ]);
    base.merge(update);
    assert_eq!(base.get("a"), Some(&Value::Int(1)));
    assert_eq!(base.get("b"), None);
    assert_eq!(base.get("c"), Some(&Value::Bool(true)));
}

#[test]
fn merge_empty_update_changes_nothing() {
    let mut base = Entity::from_entries(vec![
        ("a".to_owned(), Value::Int(1)),
        ("b".to_owned(), Value::String("x".to_owned())),
    ]);
    let snapshot = base.to_ordered_object();
    base.merge(Entity::new());
    assert_eq!(base.to_ordered_object(), snapshot);
    assert_eq!(base.get("a"), Some(&Value::Int(1)));
    assert_eq!(base.get("b"), Some(&Value::String("x".to_owned())));
}

#[test]
fn merge_update_wins_on_conflict() {
    let mut base = Entity::from_entries(vec![("k".to_owned(), Value::Int(1))]);
    let update = Entity::from_entries(vec![("k".to_owned(), Value::Int(2))]);
    base.merge(update);
    assert_eq!(base.get("k"), Some(&Value::Int(2)));
}

#[test]
fn merge_null_on_absent_key_is_noop() {
    let mut base = Entity::from_entries(vec![("a".to_owned(), Value::Int(1))]);
    let update = Entity::from_entries(vec![("missing".to_owned(), Value::Null)]);
    base.merge(update);
    assert_eq!(base.get("a"), Some(&Value::Int(1)));
    assert_eq!(base.get("missing"), None);
}

#[test]
fn ordered_object_is_sorted_regardless_of_insertion_order() {
    let one = Entity::from_entries(vec![
        ("z".to_owned(), Value::Int(1)),
        ("a".to_owned(), Value::Int(2)),
    ]);
    let other = Entity::from_entries(vec![
        ("a".to_owned(), Value::Int(2)),
        ("z".to_owned(), Value::Int(1)),
    ]);
    let expected = vec![
        ("a".to_owned(), UntypedValue::Int(2)),
        ("z".to_owned(), UntypedValue::Int(1)),
    ];
    assert_eq!(one.to_ordered_object(), expected);
    assert_eq!(other.to_ordered_object(), expected);
}

#[test]
fn ordered_object_renders_values() {
    let entity = Entity::from_entries(vec![
        ("bytes".to_owned(), Value::Bytes(vec![0x8f, 0x49])),
        ("flag".to_owned(), Value::Bool(false)),
    ]);
    let ordered = entity.to_ordered_object();
    assert_eq!(
        ordered,
        vec![
            ("bytes".to_owned(), UntypedValue::String("0x8f49".to_owned())),
            ("flag".to_owned(), UntypedValue::Bool(false)),
        ]
    );
}

#[test]
fn set_get_remove_roundtrip() {
    let mut entity = Entity::new();
    assert_eq!(entity.get("a"), None);
    entity.set("a".to_owned(), Value::Int(1));
    entity.set("a".to_owned(), Value::Int(5));
    assert_eq!(entity.get("a"), Some(&Value::Int(5)));
    entity.remove("a");
    assert_eq!(entity.get("a"), None);
    entity.remove("a");
    assert_eq!(entity.get("a"), None);
}

#[test]
fn from_entries_later_pair_wins() {
    let entity = Entity::from_entries(vec![
        ("k".to_owned(), Value::Int(1)),
        ("k".to_owned(), Value::Int(2)),
    ]);
    assert_eq!(entity.get("k"), Some(&Value::Int(2)));
    assert_eq!(entity.to_ordered_object().len(), 1);
}
