use ecs_store::component::Component;
use ecs_store::field::combine;
use ecs_store::field::FieldType;
use ecs_store::store::Store;

fn float(v: f64) -> FieldType {
    FieldType::Float(v.to_bits())
}

fn make_component(fields: &[(&str, FieldType)]) -> Component {
    let mut c = Component::new();
    for (name, value) in fields {
        c.set(&name.to_string(), *value);
    }
    c
}

#[test]
fn combine_integer_integer() {
    assert_eq!(
        combine(FieldType::Integer(2), FieldType::Integer(3)),
        FieldType::Integer(5)
    );
}

#[test]
fn combine_integer_float() {
    assert_eq!(combine(FieldType::Integer(2), float(1.5)), float(3.5));
}

#[test]
fn combine_float_integer() {
    assert_eq!(combine(float(1.5), FieldType::Integer(2)), float(3.5));
}

#[test]
fn combine_float_float() {
    assert_eq!(combine(float(1.0), float(2.0)), float(3.0));
}

#[test]
fn combine_integer_overflow_wraps() {
    assert_eq!(
        combine(FieldType::Integer(i64::MAX), FieldType::Integer(1)),
        FieldType::Integer(i64::MIN)
    );
}

#[test]
fn combine_widens_large_integer() {
    // 2^60 is not exactly representable plus 0.5; the sum must be the
    // IEEE sum of the widened integer, not something built from raw bits.
    let big: i64 = 1 << 60;
    assert_eq!(
        combine(FieldType::Integer(big), float(0.5)),
        float(big as f64 + 0.5)
    );
}

#[test]
fn attach_component_first_write_wins() {
    let mut store = Store::new();
    let id = store.add_entity(Vec::new());
    store.attach_component(
        id,
        &"health".to_string(),
        make_component(&[("hp", FieldType::Integer(10))]),
    );
    store.attach_component(
        id,
        &"health".to_string(),
        make_component(&[("hp", FieldType::Integer(99))]),
    );
    assert_eq!(
        store.get_field(id, &"health".to_string(), &"hp".to_string()),
        Some(FieldType::Integer(10))
    );
}

#[test]
fn attach_component_arbitrary_id_is_legal() {
    let mut store = Store::new();
    store.attach_component(
        42,
        &"tag".to_string(),
        make_component(&[("v", FieldType::Integer(1))]),
    );
    assert_eq!(
        store.get_field(42, &"tag".to_string(), &"v".to_string()),
        Some(FieldType::Integer(1))
    );
    // the id was never issued, so the creation-order list is untouched
    assert_eq!(store.get_entities_with_components(&Vec::new()).len(), 0);
}

#[test]
fn entity_ids_strictly_increasing_from_one() {
    let mut store = Store::new();
    assert_eq!(store.add_entity(Vec::new()), 1);
    assert_eq!(store.add_entity(Vec::new()), 2);
    assert_eq!(store.add_entity(Vec::new()), 3);
}

#[test]
fn get_entity_unknown_id_has_zero_components() {
    let mut store = Store::new();
    store.add_entity(vec![(
        "position".to_string(),
        make_component(&[("x", float(0.0))]),
    )]);
    let missing = store.get_entity(999);
    assert_eq!(missing.components.len(), 0);
}

#[test]
fn empty_query_on_empty_store_is_empty() {
    let store = Store::new();
    assert_eq!(store.get_entities_with_components(&Vec::new()).len(), 0);
}

#[test]
fn unregistered_name_forces_empty_result() {
    let mut store = Store::new();
    store.add_entity(vec![(
        "position".to_string(),
        make_component(&[("x", float(0.0))]),
    )]);
    let names = vec!["position".to_string(), "velocity".to_string()];
    assert_eq!(store.get_entities_with_components(&names).len(), 0);
    let names = vec!["velocity".to_string(), "position".to_string()];
    assert_eq!(store.get_entities_with_components(&names).len(), 0);
}

#[test]
fn query_with_more_names_yields_subset() {
    let mut store = Store::new();
    let both = store.add_entity(vec![
        ("position".to_string(), make_component(&[("x", float(1.0))])),
        (
            "velocity".to_string(),
            make_component(&[("dx", float(0.5))]),
        ),
    ]);
    let only_position = store.add_entity(vec![(
        "position".to_string(),
        make_component(&[("x", float(2.0))]),
    )]);
    let wide = store.get_entities_with_components(&vec!["position".to_string()]);
    let narrow = store.get_entities_with_components(&vec![
        "position".to_string(),
        "velocity".to_string(),
    ]);
    assert_eq!(wide.len(), 2);
    assert_eq!(narrow.len(), 1);
    assert!(narrow[0].components.iter().any(|p| p.0 == "velocity"));
    let _ = (both, only_position);
}

#[test]
fn update_field_failure_taxonomy() {
    let mut store = Store::new();
    let id = store.add_entity(vec![(
        "position".to_string(),
        make_component(&[("x", float(0.0))]),
    )]);
    // unknown component category
    assert!(!store.update_field(id, &"velocity".to_string(), &"dx".to_string(), float(1.0)));
    // entity lacks the (registered) component
    let bare = store.add_entity(Vec::new());
    assert!(!store.update_field(bare, &"position".to_string(), &"x".to_string(), float(1.0)));
    // otherwise the write is unconditional, creating the field if unset
    assert!(store.update_field(id, &"position".to_string(), &"z".to_string(), float(9.0)));
    assert_eq!(
        store.get_field(id, &"position".to_string(), &"z".to_string()),
        Some(float(9.0))
    );
}

#[test]
fn get_field_absent_outcomes() {
    let mut store = Store::new();
    let id = store.add_entity(vec![(
        "position".to_string(),
        make_component(&[("x", float(0.0))]),
    )]);
    assert_eq!(
        store.get_field(id, &"momentum".to_string(), &"x".to_string()),
        None
    );
    assert_eq!(
        store.get_field(7, &"position".to_string(), &"x".to_string()),
        None
    );
    assert_eq!(
        store.get_field(id, &"position".to_string(), &"w".to_string()),
        None
    );
}

#[test]
fn increment_field_absent_returns_false_without_effect() {
    let mut store = Store::new();
    let id = store.add_entity(vec![(
        "position".to_string(),
        make_component(&[("x", float(1.0))]),
    )]);
    assert!(!store.increment_field(id, &"position".to_string(), &"y".to_string(), float(1.0)));
    assert!(!store.increment_field(id, &"momentum".to_string(), &"x".to_string(), float(1.0)));
    assert!(!store.increment_field(99, &"position".to_string(), &"x".to_string(), float(1.0)));
    // the present field is untouched and the absent one still absent
    assert_eq!(
        store.get_field(id, &"position".to_string(), &"x".to_string()),
        Some(float(1.0))
    );
    assert_eq!(
        store.get_field(id, &"position".to_string(), &"y".to_string()),
        None
    );
    assert_eq!(store.get_entities_with_components(&Vec::new()).len(), 1);
}

#[test]
fn increment_field_combines_per_promotion_table() {
    let mut store = Store::new();
    let id = store.add_entity(vec![(
        "stats".to_string(),
        make_component(&[("score", FieldType::Integer(2)), ("mass", float(1.5))]),
    )]);
    assert!(store.increment_field(
        id,
        &"stats".to_string(),
        &"score".to_string(),
        FieldType::Integer(3)
    ));
    assert_eq!(
        store.get_field(id, &"stats".to_string(), &"score".to_string()),
        Some(FieldType::Integer(5))
    );
    // an Integer delta on a Float field promotes to Float
    assert!(store.increment_field(
        id,
        &"stats".to_string(),
        &"mass".to_string(),
        FieldType::Integer(2)
    ));
    assert_eq!(
        store.get_field(id, &"stats".to_string(), &"mass".to_string()),
        Some(float(3.5))
    );
    // and a Float delta on an Integer field does too
    assert!(store.increment_field(
        id,
        &"stats".to_string(),
        &"score".to_string(),
        float(1.5)
    ));
    assert_eq!(
        store.get_field(id, &"stats".to_string(), &"score".to_string()),
        Some(float(6.5))
    );
}

#[test]
fn end_to_end_scenario() {
    let mut store = Store::new();
    // entity E1 with "position" = {x: 0.0, y: 0.0}
    let e1 = store.add_entity(vec![(
        "position".to_string(),
        make_component(&[("x", float(0.0)), ("y", float(0.0))]),
    )]);
    assert_eq!(e1, 1);
    // entity E2 with no components
    let e2 = store.add_entity(Vec::new());
    assert_eq!(e2, 2);
    // only E1 carries "position"
    let with_position = store.get_entities_with_components(&vec!["position".to_string()]);
    assert_eq!(with_position.len(), 1);
    assert_eq!(with_position[0].components.len(), 1);
    assert_eq!(with_position[0].components[0].0, "position");
    // overwrite x
    assert!(store.update_field(e1, &"position".to_string(), &"x".to_string(), float(1.0)));
    assert_eq!(
        store.get_field(e1, &"position".to_string(), &"x".to_string()),
        Some(float(1.0))
    );
    // increment x
    assert!(store.increment_field(e1, &"position".to_string(), &"x".to_string(), float(1.0)));
    assert_eq!(
        store.get_field(e1, &"position".to_string(), &"x".to_string()),
        Some(float(2.0))
    );
    // y was never touched
    assert_eq!(
        store.get_field(e1, &"position".to_string(), &"y".to_string()),
        Some(float(0.0))
    );
    // the empty query returns both entities
    let everyone = store.get_entities_with_components(&Vec::new());
    assert_eq!(everyone.len(), 2);
}

#[test]
fn component_field_overwrite_is_unconditional() {
    let mut c = Component::new();
    let x = "x".to_string();
    c.set(&x, FieldType::Integer(1));
    c.set(&x, FieldType::Integer(2));
    assert_eq!(c.get(&x), Some(FieldType::Integer(2)));
    assert_eq!(c.fields.len(), 1);
    assert_eq!(c.get(&"y".to_string()), None);
}
