use pumpkin_wire::codegen::{CodegenError, build_component_rows, component_entries};
use pumpkin_wire::component::{ComponentRegistry, DataComponent};

const CURRENT: &str = r#"{
    "minecraft:lodestone_tracker": 67,
    "minecraft:custom_name": 6,
    "minecraft:fireworks": 69,
    "minecraft:newer/component": 68
}"#;

const LEGACY: &str = r#"{
    "minecraft:custom_name": 6,
    "minecraft:fireworks": 67,
    "minecraft:lodestone_tracker": 65
}"#;

#[test]
fn rows_are_sorted_by_id_with_variant_names_and_legacy_ids() {
    let rows = build_component_rows(CURRENT, LEGACY).unwrap();
    let summary: Vec<(&str, &str, &str, u8, Option<u8>)> = rows
        .iter()
        .map(|r| (r.raw_name.as_str(), r.strip_name.as_str(), r.variant.as_str(), r.id, r.legacy_id))
        .collect();
    assert_eq!(
        summary,
        vec![
            ("minecraft:custom_name", "custom_name", "CustomName", 6, Some(6)),
            ("minecraft:lodestone_tracker", "lodestone_tracker", "LodestoneTracker", 67, Some(65)),
            ("minecraft:newer/component", "newer_component", "NewerComponent", 68, None),
            ("minecraft:fireworks", "fireworks", "Fireworks", 69, Some(67)),
        ]
    );
}

#[test]
fn rows_feed_the_registry() {
    let rows = build_component_rows(CURRENT, LEGACY).unwrap();
    let reg = ComponentRegistry::new(component_entries(&rows)).unwrap();
    assert_eq!(reg.try_from_id_legacy(67), Some(DataComponent(69)));
    assert_eq!(reg.to_id_legacy(DataComponent(68)), None);
}

#[test]
fn unreadable_tables_and_missing_namespace() {
    assert!(matches!(build_component_rows("not json", LEGACY), Err(CodegenError::UnreadableTable)));
    assert!(matches!(
        build_component_rows(CURRENT, r#"{"minecraft:x": 300}"#),
        Err(CodegenError::UnreadableLegacyTable)
    ));
    match build_component_rows(r#"{"stone": 1}"#, "{}") {
        Err(CodegenError::MissingNamespace(n)) => assert_eq!(n, "stone"),
        _ => panic!("expected a missing namespace"),
    }
}
