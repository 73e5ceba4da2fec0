use revy::change_detection::{component_is_candidate, component_to_hash, CurrentHashes};
use revy::default_loggers::{
    DefaultRerunComponentLoggers, LOGGER_AABB, LOGGER_CHILDREN, LOGGER_PARENT, LOGGER_TRANSFORM,
};
use revy::entity_path::{ancestors_from_world, compute_entity_path, segment_of, EntityPath};
use revy::rerun_logger::{get_component_logger, LoggerRef, RerunComponentLoggers};
use revy::snapshot::{AssetChanges, ComponentSnapshot, EntitySnapshot};
use revy::text::{sanitize_kind_name, u64_to_decimal};

fn entity(id: u64, parent: Option<u64>, name: Option<&str>) -> EntitySnapshot {
    EntitySnapshot {
        id,
        parent,
        name: name.map(|n| n.to_string()),
        components: Vec::new(),
    }
}

fn comp(kind: &str, changed: bool, hash: Option<u64>) -> ComponentSnapshot {
    ComponentSnapshot { kind: kind.to_string(), changed, hash }
}

fn parts(p: &EntityPath) -> Vec<String> {
    p.parts.clone()
}

#[test]
fn decimal_rendering() {
    assert_eq!(u64_to_decimal(0), "0");
    assert_eq!(u64_to_decimal(7), "7");
    assert_eq!(u64_to_decimal(1234), "1234");
    assert_eq!(u64_to_decimal(u64::MAX), "18446744073709551615");
}

#[test]
fn sanitize_kind_names() {
    assert_eq!(sanitize_kind_name("a::b::c"), "a.b.c");
    assert_eq!(sanitize_kind_name("abc"), "abc");
    assert_eq!(sanitize_kind_name(""), "");
    assert_eq!(sanitize_kind_name("x:y"), "x:y");
    assert_eq!(
        sanitize_kind_name("bevy_transform::components::transform::Transform"),
        "bevy_transform.components.transform.Transform"
    );
}

#[test]
fn segments() {
    assert_eq!(segment_of(5, &None), "5");
    assert_eq!(segment_of(5, &Some("root".to_string())), "5_root");
}

#[test]
fn root_entity_path() {
    let world = vec![entity(1, None, Some("root"))];
    let p = compute_entity_path(&world, 1);
    assert_eq!(parts(&p), vec!["world".to_string(), "1_root".to_string()]);
}

#[test]
fn child_entity_path() {
    let world = vec![entity(1, None, Some("root")), entity(2, Some(1), None)];
    let p = compute_entity_path(&world, 2);
    assert_eq!(
        parts(&p),
        vec!["world".to_string(), "1_root".to_string(), "2".to_string()]
    );
}

#[test]
fn path_stability_within_snapshot() {
    let world = vec![entity(1, None, Some("root")), entity(2, Some(1), Some("kid"))];
    let p1 = compute_entity_path(&world, 2);
    let p2 = compute_entity_path(&world, 2);
    assert_eq!(parts(&p1), parts(&p2));
    assert!(p1.eq_path(&p2));
}

#[test]
fn reparenting_changes_resolved_path() {
    let before = vec![
        entity(1, None, Some("root")),
        entity(3, None, Some("leaf")),
        entity(2, Some(1), None),
    ];
    let after = vec![
        entity(1, None, Some("root")),
        entity(3, None, Some("leaf")),
        entity(2, Some(3), None),
    ];
    let p_before = compute_entity_path(&before, 2);
    let p_after = compute_entity_path(&after, 2);
    assert_eq!(
        parts(&p_before),
        vec!["world".to_string(), "1_root".to_string(), "2".to_string()]
    );
    assert_eq!(
        parts(&p_after),
        vec!["world".to_string(), "3_leaf".to_string(), "2".to_string()]
    );
    assert!(!p_before.eq_path(&p_after));
}

#[test]
fn dangling_parent_resolves_as_root() {
    let world = vec![entity(2, Some(99), None)];
    let p = compute_entity_path(&world, 2);
    assert_eq!(parts(&p), vec!["world".to_string(), "2".to_string()]);
}

#[test]
fn ancestors_ascend_to_root() {
    let world = vec![
        entity(1, None, None),
        entity(2, Some(1), None),
        entity(3, Some(2), None),
    ];
    assert_eq!(ancestors_from_world(&world, 3), vec![2, 1]);
    assert_eq!(ancestors_from_world(&world, 1), Vec::<u64>::new());
}

#[test]
fn default_table_resolution() {
    let defaults = DefaultRerunComponentLoggers::default();
    let kind = "bevy_transform::components::transform::Transform".to_string();
    assert_eq!(
        get_component_logger(&kind, None, &defaults),
        Some(LoggerRef::Custom(LOGGER_TRANSFORM))
    );
    let aabb = "bevy_render::primitives::Aabb".to_string();
    assert_eq!(
        get_component_logger(&aabb, None, &defaults),
        Some(LoggerRef::Custom(LOGGER_AABB))
    );
    let parent = "bevy_hierarchy::components::parent::Parent".to_string();
    assert_eq!(
        get_component_logger(&parent, None, &defaults),
        Some(LoggerRef::Custom(LOGGER_PARENT))
    );
    let children = "bevy_hierarchy::components::children::Children".to_string();
    assert_eq!(
        get_component_logger(&children, None, &defaults),
        Some(LoggerRef::Custom(LOGGER_CHILDREN))
    );
}

#[test]
fn unknown_kind_falls_back() {
    let defaults = DefaultRerunComponentLoggers::default();
    let kind = "demo::Unknown".to_string();
    assert_eq!(get_component_logger(&kind, None, &defaults), Some(LoggerRef::Fallback));
}

#[test]
fn suppressed_kind_resolves_to_nothing() {
    let defaults = DefaultRerunComponentLoggers::default();
    let kind = "revy::entity_path::RerunEntityPath".to_string();
    assert_eq!(get_component_logger(&kind, None, &defaults), None);
}

#[test]
fn override_wins_over_default() {
    let defaults = DefaultRerunComponentLoggers::default();
    let kind = "bevy_transform::components::transform::Transform".to_string();
    let overrides = RerunComponentLoggers::new(vec![(kind.clone(), Some(42))]);
    assert_eq!(
        get_component_logger(&kind, Some(&overrides), &defaults),
        Some(LoggerRef::Custom(42))
    );
    let suppressing = RerunComponentLoggers::new(vec![(kind.clone(), None)]);
    assert_eq!(get_component_logger(&kind, Some(&suppressing), &defaults), None);
}

#[test]
fn override_last_entry_wins() {
    let kind = "demo::Kind".to_string();
    let overrides = RerunComponentLoggers::new(vec![
        (kind.clone(), Some(1)),
        (kind.clone(), Some(2)),
    ]);
    let defaults = DefaultRerunComponentLoggers::default();
    assert_eq!(
        get_component_logger(&kind, Some(&overrides), &defaults),
        Some(LoggerRef::Custom(2))
    );
}

#[test]
fn candidate_rules() {
    let none = AssetChanges::none();
    let images = AssetChanges { images: true, ..AssetChanges::none() };
    let meshes = AssetChanges { meshes: true, ..AssetChanges::none() };
    let stdmats = AssetChanges { standard_materials: true, ..AssetChanges::none() };

    assert!(component_is_candidate(&comp("demo::Kind", true, None), &none));
    assert!(!component_is_candidate(&comp("demo::Kind", false, None), &none));
    assert!(!component_is_candidate(&comp("demo::Kind", false, None), &images));

    let mesh3d = "bevy_render::mesh::components::Mesh3d";
    assert!(component_is_candidate(&comp(mesh3d, false, None), &images));
    assert!(component_is_candidate(&comp(mesh3d, false, None), &meshes));
    let sprite = "bevy_sprite::sprite::Sprite";
    assert!(component_is_candidate(&comp(sprite, false, None), &images));
    assert!(!component_is_candidate(&comp(sprite, false, None), &meshes));
    let aabb = "bevy_render::primitives::Aabb";
    assert!(component_is_candidate(&comp(aabb, false, None), &stdmats));
    assert!(!component_is_candidate(&comp(aabb, false, None), &images));
}

#[test]
fn hash_cache_decides_emission() {
    let mut cache = CurrentHashes::new();
    let kind = "demo::Kind".to_string();
    assert!(cache.should_emit(&kind, 7));
    cache.set(kind.clone(), 7);
    assert!(!cache.should_emit(&kind, 7));
    assert!(cache.should_emit(&kind, 8));
    assert_eq!(cache.get(&kind), Some(7));
    cache.set(kind.clone(), 8);
    assert_eq!(cache.get(&kind), Some(8));
}

#[test]
fn content_hash_is_deterministic_within_process() {
    let bytes = vec![1u8, 2, 3, 4];
    let again = vec![1u8, 2, 3, 4];
    let h1 = component_to_hash(Some(&bytes));
    let h2 = component_to_hash(Some(&again));
    assert!(h1.is_some());
    assert_eq!(h1, h2);
    assert_eq!(component_to_hash(None), None);
}
