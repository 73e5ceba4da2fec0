use revy::default_loggers::DefaultRerunComponentLoggers;
use revy::rerun_logger::RerunComponentLoggers;
use revy::snapshot::{AssetChanges, ComponentSnapshot, EntitySnapshot};
use revy::sync::{
    LoggerBatch, LoggerOutput, RerunLoggerFn, SinkAction, SyncEngine, TickInput,
};

struct MockHost {
    invocations: Vec<(u64, u64, String)>,
    fallback_text: Option<String>,
    suffix: Option<String>,
    produce: bool,
}

impl MockHost {
    fn new() -> MockHost {
        MockHost { invocations: Vec::new(), fallback_text: None, suffix: None, produce: true }
    }
}

impl RerunLoggerFn for MockHost {
    fn invoke(&mut self, logger: u64, entity: u64, kind: &String) -> LoggerOutput {
        self.invocations.push((logger, entity, kind.clone()));
        let batches = if self.produce {
            vec![LoggerBatch { descriptor: format!("{}.data", kind), payload: vec![1, 2, 3] }]
        } else {
            Vec::new()
        };
        LoggerOutput { suffix: self.suffix.clone(), batches }
    }

    fn fallback_text(&mut self, _entity: u64, _kind: &String) -> Option<String> {
        self.fallback_text.clone()
    }
}

fn entity(id: u64, parent: Option<u64>, name: Option<&str>, comps: Vec<ComponentSnapshot>) -> EntitySnapshot {
    EntitySnapshot { id, parent, name: name.map(|n| n.to_string()), components: comps }
}

fn comp(kind: &str, changed: bool, hash: Option<u64>) -> ComponentSnapshot {
    ComponentSnapshot { kind: kind.to_string(), changed, hash }
}

fn tick(time_ns: u64, entities: Vec<EntitySnapshot>) -> TickInput {
    TickInput { time_ns, entities, assets: AssetChanges::none() }
}

fn engine_with_override(kind: &str, token: u64) -> SyncEngine {
    let overrides = RerunComponentLoggers::new(vec![(kind.to_string(), Some(token))]);
    SyncEngine::new(Some(overrides), DefaultRerunComponentLoggers::default())
}

fn path_of(p: &revy::entity_path::EntityPath) -> Vec<String> {
    p.parts.clone()
}

fn emits(actions: &[SinkAction]) -> Vec<&SinkAction> {
    actions.iter().filter(|a| matches!(a, SinkAction::Emit { .. })).collect()
}

fn flat_retracts(actions: &[SinkAction]) -> Vec<Vec<String>> {
    actions
        .iter()
        .filter_map(|a| match a {
            SinkAction::Retract { path, recursive: false } => Some(path_of(path)),
            _ => None,
        })
        .collect()
}

fn recursive_retracts(actions: &[SinkAction]) -> Vec<Vec<String>> {
    actions
        .iter()
        .filter_map(|a| match a {
            SinkAction::Retract { path, recursive: true } => Some(path_of(path)),
            _ => None,
        })
        .collect()
}

#[test]
fn tick_starts_with_clock_advance() {
    let mut engine = SyncEngine::new(None, DefaultRerunComponentLoggers::default());
    let mut host = MockHost::new();
    let actions = engine.sync_tick(&tick(42, vec![]), &mut host);
    assert_eq!(actions.len(), 1);
    assert!(matches!(actions[0], SinkAction::AdvanceTime { time_ns: 42 }));
}

#[test]
fn emission_despawn_lifecycle() {
    // Entity with one component: emitted in tick one, suppressed while
    // unchanged in tick two, recursively retracted after despawn.
    let mut engine = engine_with_override("demo::Kind1", 42);
    let mut host = MockHost::new();

    let t1 = tick(1, vec![entity(1, None, Some("root"), vec![comp("demo::Kind1", true, Some(11))])]);
    let a1 = engine.sync_tick(&t1, &mut host);
    assert_eq!(host.invocations, vec![(42, 1, "demo::Kind1".to_string())]);
    let e1 = emits(&a1);
    assert_eq!(e1.len(), 1);
    match e1[0] {
        SinkAction::Emit { entity, path, suffix, batches } => {
            assert_eq!(*entity, 1);
            assert_eq!(path_of(path), vec!["world".to_string(), "1_root".to_string()]);
            assert!(suffix.is_none());
            assert_eq!(batches.len(), 1);
            assert_eq!(batches[0].kind, "demo::Kind1");
            assert_eq!(batches[0].descriptor, "demo::Kind1.data");
        }
        _ => unreachable!(),
    }
    assert!(flat_retracts(&a1).is_empty());
    assert!(recursive_retracts(&a1).is_empty());

    // Tick two: same value, no marker: exactly one action, the clock.
    let t2 = tick(2, vec![entity(1, None, Some("root"), vec![comp("demo::Kind1", false, Some(11))])]);
    let a2 = engine.sync_tick(&t2, &mut host);
    assert_eq!(a2.len(), 1);
    assert_eq!(host.invocations.len(), 1);

    // Tick three: entity despawned: one recursive retraction at its path.
    let t3 = tick(3, vec![]);
    let a3 = engine.sync_tick(&t3, &mut host);
    assert!(emits(&a3).is_empty());
    assert!(flat_retracts(&a3).is_empty());
    assert_eq!(
        recursive_retracts(&a3),
        vec![vec!["world".to_string(), "1_root".to_string()]]
    );
}

#[test]
fn changed_value_is_reemitted() {
    let mut engine = engine_with_override("demo::Kind1", 42);
    let mut host = MockHost::new();
    let t1 = tick(1, vec![entity(1, None, None, vec![comp("demo::Kind1", true, Some(11))])]);
    engine.sync_tick(&t1, &mut host);
    // Marker fires again and the content actually changed: re-emitted.
    let t2 = tick(2, vec![entity(1, None, None, vec![comp("demo::Kind1", true, Some(12))])]);
    let a2 = engine.sync_tick(&t2, &mut host);
    assert_eq!(emits(&a2).len(), 1);
    // Marker fires but the content hash is unchanged: suppressed.
    let t3 = tick(3, vec![entity(1, None, None, vec![comp("demo::Kind1", true, Some(12))])]);
    let a3 = engine.sync_tick(&t3, &mut host);
    assert!(emits(&a3).is_empty());
    assert!(flat_retracts(&a3).is_empty());
}

#[test]
fn asset_dependency_forces_reevaluation() {
    let mesh3d = "bevy_render::mesh::components::Mesh3d";
    let mut engine = engine_with_override(mesh3d, 7);
    let mut host = MockHost::new();
    let t1 = tick(1, vec![entity(1, None, None, vec![comp(mesh3d, true, Some(10))])]);
    engine.sync_tick(&t1, &mut host);
    assert_eq!(host.invocations.len(), 1);

    // No marker, but the mesh asset category changed and the serialized
    // content differs: re-emitted.
    let mut t2 = tick(2, vec![entity(1, None, None, vec![comp(mesh3d, false, Some(20))])]);
    t2.assets.meshes = true;
    let a2 = engine.sync_tick(&t2, &mut host);
    assert_eq!(emits(&a2).len(), 1);
    assert_eq!(host.invocations.len(), 2);

    // Category still reporting changes, but the hash is unchanged: the
    // component is re-evaluated, not re-emitted.
    let mut t3 = tick(3, vec![entity(1, None, None, vec![comp(mesh3d, false, Some(20))])]);
    t3.assets.meshes = true;
    let a3 = engine.sync_tick(&t3, &mut host);
    assert!(emits(&a3).is_empty());

    // No marker and no asset change: not even a candidate.
    let t4 = tick(4, vec![entity(1, None, None, vec![comp(mesh3d, false, Some(30))])]);
    let a4 = engine.sync_tick(&t4, &mut host);
    assert!(emits(&a4).is_empty());
}

#[test]
fn despawn_retracts_only_the_despawned() {
    let mut engine = engine_with_override("demo::Kind1", 42);
    let mut host = MockHost::new();
    let t1 = tick(
        1,
        vec![
            entity(1, None, Some("a"), vec![comp("demo::Kind1", true, Some(1))]),
            entity(2, None, Some("b"), vec![comp("demo::Kind1", true, Some(2))]),
        ],
    );
    engine.sync_tick(&t1, &mut host);
    let t2 = tick(
        2,
        vec![entity(1, None, Some("a"), vec![comp("demo::Kind1", false, Some(1))])],
    );
    let a2 = engine.sync_tick(&t2, &mut host);
    assert_eq!(
        recursive_retracts(&a2),
        vec![vec!["world".to_string(), "2_b".to_string()]]
    );
    assert!(flat_retracts(&a2).is_empty());
    assert!(emits(&a2).is_empty());
}

#[test]
fn component_removal_retracts_exactly_its_path() {
    let mut engine = SyncEngine::new(
        Some(RerunComponentLoggers::new(vec![
            ("demo::Kind1".to_string(), Some(41)),
            ("demo::Kind2".to_string(), Some(42)),
        ])),
        DefaultRerunComponentLoggers::default(),
    );
    let mut host = MockHost::new();
    let t1 = tick(
        1,
        vec![entity(
            1,
            None,
            Some("a"),
            vec![comp("demo::Kind1", true, Some(1)), comp("demo::Kind2", true, Some(2))],
        )],
    );
    let a1 = engine.sync_tick(&t1, &mut host);
    assert_eq!(emits(&a1).len(), 2);

    // Kind2 is detached; Kind1 stays and is unchanged.
    let t2 = tick(
        2,
        vec![entity(1, None, Some("a"), vec![comp("demo::Kind1", false, Some(1))])],
    );
    let a2 = engine.sync_tick(&t2, &mut host);
    assert!(emits(&a2).is_empty());
    assert!(recursive_retracts(&a2).is_empty());
    assert_eq!(
        flat_retracts(&a2),
        vec![vec!["world".to_string(), "1_a".to_string()]]
    );

    // Kind1's state is untouched: nothing further happens next tick.
    let t3 = tick(
        3,
        vec![entity(1, None, Some("a"), vec![comp("demo::Kind1", false, Some(1))])],
    );
    let a3 = engine.sync_tick(&t3, &mut host);
    assert_eq!(a3.len(), 1);
}

#[test]
fn fallback_logs_placeholder_once() {
    let mut engine = SyncEngine::new(None, DefaultRerunComponentLoggers::default());
    let mut host = MockHost::new();
    host.fallback_text = None;

    // Unknown kind whose value cannot be serialized: logged once through
    // the fallback, under the sanitized descriptor, with placeholder text.
    let t1 = tick(1, vec![entity(1, None, None, vec![comp("demo::Odd", true, None)])]);
    let a1 = engine.sync_tick(&t1, &mut host);
    let e1 = emits(&a1);
    assert_eq!(e1.len(), 1);
    match e1[0] {
        SinkAction::Emit { batches, .. } => {
            assert_eq!(batches[0].descriptor, "demo.Odd");
            assert_eq!(batches[0].payload, b"<missing reflection metadata>".to_vec());
        }
        _ => unreachable!(),
    }

    // No marker: not re-logged.
    let t2 = tick(2, vec![entity(1, None, None, vec![comp("demo::Odd", false, None)])]);
    let a2 = engine.sync_tick(&t2, &mut host);
    assert!(emits(&a2).is_empty());
    assert!(flat_retracts(&a2).is_empty());

    // Even a fresh marker with a still-unserializable value hits the
    // cached sentinel and is not re-logged.
    let t3 = tick(3, vec![entity(1, None, None, vec![comp("demo::Odd", true, None)])]);
    let a3 = engine.sync_tick(&t3, &mut host);
    assert!(emits(&a3).is_empty());
}

#[test]
fn fallback_uses_serialized_text_when_available() {
    let mut engine = SyncEngine::new(None, DefaultRerunComponentLoggers::default());
    let mut host = MockHost::new();
    host.fallback_text = Some("Odd(1)".to_string());
    let t1 = tick(1, vec![entity(1, None, None, vec![comp("demo::Odd", true, Some(5))])]);
    let a1 = engine.sync_tick(&t1, &mut host);
    match emits(&a1)[0] {
        SinkAction::Emit { batches, .. } => {
            assert_eq!(batches[0].payload, b"Odd(1)".to_vec());
        }
        _ => unreachable!(),
    }
}

#[test]
fn suppressed_kind_is_never_dispatched() {
    let mut engine = SyncEngine::new(None, DefaultRerunComponentLoggers::default());
    let mut host = MockHost::new();
    let t1 = tick(
        1,
        vec![entity(1, None, None, vec![comp("revy::entity_path::RerunEntityPath", true, Some(9))])],
    );
    let a1 = engine.sync_tick(&t1, &mut host);
    assert!(emits(&a1).is_empty());
    assert!(host.invocations.is_empty());
}

#[test]
fn logger_without_payload_emits_nothing() {
    let mut engine = engine_with_override("demo::Kind1", 42);
    let mut host = MockHost::new();
    host.produce = false;
    let t1 = tick(1, vec![entity(1, None, None, vec![comp("demo::Kind1", true, Some(1))])]);
    let a1 = engine.sync_tick(&t1, &mut host);
    assert_eq!(host.invocations.len(), 1);
    assert!(emits(&a1).is_empty());
}

#[test]
fn suffixed_emission_targets_namespaced_subpath() {
    let mut engine = engine_with_override("demo::Kind1", 42);
    let mut host = MockHost::new();
    host.suffix = Some("cam".to_string());
    let t1 = tick(1, vec![entity(1, None, Some("a"), vec![comp("demo::Kind1", true, Some(1))])]);
    let a1 = engine.sync_tick(&t1, &mut host);
    match emits(&a1)[0] {
        SinkAction::Emit { path, suffix, .. } => {
            assert_eq!(path_of(path), vec!["world".to_string(), "1_a".to_string()]);
            assert_eq!(suffix.as_deref(), Some("cam"));
        }
        _ => unreachable!(),
    }

    // Dropping the component later retracts the namespaced sub-path.
    let t2 = tick(2, vec![entity(1, None, Some("a"), vec![])]);
    let a2 = engine.sync_tick(&t2, &mut host);
    assert_eq!(
        flat_retracts(&a2),
        vec![vec![
            "world".to_string(),
            "1_a".to_string(),
            "comps".to_string(),
            "cam".to_string(),
        ]]
    );
}

#[test]
fn reparenting_moves_state_to_the_new_path() {
    // The graph provider models a re-parented entity as spawned at its
    // new path: its markers fire again. The engine retracts the old path
    // recursively and emits afresh under the new one.
    let mut engine = engine_with_override("demo::Kind1", 42);
    let mut host = MockHost::new();
    let t1 = tick(
        1,
        vec![
            entity(1, None, Some("root"), vec![]),
            entity(3, None, Some("leaf"), vec![]),
            entity(2, Some(1), None, vec![comp("demo::Kind1", true, Some(5))]),
        ],
    );
    let a1 = engine.sync_tick(&t1, &mut host);
    match emits(&a1)[0] {
        SinkAction::Emit { path, .. } => {
            assert_eq!(
                path_of(path),
                vec!["world".to_string(), "1_root".to_string(), "2".to_string()]
            );
        }
        _ => unreachable!(),
    }

    let t2 = tick(
        2,
        vec![
            entity(1, None, Some("root"), vec![]),
            entity(3, None, Some("leaf"), vec![]),
            entity(2, Some(3), None, vec![comp("demo::Kind1", true, Some(5))]),
        ],
    );
    let a2 = engine.sync_tick(&t2, &mut host);
    assert_eq!(
        recursive_retracts(&a2),
        vec![vec!["world".to_string(), "1_root".to_string(), "2".to_string()]]
    );
    match emits(&a2)[0] {
        SinkAction::Emit { path, .. } => {
            assert_eq!(
                path_of(path),
                vec!["world".to_string(), "3_leaf".to_string(), "2".to_string()]
            );
        }
        _ => unreachable!(),
    }
}

#[test]
fn all_emissions_precede_all_retractions() {
    let mut engine = engine_with_override("demo::Kind1", 42);
    let mut host = MockHost::new();
    let t1 = tick(
        1,
        vec![
            entity(1, None, Some("a"), vec![comp("demo::Kind1", true, Some(1))]),
            entity(2, None, Some("b"), vec![comp("demo::Kind1", true, Some(2))]),
        ],
    );
    engine.sync_tick(&t1, &mut host);
    let t2 = tick(
        2,
        vec![entity(1, None, Some("a"), vec![comp("demo::Kind1", true, Some(7))])],
    );
    let a2 = engine.sync_tick(&t2, &mut host);
    let first_retract = a2.iter().position(|x| matches!(x, SinkAction::Retract { .. }));
    let last_emit = a2.iter().rposition(|x| matches!(x, SinkAction::Emit { .. }));
    assert!(matches!(a2[0], SinkAction::AdvanceTime { time_ns: 2 }));
    if let (Some(r), Some(e)) = (first_retract, last_emit) {
        assert!(e < r);
    }
    assert_eq!(emits(&a2).len(), 1);
    assert_eq!(recursive_retracts(&a2).len(), 1);
}
