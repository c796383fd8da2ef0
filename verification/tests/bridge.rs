use std::collections::BTreeMap;

use bevy_runeweave::bridge::{AttachmentKey, BridgeState, EcsBridge, ScriptAssetId};
use bevy_runeweave::name_map::NameMap;
use bevy_runeweave::value::EcsValue;
use bevy_runeweave::world::{ScriptComponents, ScriptEntityRegistry, ScriptEntityId, ScriptOwnerId, ScriptResources, WorldCommand};

fn number(value: f64) -> EcsValue {
    EcsValue::Number(value.to_bits())
}

fn object(fields: Vec<(&'static str, EcsValue)>) -> EcsValue {
    let mut map = NameMap::new();
    for (name, value) in fields {
        map.insert(name.to_owned(), value);
    }
    EcsValue::Object(map)
}

/// A stand-in for the host world: host entities by their bits.
struct HostWorld {
    next_entity: u64,
    entities: BTreeMap<u64, (ScriptOwnerId, ScriptEntityId, ScriptComponents)>,
    resources: ScriptResources,
    registry: ScriptEntityRegistry,
}

impl HostWorld {
    fn new() -> Self {
        HostWorld {
            next_entity: 1,
            entities: BTreeMap::new(),
            resources: ScriptResources::new(),
            registry: ScriptEntityRegistry::new(),
        }
    }

    fn update(&mut self, bridge: &EcsBridge, state: &mut BridgeState) {
        let changes = bridge.take_changes(state);
        let plan = self.registry.plan_writes(changes);
        for command in plan.commands {
            match command {
                WorldCommand::Despawn(entity) => {
                    self.entities.remove(&entity);
                }
                WorldCommand::Insert(entity, components) => {
                    if let Some(slot) = self.entities.get_mut(&entity) {
                        slot.2 = ScriptComponents::new(components);
                    }
                }
                WorldCommand::Spawn { owner, id, components } => {
                    let entity = self.next_entity;
                    self.next_entity += 1;
                    self.registry.record_spawn(&owner, id.clone(), entity);
                    self.entities.insert(
                        entity,
                        (ScriptOwnerId::new(owner), ScriptEntityId::new(id), ScriptComponents::new(components)),
                    );
                }
            }
        }
        if let Some(resources) = plan.resources {
            self.resources.replace(resources);
        }
    }
}

#[test]
fn structured_components_resources_and_queries_sync_to_bevy() {
    let bridge = EcsBridge::default();
    let mut state = BridgeState::new();
    let mut world = HostWorld::new();

    bridge.spawn_entity(&mut state, "player".to_owned());
    assert!(bridge.entity_exists(&state, "player"));
    assert!(bridge.insert_component(&mut state,
        "player",
        "transform".to_owned(),
        object(vec![("x", number(12.0)), ("y", number(-34.0))]),
    ));
    assert!(bridge.insert_component(&mut state,
        "player",
        "sprite".to_owned(),
        object(vec![("kind", EcsValue::String("player".to_owned()))]),
    ));
    bridge.set_resource(&mut state,
        "game_state".to_owned(),
        object(vec![("score", number(200.0)), ("lives", number(2.0))]),
    );

    assert_eq!(
        bridge.query_entities(&state, &["sprite".to_owned(), "transform".to_owned()]),
        ["player"]
    );
    assert!(bridge
        .query_entities_filtered(&state, &["sprite".to_owned()], &["transform".to_owned()])
        .is_empty());

    let mut bundle = NameMap::new();
    bundle.insert("sprite".to_owned(), EcsValue::String("pickup".to_owned()));
    bridge.spawn_entity_bundle(&mut state, "pickup".to_owned(), bundle);
    assert_eq!(
        bridge.query_entities_filtered(&state, &["sprite".to_owned()], &["transform".to_owned()]),
        ["pickup"]
    );
    assert_eq!(
        bridge.query_entities_matching(&state,
            &[],
            &["transform".to_owned(), "missing".to_owned()],
            &["disabled".to_owned()],
        ),
        ["player"]
    );
    assert_eq!(
        bridge
            .get_component(&state, "player", "transform")
            .and_then(|value| value.field("x").and_then(EcsValue::as_number))
            .map(f64::from_bits),
        Some(12.0)
    );
    assert_eq!(
        bridge
            .get_resource(&state, "game_state")
            .and_then(|value| value.field("lives").and_then(EcsValue::as_number))
            .map(f64::from_bits),
        Some(2.0)
    );

    world.update(&bridge, &mut state);
    let (_, id, components) = world
        .entities
        .values()
        .find(|(_, id, _)| id.as_str() == "player")
        .expect("player script entity");
    assert_eq!(id.as_str(), "player");
    assert!(components.get("sprite").is_some());
    assert_eq!(
        components
            .get("transform")
            .and_then(|value| value.field("x"))
            .and_then(EcsValue::as_number)
            .map(f64::from_bits),
        Some(12.0)
    );
    assert_eq!(
        world
            .resources
            .get("game_state")
            .and_then(|value| value.field("score"))
            .and_then(EcsValue::as_number)
            .map(f64::from_bits),
        Some(200.0)
    );

    assert!(bridge.remove_component(&mut state, "player", "sprite"));
    assert_eq!(bridge.query_entities(&state, &["sprite".to_owned()]), ["pickup"]);
    bridge.clear_world(&mut state);
    bridge.spawn_entity(&mut state, "final-player".to_owned());
    world.update(&bridge, &mut state);

    let ids = world
        .entities
        .values()
        .map(|(_, id, _)| id.as_str())
        .collect::<Vec<_>>();
    assert_eq!(ids, ["final-player"]);
}

#[test]
fn bridge_state_is_isolated_per_app() {
    let first = EcsBridge::default();
    let second = EcsBridge::default();
    let mut first_state = BridgeState::new();
    let second_state = BridgeState::new();

    first.spawn_entity(&mut first_state, "only-first".to_owned());
    first.set_resource(&mut first_state, "score".to_owned(), number(10.0));

    assert!(first.entity_exists(&first_state, "only-first"));
    assert!(!second.entity_exists(&second_state, "only-first"));
    assert_eq!(second.get_resource(&second_state, "score"), None);
}

#[test]
fn bridge_rejects_invalid_keys() {
    let bridge = EcsBridge::default();
    let mut state = BridgeState::new();
    bridge.spawn_entity(&mut state, String::new());
    assert!(!bridge.entity_exists(&state, ""));
    assert!(!bridge.insert_component(&mut state, "missing", String::new(), EcsValue::Null));
    bridge.set_resource(&mut state, "\n".to_owned(), EcsValue::Bool(true));
    assert_eq!(bridge.get_resource(&state, "\n"), None);
}

#[test]
fn script_owners_can_reuse_ids_and_clear_independently() {
    let root = EcsBridge::default();
    let mut state = BridgeState::new();
    let first = root.for_owner("script-a".to_owned());
    let second = root.for_owner("script-b".to_owned());
    let mut world = HostWorld::new();

    first.spawn_entity(&mut state, "player".to_owned());
    second.spawn_entity(&mut state, "player".to_owned());
    assert_eq!(first.query_entities(&state, &[]), ["player"]);
    assert_eq!(second.query_entities(&state, &[]), ["player"]);
    world.update(&root, &mut state);

    first.clear_world(&mut state);
    assert!(!first.entity_exists(&state, "player"));
    assert!(second.entity_exists(&state, "player"));
    world.update(&root, &mut state);

    let owned = world
        .entities
        .values()
        .map(|(owner, id, _)| (owner.as_str(), id.as_str()))
        .collect::<Vec<_>>();
    assert_eq!(owned, [("script-b", "player")]);
}

#[test]
fn attachment_owner_id_is_stable_without_display_strings() {
    let root = EcsBridge::default();
    let mut state = BridgeState::new();
    // The id of the default script handle.
    let script = ScriptAssetId::Uuid(200809721996911295814598172825939264631);
    let first_attachment = AttachmentKey::EntityScript(1, script);
    let second_attachment = AttachmentKey::EntityScript(2, script);

    let owned = root.for_attachment(&mut state, first_attachment);
    owned.spawn_entity(&mut state, "owned".to_owned());

    let first = root.for_attachment(&mut state, first_attachment);
    assert!(first.entity_exists(&state, "owned"));
    let second = root.for_attachment(&mut state, second_attachment);
    assert!(!second.entity_exists(&state, "owned"));
}

#[test]
fn owner_names_count_up_from_one() {
    let mut state = BridgeState::new();
    let a = AttachmentKey::StaticScript(ScriptAssetId::Index { generation: 0, index: 7 });
    let b = AttachmentKey::StaticScript(ScriptAssetId::Index { generation: 1, index: 7 });
    assert_eq!(state.owner_for_attachment(a), "script-1");
    assert_eq!(state.owner_for_attachment(b), "script-2");
    assert_eq!(state.owner_for_attachment(a), "script-1");
}

#[test]
fn writes_are_visible_at_once_and_errors_are_reported() {
    let bridge = EcsBridge::default();
    let mut state = BridgeState::new();
    assert!(!bridge.despawn_entity(&mut state, "ghost".to_owned()));
    assert!(!bridge.insert_component(&mut state, "ghost", "sprite".to_owned(), EcsValue::Null));
    assert!(!bridge.remove_component(&mut state, "ghost", "sprite"));
    assert!(!bridge.remove_resource(&mut state, "score"));
    assert_eq!(bridge.get_component(&state, "ghost", "sprite"), None);

    bridge.spawn_entity(&mut state, "hero".to_owned());
    assert!(!bridge.has_component(&state, "hero", "sprite"));
    assert!(bridge.insert_component(&mut state, "hero", "sprite".to_owned(), EcsValue::Bool(true)));
    assert!(bridge.has_component(&state, "hero", "sprite"));
    assert_eq!(bridge.get_component(&state, "hero", "sprite"), Some(EcsValue::Bool(true)));
    assert!(!bridge.remove_component(&mut state, "hero", "missing"));
    assert!(bridge.remove_component(&mut state, "hero", "sprite"));
    assert!(!bridge.has_component(&state, "hero", "sprite"));
    assert!(bridge.despawn_entity(&mut state, "hero".to_owned()));
    assert!(!bridge.entity_exists(&state, "hero"));
    assert!(!bridge.despawn_entity(&mut state, "hero".to_owned()));

    bridge.set_resource(&mut state, "score".to_owned(), number(5.0));
    assert_eq!(bridge.get_resource(&state, "score"), Some(number(5.0)));
    assert!(bridge.remove_resource(&mut state, "score"));
    assert_eq!(bridge.get_resource(&state, "score"), None);
}

#[test]
fn clearing_keeps_resources() {
    let bridge = EcsBridge::default();
    let mut state = BridgeState::new();
    bridge.spawn_entity(&mut state, "a".to_owned());
    bridge.set_resource(&mut state, "lives".to_owned(), number(3.0));
    bridge.clear_world(&mut state);
    assert!(!bridge.entity_exists(&state, "a"));
    assert_eq!(bridge.get_resource(&state, "lives"), Some(number(3.0)));
}

#[test]
fn queries_are_sorted_by_id() {
    let bridge = EcsBridge::default();
    let mut state = BridgeState::new();
    for id in ["zeta", "alpha", "mid", "Beta"] {
        bridge.spawn_entity(&mut state, id.to_owned());
        assert!(bridge.insert_component(&mut state, id, "tag".to_owned(), EcsValue::Null));
    }
    assert_eq!(bridge.query_entities(&state, &["tag".to_owned()]), ["Beta", "alpha", "mid", "zeta"]);
}

#[test]
fn keys_longer_than_the_limit_are_refused() {
    let bridge = EcsBridge::default();
    let mut state = BridgeState::new();
    let long = "x".repeat(129);
    let limit = "y".repeat(128);
    bridge.spawn_entity(&mut state, long.clone());
    bridge.spawn_entity(&mut state, limit.clone());
    assert!(!bridge.entity_exists(&state, &long));
    assert!(bridge.entity_exists(&state, &limit));
    bridge.spawn_entity(&mut state, "tab\there".to_owned());
    assert!(!bridge.entity_exists(&state, "tab\there"));
    let mut bad_bundle = NameMap::new();
    bad_bundle.insert("\u{7f}".to_owned(), EcsValue::Null);
    bridge.spawn_entity_bundle(&mut state, "ok".to_owned(), bad_bundle);
    assert!(!bridge.entity_exists(&state, "ok"));
}

#[test]
fn hand_over_reports_writes_once() {
    let bridge = EcsBridge::default();
    let mut state = BridgeState::new();
    bridge.spawn_entity(&mut state, "a".to_owned());
    bridge.spawn_entity(&mut state, "b".to_owned());
    assert!(bridge.despawn_entity(&mut state, "b".to_owned()));
    bridge.set_resource(&mut state, "r".to_owned(), EcsValue::Bool(false));
    let changes = bridge.take_changes(&mut state);
    assert!(changes.upsert_entities.contains_key("", "a"));
    assert!(!changes.upsert_entities.contains_key("", "b"));
    assert!(changes.removed_entities.contains_key("", "b"));
    assert!(changes.resources.is_some());
    let again = bridge.take_changes(&mut state);
    assert!(!again.upsert_entities.contains_key("", "a"));
    assert!(again.resources.is_none());
    assert!(again.cleared_owners.is_empty());
}

#[test]
fn registry_despawns_updates_and_spawns() {
    let bridge = EcsBridge::default();
    let mut state = BridgeState::new();
    let mut world = HostWorld::new();
    bridge.spawn_entity(&mut state, "keep".to_owned());
    bridge.spawn_entity(&mut state, "drop".to_owned());
    world.update(&bridge, &mut state);
    assert_eq!(world.entities.len(), 2);
    let keep_entity = world.registry.get("", "keep").unwrap();
    assert!(bridge.insert_component(&mut state, "keep", "hp".to_owned(), number(1.0)));
    assert!(bridge.despawn_entity(&mut state, "drop".to_owned()));
    world.update(&bridge, &mut state);
    assert_eq!(world.entities.len(), 1);
    assert_eq!(world.registry.get("", "keep"), Some(keep_entity));
    assert_eq!(world.registry.get("", "drop"), None);
    assert!(world.entities[&keep_entity].2.get("hp").is_some());
}
