use pumpkin_wire::command::{
    Arg, ArgumentConsumer, BlockPos, CommandError, ConsumedArgs, SpawnRequest, WorldSpawnExecutor,
    SpawnChange, SpawnPoint, angle_request, begin_spawn_change, check_spawn_world, finish_spawn_change, default_request, init_command_tree, no_args_request,
    success_message,
};
use pumpkin_wire::firework::{
    FIREWORK_ROCKET_ID, FireworkRocketItem, ItemUser, PositionBits, Spawn, SpawnedKind,
};
use pumpkin_wire::text::TextMessage;
use pumpkin_wire::version::JavaMinecraftVersion;

fn with_count(component: &TextMessage) -> (&str, usize) {
    match component {
        TextMessage::Translate { key, args } => (key.as_str(), args.len()),
        _ => panic!("expected a Translate component"),
    }
}

#[test]
fn pre_26_1_client_gets_the_four_argument_legacy_key() {
    let message = success_message(
        Some(JavaMinecraftVersion::v1_21_11()),
        BlockPos::new(1, 2, 3),
        90.0f32.to_string(),
        0.0f32.to_string(),
        "minecraft:overworld".to_string(),
    );
    let (key, arg_count) = with_count(&message);
    assert_eq!(key, "commands.setworldspawn.success");
    assert_eq!(arg_count, 4);
}

#[test]
fn v26_1_and_later_client_gets_the_six_argument_new_key() {
    for version in [JavaMinecraftVersion::v26_1(), JavaMinecraftVersion::v26_2()] {
        let message = success_message(
            Some(version),
            BlockPos::new(1, 2, 3),
            90.0f32.to_string(),
            0.0f32.to_string(),
            "minecraft:overworld".to_string(),
        );
        let (key, arg_count) = with_count(&message);
        assert_eq!(key, "commands.setworldspawn.success.new");
        assert_eq!(arg_count, 6);
    }
}

#[test]
fn console_and_non_java_senders_get_the_current_message() {
    let message = success_message(
        None,
        BlockPos::new(1, 2, 3),
        90.0f32.to_string(),
        0.0f32.to_string(),
        "minecraft:overworld".to_string(),
    );
    let (key, arg_count) = with_count(&message);
    assert_eq!(key, "commands.setworldspawn.success.new");
    assert_eq!(arg_count, 6);
}

#[test]
fn success_message_arguments() {
    let message = success_message(
        None,
        BlockPos::new(-10, 64, 3000),
        "90".to_string(),
        "-12.5".to_string(),
        "minecraft:overworld".to_string(),
    );
    match message {
        TextMessage::Translate { args, .. } => {
            assert_eq!(args, vec!["-10", "64", "3000", "90", "-12.5", "minecraft:overworld"]);
        }
        _ => panic!("expected a Translate component"),
    }
}

#[test]
fn command_tree_shape() {
    let tree = init_command_tree();
    assert_eq!(tree.names, vec!["setworldspawn".to_string()]);
    assert_eq!(tree.description, "Sets the world spawn point.");
    assert_eq!(tree.executor, Some(WorldSpawnExecutor::NoArgs));
    assert_eq!(tree.children.len(), 1);
    let pos = &tree.children[0];
    assert_eq!(pos.name, "position");
    assert_eq!(pos.consumer, ArgumentConsumer::BlockPos);
    assert_eq!(pos.executor, Some(WorldSpawnExecutor::Default));
    assert_eq!(pos.children.len(), 1);
    let angle = &pos.children[0];
    assert_eq!(angle.name, "angle");
    assert_eq!(angle.consumer, ArgumentConsumer::Rotation);
    assert_eq!(angle.executor, Some(WorldSpawnExecutor::Angle));
    assert!(angle.children.is_empty());
}

fn text_of(e: &CommandError) -> Option<&str> {
    match e {
        CommandError::CommandFailed(TextMessage::Text(t)) => Some(t.as_str()),
        _ => None,
    }
}

#[test]
fn no_args_executor() {
    let p = BlockPos::new(4, 70, -2);
    assert_eq!(
        no_args_request(Some(p), false).unwrap(),
        SpawnRequest { position: p, yaw_bits: 0, pitch_bits: 0 }
    );
    let e = no_args_request(None, true).unwrap_err();
    assert_eq!(text_of(&e), Some("You must specify a Position!"));
    let e = no_args_request(None, false).unwrap_err();
    assert_eq!(text_of(&e), Some("Failed to get Sender as Player!"));
}

#[test]
fn argument_executors() {
    let p = BlockPos::new(1, 2, 3);
    let yaw = 90.0f32.to_bits();
    let pitch = (-30.0f32).to_bits();
    let args = ConsumedArgs {
        entries: vec![
            ("position".to_string(), Arg::BlockPos(p)),
            ("angle".to_string(), Arg::Rotation(yaw, true, pitch, false)),
        ],
    };
    assert_eq!(default_request(&args).unwrap(), SpawnRequest { position: p, yaw_bits: 0, pitch_bits: 0 });
    assert_eq!(angle_request(&args).unwrap(), SpawnRequest { position: p, yaw_bits: yaw, pitch_bits: pitch });
    let missing = ConsumedArgs { entries: vec![("position".to_string(), Arg::BlockPos(p))] };
    match angle_request(&missing) {
        Err(CommandError::InvalidConsumption(Some(n))) => assert_eq!(n, "angle"),
        _ => panic!("expected a missing angle"),
    }
    let empty = ConsumedArgs { entries: vec![] };
    match default_request(&empty) {
        Err(CommandError::InvalidConsumption(Some(n))) => assert_eq!(n, "position"),
        _ => panic!("expected a missing position"),
    }
}

#[test]
fn spawn_world_check() {
    assert!(check_spawn_world(Some(&"minecraft:overworld".to_string())).is_ok());
    assert!(check_spawn_world(Some(&"minecraft:overworld_caves".to_string())).is_ok());
    match check_spawn_world(Some(&"minecraft:the_nether".to_string())) {
        Err(CommandError::CommandFailed(TextMessage::Translate { key, args })) => {
            assert_eq!(key, "commands.setworldspawn.failure.not_overworld");
            assert!(args.is_empty());
        }
        _ => panic!("expected the not-overworld failure"),
    }
    let e = check_spawn_world(None).unwrap_err();
    assert_eq!(text_of(&e), Some("Failed to get world."));
}

#[test]
fn firework_rocket_boosts_only_gliding_players() {
    assert_eq!(FireworkRocketItem::ids(), vec![FIREWORK_ROCKET_ID]);
    let item = FireworkRocketItem;
    let position = PositionBits { x: 1.5f64.to_bits(), y: 64.0f64.to_bits(), z: (-3.25f64).to_bits() };
    let gliding = ItemUser { entity_id: 17, position, fall_flying: true };
    let walking = ItemUser { fall_flying: false, ..gliding };
    let rocket = Spawn { kind: SpawnedKind::FireworkRocket, shooter: 17, position };
    assert_eq!(item.normal_use(gliding), Some(rocket));
    assert_eq!(item.normal_use(walking), None);
    assert_eq!(item.use_on_block(gliding), Some(rocket));
    assert_eq!(item.use_on_block(walking), None);
}

#[test]
fn spawn_change_runs_from_the_current_point_to_the_requested_one() {
    let current = SpawnPoint { position: BlockPos { x: 0, y: 64, z: 0 }, yaw_bits: 0, pitch_bits: 0 };
    let request = SpawnRequest {
        position: BlockPos { x: 10, y: 70, z: -5 },
        yaw_bits: 90.0f32.to_bits(),
        pitch_bits: 15.5f32.to_bits(),
    };
    let overworld = "minecraft:overworld".to_string();
    let change = begin_spawn_change(Some(&overworld), current, request).unwrap();
    let next = SpawnPoint { position: request.position, yaw_bits: request.yaw_bits, pitch_bits: request.pitch_bits };
    assert_eq!(change, SpawnChange { previous: current, next });
    let nether = "minecraft:the_nether".to_string();
    assert!(begin_spawn_change(Some(&nether), current, request).is_err());
    assert!(begin_spawn_change(None, current, request).is_err());
    // A plugin moved the new spawn point: that is what gets stored.
    let moved = SpawnChange { next: SpawnPoint { position: BlockPos { x: 1, y: 2, z: 3 }, ..next }, ..change };
    assert_eq!(finish_spawn_change(&moved), (moved.next, 1));
}
