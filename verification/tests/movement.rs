use sokoban::gameplay_state_system::GameplayStateSystem;
use sokoban::input_system::InputSystem;
use sokoban::level::load_map;
use sokoban::resources::{GamePlay, GamePlayState, InputQueue, KeyCode};
use sokoban::world::World;

fn load(text: &str) -> World {
    let mut world = World::new();
    load_map(&mut world, text.to_string()).expect("level should load");
    assert!(world.is_valid_level());
    world
}

fn player_pos(world: &World) -> (u8, u8) {
    for e in world.ents.iter() {
        if e.player {
            let p = e.position.expect("player has a position");
            return (p.x, p.y);
        }
    }
    panic!("no player");
}

fn box_positions(world: &World) -> Vec<(u8, u8)> {
    let mut out = Vec::new();
    for e in world.ents.iter() {
        if e.box_ {
            let p = e.position.expect("box has a position");
            out.push((p.x, p.y));
        }
    }
    out
}

fn tick(world: &mut World, queue: &mut InputQueue, gameplay: &mut GamePlay) {
    assert!(world.is_valid_level());
    assert!(gameplay.moves_count < u32::MAX);
    let input_system = InputSystem {};
    input_system.run(world, queue, gameplay);
    let detector = GameplayStateSystem {};
    detector.run(world, gameplay);
}

#[test]
fn push_into_open_floor_moves_player() {
    let mut world = load("W W W\nW P .\nW . W");
    let mut queue = InputQueue::default();
    let mut gameplay = GamePlay::default();
    assert_eq!(player_pos(&world), (1, 1));
    queue.keys.push(KeyCode::Right);
    tick(&mut world, &mut queue, &mut gameplay);
    assert_eq!(player_pos(&world), (2, 1));
    assert_eq!(gameplay.moves_count, 1);
    assert!(queue.keys.is_empty());
}

#[test]
fn push_into_adjacent_wall_is_a_no_op() {
    let mut world = load("P W .");
    let mut queue = InputQueue::default();
    let mut gameplay = GamePlay::default();
    queue.keys.push(KeyCode::Right);
    tick(&mut world, &mut queue, &mut gameplay);
    assert_eq!(player_pos(&world), (0, 0));
    assert_eq!(gameplay.moves_count, 0);
    assert!(queue.keys.is_empty());
}

#[test]
fn push_single_box_moves_player_and_box() {
    let mut world = load(". . . .\n. P B .");
    let mut queue = InputQueue::default();
    let mut gameplay = GamePlay::default();
    queue.keys.push(KeyCode::Right);
    tick(&mut world, &mut queue, &mut gameplay);
    assert_eq!(player_pos(&world), (2, 1));
    assert_eq!(box_positions(&world), vec![(3, 1)]);
    assert_eq!(gameplay.moves_count, 1);
}

#[test]
fn push_chain_into_wall_moves_nothing() {
    let mut world = load("P B B W .");
    let mut queue = InputQueue::default();
    let mut gameplay = GamePlay::default();
    queue.keys.push(KeyCode::Right);
    tick(&mut world, &mut queue, &mut gameplay);
    assert_eq!(player_pos(&world), (0, 0));
    assert_eq!(box_positions(&world), vec![(1, 0), (2, 0)]);
    assert_eq!(gameplay.moves_count, 0);
}

#[test]
fn push_off_the_map_edge_is_a_no_op() {
    // the player sits on the boundary cell x = 8: no free cell remains on
    // the ray, so the push aborts like a wall
    let mut world = load(". . . . . . . . P");
    let mut queue = InputQueue::default();
    let mut gameplay = GamePlay::default();
    assert_eq!(player_pos(&world), (8, 0));
    queue.keys.push(KeyCode::Right);
    tick(&mut world, &mut queue, &mut gameplay);
    assert_eq!(player_pos(&world), (8, 0));
    assert_eq!(gameplay.moves_count, 0);
    queue.keys.push(KeyCode::Up);
    tick(&mut world, &mut queue, &mut gameplay);
    assert_eq!(player_pos(&world), (8, 0));
    assert_eq!(gameplay.moves_count, 0);
}

#[test]
fn chain_of_boxes_with_free_cell_beyond_all_shift() {
    let mut world = load("P B B .");
    let mut queue = InputQueue::default();
    let mut gameplay = GamePlay::default();
    queue.keys.push(KeyCode::Right);
    tick(&mut world, &mut queue, &mut gameplay);
    assert_eq!(player_pos(&world), (1, 0));
    assert_eq!(box_positions(&world), vec![(2, 0), (3, 0)]);
    assert_eq!(gameplay.moves_count, 1);
}

#[test]
fn queue_drains_most_recent_first() {
    let mut world = load(". . .\n. P .\n. . .");
    let mut queue = InputQueue::default();
    let mut gameplay = GamePlay::default();
    queue.keys.push(KeyCode::Right);
    queue.keys.push(KeyCode::Up);
    tick(&mut world, &mut queue, &mut gameplay);
    // the most-recently-enqueued input wins the tick
    assert_eq!(player_pos(&world), (1, 0));
    assert_eq!(gameplay.moves_count, 1);
    tick(&mut world, &mut queue, &mut gameplay);
    assert_eq!(player_pos(&world), (2, 0));
    assert_eq!(gameplay.moves_count, 2);
    assert!(queue.keys.is_empty());
}

#[test]
fn non_directional_key_is_consumed_without_effect() {
    let mut world = load(". P .");
    let mut queue = InputQueue::default();
    let mut gameplay = GamePlay::default();
    queue.keys.push(KeyCode::Other);
    tick(&mut world, &mut queue, &mut gameplay);
    assert_eq!(player_pos(&world), (1, 0));
    assert_eq!(gameplay.moves_count, 0);
    assert!(queue.keys.is_empty());
}

#[test]
fn empty_queue_changes_nothing() {
    let mut world = load(". P .");
    let mut queue = InputQueue::default();
    let mut gameplay = GamePlay::default();
    tick(&mut world, &mut queue, &mut gameplay);
    assert_eq!(player_pos(&world), (1, 0));
    assert_eq!(gameplay.moves_count, 0);
}

#[test]
fn pushing_box_onto_spot_wins() {
    let mut world = load(". . . . .\n. P B S .");
    let mut queue = InputQueue::default();
    let mut gameplay = GamePlay::default();
    queue.keys.push(KeyCode::Right);
    tick(&mut world, &mut queue, &mut gameplay);
    assert_eq!(player_pos(&world), (2, 1));
    assert_eq!(box_positions(&world), vec![(3, 1)]);
    assert_eq!(gameplay.moves_count, 1);
    assert_eq!(gameplay.state, GamePlayState::Won);
}

#[test]
fn pushing_box_off_its_spot_reverts_to_playing() {
    let mut world = load(". . . . .\n. P B S .");
    let mut queue = InputQueue::default();
    let mut gameplay = GamePlay::default();
    queue.keys.push(KeyCode::Right);
    tick(&mut world, &mut queue, &mut gameplay);
    assert_eq!(gameplay.state, GamePlayState::Won);
    queue.keys.push(KeyCode::Right);
    tick(&mut world, &mut queue, &mut gameplay);
    assert_eq!(player_pos(&world), (3, 1));
    assert_eq!(box_positions(&world), vec![(4, 1)]);
    assert_eq!(gameplay.moves_count, 2);
    assert_eq!(gameplay.state, GamePlayState::Playing);
}

#[test]
fn up_and_down_pushes_move_along_y() {
    let mut world = load(". . .\n. P .\n. B .\n. . .");
    let mut queue = InputQueue::default();
    let mut gameplay = GamePlay::default();
    queue.keys.push(KeyCode::Down);
    tick(&mut world, &mut queue, &mut gameplay);
    assert_eq!(player_pos(&world), (1, 2));
    assert_eq!(box_positions(&world), vec![(1, 3)]);
    queue.keys.push(KeyCode::Up);
    tick(&mut world, &mut queue, &mut gameplay);
    assert_eq!(player_pos(&world), (1, 1));
    assert_eq!(box_positions(&world), vec![(1, 3)]);
    queue.keys.push(KeyCode::Left);
    tick(&mut world, &mut queue, &mut gameplay);
    assert_eq!(player_pos(&world), (0, 1));
    assert_eq!(gameplay.moves_count, 3);
}
