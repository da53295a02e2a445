use sokoban::components::{Box, BoxSpot, Component, ComponentKind, Movable, Position, Renderable};
use sokoban::gameplay_state_system::GameplayStateSystem;
use sokoban::rendering::render_order;
use sokoban::resources::{GamePlay, GamePlayState, InputQueue};
use sokoban::world::World;

#[test]
fn create_and_attach_components() {
    let mut world = World::new();
    let a = world.create_entity();
    let b = world.create_entity();
    assert_eq!((a, b), (0, 1));
    world.attach(a, Component::Position(Position { x: 3, y: 4, z: 7 }));
    world.attach(a, Component::Box(Box {}));
    world.attach(a, Component::Movable(Movable));
    world.attach(b, Component::BoxSpot(BoxSpot {}));
    let p = world.ents[a].position.unwrap();
    assert_eq!((p.x, p.y, p.z), (3, 4, 7));
    assert!(world.ents[a].box_ && world.ents[a].movable);
    assert!(world.ents[b].box_spot && world.ents[b].position.is_none());
}

#[test]
fn entities_with_filters_by_all_kinds() {
    let mut world = World::new();
    let a = world.create_entity();
    world.attach(a, Component::Position(Position { x: 0, y: 0, z: 0 }));
    world.attach(a, Component::Box(Box {}));
    world.attach(a, Component::Movable(Movable));
    let b = world.create_entity();
    world.attach(b, Component::Box(Box {}));
    let c = world.create_entity();
    world.attach(c, Component::Position(Position { x: 1, y: 0, z: 0 }));
    let boxes_with_pos = world.entities_with(&vec![ComponentKind::Position, ComponentKind::Box]);
    assert_eq!(boxes_with_pos, vec![a]);
    let positioned = world.entities_with(&vec![ComponentKind::Position]);
    assert_eq!(positioned, vec![a, c]);
    let everything = world.entities_with(&vec![]);
    assert_eq!(everything, vec![a, b, c]);
}

#[test]
fn render_order_sorts_by_layer() {
    let mut world = World::new();
    let high = world.create_entity();
    world.attach(high, Component::Position(Position { x: 0, y: 0, z: 10 }));
    world.attach(
        high,
        Component::Renderable(Renderable { path: "/images/wall.png".to_string() }),
    );
    let low = world.create_entity();
    world.attach(low, Component::Position(Position { x: 0, y: 0, z: 5 }));
    world.attach(
        low,
        Component::Renderable(Renderable { path: "/images/floor.png".to_string() }),
    );
    let bare = world.create_entity();
    world.attach(bare, Component::Position(Position { x: 1, y: 0, z: 0 }));
    let order = render_order(&world);
    // the entity without a renderable is absent; lower layers come first
    assert_eq!(order, vec![low, high]);
}

#[test]
fn default_resources_start_at_playing_zero() {
    let queue = InputQueue::default();
    assert!(queue.keys.is_empty());
    let gameplay = GamePlay::default();
    assert_eq!(gameplay.state, GamePlayState::Playing);
    assert_eq!(gameplay.moves_count, 0);
    assert_eq!(GamePlayState::default(), GamePlayState::Playing);
}

#[test]
fn state_labels_for_overlay() {
    assert_eq!(GamePlayState::Playing.label(), "Playing");
    assert_eq!(GamePlayState::Won.label(), "Won");
}

#[test]
fn coverage_ignores_extra_boxes() {
    let mut world = World::new();
    let mut gameplay = GamePlay::default();
    let spot = world.create_entity();
    world.attach(spot, Component::Position(Position { x: 2, y: 0, z: 9 }));
    world.attach(spot, Component::BoxSpot(BoxSpot {}));
    let covering = world.create_entity();
    world.attach(covering, Component::Position(Position { x: 2, y: 0, z: 10 }));
    world.attach(covering, Component::Box(Box {}));
    world.attach(covering, Component::Movable(Movable));
    let extra = world.create_entity();
    world.attach(extra, Component::Position(Position { x: 4, y: 0, z: 10 }));
    world.attach(extra, Component::Box(Box {}));
    world.attach(extra, Component::Movable(Movable));
    let detector = GameplayStateSystem {};
    detector.run(&world, &mut gameplay);
    // every spot is covered; the box on plain floor does not matter
    assert_eq!(gameplay.state, GamePlayState::Won);
}

#[test]
fn uncovered_spot_keeps_playing() {
    let mut world = World::new();
    let mut gameplay = GamePlay::default();
    let spot = world.create_entity();
    world.attach(spot, Component::Position(Position { x: 2, y: 0, z: 9 }));
    world.attach(spot, Component::BoxSpot(BoxSpot {}));
    let bx = world.create_entity();
    world.attach(bx, Component::Position(Position { x: 3, y: 0, z: 10 }));
    world.attach(bx, Component::Box(Box {}));
    world.attach(bx, Component::Movable(Movable));
    let detector = GameplayStateSystem {};
    detector.run(&world, &mut gameplay);
    assert_eq!(gameplay.state, GamePlayState::Playing);
}

#[test]
fn invalid_worlds_are_rejected() {
    // two movable entities on one cell break the occupancy invariant
    let mut world = World::new();
    let a = world.create_entity();
    world.attach(a, Component::Position(Position { x: 1, y: 1, z: 10 }));
    world.attach(a, Component::Box(Box {}));
    world.attach(a, Component::Movable(Movable));
    let b = world.create_entity();
    world.attach(b, Component::Position(Position { x: 1, y: 1, z: 10 }));
    world.attach(b, Component::Box(Box {}));
    world.attach(b, Component::Movable(Movable));
    assert!(!world.is_valid_level());

    // a box that is not movable breaks the tag rules
    let mut world2 = World::new();
    let c = world2.create_entity();
    world2.attach(c, Component::Position(Position { x: 0, y: 0, z: 10 }));
    world2.attach(c, Component::Box(Box {}));
    assert!(!world2.is_valid_level());

    // no player
    let world3 = World::new();
    assert!(!world3.is_valid_level());
}
