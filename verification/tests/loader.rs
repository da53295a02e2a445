use sokoban::level::{initialize_level, load_map, LoadError};
use sokoban::world::World;

#[test]
fn single_player_level_loads() {
    let mut world = World::new();
    load_map(&mut world, "P".to_string()).expect("should load");
    // one floor tile under the player, then the player itself
    assert_eq!(world.ents.len(), 2);
    let floor = &world.ents[0];
    let fp = floor.position.unwrap();
    assert_eq!((fp.x, fp.y, fp.z), (0, 0, 5));
    assert_eq!(floor.renderable.as_ref().unwrap().path, "/images/floor.png");
    assert!(!floor.movable && !floor.immovable && !floor.player);
    let player = &world.ents[1];
    let pp = player.position.unwrap();
    assert_eq!((pp.x, pp.y, pp.z), (0, 0, 10));
    assert_eq!(player.renderable.as_ref().unwrap().path, "/images/player.png");
    assert!(player.player && player.movable && !player.immovable);
    assert!(world.is_valid_level());
}

#[test]
fn every_token_kind_builds_its_entities() {
    let mut world = World::new();
    load_map(&mut world, "N . W P B S".to_string()).expect("should load");
    // N creates nothing; the five others each stand on a floor tile but N
    assert_eq!(world.ents.len(), 9);
    // wall at x = 2, layer 10, immovable
    let wall = &world.ents[2];
    assert!(wall.wall && wall.immovable && !wall.movable);
    let wp = wall.position.unwrap();
    assert_eq!((wp.x, wp.y, wp.z), (2, 0, 10));
    assert_eq!(wall.renderable.as_ref().unwrap().path, "/images/wall.png");
    // box at x = 4, movable
    let bx = &world.ents[6];
    assert!(bx.box_ && bx.movable);
    let bp = bx.position.unwrap();
    assert_eq!((bp.x, bp.y, bp.z), (4, 0, 10));
    assert_eq!(bx.renderable.as_ref().unwrap().path, "/images/box.png");
    // box spot at x = 5, layer 9, neither movable nor immovable
    let spot = &world.ents[8];
    assert!(spot.box_spot && !spot.movable && !spot.immovable);
    let sp = spot.position.unwrap();
    assert_eq!((sp.x, sp.y, sp.z), (5, 0, 9));
    assert_eq!(spot.renderable.as_ref().unwrap().path, "/images/box_spot.png");
    assert!(world.is_valid_level());
}

#[test]
fn unrecognized_token_is_fatal() {
    let mut world = World::new();
    let r = load_map(&mut world, "P X".to_string());
    assert_eq!(r, Err(LoadError::UnrecognizedToken));
    assert_eq!(world.ents.len(), 0);
}

#[test]
fn adjacent_tokens_without_separator_are_fatal() {
    let mut world = World::new();
    let r = load_map(&mut world, "P WW".to_string());
    assert_eq!(r, Err(LoadError::UnrecognizedToken));
    assert_eq!(world.ents.len(), 0);
}

#[test]
fn token_off_the_map_is_fatal() {
    let mut world = World::new();
    // ten tokens on one row: the last sits at x = 9, past MAP_WIDTH = 8
    let r = load_map(&mut world, "P . . . . . . . . .".to_string());
    assert_eq!(r, Err(LoadError::OutOfBounds));
    assert_eq!(world.ents.len(), 0);
}

#[test]
fn missing_player_is_fatal() {
    let mut world = World::new();
    let r = load_map(&mut world, ". . W".to_string());
    assert_eq!(r, Err(LoadError::PlayerCount));
    assert_eq!(world.ents.len(), 0);
}

#[test]
fn two_players_are_fatal() {
    let mut world = World::new();
    let r = load_map(&mut world, "P . P".to_string());
    assert_eq!(r, Err(LoadError::PlayerCount));
    assert_eq!(world.ents.len(), 0);
}

#[test]
fn rows_without_tokens_do_not_advance_y() {
    let mut world = World::new();
    load_map(&mut world, "\n  \nW P\n".to_string()).expect("should load");
    let mut player = None;
    for e in world.ents.iter() {
        if e.player {
            player = e.position;
        }
    }
    let p = player.expect("player exists");
    assert_eq!((p.x, p.y), (1, 0));
}

#[test]
fn default_level_loads_and_is_valid() {
    let mut world = World::new();
    initialize_level(&mut world).expect("bundled level should load");
    assert!(world.is_valid_level());
    let mut player = None;
    let mut boxes = Vec::new();
    let mut spots = Vec::new();
    for e in world.ents.iter() {
        let p = e.position;
        if e.player {
            player = p;
        }
        if e.box_ {
            boxes.push(p.unwrap());
        }
        if e.box_spot {
            spots.push(p.unwrap());
        }
    }
    let p = player.expect("player exists");
    assert_eq!((p.x, p.y), (2, 4));
    assert_eq!(boxes.len(), 1);
    assert_eq!((boxes[0].x, boxes[0].y), (4, 2));
    assert_eq!(spots.len(), 1);
    assert_eq!((spots[0].x, spots[0].y), (3, 6));
}
