use vstd::prelude::*;

verus! {

/// A grid cell occupied by an entity. `x` and `y` are map coordinates;
/// `z` is the draw-order layer, read only by the presentation layer.
#[derive(Clone, Copy, PartialEq, Eq, Structural, Debug)]
pub struct Position {
    pub x: u8,
    pub y: u8,
    pub z: u8,
}

/// An opaque visual-asset reference, consumed only by the presentation layer.
#[derive(Debug)]
pub struct Renderable {
    pub path: String,
}

/// Tag: the entity is a wall. Walls always carry `Immovable` as well.
#[derive(Clone, Copy, Debug)]
pub struct Wall {}

/// Tag: the entity is the player. The player always carries `Movable` as well.
#[derive(Clone, Copy, Debug)]
pub struct Player {}

/// Tag: the entity is a pushable box. Boxes always carry `Movable` as well.
#[derive(Clone, Copy, Debug)]
pub struct Box {}

/// Tag: the entity marks a target cell that a box should come to rest on.
/// Box spots carry neither `Movable` nor `Immovable`.
#[derive(Clone, Copy, Debug)]
pub struct BoxSpot {}

/// Tag: the entity can be displaced by a push.
#[derive(Clone, Copy, Debug)]
pub struct Movable;

/// Tag: the entity blocks all displacement through its cell.
#[derive(Clone, Copy, Debug)]
pub struct Immovable;

/// A component value to attach to an entity in the store.
pub enum Component {
    Position(Position),
    Renderable(Renderable),
    Player(Player),
    Wall(Wall),
    Box(Box),
    BoxSpot(BoxSpot),
    Movable(Movable),
    Immovable(Immovable),
}

/// Names a component kind, for membership queries over the store.
#[derive(Clone, Copy, PartialEq, Eq, Structural, Debug)]
pub enum ComponentKind {
    Position,
    Renderable,
    Player,
    Wall,
    Box,
    BoxSpot,
    Movable,
    Immovable,
}

} // verus!
