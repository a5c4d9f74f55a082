use vstd::prelude::*;

use crate::map::{MAP_HEIGHT, MAP_WIDTH};

verus! {

/// A tile coordinate; `z` only orders drawing and is ignored by the game rules.
#[derive(Clone, Copy, Debug, PartialEq, Eq, Structural)]
pub struct Position {
    pub x: u8,
    pub y: u8,
    pub z: u8,
}

/// The colour of a box and of the spot it belongs on.
#[derive(Clone, Copy, Debug, PartialEq, Eq, Structural)]
pub enum BoxColour {
    Red,
    Blue,
}

/// Marks an entity that a push can displace.
#[derive(Clone, Copy, Debug, PartialEq, Eq, Structural)]
pub struct Movable;

/// Marks an entity that blocks every push.
#[derive(Clone, Copy, Debug, PartialEq, Eq, Structural)]
pub struct Immovable;

#[derive(Clone, Copy, Debug, PartialEq, Eq, Structural)]
pub struct Wall {}

#[derive(Clone, Copy, Debug, PartialEq, Eq, Structural)]
pub struct Player {}

#[derive(Clone, Copy, Debug, PartialEq, Eq, Structural)]
pub struct Box {
    pub colour: BoxColour,
}

#[derive(Clone, Copy, Debug, PartialEq, Eq, Structural)]
pub struct BoxSpot {
    pub colour: BoxColour,
}

/// What an entity is, with the data its kind carries.
#[derive(Clone, Copy, Debug, PartialEq, Eq, Structural)]
pub enum EntityKind {
    Floor,
    Wall(Wall),
    Player(Player),
    Box(Box),
    BoxSpot(BoxSpot),
}

/// One placed entity: its tile, its kind, and whether pushes move it or are stopped by it.
#[derive(Clone, Copy, Debug, PartialEq, Eq, Structural)]
pub struct Entity {
    pub position: Position,
    pub kind: EntityKind,
    pub movable: Option<Movable>,
    pub immovable: Option<Immovable>,
}

/// The size of a map in tiles: `x` runs below `width` and `y` below `height`. Past the last
/// tile lies the edge of the map, which blocks a push like a wall.
#[derive(Clone, Copy, Debug, PartialEq, Eq, Structural)]
pub struct Bounds {
    pub width: u16,
    pub height: u16,
}

/// The entity store: an arena in which an entity's id is its index, with the size of the map
/// it holds.
pub struct World {
    pub entities: Vec<Entity>,
    pub bounds: Bounds,
}

impl View for World {
    type V = Seq<Entity>;

    open spec fn view(&self) -> Seq<Entity> {
        self.entities@
    }
}

impl World {
    /// An empty world; until a map is loaded its size is the starting level's.
    pub fn new() -> (w: World)
        ensures
            w@ == Seq::<Entity>::empty(),
            w.bounds == (Bounds { width: MAP_WIDTH, height: MAP_HEIGHT }),
    {
        World { entities: Vec::new(), bounds: Bounds { width: MAP_WIDTH, height: MAP_HEIGHT } }
    }

    pub fn len(&self) -> (n: usize)
        ensures
            n == self@.len(),
    {
        self.entities.len()
    }

    pub fn get(&self, id: usize) -> (e: Option<Entity>)
        ensures
            id < self@.len() ==> e == Some(self@[id as int]),
            id >= self@.len() ==> e is None,
    {
        if id < self.entities.len() {
            Some(self.entities[id])
        } else {
            None
        }
    }
}

pub open spec fn is_player(e: Entity) -> bool {
    e.kind is Player
}

pub open spec fn is_box(e: Entity) -> bool {
    e.kind is Box
}

pub open spec fn is_box_spot(e: Entity) -> bool {
    e.kind is BoxSpot
}

/// Two positions name the same tile when `x` and `y` agree; `z` is ignored.
pub open spec fn same_tile(a: Position, b: Position) -> bool {
    a.x == b.x && a.y == b.y
}

} // verus!
