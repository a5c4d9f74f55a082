use vstd::prelude::*;

use crate::components::{
    Box, BoxColour, BoxSpot, Entity, EntityKind, Immovable, Movable, Player, Position, Wall, World,
};

verus! {

pub open spec fn wall_at(position: Position) -> Entity {
    Entity { position, kind: EntityKind::Wall(Wall {}), movable: None, immovable: Some(Immovable) }
}

pub open spec fn box_at(position: Position, colour: BoxColour) -> Entity {
    Entity { position, kind: EntityKind::Box(Box { colour }), movable: Some(Movable), immovable: None }
}

pub open spec fn box_spot_at(position: Position, colour: BoxColour) -> Entity {
    Entity { position, kind: EntityKind::BoxSpot(BoxSpot { colour }), movable: None, immovable: None }
}

pub open spec fn floor_at(position: Position) -> Entity {
    Entity { position, kind: EntityKind::Floor, movable: None, immovable: None }
}

pub open spec fn player_at(position: Position) -> Entity {
    Entity { position, kind: EntityKind::Player(Player {}), movable: Some(Movable), immovable: None }
}

/// Adds a wall, which blocks pushes.
pub fn create_wall(world: &mut World, position: Position)
    ensures
        final(world)@ == old(world)@.push(wall_at(position)),
        final(world).bounds == old(world).bounds,
{
    world.entities.push(
        Entity { position, kind: EntityKind::Wall(Wall {}), movable: None, immovable: Some(Immovable) },
    );
}

/// Adds a box of the given colour, which pushes move.
pub fn create_box(world: &mut World, position: Position, colour: BoxColour)
    ensures
        final(world)@ == old(world)@.push(box_at(position, colour)),
        final(world).bounds == old(world).bounds,
{
    world.entities.push(
        Entity {
            position,
            kind: EntityKind::Box(Box { colour }),
            movable: Some(Movable),
            immovable: None,
        },
    );
}

/// Adds a spot for boxes of the given colour; it neither moves nor blocks.
pub fn create_box_spot(world: &mut World, position: Position, colour: BoxColour)
    ensures
        final(world)@ == old(world)@.push(box_spot_at(position, colour)),
        final(world).bounds == old(world).bounds,
{
    world.entities.push(
        Entity { position, kind: EntityKind::BoxSpot(BoxSpot { colour }), movable: None, immovable: None },
    );
}

/// Adds a floor tile; it neither moves nor blocks.
pub fn create_floor(world: &mut World, position: Position)
    ensures
        final(world)@ == old(world)@.push(floor_at(position)),
        final(world).bounds == old(world).bounds,
{
    world.entities.push(Entity { position, kind: EntityKind::Floor, movable: None, immovable: None });
}

/// Adds the player, which pushes move.
pub fn create_player(world: &mut World, position: Position)
    ensures
        final(world)@ == old(world)@.push(player_at(position)),
        final(world).bounds == old(world).bounds,
{
    world.entities.push(
        Entity { position, kind: EntityKind::Player(Player {}), movable: Some(Movable), immovable: None },
    );
}

} // verus!
