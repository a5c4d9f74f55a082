use vstd::prelude::*;

use crate::components::{is_box, is_box_spot, same_tile, Entity, EntityKind, World};
use crate::grid::{build_tile_index, lemma_tile_index, lemma_tile_key_injective, tile_key_of, Layer};
use crate::sokoban::{Gameplay, GameplayState};

verus! {

broadcast use vstd::std_specs::hash::group_hash_axioms;

/// Some box stands on the tile of entity `i`.
pub open spec fn covered(ents: Seq<Entity>, i: int) -> bool {
    exists|j: int| 0 <= j < ents.len() && is_box(ents[j]) && same_tile(#[trigger] ents[j].position, ents[i].position)
}

/// Every box spot has some box on its tile; the colours do not matter.
pub open spec fn all_spots_covered(ents: Seq<Entity>) -> bool {
    forall|i: int| 0 <= i < ents.len() && is_box_spot(#[trigger] ents[i]) ==> covered(ents, i)
}

pub open spec fn win_state(ents: Seq<Entity>) -> GameplayState {
    if all_spots_covered(ents) {
        GameplayState::Won
    } else {
        GameplayState::Playing
    }
}

/// Whether the level is won: `Won` exactly when every box spot has a box on its tile,
/// whatever the colours.
pub fn detect_win(world: &World) -> (r: GameplayState)
    ensures
        r == win_state(world@),
{
    let ghost ents = world@;
    let n = world.entities.len();
    let boxes = build_tile_index(world, Layer::Boxes);
    let mut i: usize = 0;
    while i < n
        invariant
            n == ents.len(),
            ents == world@,
            boxes@ == crate::grid::tile_index(ents, Layer::Boxes),
            i <= n,
            forall|k: int| 0 <= k < i && is_box_spot(#[trigger] ents[k]) ==> covered(ents, k),
        decreases n - i,
    {
        let e = world.entities[i];
        match e.kind {
            EntityKind::BoxSpot(_) => {
                let key = tile_key_of(e.position.x, e.position.y);
                proof {
                    lemma_tile_index(ents, Layer::Boxes, key);
                }
                if !boxes.contains_key(&key) {
                    proof {
                        if covered(ents, i as int) {
                            let j = choose|j: int|
                                0 <= j < ents.len() && is_box(ents[j]) && same_tile(
                                    #[trigger] ents[j].position,
                                    ents[i as int].position,
                                );
                            assert(crate::grid::in_layer(ents[j], Layer::Boxes));
                        }
                    }
                    return GameplayState::Playing;
                }
                proof {
                    let j = boxes@[key] as int;
                    lemma_tile_key_injective(ents[j].position.x, ents[j].position.y, e.position.x, e.position.y);
                    assert(same_tile(ents[j].position, ents[i as int].position));
                }
            },
            _ => {},
        }
        i = i + 1;
    }
    GameplayState::Won
}

/// Recomputes the phase of play every tick, whether or not anything moved.
pub struct GameplayStateSystem {}

impl GameplayStateSystem {
    pub fn run(&mut self, gameplay: &mut Gameplay, world: &World)
        ensures
            final(gameplay).state == win_state(world@),
            final(gameplay).moves_count == old(gameplay).moves_count,
    {
        gameplay.state = detect_win(world);
    }
}

} // verus!
