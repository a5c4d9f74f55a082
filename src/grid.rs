use std::collections::HashMap;
use vstd::prelude::*;

use crate::components::{Entity, World};

verus! {

broadcast use vstd::std_specs::hash::group_hash_axioms;

/// The key of tile `(x, y)` in a grid index.
pub open spec fn tile_key(x: int, y: int) -> u16 {
    (x * 256 + y) as u16
}

pub fn tile_key_of(x: u8, y: u8) -> (k: u16)
    ensures
        k == tile_key(x as int, y as int),
{
    x as u16 * 256 + y as u16
}

/// Which entities a grid index holds.
#[derive(Clone, Copy, Debug, PartialEq, Eq, Structural)]
pub enum Layer {
    Movables,
    Immovables,
    Boxes,
}

pub open spec fn in_layer(e: Entity, layer: Layer) -> bool {
    match layer {
        Layer::Movables => e.movable is Some,
        Layer::Immovables => e.immovable is Some,
        Layer::Boxes => e.kind is Box,
    }
}

/// The index from tile key to entity id that results from visiting the entities in id order,
/// each entity of the layer overwriting what stood under its tile before.
pub open spec fn tile_index(ents: Seq<Entity>, layer: Layer) -> Map<u16, usize>
    decreases ents.len(),
{
    if ents.len() == 0 {
        Map::empty()
    } else {
        let prev = tile_index(ents.drop_last(), layer);
        let e = ents.last();
        if in_layer(e, layer) {
            prev.insert(tile_key(e.position.x as int, e.position.y as int), (ents.len() - 1) as usize)
        } else {
            prev
        }
    }
}

/// A tile key is in the index iff some entity of the layer stands on that tile, and the
/// entity the index gives stands on it.
pub proof fn lemma_tile_index(ents: Seq<Entity>, layer: Layer, k: u16)
    requires
        ents.len() <= usize::MAX,
    ensures
        tile_index(ents, layer).contains_key(k) <==> exists|i: int|
            #![trigger ents[i]]
            0 <= i < ents.len() && in_layer(ents[i], layer) && tile_key(
                ents[i].position.x as int,
                ents[i].position.y as int,
            ) == k,
        tile_index(ents, layer).contains_key(k) ==> ({
            let i = tile_index(ents, layer)[k] as int;
            &&& 0 <= i < ents.len()
            &&& in_layer(ents[i], layer)
            &&& tile_key(ents[i].position.x as int, ents[i].position.y as int) == k
        }),
    decreases ents.len(),
{
    if ents.len() > 0 {
        let pre = ents.drop_last();
        lemma_tile_index(pre, layer, k);
        if tile_index(pre, layer).contains_key(k) {
            let i = choose|i: int|
                #![trigger pre[i]]
                0 <= i < pre.len() && in_layer(pre[i], layer) && tile_key(
                    pre[i].position.x as int,
                    pre[i].position.y as int,
                ) == k;
            assert(ents[i] == pre[i]);
            let j = tile_index(pre, layer)[k] as int;
            assert(ents[j] == pre[j]);
        }
        assert forall|i: int|
            #![trigger ents[i]]
            0 <= i < ents.len() - 1 implies ents[i] == pre[i] by {}
    }
}

/// Two tiles with `u8` coordinates have the same key only if they are the same tile.
pub proof fn lemma_tile_key_injective(x1: u8, y1: u8, x2: u8, y2: u8)
    ensures
        tile_key(x1 as int, y1 as int) == tile_key(x2 as int, y2 as int) <==> (x1 == x2 && y1
            == y2),
{
}

/// Builds the index of one layer from the entities in id order.
pub fn build_tile_index(world: &World, layer: Layer) -> (m: HashMap<u16, usize>)
    ensures
        m@ == tile_index(world@, layer),
{
    let mut m: HashMap<u16, usize> = HashMap::new();
    let n = world.entities.len();
    let mut i: usize = 0;
    while i < n
        invariant
            n == world@.len(),
            i <= n,
            m@ == tile_index(world@.subrange(0, i as int), layer),
        decreases n - i,
    {
        let e = world.entities[i];
        assert(world@.subrange(0, i + 1).drop_last() =~= world@.subrange(0, i as int));
        let selected = match layer {
            Layer::Movables => e.movable.is_some(),
            Layer::Immovables => e.immovable.is_some(),
            Layer::Boxes => match e.kind {
                crate::components::EntityKind::Box(_) => true,
                _ => false,
            },
        };
        if selected {
            m.insert(tile_key_of(e.position.x, e.position.y), i);
        }
        i = i + 1;
    }
    assert(world@.subrange(0, n as int) =~= world@);
    m
}

/// For each tile, the movable and the immovable entity standing on it.
pub struct GridIndex {
    pub movables: HashMap<u16, usize>,
    pub immovables: HashMap<u16, usize>,
}

impl GridIndex {
    pub open spec fn wf_for(&self, ents: Seq<Entity>) -> bool {
        &&& self.movables@ == tile_index(ents, Layer::Movables)
        &&& self.immovables@ == tile_index(ents, Layer::Immovables)
    }

    pub fn build(world: &World) -> (g: GridIndex)
        ensures
            g.wf_for(world@),
    {
        GridIndex {
            movables: build_tile_index(world, Layer::Movables),
            immovables: build_tile_index(world, Layer::Immovables),
        }
    }
}

} // verus!
