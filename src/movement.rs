use vstd::prelude::*;

use crate::components::{is_box, is_box_spot, is_player, same_tile, Bounds, Entity, Position, World};
use crate::events::{EntityMoved, EventChannel, MoveEvent};
use crate::grid::{in_layer, lemma_tile_index, tile_index, tile_key, tile_key_of, GridIndex, Layer};
use crate::sokoban::Gameplay;

verus! {

broadcast use vstd::std_specs::hash::group_hash_axioms;

#[derive(Clone, Copy, Debug, PartialEq, Eq, Structural)]
pub enum Direction {
    Up,
    Down,
    Right,
    Left,
}

/// The tile `k` steps from `p` in direction `d`.
pub open spec fn scan_cell(p: Position, d: Direction, k: int) -> (int, int) {
    match d {
        Direction::Up => (p.x as int, p.y + k),
        Direction::Down => (p.x as int, p.y - k),
        Direction::Right => (p.x + k, p.y as int),
        Direction::Left => (p.x - k, p.y as int),
    }
}

/// The number of tiles a map of extent `size` has along one axis that a `u8` coordinate can
/// reach.
pub open spec fn reachable(size: u16) -> int {
    if size > 256 {
        256
    } else {
        size as int
    }
}

/// How many tiles a push from `p` scans, `p`'s own tile included: every tile of the map from
/// `p` on in the direction of travel. The tile past the last one is the edge of the map.
pub open spec fn scan_len(p: Position, d: Direction, width: u16, height: u16) -> nat {
    match d {
        Direction::Up => if p.y < reachable(height) {
            (reachable(height) - p.y) as nat
        } else {
            0
        },
        Direction::Down => (p.y + 1) as nat,
        Direction::Right => if p.x < reachable(width) {
            (reachable(width) - p.x) as nat
        } else {
            0
        },
        Direction::Left => (p.x + 1) as nat,
    }
}

pub open spec fn prepend(a: Seq<usize>, r: Option<Seq<usize>>) -> Option<Seq<usize>> {
    match r {
        Some(rest) => Some(a + rest),
        None => None,
    }
}

/// The chain that a push resolves to, scanning from the `k`-th tile of the line: each tile
/// that holds a movable entity adds it and the scan goes on; a tile with an immovable entity
/// and no movable one blocks the push (`None`); a free tile ends the chain; running past the
/// last tile of the line blocks the push as well.
pub open spec fn chain_from(
    movables: Map<u16, usize>,
    immovables: Map<u16, usize>,
    p: Position,
    d: Direction,
    k: nat,
    n: nat,
) -> Option<Seq<usize>>
    decreases n - k,
{
    if k >= n {
        None
    } else {
        let c = scan_cell(p, d, k as int);
        let key = tile_key(c.0, c.1);
        if movables.contains_key(key) {
            prepend(seq![movables[key]], chain_from(movables, immovables, p, d, k + 1, n))
        } else if immovables.contains_key(key) {
            None
        } else {
            Some(Seq::empty())
        }
    }
}

/// The chain that a push from `p` in direction `d` moves, or `None` when the push is blocked.
pub open spec fn resolved_chain(
    movables: Map<u16, usize>,
    immovables: Map<u16, usize>,
    p: Position,
    d: Direction,
    width: u16,
    height: u16,
) -> Option<Seq<usize>> {
    chain_from(movables, immovables, p, d, 0, scan_len(p, d, width, height))
}

/// Resolves a push: the ids to move, player first and then each box in line, or `None`
/// when a wall or the edge of the map stops it.
pub fn resolve_push(
    grid: &GridIndex,
    player: Position,
    direction: Direction,
    width: u16,
    height: u16,
) -> (r: Option<Vec<usize>>)
    ensures
        match r {
            Some(chain) => resolved_chain(
                grid.movables@,
                grid.immovables@,
                player,
                direction,
                width,
                height,
            ) == Some(chain@),
            None => resolved_chain(
                grid.movables@,
                grid.immovables@,
                player,
                direction,
                width,
                height,
            ) is None,
        },
{
    let ghost mv = grid.movables@;
    let ghost im = grid.immovables@;
    let ghost total = scan_len(player, direction, width, height);
    let h: u16 = if height > 256 {
        256
    } else {
        height
    };
    let w: u16 = if width > 256 {
        256
    } else {
        width
    };
    let n: u16 = match direction {
        Direction::Up => if (player.y as u16) < h {
            h - player.y as u16
        } else {
            0
        },
        Direction::Down => player.y as u16 + 1,
        Direction::Right => if (player.x as u16) < w {
            w - player.x as u16
        } else {
            0
        },
        Direction::Left => player.x as u16 + 1,
    };
    assert(n == total);
    let mut chain: Vec<usize> = Vec::new();
    let mut k: u16 = 0;
    while k < n
        invariant
            n == total,
            n <= 256,
            k <= n,
            mv == grid.movables@,
            im == grid.immovables@,
            total == scan_len(player, direction, width, height),
            chain_from(mv, im, player, direction, 0, total) == prepend(
                chain@,
                chain_from(mv, im, player, direction, k as nat, total),
            ),
        decreases n - k,
    {
        let (cx, cy): (u8, u8) = match direction {
            Direction::Up => (player.x, (player.y as u16 + k) as u8),
            Direction::Down => (player.x, (player.y as u16 - k) as u8),
            Direction::Right => ((player.x as u16 + k) as u8, player.y),
            Direction::Left => ((player.x as u16 - k) as u8, player.y),
        };
        assert(scan_cell(player, direction, k as int) == (cx as int, cy as int));
        let key = tile_key_of(cx, cy);
        match grid.movables.get(&key) {
            Some(id) => {
                let ghost before = chain@;
                chain.push(*id);
                assert(before + (seq![*id] + chain_from(mv, im, player, direction, (k + 1) as nat, total)->0)
                    =~= chain@ + chain_from(mv, im, player, direction, (k + 1) as nat, total)->0);
            },
            None => {
                match grid.immovables.get(&key) {
                    Some(_) => {
                        return None;
                    },
                    None => {
                        assert(chain@ + Seq::<usize>::empty() =~= chain@);
                        return Some(chain);
                    },
                }
            },
        }
        k = k + 1;
    }
    None
}


/// The `j`-th id of chain `c`, which starts at the `k`-th tile scanned, is the movable entity
/// that the index gives for its tile.
pub open spec fn chain_link(
    movables: Map<u16, usize>,
    p: Position,
    d: Direction,
    k: int,
    c: Seq<usize>,
    j: int,
) -> bool {
    let t = scan_cell(p, d, k + j);
    &&& movables.contains_key(tile_key(t.0, t.1))
    &&& c[j] == movables[tile_key(t.0, t.1)]
}

/// What the scan shows along a resolved chain: each id is the movable entity the index gives
/// for its tile, and the tile after the chain is inside the line and free.
pub proof fn lemma_chain_from(
    movables: Map<u16, usize>,
    immovables: Map<u16, usize>,
    p: Position,
    d: Direction,
    k: nat,
    n: nat,
)
    ensures
        chain_from(movables, immovables, p, d, k, n) is Some ==> ({
            let c = chain_from(movables, immovables, p, d, k, n)->0;
            let free = scan_cell(p, d, (k + c.len()) as int);
            &&& k + c.len() < n
            &&& forall|j: int|
                0 <= j < c.len() ==> #[trigger] chain_link(movables, p, d, k as int, c, j)
            &&& !movables.contains_key(tile_key(free.0, free.1))
            &&& !immovables.contains_key(tile_key(free.0, free.1))
        }),
    decreases n - k,
{
    if k < n {
        let t = scan_cell(p, d, k as int);
        if movables.contains_key(tile_key(t.0, t.1)) {
            lemma_chain_from(movables, immovables, p, d, k + 1, n);
            if chain_from(movables, immovables, p, d, k, n) is Some {
                let c = chain_from(movables, immovables, p, d, k, n)->0;
                let rest = chain_from(movables, immovables, p, d, k + 1, n)->0;
                assert(c == seq![movables[tile_key(t.0, t.1)]] + rest);
                assert forall|j: int| 0 <= j < c.len() implies #[trigger] chain_link(
                    movables,
                    p,
                    d,
                    k as int,
                    c,
                    j,
                ) by {
                    if j > 0 {
                        assert(chain_link(movables, p, d, (k + 1) as int, rest, j - 1));
                        assert(k + j == (k + 1) + (j - 1));
                    }
                }
                assert(k + c.len() == (k + 1) + rest.len());
            }
        }
    }
}

/// A scanned tile lies on the grid.
pub open spec fn on_grid(t: (int, int)) -> bool {
    0 <= t.0 <= 255 && 0 <= t.1 <= 255
}

pub proof fn lemma_scan_cell_on_grid(p: Position, d: Direction, width: u16, height: u16, k: int)
    requires
        0 <= k < scan_len(p, d, width, height),
    ensures
        on_grid(scan_cell(p, d, k)),
{
}

/// The position one tile from `p` in direction `d`.
pub open spec fn step(p: Position, d: Direction) -> Position {
    match d {
        Direction::Up => Position { x: p.x, y: (p.y + 1) as u8, z: p.z },
        Direction::Down => Position { x: p.x, y: (p.y - 1) as u8, z: p.z },
        Direction::Right => Position { x: (p.x + 1) as u8, y: p.y, z: p.z },
        Direction::Left => Position { x: (p.x - 1) as u8, y: p.y, z: p.z },
    }
}

/// A step from `p` in direction `d` stays on the grid.
pub open spec fn can_step(p: Position, d: Direction) -> bool {
    match d {
        Direction::Up => p.y < 255,
        Direction::Down => p.y > 0,
        Direction::Right => p.x < 255,
        Direction::Left => p.x > 0,
    }
}

/// `b` is `a` moved exactly one tile in direction `d`, with nothing else changed.
pub open spec fn moved_one_tile(a: Entity, b: Entity, d: Direction) -> bool {
    let (dx, dy): (int, int) = match d {
        Direction::Up => (0, 1),
        Direction::Down => (0, -1),
        Direction::Right => (1, 0),
        Direction::Left => (-1, 0),
    };
    &&& b.position.x == a.position.x + dx
    &&& b.position.y == a.position.y + dy
    &&& b.position.z == a.position.z
    &&& b.kind == a.kind
    &&& b.movable == a.movable
    &&& b.immovable == a.immovable
}

/// The entities after every entity whose id is in `chain` has stepped in direction `d`.
pub open spec fn shifted(ents: Seq<Entity>, chain: Seq<usize>, d: Direction) -> Seq<Entity> {
    Seq::new(
        ents.len(),
        |i: int|
            if chain.contains(i as usize) {
                Entity { position: step(ents[i].position, d), ..ents[i] }
            } else {
                ents[i]
            },
    )
}

/// `i` is the first player entity.
pub open spec fn is_first_player(ents: Seq<Entity>, i: int) -> bool {
    &&& 0 <= i < ents.len()
    &&& is_player(ents[i])
    &&& forall|j: int| 0 <= j < i ==> !is_player(#[trigger] ents[j])
}

pub open spec fn has_player(ents: Seq<Entity>) -> bool {
    exists|i: int| is_first_player(ents, i)
}

pub open spec fn first_player(ents: Seq<Entity>) -> int {
    choose|i: int| is_first_player(ents, i)
}

/// What a push in direction `d` resolves to: the chain that moves, or `None` when it is
/// blocked. The player is the first player entity; with none, nothing moves.
pub open spec fn push_outcome(ents: Seq<Entity>, b: Bounds, d: Direction) -> Option<Seq<usize>> {
    if has_player(ents) {
        resolved_chain(
            tile_index(ents, Layer::Movables),
            tile_index(ents, Layer::Immovables),
            ents[first_player(ents)].position,
            d,
            b.width,
            b.height,
        )
    } else {
        Some(Seq::empty())
    }
}

pub open spec fn moved_events(chain: Seq<usize>) -> Seq<MoveEvent> {
    chain.map_values(|id: usize| MoveEvent::EntityMoved(EntityMoved { id }))
}

/// The entities after a push in direction `d`.
pub open spec fn outcome_world(ents: Seq<Entity>, b: Bounds, d: Direction) -> Seq<Entity> {
    match push_outcome(ents, b, d) {
        Some(chain) => shifted(ents, chain, d),
        None => ents,
    }
}

/// The events a push in direction `d` emits, in order.
pub open spec fn outcome_events(ents: Seq<Entity>, b: Bounds, d: Direction) -> Seq<MoveEvent> {
    match push_outcome(ents, b, d) {
        Some(chain) => moved_events(chain),
        None => seq![MoveEvent::PlayerHitObstacle],
    }
}

/// By how much a push in direction `d` raises the move count.
pub open spec fn outcome_moves(ents: Seq<Entity>, b: Bounds, d: Direction) -> nat {
    match push_outcome(ents, b, d) {
        Some(chain) => if chain.len() > 0 {
            1
        } else {
            0
        },
        None => 0,
    }
}

/// The `j`-th id of chain `c` names a movable entity that stands on the `j`-th tile scanned
/// from `p` and can take a step in direction `d`.
pub open spec fn chain_entity(ents: Seq<Entity>, p: Position, d: Direction, c: Seq<usize>, j: int) -> bool {
    let e = ents[c[j] as int];
    &&& c[j] < ents.len()
    &&& e.movable is Some
    &&& (e.position.x as int, e.position.y as int) == scan_cell(p, d, j)
    &&& can_step(e.position, d)
}

/// Every id of chain `c` names an entity as `chain_entity` says, and no id comes twice.
pub open spec fn chain_entities(ents: Seq<Entity>, p: Position, d: Direction, c: Seq<usize>) -> bool {
    &&& forall|j: int| 0 <= j < c.len() ==> #[trigger] chain_entity(ents, p, d, c, j)
    &&& forall|j1: int, j2: int|
        0 <= j1 < c.len() && 0 <= j2 < c.len() && j1 != j2 ==> #[trigger] c[j1] != #[trigger] c[j2]
}

pub open spec fn resolved_for(ents: Seq<Entity>, b: Bounds, p: Position, d: Direction) -> Option<Seq<usize>> {
    resolved_chain(
        tile_index(ents, Layer::Movables),
        tile_index(ents, Layer::Immovables),
        p,
        d,
        b.width,
        b.height,
    )
}

/// The entities of a resolved chain: each is movable and stands on its scanned tile, each can
/// take a step, and no id comes twice.
pub proof fn lemma_resolved_entities(ents: Seq<Entity>, b: Bounds, p: Position, d: Direction)
    requires
        ents.len() <= usize::MAX,
    ensures
        resolved_for(ents, b, p, d) is Some ==> chain_entities(ents, p, d, resolved_for(ents, b, p, d)->0),
{
    let mv = tile_index(ents, Layer::Movables);
    let im = tile_index(ents, Layer::Immovables);
    let n = scan_len(p, d, b.width, b.height);
    lemma_chain_from(mv, im, p, d, 0, n);
    let r = resolved_chain(mv, im, p, d, b.width, b.height);
    if r is Some {
        let c = r->0;
        assert forall|j: int| 0 <= j < c.len() implies #[trigger] chain_entity(ents, p, d, c, j) by {
            assert(chain_link(mv, p, d, 0, c, j));
            let t = scan_cell(p, d, j);
            let key = tile_key(t.0, t.1);
            assert(t == scan_cell(p, d, 0 + j));
            lemma_tile_index(ents, Layer::Movables, key);
            lemma_scan_cell_on_grid(p, d, b.width, b.height, j);
            lemma_scan_cell_on_grid(p, d, b.width, b.height, j + 1);
            let e = ents[c[j] as int];
            crate::grid::lemma_tile_key_injective(e.position.x, e.position.y, t.0 as u8, t.1 as u8);
        }
        assert forall|j1: int, j2: int|
            0 <= j1 < c.len() && 0 <= j2 < c.len() && j1 != j2 implies #[trigger] c[j1]
                != #[trigger] c[j2] by {
            assert(chain_entity(ents, p, d, c, j1));
            assert(chain_entity(ents, p, d, c, j2));
        }
    }
}

/// The first player entity, if there is one.
pub fn find_player(world: &World) -> (r: Option<usize>)
    ensures
        match r {
            Some(i) => is_first_player(world@, i as int),
            None => !has_player(world@),
        },
{
    let n = world.entities.len();
    let mut i: usize = 0;
    while i < n
        invariant
            n == world@.len(),
            i <= n,
            forall|j: int| 0 <= j < i ==> !is_player(#[trigger] world@[j]),
        decreases n - i,
    {
        match world.entities[i].kind {
            crate::components::EntityKind::Player(_) => {
                return Some(i);
            },
            _ => {},
        }
        i = i + 1;
    }
    None
}

proof fn lemma_first_player_unique(ents: Seq<Entity>, i: int)
    requires
        is_first_player(ents, i),
    ensures
        has_player(ents),
        first_player(ents) == i,
{
    let j = first_player(ents);
    assert(is_first_player(ents, j));
    if j < i {
        assert(!is_player(ents[j]));
    } else if i < j {
        assert(!is_player(ents[i]));
    }
}

/// Moves `p` one tile in direction `d`.
pub fn step_position(p: Position, d: Direction) -> (r: Position)
    requires
        can_step(p, d),
    ensures
        r == step(p, d),
{
    match d {
        Direction::Up => Position { x: p.x, y: p.y + 1, z: p.z },
        Direction::Down => Position { x: p.x, y: p.y - 1, z: p.z },
        Direction::Right => Position { x: p.x + 1, y: p.y, z: p.z },
        Direction::Left => Position { x: p.x - 1, y: p.y, z: p.z },
    }
}

/// Moves every entity of `chain` one tile in direction `direction`.
pub fn apply_push(world: &mut World, chain: &Vec<usize>, direction: Direction)
    requires
        forall|j: int|
            0 <= j < chain@.len() ==> #[trigger] chain@[j] < old(world)@.len() && can_step(
                old(world)@[chain@[j] as int].position,
                direction,
            ),
        forall|j1: int, j2: int|
            0 <= j1 < chain@.len() && 0 <= j2 < chain@.len() && j1 != j2 ==> #[trigger] chain@[j1]
                != #[trigger] chain@[j2],
    ensures
        final(world)@ == shifted(old(world)@, chain@, direction),
        final(world).bounds == old(world).bounds,
{
    let ghost start = world@;
    let total = world.entities.len();
    let n = chain.len();
    let mut j: usize = 0;
    while j < n
        invariant
            n == chain@.len(),
            j <= n,
            start == old(world)@,
            start.len() == total,
            world.bounds == old(world).bounds,
            world@ == shifted(start, chain@.subrange(0, j as int), direction),
            forall|k: int|
                0 <= k < chain@.len() ==> #[trigger] chain@[k] < start.len() && can_step(
                    start[chain@[k] as int].position,
                    direction,
                ),
            forall|j1: int, j2: int|
                0 <= j1 < chain@.len() && 0 <= j2 < chain@.len() && j1 != j2 ==> #[trigger] chain@[j1]
                    != #[trigger] chain@[j2],
        decreases n - j,
    {
        let id = chain[j];
        assert(chain@[j as int] < start.len());
        let e = world.entities[id];
        let ghost pre = chain@.subrange(0, j as int);
        let ghost post = chain@.subrange(0, j + 1);
        assert(!pre.contains(id)) by {
            if pre.contains(id) {
                let k = choose|k: int| 0 <= k < pre.len() && pre[k] == id;
                assert(chain@[k] == chain@[j as int]);
            }
        }
        assert(e == start[id as int]);
        let np = step_position(e.position, direction);
        world.entities.set(id, Entity { position: np, kind: e.kind, movable: e.movable, immovable: e.immovable });
        assert forall|i: int| 0 <= i < start.len() implies #[trigger] post.contains(i as usize) == (pre.contains(i as usize) || i == id) by {
            if i == id {
                assert(post[j as int] == id);
            }
            if pre.contains(i as usize) {
                let k = choose|k: int| 0 <= k < pre.len() && pre[k] == i as usize;
                assert(post[k] == pre[k]);
            }
            if post.contains(i as usize) {
                let k = choose|k: int| 0 <= k < post.len() && post[k] == i as usize;
                if k < j {
                    assert(pre[k] == post[k]);
                }
            }
        }
        assert(world@ =~= shifted(start, post, direction));
        j = j + 1;
    }
    assert(chain@.subrange(0, n as int) =~= chain@);
}

/// The `EntityMoved` events for `chain`, in chain order.
pub fn moved_events_of(chain: &Vec<usize>) -> (r: Vec<MoveEvent>)
    ensures
        r@ == moved_events(chain@),
{
    let n = chain.len();
    let mut r: Vec<MoveEvent> = Vec::new();
    let mut j: usize = 0;
    while j < n
        invariant
            n == chain@.len(),
            j <= n,
            r@ == moved_events(chain@.subrange(0, j as int)),
        decreases n - j,
    {
        r.push(MoveEvent::EntityMoved(EntityMoved { id: chain[j] }));
        assert(moved_events(chain@.subrange(0, j + 1)) =~= moved_events(chain@.subrange(0, j as int)).push(
            MoveEvent::EntityMoved(EntityMoved { id: chain@[j as int] }),
        ));
        j = j + 1;
    }
    assert(chain@.subrange(0, n as int) =~= chain@);
    r
}

/// One push in direction `direction`: resolves the chain from the first player, moves it and
/// counts the move, or hits an obstacle, and writes the events of what happened.
pub fn push(world: &mut World, gameplay: &mut Gameplay, direction: Direction, events: &mut EventChannel)
    requires
        old(gameplay).moves_count < u32::MAX,
    ensures
        final(world)@ == outcome_world(old(world)@, old(world).bounds, direction),
        final(world).bounds == old(world).bounds,
        final(gameplay).moves_count == old(gameplay).moves_count + outcome_moves(
            old(world)@,
            old(world).bounds,
            direction,
        ),
        final(gameplay).state == old(gameplay).state,
        final(events)@ == old(events)@ + outcome_events(old(world)@, old(world).bounds, direction),
{
    let ghost ents = world@;
    let b = world.bounds;
    // a Vec's length fits a usize, which the lemmas below ask for
    let _n = world.entities.len();
    let grid = GridIndex::build(world);
    match find_player(world) {
        None => {
            assert(moved_events(Seq::<usize>::empty()) =~= Seq::<MoveEvent>::empty());
            assert(old(events)@ + Seq::<MoveEvent>::empty() =~= old(events)@);
            assert(shifted(ents, Seq::<usize>::empty(), direction) =~= ents);
        },
        Some(i) => {
            proof {
                lemma_first_player_unique(ents, i as int);
                lemma_resolved_entities(ents, b, ents[i as int].position, direction);
            }
            let player = world.entities[i].position;
            match resolve_push(&grid, player, direction, b.width, b.height) {
                None => {
                    events.single_write(MoveEvent::PlayerHitObstacle);
                    assert(old(events)@.push(MoveEvent::PlayerHitObstacle) =~= old(events)@ + seq![MoveEvent::PlayerHitObstacle]);
                },
                Some(chain) => {
                    if chain.len() > 0 {
                        gameplay.moves_count = gameplay.moves_count + 1;
                    }
                    proof {
                        assert forall|j: int| 0 <= j < chain@.len() implies #[trigger] chain@[j] < ents.len() && can_step(
                            ents[chain@[j] as int].position,
                            direction,
                        ) by {
                            assert(chain_entity(ents, player, direction, chain@, j));
                        }
                    }
                    apply_push(world, &chain, direction);
                    let moved = moved_events_of(&chain);
                    events.iter_write(moved);
                },
            }
        },
    }
}

/// Which arrow keys are held down in one frame.
#[derive(Clone, Copy, Debug, PartialEq, Eq, Structural)]
pub struct KeyState {
    pub up: bool,
    pub down: bool,
    pub right: bool,
    pub left: bool,
}

impl KeyState {
    pub fn released() -> (k: KeyState)
        ensures
            !k.up && !k.down && !k.right && !k.left,
    {
        KeyState { up: false, down: false, right: false, left: false }
    }
}

/// The direction whose key went down between two frames, checked in the order up, down,
/// right, left; a key held through both frames gives nothing.
pub open spec fn direction_edge(previous: KeyState, current: KeyState) -> Option<Direction> {
    if current.up && !previous.up {
        Some(Direction::Up)
    } else if current.down && !previous.down {
        Some(Direction::Down)
    } else if current.right && !previous.right {
        Some(Direction::Right)
    } else if current.left && !previous.left {
        Some(Direction::Left)
    } else {
        None
    }
}

pub fn get_direction(previous: KeyState, current: KeyState) -> (d: Option<Direction>)
    ensures
        d == direction_edge(previous, current),
{
    if current.up && !previous.up {
        Some(Direction::Up)
    } else if current.down && !previous.down {
        Some(Direction::Down)
    } else if current.right && !previous.right {
        Some(Direction::Right)
    } else if current.left && !previous.left {
        Some(Direction::Left)
    } else {
        None
    }
}

/// Turns fresh key presses into pushes, one per tick at most.
pub struct MovementSystem {
    pub previous_keys: KeyState,
}

impl MovementSystem {
    pub fn new() -> (s: MovementSystem)
        ensures
            !s.previous_keys.up && !s.previous_keys.down && !s.previous_keys.right
                && !s.previous_keys.left,
    {
        MovementSystem { previous_keys: KeyState::released() }
    }

    /// One tick: pushes in the direction of the key that has just gone down, if any, and
    /// remembers `keys` for the next tick.
    pub fn run(
        &mut self,
        keys: KeyState,
        world: &mut World,
        gameplay: &mut Gameplay,
        events: &mut EventChannel,
    )
        requires
            old(gameplay).moves_count < u32::MAX,
        ensures
            final(self).previous_keys == keys,
            final(world).bounds == old(world).bounds,
            match direction_edge(old(self).previous_keys, keys) {
                Some(d) => {
                    &&& final(world)@ == outcome_world(old(world)@, old(world).bounds, d)
                    &&& final(gameplay).moves_count == old(gameplay).moves_count + outcome_moves(
                        old(world)@,
                        old(world).bounds,
                        d,
                    )
                    &&& final(gameplay).state == old(gameplay).state
                    &&& final(events)@ == old(events)@ + outcome_events(old(world)@, old(world).bounds, d)
                },
                None => {
                    &&& final(world)@ == old(world)@
                    &&& *final(gameplay) == *old(gameplay)
                    &&& final(events)@ == old(events)@
                },
            },
    {
        let direction = get_direction(self.previous_keys, keys);
        self.previous_keys = keys;
        match direction {
            Some(d) => push(world, gameplay, d, events),
            None => {},
        }
    }
}

/// A push is all or nothing: when it is blocked no entity changes, and otherwise every entity
/// of the chain moves exactly one tile in the direction of the push while every other entity
/// stays as it was.
pub proof fn law_push_all_or_nothing(ents: Seq<Entity>, b: Bounds, d: Direction)
    requires
        ents.len() <= usize::MAX,
    ensures
        outcome_world(ents, b, d).len() == ents.len(),
        push_outcome(ents, b, d) is None ==> outcome_world(ents, b, d) == ents,
        push_outcome(ents, b, d) is Some ==> forall|i: int|
            0 <= i < ents.len() ==> {
                &&& push_outcome(ents, b, d)->0.contains(i as usize) ==> moved_one_tile(
                    ents[i],
                    #[trigger] outcome_world(ents, b, d)[i],
                    d,
                )
                &&& !push_outcome(ents, b, d)->0.contains(i as usize) ==> outcome_world(ents, b, d)[i]
                    == ents[i]
            },
{
    if has_player(ents) {
        let p = ents[first_player(ents)].position;
        lemma_resolved_entities(ents, b, p, d);
        if push_outcome(ents, b, d) is Some {
            let c = push_outcome(ents, b, d)->0;
            assert forall|i: int|
                0 <= i < ents.len() && c.contains(i as usize) implies moved_one_tile(
                ents[i],
                #[trigger] outcome_world(ents, b, d)[i],
                d,
            ) by {
                let j = choose|j: int| 0 <= j < c.len() && c[j] == i as usize;
                assert(chain_entity(ents, p, d, c, j));
            }
        }
    }
}

/// The tile a push from `p` enters first.
pub open spec fn destination(p: Position, d: Direction) -> (int, int) {
    scan_cell(p, d, 1)
}

pub open spec fn on_tile(e: Entity, t: (int, int)) -> bool {
    (e.position.x as int, e.position.y as int) == t
}

proof fn lemma_tile_not_indexed(ents: Seq<Entity>, layer: Layer, t: (int, int))
    requires
        ents.len() <= usize::MAX,
        on_grid(t),
        forall|j: int| 0 <= j < ents.len() && in_layer(ents[j], layer) ==> !on_tile(#[trigger] ents[j], t),
    ensures
        !tile_index(ents, layer).contains_key(tile_key(t.0, t.1)),
{
    lemma_tile_index(ents, layer, tile_key(t.0, t.1));
    if tile_index(ents, layer).contains_key(tile_key(t.0, t.1)) {
        let i = tile_index(ents, layer)[tile_key(t.0, t.1)] as int;
        crate::grid::lemma_tile_key_injective(ents[i].position.x, ents[i].position.y, t.0 as u8, t.1 as u8);
        assert(on_tile(ents[i], t));
    }
}

/// Pushing against an immovable entity with no movable one on the same tile is blocked: no
/// entity changes, the move count stays, and the one event is `PlayerHitObstacle`.
pub proof fn law_wall_blocks(ents: Seq<Entity>, b: Bounds, d: Direction)
    requires
        ents.len() <= usize::MAX,
        has_player(ents),
        ents[first_player(ents)].movable is Some,
        exists|j: int|
            0 <= j < ents.len() && ents[j].immovable is Some && on_tile(
                #[trigger] ents[j],
                destination(ents[first_player(ents)].position, d),
            ),
        forall|j: int|
            0 <= j < ents.len() && ents[j].movable is Some ==> !on_tile(
                #[trigger] ents[j],
                destination(ents[first_player(ents)].position, d),
            ),
    ensures
        push_outcome(ents, b, d) is None,
        outcome_world(ents, b, d) == ents,
        outcome_events(ents, b, d) == seq![MoveEvent::PlayerHitObstacle],
        outcome_moves(ents, b, d) == 0,
{
    let i = first_player(ents);
    let p = ents[i].position;
    let t = destination(p, d);
    let mv = tile_index(ents, Layer::Movables);
    let im = tile_index(ents, Layer::Immovables);
    let n = scan_len(p, d, b.width, b.height);
    let j = choose|j: int|
        0 <= j < ents.len() && ents[j].immovable is Some && on_tile(#[trigger] ents[j], t);
    lemma_tile_not_indexed(ents, Layer::Movables, t);
    lemma_tile_index(ents, Layer::Immovables, tile_key(t.0, t.1));
    assert(in_layer(ents[j], Layer::Immovables));
    assert(chain_from(mv, im, p, d, 1, n) is None);
    let c0 = scan_cell(p, d, 0);
    let k0 = tile_key(c0.0, c0.1);
    lemma_tile_index(ents, Layer::Movables, k0);
    assert(on_tile(ents[i], c0));
    assert(mv.contains_key(k0));
    assert(chain_from(mv, im, p, d, 0, n) is None);
}

/// The movable entity that the index gives for the player's own tile is the player, where no
/// tile holds two movable entities.
proof fn lemma_player_heads_scan(ents: Seq<Entity>, d: Direction)
    requires
        ents.len() <= usize::MAX,
        has_player(ents),
        ents[first_player(ents)].movable is Some,
        one_movable_per_tile(ents),
    ensures
        ({
            let c0 = scan_cell(ents[first_player(ents)].position, d, 0);
            let k0 = tile_key(c0.0, c0.1);
            &&& tile_index(ents, Layer::Movables).contains_key(k0)
            &&& tile_index(ents, Layer::Movables)[k0] as int == first_player(ents)
        }),
{
    let i = first_player(ents);
    let p = ents[i].position;
    let c0 = scan_cell(p, d, 0);
    let mv = tile_index(ents, Layer::Movables);
    let k0 = tile_key(c0.0, c0.1);
    lemma_tile_index(ents, Layer::Movables, k0);
    assert(on_tile(ents[i], c0));
    assert(mv.contains_key(k0));
    let m = mv[k0] as int;
    crate::grid::lemma_tile_key_injective(ents[m].position.x, ents[m].position.y, p.x, p.y);
    assert(same_tile(ents[m].position, ents[i].position));
}

/// In a valid world a push that moves anything moves the player first: the chain starts
/// with the player.
pub proof fn law_chain_starts_with_player(ents: Seq<Entity>, b: Bounds, d: Direction)
    requires
        ents.len() <= usize::MAX,
        has_player(ents),
        valid_world(ents, b),
    ensures
        push_outcome(ents, b, d) is Some ==> push_outcome(ents, b, d)->0.len() >= 1
            && push_outcome(ents, b, d)->0[0] as int == first_player(ents),
{
    let i = first_player(ents);
    let p = ents[i].position;
    let mv = tile_index(ents, Layer::Movables);
    let im = tile_index(ents, Layer::Immovables);
    let n = scan_len(p, d, b.width, b.height);
    assert(is_player(ents[i]));
    lemma_player_heads_scan(ents, d);
    if n > 0 {
        let c0 = scan_cell(p, d, 0);
        let k0 = tile_key(c0.0, c0.1);
        let rest = chain_from(mv, im, p, d, 1, n);
        if rest is Some {
            assert((seq![mv[k0]] + rest->0)[0] == mv[k0]);
        }
    }
}

/// Some movable entity stands on tile `t`.
pub open spec fn movable_on(ents: Seq<Entity>, t: (int, int)) -> bool {
    exists|j: int| 0 <= j < ents.len() && ents[j].movable is Some && on_tile(#[trigger] ents[j], t)
}

/// Some immovable entity stands on tile `t`.
pub open spec fn immovable_on(ents: Seq<Entity>, t: (int, int)) -> bool {
    exists|j: int| 0 <= j < ents.len() && ents[j].immovable is Some && on_tile(#[trigger] ents[j], t)
}

/// The scan from `p` meets movable entities on its first `k` tiles, and then a tile that holds
/// an immovable entity and no movable one, or the edge of the map.
pub open spec fn blocked_after(ents: Seq<Entity>, b: Bounds, p: Position, d: Direction, k: int) -> bool {
    &&& 0 <= k <= scan_len(p, d, b.width, b.height)
    &&& forall|i: int| 0 <= i < k ==> #[trigger] movable_on(ents, scan_cell(p, d, i))
    &&& (k == scan_len(p, d, b.width, b.height) || (!movable_on(ents, scan_cell(p, d, k))
        && immovable_on(ents, scan_cell(p, d, k))))
}

proof fn lemma_blocked_from(ents: Seq<Entity>, b: Bounds, p: Position, d: Direction, i: int, k: int)
    requires
        ents.len() <= usize::MAX,
        blocked_after(ents, b, p, d, k),
        0 <= i <= k,
    ensures
        chain_from(
            tile_index(ents, Layer::Movables),
            tile_index(ents, Layer::Immovables),
            p,
            d,
            i as nat,
            scan_len(p, d, b.width, b.height),
        ) is None,
    decreases k - i,
{
    let mv = tile_index(ents, Layer::Movables);
    let im = tile_index(ents, Layer::Immovables);
    let n = scan_len(p, d, b.width, b.height);
    let t = scan_cell(p, d, i);
    let key = tile_key(t.0, t.1);
    if i < k {
        lemma_blocked_from(ents, b, p, d, i + 1, k);
        assert(movable_on(ents, t));
        let j = choose|j: int| 0 <= j < ents.len() && ents[j].movable is Some && on_tile(#[trigger] ents[j], t);
        lemma_tile_index(ents, Layer::Movables, key);
        assert(in_layer(ents[j], Layer::Movables));
        assert(mv.contains_key(key));
    } else if k < n {
        lemma_scan_cell_on_grid(p, d, b.width, b.height, k);
        lemma_no_movable_on_converse(ents, t);
        let j = choose|j: int| 0 <= j < ents.len() && ents[j].immovable is Some && on_tile(#[trigger] ents[j], t);
        lemma_tile_index(ents, Layer::Immovables, key);
        assert(in_layer(ents[j], Layer::Immovables));
        assert(im.contains_key(key));
    }
}

proof fn lemma_no_movable_on_converse(ents: Seq<Entity>, t: (int, int))
    requires
        ents.len() <= usize::MAX,
        on_grid(t),
        !movable_on(ents, t),
    ensures
        !tile_index(ents, Layer::Movables).contains_key(tile_key(t.0, t.1)),
{
    assert forall|j: int| 0 <= j < ents.len() && in_layer(ents[j], Layer::Movables) implies !on_tile(
        #[trigger] ents[j],
        t,
    ) by {}
    lemma_tile_not_indexed(ents, Layer::Movables, t);
}

/// A push whose scan meets a wall, or the edge of the map, before a free tile is blocked
/// however long the line of movable entities before it: no entity changes, the move count
/// stays, and the one event is `PlayerHitObstacle`.
pub proof fn law_blocked_push(ents: Seq<Entity>, b: Bounds, d: Direction, k: int)
    requires
        ents.len() <= usize::MAX,
        has_player(ents),
        blocked_after(ents, b, ents[first_player(ents)].position, d, k),
    ensures
        push_outcome(ents, b, d) is None,
        outcome_world(ents, b, d) == ents,
        outcome_events(ents, b, d) == seq![MoveEvent::PlayerHitObstacle],
        outcome_moves(ents, b, d) == 0,
{
    lemma_blocked_from(ents, b, ents[first_player(ents)].position, d, 0, k);
}

/// In a valid world a push into a free tile inside the map moves the player alone by one
/// tile and counts one move.
pub proof fn law_free_step_moves_player_only(ents: Seq<Entity>, b: Bounds, d: Direction)
    requires
        ents.len() <= usize::MAX,
        has_player(ents),
        valid_world(ents, b),
        1 < scan_len(ents[first_player(ents)].position, d, b.width, b.height),
        forall|j: int|
            0 <= j < ents.len() && (ents[j].movable is Some || ents[j].immovable is Some) ==> !on_tile(
                #[trigger] ents[j],
                destination(ents[first_player(ents)].position, d),
            ),
    ensures
        push_outcome(ents, b, d) == Some(seq![first_player(ents) as usize]),
        outcome_moves(ents, b, d) == 1,
        outcome_events(ents, b, d) == seq![
            MoveEvent::EntityMoved(EntityMoved { id: first_player(ents) as usize }),
        ],
        moved_one_tile(ents[first_player(ents)], outcome_world(ents, b, d)[first_player(ents)], d),
        forall|j: int|
            0 <= j < ents.len() && j != first_player(ents) ==> #[trigger] outcome_world(ents, b, d)[j]
                == ents[j],
{
    let i = first_player(ents);
    let p = ents[i].position;
    let t = destination(p, d);
    let c0 = scan_cell(p, d, 0);
    let mv = tile_index(ents, Layer::Movables);
    let im = tile_index(ents, Layer::Immovables);
    let n = scan_len(p, d, b.width, b.height);
    lemma_scan_cell_on_grid(p, d, b.width, b.height, 1);
    lemma_tile_not_indexed(ents, Layer::Movables, t);
    lemma_tile_not_indexed(ents, Layer::Immovables, t);
    assert(is_player(ents[i]));
    lemma_player_heads_scan(ents, d);
    assert(chain_from(mv, im, p, d, 1, n) == Some(Seq::<usize>::empty()));
    assert(seq![i as usize] + Seq::<usize>::empty() =~= seq![i as usize]);
    assert(push_outcome(ents, b, d) == Some(seq![i as usize]));
    law_push_all_or_nothing(ents, b, d);
    assert(seq![i as usize][0] == i as usize);
    assert(seq![i as usize].contains(i as usize));
    assert(moved_events(seq![i as usize]) =~= seq![MoveEvent::EntityMoved(EntityMoved { id: i as usize })]);
    assert forall|j: int| 0 <= j < ents.len() && j != i implies #[trigger] outcome_world(ents, b, d)[j] == ents[j] by {
        let one = seq![i as usize];
        if one.contains(j as usize) {
            let q = choose|q: int| 0 <= q < one.len() && #[trigger] one[q] == j as usize;
            assert(q == 0);
        }
    }
}

/// No two movable entities share a tile.
pub open spec fn one_movable_per_tile(ents: Seq<Entity>) -> bool {
    forall|i: int, k: int|
        0 <= i < ents.len() && 0 <= k < ents.len() && i != k && ents[i].movable is Some
            && ents[k].movable is Some ==> !same_tile(
            #[trigger] ents[i].position,
            #[trigger] ents[k].position,
        )
}

proof fn lemma_scan_cells_distinct(p: Position, d: Direction, j1: int, j2: int)
    requires
        scan_cell(p, d, j1) == scan_cell(p, d, j2),
    ensures
        j1 == j2,
{
}

proof fn lemma_shifted_member(ents: Seq<Entity>, p: Position, d: Direction, c: Seq<usize>, j: int)
    requires
        chain_entities(ents, p, d, c),
        0 <= j < c.len(),
    ensures
        on_tile(shifted(ents, c, d)[c[j] as int], scan_cell(p, d, j + 1)),
        ents[c[j] as int].movable is Some,
{
    assert(chain_entity(ents, p, d, c, j));
    assert(c.contains(c[j]));
}

proof fn lemma_shifted_pair(
    ents: Seq<Entity>,
    p: Position,
    d: Direction,
    c: Seq<usize>,
    i: int,
    k: int,
)
    requires
        ents.len() <= usize::MAX,
        chain_entities(ents, p, d, c),
        one_movable_per_tile(ents),
        forall|j: int|
            0 <= j < ents.len() && ents[j].movable is Some ==> !on_tile(
                #[trigger] ents[j],
                scan_cell(p, d, c.len() as int),
            ),
        0 <= i < ents.len(),
        0 <= k < ents.len(),
        i != k,
        ents[i].movable is Some,
        ents[k].movable is Some,
        c.contains(i as usize),
    ensures
        !same_tile(shifted(ents, c, d)[i].position, shifted(ents, c, d)[k].position),
{
    let w = shifted(ents, c, d);
    let j1 = choose|j: int| 0 <= j < c.len() && c[j] == i as usize;
    lemma_shifted_member(ents, p, d, c, j1);
    if c.contains(k as usize) {
        let j2 = choose|j: int| 0 <= j < c.len() && c[j] == k as usize;
        lemma_shifted_member(ents, p, d, c, j2);
        if same_tile(w[i].position, w[k].position) {
            lemma_scan_cells_distinct(p, d, j1 + 1, j2 + 1);
        }
    } else {
        assert(w[k] == ents[k]);
        if same_tile(w[i].position, w[k].position) {
            if j1 + 1 < c.len() {
                let m = c[j1 + 1] as int;
                assert(chain_entity(ents, p, d, c, j1 + 1));
                assert(c.contains(m as usize));
                assert(same_tile(ents[m].position, ents[k].position));
            } else {
                assert(on_tile(ents[k], scan_cell(p, d, c.len() as int)));
            }
        }
    }
}

/// A push never brings two movable entities onto one tile: where no tile holds two before it,
/// none does after it.
pub proof fn law_push_keeps_one_movable_per_tile(ents: Seq<Entity>, b: Bounds, d: Direction)
    requires
        ents.len() <= usize::MAX,
        one_movable_per_tile(ents),
    ensures
        one_movable_per_tile(outcome_world(ents, b, d)),
{
    if push_outcome(ents, b, d) is Some && has_player(ents) {
        let c = push_outcome(ents, b, d)->0;
        let p = ents[first_player(ents)].position;
        let mv = tile_index(ents, Layer::Movables);
        let im = tile_index(ents, Layer::Immovables);
        let n = scan_len(p, d, b.width, b.height);
        lemma_resolved_entities(ents, b, p, d);
        lemma_chain_from(mv, im, p, d, 0, n);
        let free = scan_cell(p, d, c.len() as int);
        lemma_scan_cell_on_grid(p, d, b.width, b.height, c.len() as int);
        lemma_no_movable_on(ents, free);
        let w = shifted(ents, c, d);
        assert(w == outcome_world(ents, b, d));
        assert forall|i: int, k: int|
            0 <= i < w.len() && 0 <= k < w.len() && i != k && w[i].movable is Some
                && w[k].movable is Some implies !same_tile(
            #[trigger] w[i].position,
            #[trigger] w[k].position,
        ) by {
            if c.contains(i as usize) {
                lemma_shifted_pair(ents, p, d, c, i, k);
            } else if c.contains(k as usize) {
                lemma_shifted_pair(ents, p, d, c, k, i);
            }
        }
    }
}

proof fn lemma_no_movable_on(ents: Seq<Entity>, t: (int, int))
    requires
        ents.len() <= usize::MAX,
        !tile_index(ents, Layer::Movables).contains_key(tile_key(t.0, t.1)),
    ensures
        forall|j: int|
            0 <= j < ents.len() && ents[j].movable is Some ==> !on_tile(#[trigger] ents[j], t),
{
    lemma_tile_index(ents, Layer::Movables, tile_key(t.0, t.1));
    assert forall|j: int| 0 <= j < ents.len() && ents[j].movable is Some implies !on_tile(
        #[trigger] ents[j],
        t,
    ) by {
        if on_tile(ents[j], t) {
            assert(in_layer(ents[j], Layer::Movables));
        }
    }
}

/// `p` lies on a map of size `b`.
pub open spec fn inside(p: Position, b: Bounds) -> bool {
    (p.x as int) < b.width && (p.y as int) < b.height
}

/// Every movable entity lies on the map.
pub open spec fn movables_inside(ents: Seq<Entity>, b: Bounds) -> bool {
    forall|i: int| 0 <= i < ents.len() && ents[i].movable is Some ==> inside(#[trigger] ents[i].position, b)
}

/// A push never moves an entity off the map: where every movable entity lies on the map
/// before it, every one does after it.
pub proof fn law_push_keeps_movables_inside(ents: Seq<Entity>, b: Bounds, d: Direction)
    requires
        ents.len() <= usize::MAX,
        movables_inside(ents, b),
    ensures
        movables_inside(outcome_world(ents, b, d), b),
{
    law_push_all_or_nothing(ents, b, d);
    if push_outcome(ents, b, d) is Some && has_player(ents) {
        let c = push_outcome(ents, b, d)->0;
        let p = ents[first_player(ents)].position;
        let mv = tile_index(ents, Layer::Movables);
        let im = tile_index(ents, Layer::Immovables);
        let n = scan_len(p, d, b.width, b.height);
        lemma_resolved_entities(ents, b, p, d);
        lemma_chain_from(mv, im, p, d, 0, n);
        let w = outcome_world(ents, b, d);
        assert forall|i: int| 0 <= i < w.len() && w[i].movable is Some implies inside(
            #[trigger] w[i].position,
            b,
        ) by {
            if c.contains(i as usize) {
                let j = choose|j: int| 0 <= j < c.len() && c[j] == i as usize;
                assert(chain_entity(ents, p, d, c, j));
                assert(moved_one_tile(ents[i], w[i], d));
                assert(inside(ents[i].position, b));
            } else {
                assert(w[i] == ents[i]);
            }
        }
    }
}

proof fn lemma_free_from(ents: Seq<Entity>, b: Bounds, p: Position, d: Direction, i: int, k: int)
    requires
        ents.len() <= usize::MAX,
        0 <= i <= k < scan_len(p, d, b.width, b.height),
        forall|q: int| 0 <= q < k ==> #[trigger] movable_on(ents, scan_cell(p, d, q)),
        !movable_on(ents, scan_cell(p, d, k)),
        !immovable_on(ents, scan_cell(p, d, k)),
    ensures
        chain_from(
            tile_index(ents, Layer::Movables),
            tile_index(ents, Layer::Immovables),
            p,
            d,
            i as nat,
            scan_len(p, d, b.width, b.height),
        ) is Some,
        chain_from(
            tile_index(ents, Layer::Movables),
            tile_index(ents, Layer::Immovables),
            p,
            d,
            i as nat,
            scan_len(p, d, b.width, b.height),
        )->0.len() == k - i,
    decreases k - i,
{
    let mv = tile_index(ents, Layer::Movables);
    let im = tile_index(ents, Layer::Immovables);
    let t = scan_cell(p, d, i);
    let key = tile_key(t.0, t.1);
    lemma_scan_cell_on_grid(p, d, b.width, b.height, i);
    if i < k {
        lemma_free_from(ents, b, p, d, i + 1, k);
        assert(movable_on(ents, t));
        let j = choose|j: int| 0 <= j < ents.len() && ents[j].movable is Some && on_tile(#[trigger] ents[j], t);
        lemma_tile_index(ents, Layer::Movables, key);
        assert(in_layer(ents[j], Layer::Movables));
        assert(mv.contains_key(key));
    } else {
        lemma_no_movable_on_converse(ents, t);
        assert forall|j: int| 0 <= j < ents.len() && in_layer(ents[j], Layer::Immovables) implies !on_tile(
            #[trigger] ents[j],
            t,
        ) by {}
        lemma_tile_not_indexed(ents, Layer::Immovables, t);
    }
}

/// A push whose scan meets movable entities on its first `k` tiles and then a free tile on
/// the map moves exactly those entities, one per tile in scan order, and nothing else: each
/// moves one tile, the events name them in that order, and the move counts once when `k > 0`.
pub proof fn law_push_moves_the_scanned_chain(ents: Seq<Entity>, b: Bounds, d: Direction, k: int)
    requires
        ents.len() <= usize::MAX,
        has_player(ents),
        0 <= k < scan_len(ents[first_player(ents)].position, d, b.width, b.height),
        forall|q: int|
            0 <= q < k ==> #[trigger] movable_on(
                ents,
                scan_cell(ents[first_player(ents)].position, d, q),
            ),
        !movable_on(ents, scan_cell(ents[first_player(ents)].position, d, k)),
        !immovable_on(ents, scan_cell(ents[first_player(ents)].position, d, k)),
    ensures
        push_outcome(ents, b, d) is Some,
        push_outcome(ents, b, d)->0.len() == k,
        chain_entities(ents, ents[first_player(ents)].position, d, push_outcome(ents, b, d)->0),
        outcome_world(ents, b, d) == shifted(ents, push_outcome(ents, b, d)->0, d),
        outcome_events(ents, b, d) == moved_events(push_outcome(ents, b, d)->0),
        outcome_moves(ents, b, d) == (if k > 0 {
            1nat
        } else {
            0nat
        }),
{
    let p = ents[first_player(ents)].position;
    lemma_free_from(ents, b, p, d, 0, k);
    lemma_resolved_entities(ents, b, p, d);
}

/// Every player and every box can be pushed, and no box spot can.
pub open spec fn kinds_movable(ents: Seq<Entity>) -> bool {
    forall|i: int|
        0 <= i < ents.len() ==> ((is_player(#[trigger] ents[i]) || is_box(ents[i]))
            ==> ents[i].movable is Some) && (is_box_spot(ents[i]) ==> ents[i].movable is None)
}

/// No two box spots share a tile.
pub open spec fn one_spot_per_tile(ents: Seq<Entity>) -> bool {
    forall|i: int, k: int|
        0 <= i < ents.len() && 0 <= k < ents.len() && i != k && is_box_spot(ents[i])
            && is_box_spot(ents[k]) ==> !same_tile(
            #[trigger] ents[i].position,
            #[trigger] ents[k].position,
        )
}

/// The data model's invariant of a world: no two movable entities share a tile, nor two box
/// spots; every player and box can be pushed and no spot can; and every movable entity lies on
/// the map.
pub open spec fn valid_world(ents: Seq<Entity>, b: Bounds) -> bool {
    &&& one_movable_per_tile(ents)
    &&& one_spot_per_tile(ents)
    &&& kinds_movable(ents)
    &&& movables_inside(ents, b)
}

/// A push keeps a world valid.
pub proof fn law_push_keeps_world_valid(ents: Seq<Entity>, b: Bounds, d: Direction)
    requires
        ents.len() <= usize::MAX,
        valid_world(ents, b),
    ensures
        valid_world(outcome_world(ents, b, d), b),
{
    law_push_all_or_nothing(ents, b, d);
    law_push_keeps_one_movable_per_tile(ents, b, d);
    law_push_keeps_movables_inside(ents, b, d);
    let w = outcome_world(ents, b, d);
    assert forall|i: int| 0 <= i < w.len() implies w[i].kind == ents[i].kind && w[i].movable
        == ents[i].movable && (ents[i].movable is None ==> w[i] == ents[i]) by {
        if push_outcome(ents, b, d) is Some {
            if push_outcome(ents, b, d)->0.contains(i as usize) {
                assert(moved_one_tile(ents[i], w[i], d));
                if ents[i].movable is None {
                    let p = ents[first_player(ents)].position;
                    lemma_resolved_entities(ents, b, p, d);
                    let c = push_outcome(ents, b, d)->0;
                    let j = choose|j: int| 0 <= j < c.len() && c[j] == i as usize;
                    assert(chain_entity(ents, p, d, c, j));
                }
            }
        }
    }
    assert forall|i: int| 0 <= i < w.len() implies ((is_player(#[trigger] w[i]) || is_box(w[i]))
        ==> w[i].movable is Some) && (is_box_spot(w[i]) ==> w[i].movable is None) by {
        assert(is_player(w[i]) == is_player(ents[i]));
    }
    assert forall|i: int, k: int|
        0 <= i < w.len() && 0 <= k < w.len() && i != k && is_box_spot(w[i]) && is_box_spot(w[k])
            implies !same_tile(#[trigger] w[i].position, #[trigger] w[k].position) by {
        assert(is_box_spot(ents[i]) && is_box_spot(ents[k]));
        assert(w[i] == ents[i] && w[k] == ents[k]);
    }
}

} // verus!
