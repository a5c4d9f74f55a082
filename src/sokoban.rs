use vstd::prelude::*;
use vstd::string::StringSliceAdditionalSpecFns;

use crate::components::World;
use crate::events::{EventChannel, MoveEvent, ReaderId};
use crate::gameplay_state::{win_state, GameplayStateSystem};
use crate::movement::{
    direction_edge, outcome_events, outcome_world, KeyState, MovementSystem,
};
use crate::sound::{
    cues_of, derived_of, law_placements_derive_nothing, unread, SoundCue, SoundSystem,
};
use crate::map::{load_map, map_bounds, parse_map, MapError};

verus! {

/// Whether the level is still being played or every spot is covered.
#[derive(Clone, Copy, Debug, PartialEq, Eq, Structural)]
pub enum GameplayState {
    Playing,
    Won,
}

impl GameplayState {
    /// The text shown for the state.
    pub fn as_text(&self) -> (r: &'static str)
        ensures
            *self == GameplayState::Playing ==> r@ == "Playing"@,
            *self == GameplayState::Won ==> r@ == "Won"@,
    {
        match self {
            GameplayState::Playing => "Playing",
            GameplayState::Won => "Won",
        }
    }
}

impl Default for GameplayState {
    fn default() -> (r: Self)
        ensures
            r == GameplayState::Playing,
    {
        GameplayState::Playing
    }
}

/// The session's counters: the phase of play and the number of pushes that moved something.
#[derive(Clone, Copy, Debug, PartialEq, Eq, Structural)]
pub struct Gameplay {
    pub state: GameplayState,
    pub moves_count: u32,
}

impl Default for Gameplay {
    fn default() -> (r: Self)
        ensures
            r.state == GameplayState::Playing,
            r.moves_count == 0,
    {
        Gameplay { state: GameplayState::Playing, moves_count: 0 }
    }
}

/// The level that a session starts with.
pub const LEVEL: &'static str = "
    N N W W W W W W
    W W W . . . . W
    W . . . BB . . W
    W . . RB . . . W
    W . P . . . . W
    W . . . . RS . W
    W . . BS . . . W
    W . . . . . . W
    W W W W W W W W
    ";

/// Places the starting level in the world.
pub fn initialise_level(world: &mut World) -> (r: Result<(), MapError>)
    ensures
        match parse_map(LEVEL.spec_bytes()) {
            Ok(es) => r is Ok && final(world)@ == old(world)@ + es && final(world).bounds
                == map_bounds(LEVEL.spec_bytes()),
            Err(e) => r == Err::<(), MapError>(e) && final(world)@ == old(world)@ && final(world).bounds
                == old(world).bounds,
        },
{
    load_map(world, LEVEL)
}

/// The entities after the movement system has seen `keys`.
pub open spec fn moved_world(
    ents: Seq<crate::components::Entity>,
    b: crate::components::Bounds,
    previous: KeyState,
    keys: KeyState,
) -> Seq<crate::components::Entity> {
    match direction_edge(previous, keys) {
        Some(d) => outcome_world(ents, b, d),
        None => ents,
    }
}

/// The events the movement system writes on seeing `keys`.
pub open spec fn moved_log(
    ents: Seq<crate::components::Entity>,
    b: crate::components::Bounds,
    previous: KeyState,
    keys: KeyState,
) -> Seq<MoveEvent> {
    match direction_edge(previous, keys) {
        Some(d) => outcome_events(ents, b, d),
        None => Seq::empty(),
    }
}

/// One whole tick, in the fixed order of the systems: the movement system acts on `keys`; the
/// sound listener reads the events twice, the second time for the placements that its first
/// pass added; the event log is emptied for the next tick; and the win check runs on the new
/// positions. Returns the sounds asked for, in order.
pub fn run_tick(
    movement: &mut MovementSystem,
    sound: &mut SoundSystem,
    win: &mut GameplayStateSystem,
    keys: KeyState,
    world: &mut World,
    gameplay: &mut Gameplay,
    channel: &mut EventChannel,
) -> (cues: Vec<SoundCue>)
    requires
        old(gameplay).moves_count < u32::MAX,
    ensures
        ({
            let w = moved_world(old(world)@, old(world).bounds, old(movement).previous_keys, keys);
            let log = old(channel)@ + moved_log(
                old(world)@,
                old(world).bounds,
                old(movement).previous_keys,
                keys,
            );
            let first = unread(log, old(sound).move_reader.cursor);
            &&& final(world)@ == w
            &&& final(world).bounds == old(world).bounds
            &&& cues@ == cues_of(first) + cues_of(derived_of(w, first))
            &&& final(channel)@.len() == 0
            &&& final(sound).move_reader.cursor == 0
            &&& final(gameplay).state == win_state(w)
            &&& final(movement).previous_keys == keys
        }),
{
    let ghost ents = world@;
    let ghost prev = movement.previous_keys;
    movement.run(keys, world, gameplay, channel);
    let ghost log = channel@;
    let ghost first = unread(log, sound.move_reader.cursor);
    let mut cues = sound.run(channel, world);
    proof {
        assert(unread(channel@, log.len() as usize) =~= derived_of(world@, first));
        law_placements_derive_nothing(world@, first);
    }
    let more = sound.run(channel, world);
    let n = more.len();
    let ghost start = cues@;
    let mut i: usize = 0;
    while i < n
        invariant
            n == more@.len(),
            i <= n,
            cues@ == start + more@.subrange(0, i as int),
        decreases n - i,
    {
        cues.push(more[i]);
        assert(more@.subrange(0, i + 1) =~= more@.subrange(0, i as int).push(more@[i as int]));
        i = i + 1;
    }
    assert(more@.subrange(0, n as int) =~= more@);
    let mut readers: Vec<ReaderId> = Vec::new();
    readers.push(sound.move_reader);
    channel.clear(&mut readers);
    sound.move_reader = readers[0];
    win.run(gameplay, world);
    cues
}

} // verus!
