use vstd::prelude::*;

use crate::movement::one_spot_per_tile;
use crate::components::{is_box_spot, same_tile, BoxColour, Entity, EntityKind, Position, World};
use crate::events::{BoxPlacedOnSpot, EventChannel, MoveEvent, ReaderId};

verus! {

/// The sound that an event asks for.
#[derive(Clone, Copy, Debug, PartialEq, Eq, Structural)]
pub enum SoundCue {
    Wall,
    Correct,
    Incorrect,
}

/// The colour of the box spot on tile `p` among the first `n` entities; where several share
/// the tile, the one with the highest id.
pub open spec fn spot_on_tile(ents: Seq<Entity>, n: int, p: Position) -> Option<BoxColour>
    decreases n,
{
    if n <= 0 {
        None
    } else {
        match ents[n - 1].kind {
            EntityKind::BoxSpot(s) => if same_tile(ents[n - 1].position, p) {
                Some(s.colour)
            } else {
                spot_on_tile(ents, n - 1, p)
            },
            _ => spot_on_tile(ents, n - 1, p),
        }
    }
}

/// The event that the move of entity `id` adds: a box that has come onto a spot is placed,
/// correctly when the colours agree; anything else adds nothing.
pub open spec fn placement(ents: Seq<Entity>, id: usize) -> Option<BoxPlacedOnSpot> {
    if id < ents.len() {
        match ents[id as int].kind {
            EntityKind::Box(b) => match spot_on_tile(ents, ents.len() as int, ents[id as int].position) {
                Some(c) => Some(BoxPlacedOnSpot { is_correct_spot: c == b.colour }),
                None => None,
            },
            _ => None,
        }
    } else {
        None
    }
}

/// The colour of the box spot on tile `p`, if there is one.
pub fn find_spot(world: &World, p: Position) -> (r: Option<BoxColour>)
    ensures
        r == spot_on_tile(world@, world@.len() as int, p),
{
    let n = world.entities.len();
    let mut found: Option<BoxColour> = None;
    let mut i: usize = 0;
    while i < n
        invariant
            n == world@.len(),
            i <= n,
            found == spot_on_tile(world@, i as int, p),
        decreases n - i,
    {
        let e = world.entities[i];
        match e.kind {
            EntityKind::BoxSpot(s) => {
                if e.position.x == p.x && e.position.y == p.y {
                    found = Some(s.colour);
                }
            },
            _ => {},
        }
        i = i + 1;
    }
    found
}

/// Classifies the move of entity `id`: when it is a box that now stands on a box spot, the
/// placement, correct exactly when the box's colour is the spot's.
pub fn box_placement(world: &World, id: usize) -> (r: Option<BoxPlacedOnSpot>)
    ensures
        r == placement(world@, id),
        match r {
            Some(e) => id < world@.len() && world@[id as int].kind is Box && spot_on_tile(
                world@,
                world@.len() as int,
                world@[id as int].position,
            ) is Some && (e.is_correct_spot <==> world@[id as int].kind->Box_0.colour
                == spot_on_tile(world@, world@.len() as int, world@[id as int].position)->0),
            None => !(id < world@.len() && world@[id as int].kind is Box && spot_on_tile(
                world@,
                world@.len() as int,
                world@[id as int].position,
            ) is Some),
        },
{
    if id >= world.entities.len() {
        return None;
    }
    let e = world.entities[id];
    match e.kind {
        EntityKind::Box(b) => match find_spot(world, e.position) {
            Some(c) => Some(BoxPlacedOnSpot { is_correct_spot: c == b.colour }),
            None => None,
        },
        _ => None,
    }
}

/// The sounds that one event asks for.
pub open spec fn cues_for(ev: MoveEvent) -> Seq<SoundCue> {
    match ev {
        MoveEvent::PlayerHitObstacle => seq![SoundCue::Wall],
        MoveEvent::EntityMoved(_) => Seq::empty(),
        MoveEvent::BoxPlacedOnSpot(p) => if p.is_correct_spot {
            seq![SoundCue::Correct]
        } else {
            seq![SoundCue::Incorrect]
        },
    }
}

/// The events that one event adds.
pub open spec fn derived_for(ents: Seq<Entity>, ev: MoveEvent) -> Seq<MoveEvent> {
    match ev {
        MoveEvent::EntityMoved(m) => match placement(ents, m.id) {
            Some(p) => seq![MoveEvent::BoxPlacedOnSpot(p)],
            None => Seq::empty(),
        },
        _ => Seq::empty(),
    }
}

pub open spec fn cues_of(evs: Seq<MoveEvent>) -> Seq<SoundCue>
    decreases evs.len(),
{
    if evs.len() == 0 {
        Seq::empty()
    } else {
        cues_of(evs.drop_last()) + cues_for(evs.last())
    }
}

pub open spec fn derived_of(ents: Seq<Entity>, evs: Seq<MoveEvent>) -> Seq<MoveEvent>
    decreases evs.len(),
{
    if evs.len() == 0 {
        Seq::empty()
    } else {
        derived_of(ents, evs.drop_last()) + derived_for(ents, evs.last())
    }
}

/// The events a reader at `cursor` has not read yet.
pub open spec fn unread(log: Seq<MoveEvent>, cursor: usize) -> Seq<MoveEvent> {
    if cursor <= log.len() {
        log.subrange(cursor as int, log.len() as int)
    } else {
        Seq::empty()
    }
}

/// Listens to the move events: asks for the sounds of obstacles and placements, and adds a
/// placement event for each box that a move has brought onto a spot.
pub struct SoundSystem {
    pub move_reader: ReaderId,
}

impl SoundSystem {
    /// Registers the listener, which then sees every event written after this.
    pub fn setup(channel: &EventChannel) -> (s: SoundSystem)
        ensures
            s.move_reader.cursor == channel@.len(),
    {
        SoundSystem { move_reader: channel.register_reader() }
    }

    pub fn run(&mut self, channel: &mut EventChannel, world: &World) -> (cues: Vec<SoundCue>)
        ensures
            cues@ == cues_of(unread(old(channel)@, old(self).move_reader.cursor)),
            final(channel)@ == old(channel)@ + derived_of(
                world@,
                unread(old(channel)@, old(self).move_reader.cursor),
            ),
            final(self).move_reader.cursor == old(channel)@.len(),
    {
        let evs = channel.read(&mut self.move_reader);
        let ghost ents = world@;
        let mut cues: Vec<SoundCue> = Vec::new();
        let mut new_events: Vec<MoveEvent> = Vec::new();
        let n = evs.len();
        let mut i: usize = 0;
        while i < n
            invariant
                n == evs@.len(),
                i <= n,
                ents == world@,
                cues@ == cues_of(evs@.subrange(0, i as int)),
                new_events@ == derived_of(ents, evs@.subrange(0, i as int)),
            decreases n - i,
        {
            let ev = evs[i];
            let ghost cues_before = cues@;
            let ghost new_before = new_events@;
            match ev {
                MoveEvent::PlayerHitObstacle => {
                    cues.push(SoundCue::Wall);
                },
                MoveEvent::EntityMoved(m) => {
                    match box_placement(world, m.id) {
                        Some(p) => {
                            new_events.push(MoveEvent::BoxPlacedOnSpot(p));
                        },
                        None => {},
                    }
                },
                MoveEvent::BoxPlacedOnSpot(p) => {
                    if p.is_correct_spot {
                        cues.push(SoundCue::Correct);
                    } else {
                        cues.push(SoundCue::Incorrect);
                    }
                },
            }
            assert(evs@.subrange(0, i + 1).drop_last() =~= evs@.subrange(0, i as int));
            assert(cues@ =~= cues_before + cues_for(ev));
            assert(new_events@ =~= new_before + derived_for(ents, ev));
            i = i + 1;
        }
        assert(evs@.subrange(0, n as int) =~= evs@);
        channel.iter_write(new_events);
        cues
    }
}

proof fn lemma_single_spot(ents: Seq<Entity>, n: int, p: Position, s: int)
    requires
        0 <= n <= ents.len(),
        0 <= s < ents.len(),
        ents[s].kind is BoxSpot,
        same_tile(ents[s].position, p),
        forall|j: int|
            0 <= j < ents.len() && j != s && is_box_spot(#[trigger] ents[j]) ==> !same_tile(
                ents[j].position,
                p,
            ),
    ensures
        spot_on_tile(ents, n, p) == (if s < n {
            Some(ents[s].kind->BoxSpot_0.colour)
        } else {
            None
        }),
    decreases n,
{
    if n > 0 {
        lemma_single_spot(ents, n - 1, p, s);
        if n - 1 != s {
            if ents[n - 1].kind is BoxSpot {
                assert(is_box_spot(ents[n - 1]));
            }
        }
    }
}

/// Where no two box spots share a tile, a moved box that stands on a spot is placed, and
/// correctly exactly when the box's colour is the spot's.
pub proof fn law_placement_compares_colours(ents: Seq<Entity>, id: usize, s: int)
    requires
        id < ents.len(),
        ents[id as int].kind is Box,
        0 <= s < ents.len(),
        ents[s].kind is BoxSpot,
        same_tile(ents[s].position, ents[id as int].position),
        one_spot_per_tile(ents),
    ensures
        placement(ents, id) == Some(
            BoxPlacedOnSpot {
                is_correct_spot: ents[id as int].kind->Box_0.colour
                    == ents[s].kind->BoxSpot_0.colour,
            },
        ),
{
    assert forall|j: int|
        0 <= j < ents.len() && j != s && is_box_spot(#[trigger] ents[j]) implies !same_tile(
        ents[j].position,
        ents[id as int].position,
    ) by {
        assert(is_box_spot(ents[s]));
        if same_tile(ents[j].position, ents[id as int].position) {
            assert(same_tile(ents[j].position, ents[s].position));
        }
    }
    lemma_single_spot(ents, ents.len() as int, ents[id as int].position, s);
}

proof fn lemma_derived_are_placements(ents: Seq<Entity>, evs: Seq<MoveEvent>)
    ensures
        forall|i: int|
            0 <= i < derived_of(ents, evs).len() ==> #[trigger] derived_of(ents, evs)[i] is BoxPlacedOnSpot,
    decreases evs.len(),
{
    if evs.len() > 0 {
        lemma_derived_are_placements(ents, evs.drop_last());
        let pre = derived_of(ents, evs.drop_last());
        let last = derived_for(ents, evs.last());
        assert forall|i: int| 0 <= i < derived_of(ents, evs).len() implies #[trigger] derived_of(
            ents,
            evs,
        )[i] is BoxPlacedOnSpot by {
            if i >= pre.len() {
                assert(derived_of(ents, evs)[i] == last[i - pre.len()]);
            } else {
                assert(derived_of(ents, evs)[i] == pre[i]);
            }
        }
    }
}

proof fn lemma_placements_derive_nothing(ents: Seq<Entity>, evs: Seq<MoveEvent>)
    requires
        forall|i: int| 0 <= i < evs.len() ==> #[trigger] evs[i] is BoxPlacedOnSpot,
    ensures
        derived_of(ents, evs) == Seq::<MoveEvent>::empty(),
    decreases evs.len(),
{
    if evs.len() > 0 {
        assert(evs.last() == evs[evs.len() - 1]);
        lemma_placements_derive_nothing(ents, evs.drop_last());
        assert(derived_of(ents, evs) =~= Seq::<MoveEvent>::empty());
    }
}

/// The events that the sound listener adds are placements, which add nothing more: a second
/// pass over them derives no event, so two passes of the listener leave nothing unhandled.
pub proof fn law_placements_derive_nothing(ents: Seq<Entity>, evs: Seq<MoveEvent>)
    ensures
        derived_of(ents, derived_of(ents, evs)) == Seq::<MoveEvent>::empty(),
{
    lemma_derived_are_placements(ents, evs);
    lemma_placements_derive_nothing(ents, derived_of(ents, evs));
}

proof fn lemma_derived_concat(ents: Seq<Entity>, a: Seq<MoveEvent>, b: Seq<MoveEvent>)
    ensures
        derived_of(ents, a + b) == derived_of(ents, a) + derived_of(ents, b),
    decreases b.len(),
{
    if b.len() == 0 {
        assert(a + b =~= a);
        assert(derived_of(ents, a) + derived_of(ents, b) =~= derived_of(ents, a));
    } else {
        lemma_derived_concat(ents, a, b.drop_last());
        assert((a + b).drop_last() =~= a + b.drop_last());
        assert((a + b).last() == b.last());
        assert(derived_of(ents, a + b) =~= derived_of(ents, a) + derived_of(ents, b));
    }
}

/// The events the listener adds keep the order of the events they come from: for the `i`-th
/// event, the move of a box onto a spot, its placement stands between those of the events
/// before and after it.
pub proof fn law_placement_follows_its_move(ents: Seq<Entity>, evs: Seq<MoveEvent>, i: int)
    requires
        0 <= i < evs.len(),
        evs[i] is EntityMoved,
        placement(ents, evs[i]->EntityMoved_0.id) is Some,
    ensures
        derived_of(ents, evs) == derived_of(ents, evs.take(i)) + seq![
            MoveEvent::BoxPlacedOnSpot(placement(ents, evs[i]->EntityMoved_0.id)->0),
        ] + derived_of(ents, evs.skip(i + 1)),
{
    let pre = evs.take(i);
    let one = seq![evs[i]];
    let post = evs.skip(i + 1);
    assert(evs =~= pre + one + post);
    lemma_derived_concat(ents, pre + one, post);
    lemma_derived_concat(ents, pre, one);
    assert(one.drop_last() =~= Seq::<MoveEvent>::empty());
    assert(derived_of(ents, one) == derived_of(ents, Seq::<MoveEvent>::empty()) + derived_for(ents, evs[i]));
    assert(derived_of(ents, one) =~= derived_for(ents, evs[i]));
}

} // verus!
