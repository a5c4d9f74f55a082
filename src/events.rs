use vstd::prelude::*;

verus! {

/// An entity that a push has moved; `id` is its index in the world.
#[derive(Clone, Copy, Debug, PartialEq, Eq, Structural)]
pub struct EntityMoved {
    pub id: usize,
}

/// A box has come to rest on a spot; correct when their colours agree.
#[derive(Clone, Copy, Debug, PartialEq, Eq, Structural)]
pub struct BoxPlacedOnSpot {
    pub is_correct_spot: bool,
}

#[derive(Clone, Copy, Debug, PartialEq, Eq, Structural)]
pub enum MoveEvent {
    PlayerHitObstacle,
    EntityMoved(EntityMoved),
    BoxPlacedOnSpot(BoxPlacedOnSpot),
}

/// A listener's read position in an event channel.
#[derive(Clone, Copy, Debug, PartialEq, Eq, Structural)]
pub struct ReaderId {
    pub cursor: usize,
}

/// An ordered, append-only log of the events of one tick. Each listener reads it through its
/// own cursor, so every listener sees every event once, in the order written.
pub struct EventChannel {
    pub events: Vec<MoveEvent>,
}

impl View for EventChannel {
    type V = Seq<MoveEvent>;

    open spec fn view(&self) -> Seq<MoveEvent> {
        self.events@
    }
}

impl EventChannel {
    pub fn new() -> (c: EventChannel)
        ensures
            c@ == Seq::<MoveEvent>::empty(),
    {
        EventChannel { events: Vec::new() }
    }

    /// A reader that will see the events written from now on.
    pub fn register_reader(&self) -> (r: ReaderId)
        ensures
            r.cursor == self@.len(),
    {
        ReaderId { cursor: self.events.len() }
    }

    pub fn single_write(&mut self, event: MoveEvent)
        ensures
            final(self)@ == old(self)@.push(event),
    {
        self.events.push(event);
    }

    pub fn iter_write(&mut self, events: Vec<MoveEvent>)
        ensures
            final(self)@ == old(self)@ + events@,
    {
        let n = events.len();
        let mut i: usize = 0;
        while i < n
            invariant
                n == events@.len(),
                i <= n,
                self@ == old(self)@ + events@.subrange(0, i as int),
            decreases n - i,
        {
            self.events.push(events[i]);
            assert(events@.subrange(0, i + 1) =~= events@.subrange(0, i as int).push(events@[i as int]));
            i = i + 1;
        }
        assert(events@.subrange(0, n as int) =~= events@);
    }

    /// The events written since the reader last read, which it is then past.
    pub fn read(&self, reader: &mut ReaderId) -> (r: Vec<MoveEvent>)
        ensures
            old(reader).cursor <= self@.len() ==> r@ == self@.subrange(
                old(reader).cursor as int,
                self@.len() as int,
            ),
            old(reader).cursor > self@.len() ==> r@.len() == 0,
            final(reader).cursor == self@.len(),
    {
        let n = self.events.len();
        let start: usize = if reader.cursor <= n {
            reader.cursor
        } else {
            n
        };
        let mut r: Vec<MoveEvent> = Vec::new();
        let mut i: usize = start;
        while i < n
            invariant
                n == self@.len(),
                start <= i <= n,
                r@ == self@.subrange(start as int, i as int),
            decreases n - i,
        {
            r.push(self.events[i]);
            assert(self@.subrange(start as int, i + 1) =~= self@.subrange(start as int, i as int).push(self@[i as int]));
            i = i + 1;
        }
        reader.cursor = n;
        r
    }

    /// Ends the tick: the log empties and every reader starts over from its beginning.
    pub fn clear(&mut self, readers: &mut Vec<ReaderId>)
        ensures
            final(self)@.len() == 0,
            final(readers)@.len() == old(readers)@.len(),
            forall|i: int| 0 <= i < final(readers)@.len() ==> #[trigger] final(readers)@[i].cursor == 0,
    {
        self.events.clear();
        let n = readers.len();
        let mut i: usize = 0;
        while i < n
            invariant
                n == readers@.len(),
                n == old(readers)@.len(),
                i <= n,
                forall|j: int| 0 <= j < i ==> #[trigger] readers@[j].cursor == 0,
            decreases n - i,
        {
            readers.set(i, ReaderId { cursor: 0 });
            i = i + 1;
        }
    }
}

} // verus!
