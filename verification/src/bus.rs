use vstd::prelude::*;
use crate::events::{DbLogTypes, EventView};

verus! {

/// Why a send onto the event bus was refused. The event is dropped either
/// way: producers must never stall the connection loop.
#[derive(Clone, Copy, PartialEq, Eq, Structural, Debug)]
pub enum SendError {
    /// The queue already holds as many events as its capacity allows.
    Full,
    /// The bus was closed and accepts nothing further.
    Closed,
}

/// Mathematical view of the event bus: the queued events in arrival order,
/// the fixed capacity, and whether the bus is closed.
pub struct BusView {
    pub queue: Seq<EventView>,
    pub capacity: nat,
    pub closed: bool,
}

/// What one attempted send leaves behind: the event is appended when the bus
/// is open and not full, and dropped otherwise.
pub open spec fn after_send(b: BusView, e: EventView) -> BusView {
    if b.closed || b.queue.len() >= b.capacity {
        b
    } else {
        BusView { queue: b.queue.push(e), ..b }
    }
}

/// The capacity an event bus gets when the configuration names none.
pub const DEFAULT_CAPACITY: usize = 100;

/// A bounded first-in-first-out queue of credential events between the
/// session handlers and the collector. When full it refuses new events
/// rather than block.
pub struct EventBus {
    queue: Vec<DbLogTypes>,
    capacity: usize,
    closed: bool,
}

impl View for EventBus {
    type V = BusView;

    closed spec fn view(&self) -> BusView {
        BusView {
            queue: self.queue@.map_values(|e: DbLogTypes| e@),
            capacity: self.capacity as nat,
            closed: self.closed,
        }
    }
}

impl EventBus {
    /// An open, empty bus that will hold at most `capacity` events.
    pub fn new(capacity: usize) -> (r: EventBus)
        ensures
            r@.queue == Seq::<EventView>::empty(),
            r@.capacity == capacity as nat,
            !r@.closed,
    {
        EventBus { queue: Vec::new(), capacity, closed: false }
    }

    /// How many events are queued right now.
    pub fn len(&self) -> (r: usize)
        ensures
            r == self@.queue.len(),
    {
        self.queue.len()
    }

    /// The fixed capacity the bus was created with.
    pub fn capacity(&self) -> (r: usize)
        ensures
            r == self@.capacity,
    {
        self.capacity
    }

    /// Append `event` unless the bus is closed or full; a refused event is
    /// dropped, never retried, and the queue is left as it was.
    pub fn try_send(&mut self, event: DbLogTypes) -> (r: Result<(), SendError>)
        ensures
            final(self)@ == after_send(old(self)@, event@),
            r is Ok <==> (!old(self)@.closed && old(self)@.queue.len() < old(self)@.capacity),
            r == Err::<(), SendError>(SendError::Closed) <==> old(self)@.closed,
            r == Err::<(), SendError>(SendError::Full) <==> (!old(self)@.closed && old(
                self,
            )@.queue.len() >= old(self)@.capacity),
    {
        if self.closed {
            Err(SendError::Closed)
        } else if self.queue.len() >= self.capacity {
            Err(SendError::Full)
        } else {
            self.queue.push(event);
            proof {
                assert(self.queue@.map_values(|e: DbLogTypes| e@) =~= old(
                    self,
                )@.queue.push(self.queue@[self.queue@.len() - 1]@));
            }
            Ok(())
        }
    }

    /// Take the oldest queued event, or nothing when the queue is empty.
    pub fn recv(&mut self) -> (r: Option<DbLogTypes>)
        ensures
            old(self)@.queue.len() == 0 ==> r is None && final(self)@ == old(self)@,
            old(self)@.queue.len() > 0 ==> (r matches Some(e) && e@ == old(self)@.queue[0]
                && final(self)@ == (BusView { queue: old(self)@.queue.drop_first(), ..old(self)@ })),
    {
        if self.queue.len() == 0 {
            None
        } else {
            let e = self.queue.remove(0);
            proof {
                assert(self.queue@.map_values(|ev: DbLogTypes| ev@) =~= old(
                    self,
                )@.queue.drop_first());
            }
            Some(e)
        }
    }

    /// Close the bus: later sends are refused, queued events stay readable.
    pub fn close(&mut self)
        ensures
            final(self)@ == (BusView { closed: true, ..old(self)@ }),
    {
        self.closed = true;
    }

    /// Whether the bus refuses further sends.
    pub fn is_closed(&self) -> (r: bool)
        ensures
            r == self@.closed,
    {
        self.closed
    }
}

} // verus!
