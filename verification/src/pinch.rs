//! Trackpad pinch-to-zoom. The events arrive outside the window's own loop, so
//! they are queued there and taken by the loop.

use vstd::prelude::*;
use crate::coord::Coord;

verus! {

/// One magnify event, in the window's coordinates.
#[derive(Clone, Copy, Debug)]
pub struct Pinch {
    /// The fractional size change: the scale is one more than this.
    pub magnification: Coord,
    /// The pointer, from the top left, in logical points.
    pub x: Coord,
    pub y: Coord,
}

/// The most events that wait, so that a stalled window cannot grow the queue
/// without bound.
pub const MAX_QUEUED: usize = 64;

/// The events that wait to be taken.
pub struct Queue {
    pub events: Vec<Pinch>,
}

impl View for Queue {
    type V = Seq<Pinch>;

    open spec fn view(&self) -> Seq<Pinch> {
        self.events@
    }
}

/// The queue after one more event.
pub open spec fn pushed(events: Seq<Pinch>, p: Pinch) -> Seq<Pinch> {
    if events.len() < MAX_QUEUED {
        events.push(p)
    } else {
        events
    }
}

/// An event that changes a size: neither nothing nor endless.
pub open spec fn tells(p: Pinch) -> bool {
    p.magnification.finite() && p.magnification.magnitude() != 0
}

impl Queue {
    /// An empty queue.
    pub fn new() -> (r: Queue)
        ensures
            r@.len() == 0,
    {
        Queue { events: Vec::new() }
    }

    /// Queues an event, if there is room.
    pub fn push(&mut self, p: Pinch)
        ensures
            final(self)@ == pushed(old(self)@, p),
            old(self)@.len() <= MAX_QUEUED ==> final(self)@.len() <= MAX_QUEUED,
    {
        if self.events.len() < MAX_QUEUED {
            self.events.push(p);
        }
    }

    /// Queues an event that was seen, if it changes a size.
    pub fn observe(&mut self, p: Pinch)
        ensures
            final(self)@ == if tells(p) {
                pushed(old(self)@, p)
            } else {
                old(self)@
            },
    {
        if p.magnification.is_finite() && !p.magnification.equals(Coord::zero()) {
            self.push(p);
        }
    }

    /// Takes everything queued since the last call.
    pub fn drain(&mut self) -> (r: Vec<Pinch>)
        ensures
            r@ == old(self)@,
            final(self)@.len() == 0,
    {
        let mut out: Vec<Pinch> = Vec::new();
        std::mem::swap(&mut out, &mut self.events);
        out
    }

    /// Whether anything waits.
    pub fn pending(&self) -> (r: bool)
        ensures
            r == (self@.len() > 0),
    {
        self.events.len() > 0
    }
}

/// An event goes behind those that wait, and nothing that waits is lost or changes its
/// place. Once as many wait as there may be, one more is let go.
pub proof fn events_wait_in_turn(events: Seq<Pinch>, p: Pinch, i: int)
    requires
        0 <= i < events.len(),
    ensures
        pushed(events, p)[i] == events[i],
        events.len() < MAX_QUEUED ==> pushed(events, p).len() == events.len() + 1 && pushed(
            events,
            p,
        ).last() == p,
        events.len() >= MAX_QUEUED ==> pushed(events, p) == events,
{
}

} // verus!
