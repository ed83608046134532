use std::collections::VecDeque;
use std::sync::Arc;
use vstd::prelude::*;

use crate::event::{Event, EventView};

verus! {

/// How many events an outbound queue holds before a push fails.
pub const QUEUE_CAPACITY: usize = 1024;

/// What became of one push onto an outbound queue.
#[derive(Debug, Clone, Copy, PartialEq, Eq)]
pub enum PushOutcome {
    /// The event was appended.
    Queued,
    /// The queue already held its capacity; nothing changed.
    Full,
    /// The consumer is gone; nothing changed.
    Closed,
}

/// A bounded FIFO of events awaiting delivery to one peer's transport.
pub struct OutboundQueue {
    events: VecDeque<Arc<Event>>,
    closed: bool,
}

/// The mathematical value of an [`OutboundQueue`].
pub struct QueueView {
    pub events: Seq<EventView>,
    pub closed: bool,
}

impl View for OutboundQueue {
    type V = QueueView;

    closed spec fn view(&self) -> QueueView {
        QueueView { events: self.events@.map_values(|a: Arc<Event>| (*a)@), closed: self.closed }
    }
}

impl OutboundQueue {
    /// The queue never holds more than its capacity.
    pub open spec fn wf(&self) -> bool {
        self@.events.len() <= QUEUE_CAPACITY
    }

    /// An empty, open queue.
    pub fn new() -> (r: OutboundQueue)
        ensures
            r.wf(),
            r@.events == Seq::<EventView>::empty(),
            !r@.closed,
    {
        let r = OutboundQueue { events: VecDeque::new(), closed: false };
        assert(r@.events =~= Seq::<EventView>::empty());
        r
    }

    /// Appends `e` if the queue is open and below capacity.
    pub fn push(&mut self, e: Arc<Event>) -> (r: PushOutcome)
        requires
            old(self).wf(),
        ensures
            final(self).wf(),
            r == (if old(self)@.closed {
                PushOutcome::Closed
            } else if old(self)@.events.len() >= QUEUE_CAPACITY {
                PushOutcome::Full
            } else {
                PushOutcome::Queued
            }),
            r == PushOutcome::Queued ==> final(self)@ == (QueueView {
                events: old(self)@.events.push(e@),
                closed: false,
            }),
            r != PushOutcome::Queued ==> final(self)@ == old(self)@,
    {
        assert(self@.events.len() == self.events@.len());
        if self.closed {
            PushOutcome::Closed
        } else if self.events.len() >= QUEUE_CAPACITY {
            PushOutcome::Full
        } else {
            self.events.push_back(e);
            assert(self@.events =~= old(self)@.events.push(e@));
            PushOutcome::Queued
        }
    }

    /// Removes and returns the oldest event, if any.
    pub fn pop(&mut self) -> (r: Option<Arc<Event>>)
        requires
            old(self).wf(),
        ensures
            final(self).wf(),
            final(self)@.closed == old(self)@.closed,
            old(self)@.events.len() == 0 ==> r is None && final(self)@.events == old(
                self,
            )@.events,
            old(self)@.events.len() > 0 ==> r is Some && r->Some_0@ == old(self)@.events[0]
                && final(self)@.events == old(self)@.events.drop_first(),
    {
        let r = self.events.pop_front();
        assert(self@.events =~= if old(self)@.events.len() == 0 {
            old(self)@.events
        } else {
            old(self)@.events.drop_first()
        });
        r
    }

    /// Marks the consumer as gone: every later push fails.
    pub fn close(&mut self)
        requires
            old(self).wf(),
        ensures
            final(self).wf(),
            final(self)@ == (QueueView { events: old(self)@.events, closed: true }),
    {
        self.closed = true;
    }

    pub fn len(&self) -> (r: usize)
        requires
            self.wf(),
        ensures
            r == self@.events.len(),
    {
        assert(self@.events.len() == self.events@.len());
        self.events.len()
    }

    pub fn is_closed(&self) -> (r: bool)
        ensures
            r == self@.closed,
    {
        self.closed
    }
}

} // verus!
