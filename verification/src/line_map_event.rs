use vstd::prelude::*;

use crate::line_count::LineCount;

verus! {

/// Events emitted by the line map as segments are scanned or invalidated.
#[derive(Debug, Clone, Copy, PartialEq, Eq, Structural)]
pub enum LineMapEvent {
    /// The current best estimate (or exact count) of total lines has changed.
    LineCountChanged {
        /// New count: an estimate (`exact: false`) or authoritative
        /// (`exact: true`).
        count: LineCount,
    },
    /// A contiguous range of lines now has exact terminator information.
    /// Both bounds are 0-based, inclusive.
    RegionExact {
        /// First line (0-based) known exactly.
        start_line: usize,
        /// Last line (0-based) known exactly.
        end_line: usize,
    },
    /// All segment data at or after `from_line` has been discarded.
    MapInvalidated {
        /// First line (0-based) whose data is now stale.
        from_line: usize,
    },
}

/// Where a line map puts its events: an outbox that its owner empties.
pub struct EventSender {
    queue: Vec<LineMapEvent>,
}

impl EventSender {
    /// The events sent and not yet taken out, in the order they were sent.
    pub closed spec fn view(&self) -> Seq<LineMapEvent> {
        self.queue@
    }

    /// A sender with nothing sent.
    pub fn new() -> (sender: Self)
        ensures
            sender@ == Seq::<LineMapEvent>::empty(),
    {
        EventSender { queue: Vec::new() }
    }

    /// Send one event.
    pub fn send(&mut self, event: LineMapEvent)
        ensures
            final(self)@ == old(self)@.push(event),
    {
        self.queue.push(event);
    }

    /// Take out all events sent so far.
    pub fn drain(&mut self) -> (events: Vec<LineMapEvent>)
        ensures
            events@ == old(self)@,
            final(self)@ == Seq::<LineMapEvent>::empty(),
    {
        let mut events: Vec<LineMapEvent> = Vec::new();
        events.append(&mut self.queue);
        events
    }
}

impl Default for EventSender {
    fn default() -> (sender: Self)
        ensures
            sender@ == Seq::<LineMapEvent>::empty(),
    {
        EventSender::new()
    }
}

} // verus!
