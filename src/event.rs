use vstd::prelude::*;

verus! {

/// A key transition as seen by the chord engine: `(row, column)` of the key.
/// Row 0 holds the physically scanned keys; other rows are virtual keys.
#[derive(Clone, Copy, Debug, PartialEq, Eq, Structural)]
pub enum Event {
    Press(u8, u16),
    Release(u8, u16),
}

impl Event {
    pub open spec fn row(self) -> u8 {
        match self {
            Event::Press(i, _) => i,
            Event::Release(i, _) => i,
        }
    }

    pub open spec fn key(self) -> u16 {
        match self {
            Event::Press(_, j) => j,
            Event::Release(_, j) => j,
        }
    }
}

/// An event together with the number of ticks it has spent queued.
#[derive(Clone, Copy, Debug, PartialEq, Eq, Structural)]
pub struct Queued {
    pub event: Event,
    pub since: u16,
}

} // verus!
