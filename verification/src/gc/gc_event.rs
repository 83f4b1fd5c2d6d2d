//! The plan that the collector hands to its executor: moves of live pages,
//! then the erase of the reclaimed block.

use vstd::prelude::*;

verus! {

/// Erase block `block_no`.
#[derive(Clone, Copy, Debug, PartialEq, Eq, Structural)]
pub struct EraseGCEvent {
    pub index: u32,
    pub block_no: u32,
}

/// Move the `size` live pages of inode `ino` that start at logical page
/// `o_address` to the pages that start at `d_address`.
#[derive(Clone, Copy, Debug, PartialEq, Eq, Structural)]
pub struct MoveGCEvent {
    pub index: u32,
    pub ino: u32,
    pub size: u32,
    pub o_address: u32,
    pub d_address: u32,
}

/// One step of a plan.
#[derive(Clone, Copy, Debug, PartialEq, Eq, Structural)]
pub enum GCEvent {
    Erase(EraseGCEvent),
    Move(MoveGCEvent),
    /// No step.
    NoEvent,
}

impl GCEvent {
    /// The place of the step in its plan; 0 for `NoEvent`.
    pub open spec fn spec_index(&self) -> u32 {
        match self {
            GCEvent::Erase(event) => event.index,
            GCEvent::Move(event) => event.index,
            GCEvent::NoEvent => 0,
        }
    }

    /// The place of the step in its plan; 0 for `NoEvent`.
    pub fn get_index(&self) -> (index: u32)
        ensures
            index == self.spec_index(),
    {
        match self {
            GCEvent::Erase(event) => event.index,
            GCEvent::Move(event) => event.index,
            GCEvent::NoEvent => 0,
        }
    }
}

/// A plan: its steps in the order in which they are to be applied.
pub struct GCEventGroup {
    pub events: Vec<GCEvent>,
}

impl GCEventGroup {
    /// A plan without steps.
    pub fn new() -> (group: GCEventGroup)
        ensures
            group.events@.len() == 0,
    {
        GCEventGroup { events: Vec::new() }
    }
}

} // verus!
