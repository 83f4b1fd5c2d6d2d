//! Garbage collection: the table of block states and the planner that picks
//! a victim block and lays out how to reclaim it.

pub mod gc_define;
pub mod gc_event;
pub mod block_table;
pub mod gc_manager;
