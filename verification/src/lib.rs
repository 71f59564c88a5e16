//! Coordination core for a wall of concurrently resetting game instances.
//!
//! The library owns the instance lifecycle state machine, the bag-based
//! admission scheduler (`WallQueue`), the CPU-affinity allocator, and the
//! manager that ties them together.  All decisions are pure functions of
//! plain state; the surrounding process (window handling, timers, channels)
//! feeds observations in and carries the returned actions out.

pub mod allocator;
pub mod control;
pub mod instance;
pub mod layout;
pub mod manager;
pub mod state;
pub mod text;
pub mod wall_queue;
