//! Lifecycle states of a managed game instance.

use vstd::prelude::*;

verus! {

/// Lifecycle state of one instance.  `Idle` is the initial state; the reset
/// protocol drives an instance through `Resetting`, `LoadingScreen` and
/// `Preview` back to `Idle`, and the operator moves an idle instance to
/// `Playing`.
#[derive(Clone, Copy, Debug, PartialEq, Eq, Structural)]
pub enum InstanceState {
    Idle,
    Resetting,
    LoadingScreen,
    Preview,
    Playing,
}

} // verus!
