//! Operator command dispatch.
//!
//! Commands arrive as free-text tokens on the operator channel.  The control
//! loop's contract is to map each recognised token to the matching manager
//! verb and to ignore anything else silently; deciding which verb a token
//! names is done here, the dispatch itself (and the I/O around it) outside.

use vstd::prelude::*;

verus! {

/// The operator commands the control loop dispatches.
#[derive(Clone, Copy, Debug, PartialEq, Eq, Structural)]
pub enum Command {
    /// Release one bag from the admission queue and reset its members; with
    /// no full bag available, play the first idle locked instance instead.
    ResetBag,
    /// Pin the instance under the cursor out of rotation.
    Lock,
    /// Toggle thin display mode on the playing instance.
    ToggleThin,
    /// Leave the playing instance and return it to the rotation.
    ExitInstance,
}

/// The bytes of `"reset_bag"`.
pub open spec fn reset_bag_token() -> Seq<u8> {
    seq![114u8, 101u8, 115u8, 101u8, 116u8, 95u8, 98u8, 97u8, 103u8]
}

/// The bytes of `"lock"`.
pub open spec fn lock_token() -> Seq<u8> {
    seq![108u8, 111u8, 99u8, 107u8]
}

/// The bytes of `"toggle_thin"`.
pub open spec fn toggle_thin_token() -> Seq<u8> {
    seq![116u8, 111u8, 103u8, 103u8, 108u8, 101u8, 95u8, 116u8, 104u8, 105u8, 110u8]
}

/// The bytes of `"exit_instance"`.
pub open spec fn exit_instance_token() -> Seq<u8> {
    seq![101u8, 120u8, 105u8, 116u8, 95u8, 105u8, 110u8, 115u8, 116u8, 97u8, 110u8, 99u8, 101u8]
}

/// The command a token names; unrecognised tokens name none and are ignored.
pub open spec fn spec_parse_command(t: Seq<u8>) -> Option<Command> {
    if t == reset_bag_token() {
        Some(Command::ResetBag)
    } else if t == lock_token() {
        Some(Command::Lock)
    } else if t == toggle_thin_token() {
        Some(Command::ToggleThin)
    } else if t == exit_instance_token() {
        Some(Command::ExitInstance)
    } else {
        None
    }
}

/// Whether two byte runs are equal.
#[verifier::loop_isolation(false)]
fn bytes_eq(a: &[u8], b: &[u8]) -> (r: bool)
    ensures
        r == (a@ == b@),
{
    if a.len() != b.len() {
        return false;
    }
    let n = a.len();
    let mut i: usize = 0;
    while i < n
        invariant
            i <= n,
            a@.len() == b@.len(),
            forall|j: int| 0 <= j < i ==> a@[j] == b@[j],
        decreases n - i,
    {
        if a[i] != b[i] {
            return false;
        }
        i += 1;
    }
    proof {
        assert(a@ =~= b@);
    }
    true
}

/// Decides which command a token names.
pub fn parse_command(token: &[u8]) -> (r: Option<Command>)
    ensures
        r == spec_parse_command(token@),
{
    let reset_bag: [u8; 9] = [114u8, 101u8, 115u8, 101u8, 116u8, 95u8, 98u8, 97u8, 103u8];
    let lock: [u8; 4] = [108u8, 111u8, 99u8, 107u8];
    let toggle_thin: [u8; 11] = [
        116u8,
        111u8,
        103u8,
        103u8,
        108u8,
        101u8,
        95u8,
        116u8,
        104u8,
        105u8,
        110u8,
    ];
    let exit_instance: [u8; 13] = [
        101u8,
        120u8,
        105u8,
        116u8,
        95u8,
        105u8,
        110u8,
        115u8,
        116u8,
        97u8,
        110u8,
        99u8,
        101u8,
    ];
    proof {
        assert(reset_bag@ =~= reset_bag_token());
        assert(lock@ =~= lock_token());
        assert(toggle_thin@ =~= toggle_thin_token());
        assert(exit_instance@ =~= exit_instance_token());
    }
    if bytes_eq(token, reset_bag.as_slice()) {
        Some(Command::ResetBag)
    } else if bytes_eq(token, lock.as_slice()) {
        Some(Command::Lock)
    } else if bytes_eq(token, toggle_thin.as_slice()) {
        Some(Command::ToggleThin)
    } else if bytes_eq(token, exit_instance.as_slice()) {
        Some(Command::ExitInstance)
    } else {
        None
    }
}

} // verus!
