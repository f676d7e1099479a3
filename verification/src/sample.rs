//! The key of the kernel map that counts samples.

use vstd::prelude::*;

verus! {

/// The key under which the sampling program counts samples: the thread and
/// process ids and the ids of the kernel and user stacks recorded (negative
/// when a stack could not be recorded).
#[derive(Clone, Copy, Debug, Default, PartialEq, Eq, Hash, Structural)]
pub struct SampleKey {
    pub pid: u32,
    pub tgid: u32,
    pub kern_stack_id: i32,
    pub user_stack_id: i32,
}

} // verus!
