//! The policy that decides, level by level, whether the two subtrees of a
//! node are handled by two workers or one after the other.

use vstd::prelude::*;
use crate::tree::analyze::levels_for;

verus! {

/// The greatest depth at which a policy still forks.
pub const SWITCH_LIMIT: usize = 64;

/// What the policy says at a node: fork, with the policies for the two
/// subtrees, or go on sequentially.
pub enum ParResult {
    Parallel(Parallel, Parallel),
    Sequential,
}

/// A policy by depth: parallel above `depth_to_switch_at`, sequential from
/// there on.
#[derive(Clone, Copy, Debug, PartialEq, Eq, Structural)]
pub struct Parallel {
    pub depth_to_switch_at: usize,
    pub current_depth: usize,
}

impl Parallel {
    /// The policy at the root of a tree that forks above depth
    /// `depth_to_switch_at`.
    pub fn new(depth_to_switch_at: usize) -> (r: Parallel)
        ensures
            r == (Parallel { depth_to_switch_at, current_depth: 0 }),
    {
        Parallel { depth_to_switch_at, current_depth: 0 }
    }

    /// Whether the policy forks at this depth.
    pub open spec fn forks(self) -> bool {
        self.current_depth < self.depth_to_switch_at
    }

    /// The policy one level down.
    pub open spec fn deeper(self) -> Parallel {
        Parallel {
            depth_to_switch_at: self.depth_to_switch_at,
            current_depth: (self.current_depth + 1) as usize,
        }
    }

    /// The decision at this depth.
    pub fn next(self) -> (r: ParResult)
        ensures
            self.forks() ==> r == ParResult::Parallel(self.deeper(), self.deeper()),
            !self.forks() ==> r == ParResult::Sequential,
    {
        if self.current_depth < self.depth_to_switch_at {
            let child = Parallel {
                depth_to_switch_at: self.depth_to_switch_at,
                current_depth: self.current_depth + 1,
            };
            ParResult::Parallel(child, child)
        } else {
            ParResult::Sequential
        }
    }
}

/// The depth at which to stop forking with `cores` workers: one more than
/// the number of doublings that take one worker to `cores`.
pub fn switch_depth_for(cores: usize) -> (depth: usize)
    ensures
        depth == crate::tree::analyze::height_heuristic(cores as nat, 1, SWITCH_LIMIT as nat),
        1 <= depth <= SWITCH_LIMIT,
{
    levels_for(cores, 1, SWITCH_LIMIT)
}

/// Calls `rayon::current_num_threads`. The number of workers depends on
/// the machine and on how the pool was set up: nothing is claimed of it.
#[verifier::external_body]
pub(crate) fn num_workers() -> usize {
    rayon::current_num_threads()
}

/// The policy for the pool as it is now.
pub fn default_policy() -> (r: Parallel)
    ensures
        r.current_depth == 0,
        1 <= r.depth_to_switch_at <= SWITCH_LIMIT,
{
    Parallel::new(switch_depth_for(num_workers()))
}

} // verus!
