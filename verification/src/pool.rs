//! The sizes of the two worker pools.

use vstd::prelude::*;

verus! {

/// The sizes of the worker pools of the first and the second stage.
#[derive(Clone, Copy, Debug)]
pub struct PoolSizes {
    pub stage_a: usize,
    pub stage_b: usize,
}

/// The pool sizes on a machine with `cores` usable cores, for `packages`
/// packages: the second stage has a worker for each core, the first stage
/// too, but no more workers than packages.
pub open spec fn sizes_for(cores: usize, packages: usize) -> PoolSizes {
    PoolSizes { stage_a: if cores <= packages { cores } else { packages }, stage_b: cores }
}

/// Calls `num_cpus::get`, the number of cores that this process may use. The
/// crate documents that the number is at least one; nothing else is claimed.
#[verifier::external_body]
fn usable_core_count() -> (r: usize)
    ensures
        r >= 1,
{
    num_cpus::get()
}

/// The pool sizes for `cores` usable cores and `packages` packages.
pub fn pool_sizes_for(cores: usize, packages: usize) -> (r: PoolSizes)
    ensures
        r == sizes_for(cores, packages),
{
    PoolSizes { stage_a: if cores <= packages { cores } else { packages }, stage_b: cores }
}

/// The pool sizes on this machine for `packages` packages.
pub fn pool_sizes(packages: usize) -> (r: PoolSizes)
    ensures
        r.stage_b >= 1,
        r == sizes_for(r.stage_b, packages),
{
    pool_sizes_for(usable_core_count(), packages)
}

} // verus!
