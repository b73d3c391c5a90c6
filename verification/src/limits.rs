use vstd::prelude::*;

verus! {

/// Which limit of a run was exceeded.
pub enum LimitHit {
    /// More time has passed than the time limit allows.
    Time,
    /// The e-graph holds more e-nodes than the node limit allows.
    Nodes,
}

/// Checks the limits of a run: the time limit first, then the node limit.
/// Times are in nanoseconds.
pub fn check_limits(elapsed_nanos: u128, time_limit_nanos: u128, size: usize, node_limit: usize) -> (r: Option<
    LimitHit,
>)
    ensures
        elapsed_nanos > time_limit_nanos ==> r matches Some(LimitHit::Time),
        elapsed_nanos <= time_limit_nanos && size > node_limit ==> r matches Some(LimitHit::Nodes),
        elapsed_nanos <= time_limit_nanos && size <= node_limit ==> r is None,
{
    if elapsed_nanos > time_limit_nanos {
        Some(LimitHit::Time)
    } else if size > node_limit {
        Some(LimitHit::Nodes)
    } else {
        None
    }
}

} // verus!
