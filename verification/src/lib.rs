//! Verified decision logic of a family of equality-saturation schedulers
//! that rank rewrite matches by their "detour cost".

pub mod backoff;
pub mod cost;
pub mod ctxt_cost;
pub mod detour;
pub mod limits;
pub mod min_prio_queue;
pub mod order;
