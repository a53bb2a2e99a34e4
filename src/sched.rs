//! Scheduling parameters a real-time thread can be given, one type per
//! policy. Turning them into the core's attribute block is a call into the
//! core and lives outside this library.
use vstd::prelude::*;

verus! {

/// First-in first-out real-time policy.
pub struct SchedFifo {
    pub prio: i32,
}

/// Round-robin real-time policy.
pub struct SchedRR {
    pub prio: i32,
}

/// Weak policy: a real-time thread that may also run regular code.
pub struct SchedWeak {
    pub prio: i32,
}

/// Quota policy: a priority within a group sharing a CPU budget.
pub struct SchedQuota {
    pub group: i32,
    pub prio: i32,
}

/// Temporal partitioning policy: a priority within a time partition.
pub struct SchedTP {
    pub part: i32,
    pub prio: i32,
}

} // verus!
