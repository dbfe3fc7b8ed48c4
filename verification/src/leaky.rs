//! The decision of a leaky bucket: a unit arriving is let through while the
//! bucket, after leaking, is below its capacity.
use vstd::prelude::*;

verus! {

/// The counter after leaking `to_leak` units (never below zero), and the
/// answer to one arriving unit: `Ok` with the new level where it fits below
/// `capacity`, `Err` with the level where the bucket is full.
pub open spec fn spec_start_one(counter: u64, to_leak: u64, capacity: u64) -> (u64, Result<u64, u64>) {
    let leaked = if counter >= to_leak { counter - to_leak } else { 0 };
    if leaked < capacity {
        ((leaked + 1) as u64, Ok((leaked + 1) as u64))
    } else {
        (leaked as u64, Err(leaked as u64))
    }
}

/// One unit arrives at a bucket filled to `counter` from which `to_leak`
/// units have leaked since the last tick: the new counter and the answer.
pub fn start_one(counter: u64, to_leak: u64, capacity: u64) -> (r: (u64, Result<u64, u64>))
    ensures
        r == spec_start_one(counter, to_leak, capacity),
{
    let leaked = counter.saturating_sub(to_leak);
    if leaked < capacity {
        let c = leaked + 1;
        (c, Ok(c))
    } else {
        (leaked, Err(leaked))
    }
}

/// A bucket at or below its capacity stays there, and a unit is let through
/// exactly when the level after leaking is below the capacity.
pub proof fn lemma_start_one_within_capacity(counter: u64, to_leak: u64, capacity: u64)
    requires
        counter <= capacity,
    ensures
        spec_start_one(counter, to_leak, capacity).0 <= capacity,
        spec_start_one(counter, to_leak, capacity).1 is Ok <==> (if counter >= to_leak { counter - to_leak } else { 0 }) < capacity,
{
}

} // verus!
