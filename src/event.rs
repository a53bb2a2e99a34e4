use vstd::prelude::*;

verus! {

/// Outcome of a timed wait on an event: whether the wait ended because
/// the timeout elapsed rather than because the event was signaled.
pub struct WaitTimeoutResult(pub bool);

impl WaitTimeoutResult {
    pub open spec fn view(&self) -> bool {
        self.0
    }

    #[must_use]
    pub fn timed_out(&self) -> (r: bool)
        ensures
            r == self.0,
    {
        self.0
    }
}

/// What a timed wait reports, from the core's return code `ret`: whether
/// the wait timed out (the code is `-etimedout`), or the error number of a
/// failure (any other negative code).
pub fn timed_wait_outcome(ret: i32, etimedout: i32) -> (r: Result<WaitTimeoutResult, i32>)
    requires
        ret > i32::MIN,
        etimedout > i32::MIN,
    ensures
        ret == -etimedout ==> r == Ok::<WaitTimeoutResult, i32>(WaitTimeoutResult(true)),
        ret != -etimedout && ret >= 0 ==> r == Ok::<WaitTimeoutResult, i32>(
            WaitTimeoutResult(false),
        ),
        ret != -etimedout && ret < 0 ==> r == Err::<WaitTimeoutResult, i32>((-ret) as i32),
{
    if ret == -etimedout {
        Ok(WaitTimeoutResult(true))
    } else if ret >= 0 {
        Ok(WaitTimeoutResult(false))
    } else {
        Err(-ret)
    }
}

} // verus!
