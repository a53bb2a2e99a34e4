use revl::event::{timed_wait_outcome, WaitTimeoutResult};

const ETIMEDOUT: i32 = 110;

#[test]
fn timed_out_reports_the_flag() {
    assert!(WaitTimeoutResult(true).timed_out());
    assert!(!WaitTimeoutResult(false).timed_out());
}

#[test]
fn timed_wait_that_times_out() {
    let r = timed_wait_outcome(-ETIMEDOUT, ETIMEDOUT);
    assert!(r.unwrap().timed_out());
}

#[test]
fn timed_wait_that_was_signaled() {
    assert!(!timed_wait_outcome(0, ETIMEDOUT).unwrap().timed_out());
    assert!(!timed_wait_outcome(3, ETIMEDOUT).unwrap().timed_out());
}

#[test]
fn timed_wait_that_failed() {
    assert_eq!(timed_wait_outcome(-22, ETIMEDOUT).err(), Some(22));
    assert_eq!(timed_wait_outcome(-1, ETIMEDOUT).err(), Some(1));
}
