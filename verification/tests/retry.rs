use span_circuit_info::retry::{after_failure, RetryAction};

#[test]
fn a_failure_is_retried() {
    assert_eq!(after_failure(0, 10, false), RetryAction::Retry { attempt: 1, warn: true });
    assert_eq!(after_failure(9, 10, false), RetryAction::Retry { attempt: 10, warn: true });
}

#[test]
fn retries_end() {
    assert_eq!(after_failure(10, 10, false), RetryAction::GiveUp { tell: true });
    assert_eq!(after_failure(0, 0, false), RetryAction::GiveUp { tell: true });
    assert_eq!(after_failure(u32::MAX, u32::MAX, false), RetryAction::GiveUp { tell: true });
}

#[test]
fn quiet_runs_tell_of_nothing() {
    assert_eq!(after_failure(3, 10, true), RetryAction::Retry { attempt: 4, warn: false });
    assert_eq!(after_failure(10, 10, true), RetryAction::GiveUp { tell: false });
}

#[test]
fn the_number_of_requests() {
    for max_retries in [0, 1, 10] {
        let mut requests = 1;
        let mut attempt = 0;
        while let RetryAction::Retry { attempt: next, .. } =
            after_failure(attempt, max_retries, true)
        {
            attempt = next;
            requests += 1;
        }
        assert_eq!(requests, max_retries + 1);
    }
}
