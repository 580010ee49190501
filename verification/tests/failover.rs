use evm_extractor::failover::{Failover, Step, MAX_RETRIES};

fn fail(run: &mut Failover, error: &str) -> Step<u64> {
    run.advance(Err(error.to_string()))
}

#[test]
fn each_endpoint_is_tried_twice_with_a_pause_between() {
    let mut run = Failover::new(2);
    assert_eq!(run.endpoint(), Some(0));
    assert_eq!(run.last_error(), "");
    assert_eq!(fail(&mut run, "a"), Step::Retry { pause_millis: 300 });
    assert_eq!(run.endpoint(), Some(0));
    assert_eq!(fail(&mut run, "b"), Step::NextEndpoint);
    assert_eq!(run.endpoint(), Some(1));
    assert_eq!(run.last_error(), "b");
    assert_eq!(fail(&mut run, "c"), Step::Retry { pause_millis: 300 });
    assert_eq!(run.endpoint(), Some(1));
    assert_eq!(fail(&mut run, "d"), Step::Exhausted);
    assert_eq!(run.endpoint(), None);
    assert_eq!(run.last_error(), "d");
}

#[test]
fn success_ends_the_run_where_it_stands() {
    let mut run = Failover::new(3);
    fail(&mut run, "a");
    fail(&mut run, "b");
    fail(&mut run, "c");
    assert_eq!(run.advance(Ok(7u64)), Step::Done(7));
    assert_eq!(run.endpoint(), Some(1));
    assert_eq!(run.last_error(), "c");
}

#[test]
fn without_endpoints_there_is_nothing_to_try() {
    let run = Failover::new(0);
    assert_eq!(run.endpoint(), None);
    assert_eq!(run.last_error(), "");
}

#[test]
fn a_run_of_failures_takes_every_try_of_every_endpoint() {
    for endpoints in 0..5usize {
        let mut run = Failover::new(endpoints);
        let mut tries = 0usize;
        while let Some(index) = run.endpoint() {
            assert_eq!(index, tries / MAX_RETRIES);
            tries += 1;
            fail(&mut run, &tries.to_string());
        }
        assert_eq!(tries, endpoints * MAX_RETRIES);
        let last = if tries == 0 { String::new() } else { tries.to_string() };
        assert_eq!(run.last_error(), last);
    }
}
