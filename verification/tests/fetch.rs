use evm_extractor::failover::{Failover, Step};
use evm_extractor::fetch::{
    batch_addresses_in, fetch_batch_failure, fetch_batch_step, fetch_single_block_failure,
    fetch_single_block_step, get_latest_block_failure, get_latest_block_step, is_success,
    latest_block_in, read_batch_reply, read_rpc_reply, single_addresses_in, HttpReply,
    ResilientFetch, Task,
};
use evm_extractor::json::{parse_json, Json};

fn body(text: &str) -> HttpReply {
    HttpReply::Body(text.to_string())
}

fn list(items: &[&str]) -> Vec<String> {
    items.iter().map(|item| item.to_string()).collect()
}

#[test]
fn only_the_statuses_of_the_two_hundreds_are_success() {
    for (status, success) in [(199, false), (200, true), (204, true), (299, true), (300, false), (404, false)] {
        assert_eq!(is_success(status), success, "{status}");
    }
}

#[test]
fn replies_to_a_call_are_read_or_described() {
    assert_eq!(read_rpc_reply(body("null")), Ok(Json::Null));
    let refused = |reply| read_rpc_reply(reply).unwrap_err();
    assert_eq!(refused(HttpReply::SendFailed("down".to_string())), "request error: down");
    assert_eq!(refused(HttpReply::Refused("404 Not Found".to_string())), "HTTP status 404 Not Found");
    assert_eq!(refused(HttpReply::ReadFailed("cut".to_string())), "response read error: cut");
    assert_eq!(refused(body(" \r\n")), "empty response");
    assert_eq!(refused(body("")), "empty response");
    assert_eq!(refused(body("nulx")), "invalid JSON: expected ident at line 1 column 4");
}

#[test]
fn replies_to_a_batch_are_read_or_described() {
    assert_eq!(read_batch_reply(body("[null]")), Ok(vec![Json::Null]));
    let refused = |reply| read_batch_reply(reply).unwrap_err();
    assert_eq!(refused(HttpReply::SendFailed("down".to_string())), "request error: down");
    assert_eq!(refused(HttpReply::Refused("503 Busy".to_string())), "HTTP 503 Busy");
    assert_eq!(refused(HttpReply::ReadFailed("cut".to_string())), "read error: cut");
    assert_eq!(refused(body("")), "invalid JSON: EOF while parsing a value at line 1 column 0");
    assert!(refused(body("{}")).starts_with("invalid JSON: invalid type: map"));
}

#[test]
fn the_newest_block_is_read_from_the_result() {
    let found = |text: &str| latest_block_in("rpc", parse_json(text));
    assert_eq!(found(r#"{"result": "0x10"}"#), Ok(16));
    for text in [r#"{"result": 16}"#, r#"{"result": "x"}"#, "{}", "[]", r#"{"error": {}}"#] {
        assert_eq!(found(text), Err("rpc returned invalid block number".to_string()), "{text}");
    }
    assert_eq!(latest_block_in("rpc", Err("broken".to_string())), Err("rpc -> broken".to_string()));
}

#[test]
fn the_newest_block_comes_from_the_first_endpoint_that_knows_it() {
    let mut run = Failover::new(2);
    let step = get_latest_block_step(&mut run, "one", body(""));
    assert_eq!(step, Step::Retry { pause_millis: 300 });
    assert_eq!(run.last_error(), "one -> empty response");
    let step = get_latest_block_step(&mut run, "one", body("{}"));
    assert_eq!(step, Step::NextEndpoint);
    assert_eq!(run.last_error(), "one returned invalid block number");
    let step = get_latest_block_step(&mut run, "two", body(r#"{"result": "0xa"}"#));
    assert_eq!(step, Step::Done(10));
}

#[test]
fn the_last_error_is_reported_where_no_endpoint_answers() {
    let mut run = Failover::new(1);
    get_latest_block_step(&mut run, "one", HttpReply::SendFailed("a".to_string()));
    let step = get_latest_block_step(&mut run, "one", HttpReply::SendFailed("b".to_string()));
    assert_eq!(step, Step::Exhausted);
    assert_eq!(
        get_latest_block_failure(run.last_error()),
        "All RPCs failed: one -> request error: b"
    );
    assert_eq!(fetch_batch_failure("x"), "all RPCs failed: x");
    assert_eq!(fetch_single_block_failure(12, "x"), "Block 12 failed on ALL RPCs: x");
}

#[test]
fn a_batch_is_taken_from_the_first_reply_that_is_complete() {
    let mut run = Failover::new(2);
    let half = r#"[{"result": {"number": "0x1", "transactions": [{"from": "0xA"}]}}]"#;
    assert_eq!(fetch_batch_step(&mut run, body(half), &[1, 2]), Step::Retry { pause_millis: 300 });
    assert_eq!(run.last_error(), "incomplete batch: received 1 / 2 blocks");
    let step = fetch_batch_step(&mut run, HttpReply::Refused("500".to_string()), &[1, 2]);
    assert_eq!(step, Step::NextEndpoint);
    assert_eq!(run.last_error(), "HTTP 500");
    let whole = r#"[{"result": {"number": "0x1", "transactions": [{"from": "0xA"}]}},
        {"result": {"number": "0x2", "transactions": [{"to": "0xB"}]}}]"#;
    let step = fetch_batch_step(&mut run, body(whole), &[1, 2]);
    assert_eq!(step, Step::Done(list(&["0xa", "0xb"])));
    assert_eq!(batch_addresses_in(Err("e".to_string()), &[1]), Err("e".to_string()));
    assert_eq!(batch_addresses_in(Ok(vec![]), &[]), Ok(vec![]));
}

#[test]
fn a_single_block_needs_a_result_that_is_not_null() {
    for text in ["{}", r#"{"result": null}"#, "[]"] {
        let found = single_addresses_in(parse_json(text));
        assert_eq!(found, Err("invalid block result".to_string()), "{text}");
    }
    assert_eq!(single_addresses_in(Err("e".to_string())), Err("e".to_string()));
    // An error beside a result does not matter here.
    let both = r#"{"error": {}, "result": {"transactions": [{"to": "0xC"}]}}"#;
    assert_eq!(single_addresses_in(parse_json(both)), Ok(list(&["0xc"])));

    let mut run = Failover::new(1);
    let step = fetch_single_block_step(&mut run, body(r#"{"result": null}"#));
    assert_eq!(step, Step::Retry { pause_millis: 300 });
    assert_eq!(run.last_error(), "invalid block result");
    assert_eq!(fetch_single_block_step(&mut run, body(both)), Step::Done(list(&["0xc"])));
}

#[test]
fn an_accepted_batch_is_the_result() {
    let mut fetch = ResilientFetch::new(vec![4, 5]);
    assert_eq!(fetch.task(), Task::Batch);
    assert_eq!(fetch.blocks(), &[4, 5]);
    fetch.absorb(Ok(list(&["a"])));
    assert_eq!(fetch.task(), Task::Finished);
    assert_eq!(fetch.into_result(), Some(Ok(list(&["a"]))));
}

#[test]
fn a_failed_batch_is_fetched_block_by_block() {
    let mut fetch = ResilientFetch::new(vec![4, 5]);
    fetch.absorb(Err("batch".to_string()));
    assert_eq!(fetch.task(), Task::Block(4));
    fetch.absorb(Ok(list(&["a", "b"])));
    assert_eq!(fetch.task(), Task::Block(5));
    fetch.absorb(Ok(list(&["a"])));
    assert_eq!(fetch.task(), Task::Finished);
    assert_eq!(fetch.into_result(), Some(Ok(list(&["a", "b", "a"]))));
}

#[test]
fn one_lost_block_loses_the_batch() {
    let mut fetch = ResilientFetch::new(vec![4, 5, 6]);
    fetch.absorb(Err("batch".to_string()));
    fetch.absorb(Ok(list(&["a"])));
    fetch.absorb(Err("lost".to_string()));
    assert_eq!(fetch.task(), Task::Finished);
    fetch.absorb(Ok(list(&["late"])));
    assert_eq!(fetch.into_result(), Some(Err("lost".to_string())));
}

#[test]
fn a_fetch_that_is_not_over_has_no_result() {
    assert_eq!(ResilientFetch::new(vec![1]).into_result(), None);
    let mut fetch = ResilientFetch::new(vec![1]);
    fetch.absorb(Err("batch".to_string()));
    assert_eq!(fetch.into_result(), None);
    let mut empty = ResilientFetch::new(vec![]);
    empty.absorb(Err("batch".to_string()));
    assert_eq!(empty.into_result(), Some(Ok(vec![])));
}

#[test]
fn single_blocks_are_asked_for_in_their_order() {
    let mut fetch = ResilientFetch::new(vec![9, 4, 9, 1]);
    fetch.absorb(Err("batch".to_string()));
    for block in [9u64, 4, 9, 1] {
        assert_eq!(fetch.task(), Task::Block(block));
        fetch.absorb(Ok(list(&[&block.to_string()])));
    }
    assert_eq!(fetch.into_result(), Some(Ok(list(&["9", "4", "9", "1"]))));
}
