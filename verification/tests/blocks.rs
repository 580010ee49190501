use evm_extractor::blocks::{
    batch_request, block_request, extract_addresses, latest_block_request, parse_batch,
};
use evm_extractor::json::{parse_json, parse_json_list, Json};
use evm_extractor::number::hex_to_u64;

fn block(body: &str) -> Vec<String> {
    extract_addresses(&parse_json(body).unwrap())
}

fn batch(body: &str, expected: &[u64]) -> Result<Vec<String>, String> {
    parse_batch(parse_json_list(body).unwrap(), expected)
}

#[test]
fn requests_have_the_form_of_the_protocol() {
    let latest = parse_json(r#"{"jsonrpc":"2.0","method":"eth_blockNumber","params":[],"id":1}"#);
    let latest = latest.unwrap();
    for key in ["jsonrpc", "method", "params", "id"] {
        assert_eq!(latest_block_request().get(key), latest.get(key), "{key}");
    }
    let expected = parse_json(
        r#"{"jsonrpc":"2.0","method":"eth_getBlockByNumber","params":["0x112a880",true],"id":18000000}"#,
    )
    .unwrap();
    let request = block_request(18_000_000);
    for key in ["jsonrpc", "method", "params", "id"] {
        assert_eq!(request.get(key), expected.get(key), "{key}");
    }
    assert_eq!(request.get("other"), None);
}

#[test]
fn the_request_for_a_block_names_the_block() {
    for number in [0u64, 1, 255, u64::MAX] {
        let request = block_request(number);
        let params = request.get("params").unwrap().as_array().unwrap();
        assert_eq!(params.len(), 2);
        assert_eq!(hex_to_u64(params[0].as_str().unwrap()), Some(number));
        assert_eq!(params[1], Json::Bool(true));
        assert_eq!(request.get("id"), Some(&Json::Number(number.to_string())));
    }
    assert_ne!(block_request(1), block_request(2));
}

#[test]
fn a_batch_asks_for_each_block_in_order() {
    assert_eq!(batch_request(&[]), vec![]);
    assert_eq!(batch_request(&[7, 8]), vec![block_request(7), block_request(8)]);
}

#[test]
fn senders_and_receivers_are_taken_in_lower_case() {
    let addresses = block(
        r#"{"transactions": [
            {"from": "0xAA", "to": "0xBb"},
            {"from": "0xCC", "to": null},
            {"to": "0xDD"},
            {"from": 5, "to": {}},
            "0xhash",
            {"to": "0xEE", "from": "0xAA"}
        ]}"#,
    );
    assert_eq!(addresses, ["0xaa", "0xbb", "0xcc", "0xdd", "0xaa", "0xee"]);
}

#[test]
fn a_block_without_a_list_of_transactions_has_no_addresses() {
    for body in ["{}", "null", "[]", "\"x\"", r#"{"transactions": null}"#, r#"{"transactions": {"from": "0xA"}}"#] {
        assert_eq!(block(body), Vec::<String>::new(), "{body}");
    }
}

#[test]
fn a_complete_batch_gives_the_addresses_in_the_order_of_the_replies() {
    let body = r#"[
        {"id": 2, "result": {"number": "0x2", "transactions": [{"from": "0xB"}]}},
        {"id": 1, "result": {"number": "0x1", "transactions": [{"from": "0xA", "to": "0xB"}]}}
    ]"#;
    let expected = vec!["0xb".to_string(), "0xa".to_string(), "0xb".to_string()];
    assert_eq!(batch(body, &[1, 2]), Ok(expected));
}

#[test]
fn an_incomplete_batch_is_refused_with_its_numbers() {
    let words = |received: usize, expected: usize| {
        Err(format!("incomplete batch: received {} / {} blocks", received, expected))
    };
    assert_eq!(batch("[]", &[1]), words(0, 1));
    assert_eq!(batch(r#"[{"result": {"number": "0x1"}}]"#, &[1, 2]), words(1, 2));
    // Twice the same number counts once.
    let twice = r#"[{"result": {"number": "0x1"}}, {"result": {"number": "0x01"}}]"#;
    assert_eq!(batch(twice, &[1, 2]), words(1, 2));
    // More blocks than were asked for are no complete batch either.
    let more = r#"[{"result": {"number": "0x1"}}, {"result": {"number": "0x2"}}]"#;
    assert_eq!(batch(more, &[1]), words(2, 1));
    assert_eq!(batch("[]", &[]), Ok(vec![]));
}

#[test]
fn replies_without_a_block_are_passed_over() {
    let body = r#"[
        {"error": null, "result": {"number": "0x5", "transactions": [{"from": "0xE"}]}},
        {"error": {"code": 1}},
        {"result": null},
        {"id": 3},
        "text",
        {"result": {"number": "0x1", "transactions": [{"from": "0xA"}]}}
    ]"#;
    assert_eq!(batch(body, &[1]), Ok(vec!["0xa".to_string()]));
}

#[test]
fn a_block_without_a_number_gives_addresses_but_does_not_count() {
    let body = r#"[
        {"result": {"number": 7, "transactions": [{"from": "0xF"}]}},
        {"result": {"number": "0x1"}}
    ]"#;
    assert_eq!(batch(body, &[1]), Ok(vec!["0xf".to_string()]));
    assert_eq!(
        batch(body, &[1, 7]),
        Err("incomplete batch: received 1 / 2 blocks".to_string())
    );
}

#[test]
fn the_numbers_of_a_batch_are_counted_not_compared() {
    assert_eq!(batch(r#"[{"result": {"number": "0x63"}}]"#, &[1]), Ok(vec![]));
}

#[test]
fn every_address_of_a_batch_is_in_lower_case() {
    let body = r#"[{"result": {"number": "0x1", "transactions": [{"from": "0xABC", "to": "0xDeF"}]}}]"#;
    let addresses = batch(body, &[1]).unwrap();
    assert_eq!(addresses, ["0xabc", "0xdef"]);
    assert!(addresses.iter().all(|address| *address == address.to_ascii_lowercase()));
}
