use evm_extractor::endpoints::{get_rpc_list, unsupported_chain};

const CHAINS: [(&str, usize, &str); 7] = [
    ("bnb", 7, "https://bsc-dataseed.binance.org/"),
    ("ethereum", 4, "https://eth.llamarpc.com"),
    ("polygon", 3, "https://polygon-rpc.com"),
    ("arbitrum", 3, "https://arb1.arbitrum.io/rpc"),
    ("base", 3, "https://mainnet.base.org"),
    ("optimism", 3, "https://mainnet.optimism.io"),
    ("avalanche_c", 3, "https://api.avax.network/ext/bc/C/rpc"),
];

#[test]
fn every_known_chain_has_its_public_endpoints() {
    for (chain, count, first) in CHAINS {
        let list = get_rpc_list(chain, None);
        assert_eq!(list.len(), count, "{chain}");
        assert_eq!(list[0], first, "{chain}");
    }
    assert_eq!(
        get_rpc_list("base", None),
        ["https://mainnet.base.org", "https://base.llamarpc.com", "https://1rpc.io/base"]
    );
}

#[test]
fn an_unknown_chain_has_none() {
    for chain in ["", "BNB", "solana", "bnb "] {
        assert!(get_rpc_list(chain, None).is_empty(), "{chain}");
    }
    assert_eq!(unsupported_chain("solana"), "Unsupported chain: solana");
}

#[test]
fn the_own_endpoint_comes_first_and_trimmed() {
    let list = get_rpc_list("polygon", Some(" https://own.example/\n".to_string()));
    assert_eq!(
        list,
        [
            "https://own.example/",
            "https://polygon-rpc.com",
            "https://rpc.ankr.com/polygon",
            "https://1rpc.io/matic"
        ]
    );
    assert_eq!(get_rpc_list("solana", Some("x".to_string())), ["x"]);
}

#[test]
fn a_blank_own_endpoint_does_not_count() {
    assert_eq!(get_rpc_list("base", Some(" \t".to_string())), get_rpc_list("base", None));
    assert!(get_rpc_list("solana", Some(String::new())).is_empty());
}

#[test]
fn no_endpoint_is_listed_twice() {
    let list = get_rpc_list("polygon", Some("https://1rpc.io/matic ".to_string()));
    assert_eq!(
        list,
        ["https://1rpc.io/matic", "https://polygon-rpc.com", "https://rpc.ankr.com/polygon"]
    );
    for (chain, _, _) in CHAINS {
        let mut list = get_rpc_list(chain, None);
        let count = list.len();
        list.sort();
        list.dedup();
        assert_eq!(list.len(), count, "{chain}");
    }
}
