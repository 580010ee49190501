//! The endpoints that serve a chain.
use crate::text::{
    is_white_space, lemma_trimmed_empty, same_text, text_of, texts, trim, trimmed,
};
use crate::unique::{added, added_all};
use vstd::prelude::*;
use vstd::string::*;

verus! {

/// The public endpoints of a chain, none where the chain is unknown.
pub open spec fn public_endpoints(chain: Seq<char>) -> Seq<Seq<char>> {
    if chain == "bnb"@ {
        seq![
            "https://bsc-dataseed.binance.org/"@,
            "https://bsc-dataseed1.defibit.io/"@,
            "https://bsc-dataseed1.ninicoin.io/"@,
            "https://bsc-dataseed2.binance.org/"@,
            "https://bsc-dataseed3.binance.org/"@,
            "https://rpc.ankr.com/bsc"@,
            "https://1rpc.io/bnb"@,
        ]
    } else if chain == "ethereum"@ {
        seq![
            "https://eth.llamarpc.com"@,
            "https://cloudflare-eth.com"@,
            "https://rpc.ankr.com/eth"@,
            "https://1rpc.io/eth"@,
        ]
    } else if chain == "polygon"@ {
        seq!["https://polygon-rpc.com"@, "https://rpc.ankr.com/polygon"@, "https://1rpc.io/matic"@]
    } else if chain == "arbitrum"@ {
        seq!["https://arb1.arbitrum.io/rpc"@, "https://rpc.ankr.com/arbitrum"@, "https://1rpc.io/arb"@]
    } else if chain == "base"@ {
        seq!["https://mainnet.base.org"@, "https://base.llamarpc.com"@, "https://1rpc.io/base"@]
    } else if chain == "optimism"@ {
        seq!["https://mainnet.optimism.io"@, "https://optimism.llamarpc.com"@, "https://1rpc.io/op"@]
    } else if chain == "avalanche_c"@ {
        seq![
            "https://api.avax.network/ext/bc/C/rpc"@,
            "https://rpc.ankr.com/avalanche"@,
            "https://1rpc.io/avax/c"@,
        ]
    } else {
        Seq::empty()
    }
}

/// The user's own endpoint, trimmed; none where it is not given or blank.
pub open spec fn own_endpoint(custom: Option<Seq<char>>) -> Seq<Seq<char>> {
    match custom {
        Some(text) => if trimmed(text).len() == 0 {
            Seq::empty()
        } else {
            seq![trimmed(text)]
        },
        None => Seq::empty(),
    }
}

/// The endpoints to try, in order: the user's own, then the public ones, none of them twice.
pub open spec fn endpoint_list(chain: Seq<char>, custom: Option<Seq<char>>) -> Seq<Seq<char>> {
    added_all(own_endpoint(custom), public_endpoints(chain))
}

/// The seven chains have these endpoints, in this order; every other name has none.
pub proof fn lemma_public_endpoints(chain: Seq<char>)
    ensures
        public_endpoints("bnb"@) == seq![
            "https://bsc-dataseed.binance.org/"@,
            "https://bsc-dataseed1.defibit.io/"@,
            "https://bsc-dataseed1.ninicoin.io/"@,
            "https://bsc-dataseed2.binance.org/"@,
            "https://bsc-dataseed3.binance.org/"@,
            "https://rpc.ankr.com/bsc"@,
            "https://1rpc.io/bnb"@,
        ],
        public_endpoints("ethereum"@) == seq![
            "https://eth.llamarpc.com"@,
            "https://cloudflare-eth.com"@,
            "https://rpc.ankr.com/eth"@,
            "https://1rpc.io/eth"@,
        ],
        public_endpoints("polygon"@) == seq![
            "https://polygon-rpc.com"@,
            "https://rpc.ankr.com/polygon"@,
            "https://1rpc.io/matic"@,
        ],
        public_endpoints("arbitrum"@) == seq![
            "https://arb1.arbitrum.io/rpc"@,
            "https://rpc.ankr.com/arbitrum"@,
            "https://1rpc.io/arb"@,
        ],
        public_endpoints("base"@) == seq![
            "https://mainnet.base.org"@,
            "https://base.llamarpc.com"@,
            "https://1rpc.io/base"@,
        ],
        public_endpoints("optimism"@) == seq![
            "https://mainnet.optimism.io"@,
            "https://optimism.llamarpc.com"@,
            "https://1rpc.io/op"@,
        ],
        public_endpoints("avalanche_c"@) == seq![
            "https://api.avax.network/ext/bc/C/rpc"@,
            "https://rpc.ankr.com/avalanche"@,
            "https://1rpc.io/avax/c"@,
        ],
        public_endpoints(chain).len() == 0 <==> !seq![
            "bnb"@,
            "ethereum"@,
            "polygon"@,
            "arbitrum"@,
            "base"@,
            "optimism"@,
            "avalanche_c"@,
        ].contains(chain),
{
    reveal_strlit("bnb");
    reveal_strlit("ethereum");
    reveal_strlit("polygon");
    reveal_strlit("arbitrum");
    reveal_strlit("base");
    reveal_strlit("optimism");
    reveal_strlit("avalanche_c");
    assert("ethereum"@[0] == 'e' && "arbitrum"@[0] == 'a' && "optimism"@[0] == 'o');
    let chains = seq![
        "bnb"@,
        "ethereum"@,
        "polygon"@,
        "arbitrum"@,
        "base"@,
        "optimism"@,
        "avalanche_c"@,
    ];
    assert(chains[0] == "bnb"@ && chains[1] == "ethereum"@ && chains[2] == "polygon"@ && chains[3]
        == "arbitrum"@ && chains[4] == "base"@ && chains[5] == "optimism"@ && chains[6]
        == "avalanche_c"@);
}

/// The endpoints to try are the user's own, where there is one, and then the public ones of the chain in
/// their order, without the one that is the user's own.
pub proof fn lemma_endpoint_order(chain: Seq<char>, custom: Option<Seq<char>>)
    ensures
        endpoint_list(chain, custom) == own_endpoint(custom) + public_endpoints(chain).filter(
            |item: Seq<char>| !own_endpoint(custom).contains(item),
        ),
        own_endpoint(custom).len() == 0 ==> endpoint_list(chain, custom) == public_endpoints(chain),
{
    let own = own_endpoint(custom);
    let public = public_endpoints(chain);
    lemma_public_distinct(chain);
    crate::unique::lemma_added_all_in_order(own, public);
    if own.len() == 0 {
        lemma_filter_keeps_all(public, |item: Seq<char>| !own.contains(item));
        assert(own + public =~= public);
    }
}

proof fn lemma_filter_keeps_all(list: Seq<Seq<char>>, keep: spec_fn(Seq<char>) -> bool)
    requires
        forall|i: int| 0 <= i < list.len() ==> keep(#[trigger] list[i]),
    ensures
        list.filter(keep) == list,
    decreases list.len(),
{
    reveal(Seq::filter);
    if list.len() > 0 {
        lemma_filter_keeps_all(list.drop_last(), keep);
        assert(keep(list[list.len() - 1]));
        assert(list.drop_last().push(list.last()) =~= list);
    } else {
        assert(list.filter(keep) =~= list);
    }
}

/// No public endpoint of a chain is listed twice.
pub proof fn lemma_public_distinct(chain: Seq<char>)
    ensures
        public_endpoints(chain).no_duplicates(),
{
    let list = public_endpoints(chain);
    if chain == "bnb"@ {
        reveal_strlit("https://bsc-dataseed.binance.org/");
        reveal_strlit("https://bsc-dataseed1.defibit.io/");
        reveal_strlit("https://bsc-dataseed1.ninicoin.io/");
        reveal_strlit("https://bsc-dataseed2.binance.org/");
        reveal_strlit("https://bsc-dataseed3.binance.org/");
        reveal_strlit("https://rpc.ankr.com/bsc");
        reveal_strlit("https://1rpc.io/bnb");
        assert(list[0] == "https://bsc-dataseed.binance.org/"@);
        assert(list[1] == "https://bsc-dataseed1.defibit.io/"@);
        assert(list[2] == "https://bsc-dataseed1.ninicoin.io/"@);
        assert(list[3] == "https://bsc-dataseed2.binance.org/"@);
        assert(list[4] == "https://bsc-dataseed3.binance.org/"@);
        assert(list[5] == "https://rpc.ankr.com/bsc"@);
        assert(list[6] == "https://1rpc.io/bnb"@);
        assert(list[0][20] != list[1][20]);
        assert(list[0].len() != list[2].len());
        assert(list[0].len() != list[3].len());
        assert(list[0].len() != list[4].len());
        assert(list[0].len() != list[5].len());
        assert(list[0].len() != list[6].len());
        assert(list[1].len() != list[2].len());
        assert(list[1].len() != list[3].len());
        assert(list[1].len() != list[4].len());
        assert(list[1].len() != list[5].len());
        assert(list[1].len() != list[6].len());
        assert(list[2][20] != list[3][20]);
        assert(list[2][20] != list[4][20]);
        assert(list[2].len() != list[5].len());
        assert(list[2].len() != list[6].len());
        assert(list[3][20] != list[4][20]);
        assert(list[3].len() != list[5].len());
        assert(list[3].len() != list[6].len());
        assert(list[4].len() != list[5].len());
        assert(list[4].len() != list[6].len());
        assert(list[5].len() != list[6].len());
    } else if chain == "ethereum"@ {
        reveal_strlit("https://eth.llamarpc.com");
        reveal_strlit("https://cloudflare-eth.com");
        reveal_strlit("https://rpc.ankr.com/eth");
        reveal_strlit("https://1rpc.io/eth");
        assert(list[0] == "https://eth.llamarpc.com"@);
        assert(list[1] == "https://cloudflare-eth.com"@);
        assert(list[2] == "https://rpc.ankr.com/eth"@);
        assert(list[3] == "https://1rpc.io/eth"@);
        assert(list[0].len() != list[1].len());
        assert(list[0][8] != list[2][8]);
        assert(list[0].len() != list[3].len());
        assert(list[1].len() != list[2].len());
        assert(list[1].len() != list[3].len());
        assert(list[2].len() != list[3].len());
    } else if chain == "polygon"@ {
        reveal_strlit("https://polygon-rpc.com");
        reveal_strlit("https://rpc.ankr.com/polygon");
        reveal_strlit("https://1rpc.io/matic");
        assert(list[0] == "https://polygon-rpc.com"@);
        assert(list[1] == "https://rpc.ankr.com/polygon"@);
        assert(list[2] == "https://1rpc.io/matic"@);
        assert(list[0].len() != list[1].len());
        assert(list[0].len() != list[2].len());
        assert(list[1].len() != list[2].len());
    } else if chain == "arbitrum"@ {
        reveal_strlit("https://arb1.arbitrum.io/rpc");
        reveal_strlit("https://rpc.ankr.com/arbitrum");
        reveal_strlit("https://1rpc.io/arb");
        assert(list[0] == "https://arb1.arbitrum.io/rpc"@);
        assert(list[1] == "https://rpc.ankr.com/arbitrum"@);
        assert(list[2] == "https://1rpc.io/arb"@);
        assert(list[0].len() != list[1].len());
        assert(list[0].len() != list[2].len());
        assert(list[1].len() != list[2].len());
    } else if chain == "base"@ {
        reveal_strlit("https://mainnet.base.org");
        reveal_strlit("https://base.llamarpc.com");
        reveal_strlit("https://1rpc.io/base");
        assert(list[0] == "https://mainnet.base.org"@);
        assert(list[1] == "https://base.llamarpc.com"@);
        assert(list[2] == "https://1rpc.io/base"@);
        assert(list[0].len() != list[1].len());
        assert(list[0].len() != list[2].len());
        assert(list[1].len() != list[2].len());
    } else if chain == "optimism"@ {
        reveal_strlit("https://mainnet.optimism.io");
        reveal_strlit("https://optimism.llamarpc.com");
        reveal_strlit("https://1rpc.io/op");
        assert(list[0] == "https://mainnet.optimism.io"@);
        assert(list[1] == "https://optimism.llamarpc.com"@);
        assert(list[2] == "https://1rpc.io/op"@);
        assert(list[0].len() != list[1].len());
        assert(list[0].len() != list[2].len());
        assert(list[1].len() != list[2].len());
    } else if chain == "avalanche_c"@ {
        reveal_strlit("https://api.avax.network/ext/bc/C/rpc");
        reveal_strlit("https://rpc.ankr.com/avalanche");
        reveal_strlit("https://1rpc.io/avax/c");
        assert(list[0] == "https://api.avax.network/ext/bc/C/rpc"@);
        assert(list[1] == "https://rpc.ankr.com/avalanche"@);
        assert(list[2] == "https://1rpc.io/avax/c"@);
        assert(list[0].len() != list[1].len());
        assert(list[0].len() != list[2].len());
        assert(list[1].len() != list[2].len());
    }
}

/// The user's own endpoint counts exactly where it holds anything but white space, and then without the
/// white space at its two ends.
pub proof fn lemma_own_endpoint(text: Seq<char>)
    ensures
        own_endpoint(None).len() == 0,
        own_endpoint(Some(text)).len() == 0 <==> forall|i: int|
            0 <= i < text.len() ==> is_white_space(#[trigger] text[i]),
        own_endpoint(Some(text)).len() > 0 ==> own_endpoint(Some(text)) == seq![trimmed(text)],
{
    lemma_trimmed_empty(text);
}

/// Every listed endpoint is listed once, the user's own comes first, and the public ones are all
/// there; the list is empty exactly where the user gives none and the chain is unknown.
pub proof fn lemma_endpoint_list(chain: Seq<char>, custom: Option<Seq<char>>)
    ensures
        endpoint_list(chain, custom).no_duplicates(),
        own_endpoint(custom).len() > 0 ==> endpoint_list(chain, custom).len() > 0 && endpoint_list(
            chain,
            custom,
        )[0] == own_endpoint(custom)[0],
        forall|item: Seq<char>| #[trigger]
            endpoint_list(chain, custom).contains(item) <==> own_endpoint(custom).contains(item)
                || public_endpoints(chain).contains(item),
        endpoint_list(chain, custom).len() == 0 <==> own_endpoint(custom).len() == 0
            && public_endpoints(chain).len() == 0,
{
    let own = own_endpoint(custom);
    let public = public_endpoints(chain);
    let list = endpoint_list(chain, custom);
    crate::unique::lemma_added_all(own, public);
    if own.len() > 0 {
        assert(list.take(own.len() as int)[0] == list[0]);
    } else if public.len() > 0 {
        assert(public.contains(public[0]));
        assert(list.contains(public[0]));
    }
}

/// The public endpoints of a chain.
fn public_list(chain: &str) -> (list: Vec<String>)
    ensures
        texts(list@) == public_endpoints(chain@),
{
    let list: Vec<String> = if same_text(chain, "bnb") {
        vec![
            "https://bsc-dataseed.binance.org/".to_owned(),
            "https://bsc-dataseed1.defibit.io/".to_owned(),
            "https://bsc-dataseed1.ninicoin.io/".to_owned(),
            "https://bsc-dataseed2.binance.org/".to_owned(),
            "https://bsc-dataseed3.binance.org/".to_owned(),
            "https://rpc.ankr.com/bsc".to_owned(),
            "https://1rpc.io/bnb".to_owned(),
        ]
    } else if same_text(chain, "ethereum") {
        vec![
            "https://eth.llamarpc.com".to_owned(),
            "https://cloudflare-eth.com".to_owned(),
            "https://rpc.ankr.com/eth".to_owned(),
            "https://1rpc.io/eth".to_owned(),
        ]
    } else if same_text(chain, "polygon") {
        vec![
            "https://polygon-rpc.com".to_owned(),
            "https://rpc.ankr.com/polygon".to_owned(),
            "https://1rpc.io/matic".to_owned(),
        ]
    } else if same_text(chain, "arbitrum") {
        vec![
            "https://arb1.arbitrum.io/rpc".to_owned(),
            "https://rpc.ankr.com/arbitrum".to_owned(),
            "https://1rpc.io/arb".to_owned(),
        ]
    } else if same_text(chain, "base") {
        vec![
            "https://mainnet.base.org".to_owned(),
            "https://base.llamarpc.com".to_owned(),
            "https://1rpc.io/base".to_owned(),
        ]
    } else if same_text(chain, "optimism") {
        vec![
            "https://mainnet.optimism.io".to_owned(),
            "https://optimism.llamarpc.com".to_owned(),
            "https://1rpc.io/op".to_owned(),
        ]
    } else if same_text(chain, "avalanche_c") {
        vec![
            "https://api.avax.network/ext/bc/C/rpc".to_owned(),
            "https://rpc.ankr.com/avalanche".to_owned(),
            "https://1rpc.io/avax/c".to_owned(),
        ]
    } else {
        Vec::new()
    };
    assert(texts(list@) =~= public_endpoints(chain@));
    list
}

/// Tells whether `text` is among `list`.
fn is_listed(list: &Vec<String>, text: &String) -> (found: bool)
    ensures
        found == texts(list@).contains(text@),
{
    let mut i: usize = 0;
    while i < list.len()
        invariant
            i <= list.len(),
            forall|k: int| 0 <= k < i ==> (#[trigger] list@[k])@ != text@,
        decreases list.len() - i,
    {
        if list[i] == *text {
            assert(texts(list@)[i as int] == text@);
            return true;
        }
        i += 1;
    }
    assert forall|k: int| 0 <= k < texts(list@).len() implies texts(list@)[k] != text@ by {
        assert(list@[k]@ != text@);
    }
    false
}

/// The endpoints to try for `chain`, in order; `custom` is the endpoint that the user brings.
pub fn get_rpc_list(chain: &str, custom: Option<String>) -> (list: Vec<String>)
    ensures
        texts(list@) == endpoint_list(chain@, text_of(custom)),
{
    let ghost own: Option<Seq<char>> = text_of(custom);
    let mut list: Vec<String> = Vec::new();
    if let Some(text) = custom {
        let endpoint: String = trim(text.as_str());
        if !endpoint.as_str().is_empty() {
            list.push(endpoint);
        }
    }
    assert(texts(list@) =~= own_endpoint(own));
    let defaults: Vec<String> = public_list(chain);
    let ghost public = texts(defaults@);
    let mut i: usize = 0;
    assert(public.take(0) =~= Seq::<Seq<char>>::empty());
    while i < defaults.len()
        invariant
            i <= defaults.len(),
            public == texts(defaults@),
            texts(list@) == added_all(own_endpoint(own), public.take(i as int)),
        decreases defaults.len() - i,
    {
        let ghost before = texts(list@);
        if !is_listed(&list, &defaults[i]) {
            list.push(defaults[i].clone());
        }
        proof {
            assert(public.take(i + 1).drop_last() =~= public.take(i as int));
            assert(public.take(i + 1).last() == defaults@[i as int]@);
            assert(texts(list@) =~= added(before, defaults@[i as int]@));
        }
        i += 1;
    }
    assert(public.take(i as int) =~= public);
    list
}

/// What is said of a chain without endpoints.
pub fn unsupported_chain(chain: &str) -> (text: String)
    ensures
        text@ == "Unsupported chain: "@ + chain@,
{
    let mut text: String = "Unsupported chain: ".to_owned();
    text.append(chain);
    text
}

} // verus!
