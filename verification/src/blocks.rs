//! Blocks: how they are asked for, and which addresses a reply names.
use crate::json::{json_views, lemma_view_parts, lookup, Json, JsonView};
use crate::number::{decimal, decimal_text, hex_read, hex_text, hex_to_u64, hexadecimal};
use crate::text::{ascii_lowercase, lower_text, texts};
use std::collections::HashSet;
use vstd::prelude::*;
use vstd::string::*;

verus! {

broadcast use vstd::std_specs::hash::group_hash_axioms;

// ---------------------------------------------------------------------------
// Requests
// ---------------------------------------------------------------------------

/// A call of `method` in the JSON-RPC 2.0 protocol.
pub open spec fn rpc_call(method: Seq<char>, params: Seq<JsonView>, id: u64) -> JsonView {
    JsonView::Object(
        seq![
            ("jsonrpc"@, JsonView::Text("2.0"@)),
            ("method"@, JsonView::Text(method)),
            ("params"@, JsonView::Array(params)),
            ("id"@, JsonView::Number(decimal_text(id as nat))),
        ],
    )
}

/// The request for the number of the newest block.
pub open spec fn latest_block_call() -> JsonView {
    rpc_call("eth_blockNumber"@, Seq::empty(), 1)
}

/// The request for one block with its whole transactions, numbered like the block.
pub open spec fn block_call(block: u64) -> JsonView {
    rpc_call(
        "eth_getBlockByNumber"@,
        seq![JsonView::Text(hex_text(block)), JsonView::Bool(true)],
        block,
    )
}

fn rpc_request(method: &str, params: Vec<Json>, id: u64) -> (request: Json)
    ensures
        request@ == rpc_call(method@, json_views(params@), id),
{
    let list: Json = Json::Array(params);
    proof {
        lemma_view_parts(list);
    }
    let mut fields: Vec<(String, Json)> = Vec::new();
    fields.push(("jsonrpc".to_owned(), Json::Text("2.0".to_owned())));
    fields.push(("method".to_owned(), Json::Text(method.to_owned())));
    fields.push(("params".to_owned(), list));
    fields.push(("id".to_owned(), Json::Number(decimal(id))));
    let request: Json = Json::Object(fields);
    proof {
        lemma_view_parts(request);
        assert(request@->Object_0 =~= rpc_call(method@, json_views(params@), id)->Object_0);
    }
    request
}

/// Builds the request for the number of the newest block.
pub fn latest_block_request() -> (request: Json)
    ensures
        request@ == latest_block_call(),
{
    let params: Vec<Json> = Vec::new();
    assert(json_views(params@) =~= Seq::<JsonView>::empty());
    rpc_request("eth_blockNumber", params, 1)
}

/// Builds the request for one block.
pub fn block_request(block: u64) -> (request: Json)
    ensures
        request@ == block_call(block),
{
    let mut params: Vec<Json> = Vec::new();
    params.push(Json::Text(hexadecimal(block)));
    params.push(Json::Bool(true));
    assert(json_views(params@) =~= seq![
        JsonView::Text(hex_text(block)),
        JsonView::Bool(true),
    ]);
    rpc_request("eth_getBlockByNumber", params, block)
}

/// Builds the requests for a batch of blocks, one for each block and in their order.
pub fn batch_request(blocks: &[u64]) -> (requests: Vec<Json>)
    ensures
        json_views(requests@) == blocks@.map_values(|block: u64| block_call(block)),
{
    let mut requests: Vec<Json> = Vec::new();
    let mut i: usize = 0;
    while i < blocks.len()
        invariant
            i <= blocks.len(),
            requests.len() == i,
            forall|k: int| 0 <= k < i ==> (#[trigger] requests@[k])@ == block_call(blocks@[k]),
        decreases blocks.len() - i,
    {
        requests.push(block_request(blocks[i]));
        i += 1;
    }
    assert(json_views(requests@) =~= blocks@.map_values(|block: u64| block_call(block)));
    requests
}

// ---------------------------------------------------------------------------
// Replies
// ---------------------------------------------------------------------------

/// An address, where there is one, in lower case.
pub open spec fn listed(address: Option<Seq<char>>) -> Seq<Seq<char>> {
    match address {
        Some(text) => seq![lower_text(text)],
        None => Seq::empty(),
    }
}

/// The addresses of one transaction: its sender, then its receiver, each where it is a text.
pub open spec fn transaction_addresses(transaction: JsonView) -> Seq<Seq<char>> {
    listed(transaction.get_text("from"@)) + listed(transaction.get_text("to"@))
}

/// The addresses of a list of transactions, in order.
pub open spec fn transactions_addresses(transactions: Seq<JsonView>) -> Seq<Seq<char>>
    decreases transactions.len(),
{
    if transactions.len() == 0 {
        Seq::empty()
    } else {
        transactions_addresses(transactions.drop_last()) + transaction_addresses(transactions.last())
    }
}

/// The addresses of a block: those of its transactions, none where it lists no transactions.
pub open spec fn block_addresses(block: JsonView) -> Seq<Seq<char>> {
    match block.get("transactions"@) {
        Some(list) => match list.as_items() {
            Some(transactions) => transactions_addresses(transactions),
            None => Seq::empty(),
        },
        None => Seq::empty(),
    }
}

/// The block that one reply of a batch carries: nothing where the reply has a member `error`,
/// whatever it is, or where its member `result` is missing or `null`.
pub open spec fn carried_block(reply: JsonView) -> Option<JsonView> {
    if reply.get("error"@) is Some {
        None
    } else {
        match reply.get("result"@) {
            Some(JsonView::Null) => None,
            result => result,
        }
    }
}

/// The number that a block gives itself.
pub open spec fn block_number(block: JsonView) -> Option<u64> {
    match block.get_text("number"@) {
        Some(text) => hex_read(text),
        None => None,
    }
}

/// The numbers of the blocks that the replies of a batch carry.
pub open spec fn received_numbers(replies: Seq<JsonView>) -> Set<u64>
    decreases replies.len(),
{
    if replies.len() == 0 {
        Set::empty()
    } else {
        let before = received_numbers(replies.drop_last());
        match carried_block(replies.last()) {
            Some(block) => match block_number(block) {
                Some(number) => before.insert(number),
                None => before,
            },
            None => before,
        }
    }
}

/// The addresses of the blocks that the replies of a batch carry, in the order of the replies.
pub open spec fn received_addresses(replies: Seq<JsonView>) -> Seq<Seq<char>>
    decreases replies.len(),
{
    if replies.len() == 0 {
        Seq::empty()
    } else {
        let before = received_addresses(replies.drop_last());
        match carried_block(replies.last()) {
            Some(block) => before + block_addresses(block),
            None => before,
        }
    }
}

/// What is said of a batch in which not as many different blocks came as were asked for.
pub open spec fn incomplete_batch(received: nat, expected: nat) -> Seq<char> {
    "incomplete batch: received "@ + decimal_text(received) + " / "@ + decimal_text(expected)
        + " blocks"@
}

/// What the replies of a batch come to: their addresses where as many different block numbers came
/// as blocks were asked for.
pub open spec fn batch_read(replies: Seq<JsonView>, expected: nat) -> Result<
    Seq<Seq<char>>,
    Seq<char>,
> {
    let received = received_numbers(replies).len();
    if received == expected {
        Ok(received_addresses(replies))
    } else {
        Err(incomplete_batch(received, expected))
    }
}

/// Appends the address that `transaction` names under `key`, in lower case.
fn push_address(addresses: &mut Vec<String>, transaction: &Json, key: &str)
    ensures
        texts(final(addresses)@) == texts(old(addresses)@) + listed(transaction@.get_text(key@)),
{
    if let Some(address) = transaction.get_str(key) {
        addresses.push(ascii_lowercase(address));
    }
    assert(texts(addresses@) =~= texts(old(addresses)@) + listed(transaction@.get_text(key@)));
}

/// The addresses of a block: sender and receiver of each of its transactions, in lower case.
pub fn extract_addresses(block: &Json) -> (addresses: Vec<String>)
    ensures
        texts(addresses@) == block_addresses(block@),
{
    let mut addresses: Vec<String> = Vec::new();
    assert(texts(addresses@) =~= Seq::<Seq<char>>::empty());
    let list: &Json = match block.get("transactions") {
        Some(list) => list,
        None => return addresses,
    };
    let transactions: &Vec<Json> = match list.as_array() {
        Some(transactions) => transactions,
        None => return addresses,
    };
    let ghost views = json_views(transactions@);
    let mut i: usize = 0;
    assert(views.take(0) =~= Seq::<JsonView>::empty());
    while i < transactions.len()
        invariant
            i <= transactions.len(),
            views == json_views(transactions@),
            texts(addresses@) == transactions_addresses(views.take(i as int)),
        decreases transactions.len() - i,
    {
        push_address(&mut addresses, &transactions[i], "from");
        push_address(&mut addresses, &transactions[i], "to");
        proof {
            let next = views.take(i + 1);
            assert(next.drop_last() =~= views.take(i as int));
            assert(next.last() == transactions@[i as int]@);
            assert(texts(addresses@) =~= transactions_addresses(next));
        }
        i += 1;
    }
    assert(views.take(i as int) =~= views);
    addresses
}

/// The block that one reply of a batch carries.
fn block_in(reply: &Json) -> (block: Option<&Json>)
    ensures
        match block {
            Some(found) => carried_block(reply@) == Some(found@),
            None => carried_block(reply@) is None,
        },
{
    if reply.get("error").is_some() {
        return None;
    }
    match reply.get("result") {
        Some(result) => {
            if result.is_null() {
                None
            } else {
                Some(result)
            }
        },
        None => None,
    }
}

/// The number that a block gives itself.
fn number_in(block: &Json) -> (number: Option<u64>)
    ensures
        number == block_number(block@),
{
    match block.get_str("number") {
        Some(text) => hex_to_u64(text),
        None => None,
    }
}

/// Reads the replies of a batch that asked for `expected_blocks`.
pub fn parse_batch(response: Vec<Json>, expected_blocks: &[u64]) -> (result: Result<
    Vec<String>,
    String,
>)
    ensures
        match result {
            Ok(addresses) => batch_read(json_views(response@), expected_blocks@.len()) == Ok::<
                Seq<Seq<char>>,
                Seq<char>,
            >(texts(addresses@)),
            Err(error) => batch_read(json_views(response@), expected_blocks@.len()) == Err::<
                Seq<Seq<char>>,
                Seq<char>,
            >(error@),
        },
{
    let ghost views = json_views(response@);
    let mut addresses: Vec<String> = Vec::new();
    let mut received: HashSet<u64> = HashSet::new();
    let mut i: usize = 0;
    assert(views.take(0) =~= Seq::<JsonView>::empty());
    assert(texts(addresses@) =~= Seq::<Seq<char>>::empty());
    while i < response.len()
        invariant
            i <= response.len(),
            views == json_views(response@),
            texts(addresses@) == received_addresses(views.take(i as int)),
            received@ == received_numbers(views.take(i as int)),
        decreases response.len() - i,
    {
        proof {
            assert(views.take(i + 1).drop_last() =~= views.take(i as int));
            assert(views.take(i + 1).last() == response@[i as int]@);
        }
        if let Some(block) = block_in(&response[i]) {
            if let Some(number) = number_in(block) {
                received.insert(number);
            }
            let ghost before = addresses@;
            let mut more: Vec<String> = extract_addresses(block);
            let ghost extra = more@;
            addresses.append(&mut more);
            assert(texts(addresses@) =~= texts(before) + texts(extra));
        }
        i += 1;
    }
    assert(views.take(i as int) =~= views);
    let count: usize = received.len();
    if count != expected_blocks.len() {
        let mut error: String = "incomplete batch: received ".to_owned();
        error.append(decimal(count as u64).as_str());
        error.append(" / ");
        error.append(decimal(expected_blocks.len() as u64).as_str());
        error.append(" blocks");
        return Err(error);
    }
    Ok(addresses)
}

/// Every address that a block yields is in lower case.
pub proof fn lemma_block_addresses_lower(block: JsonView)
    ensures
        forall|i: int|
            0 <= i < block_addresses(block).len() ==> lower_text(#[trigger] block_addresses(block)[i])
                == block_addresses(block)[i],
{
    if block.get("transactions"@) is Some && block.get("transactions"@)->0.as_items() is Some {
        lemma_transactions_addresses(block.get("transactions"@)->0.as_items()->0);
    }
}

/// Each transaction yields at most two addresses, all of them in lower case.
pub proof fn lemma_transactions_addresses(transactions: Seq<JsonView>)
    ensures
        transactions_addresses(transactions).len() <= 2 * transactions.len(),
        forall|i: int|
            0 <= i < transactions_addresses(transactions).len() ==> lower_text(
                #[trigger] transactions_addresses(transactions)[i],
            ) == transactions_addresses(transactions)[i],
    decreases transactions.len(),
{
    if transactions.len() > 0 {
        lemma_transactions_addresses(transactions.drop_last());
        let last = transactions.last();
        if last.get_text("from"@) is Some {
            crate::text::lemma_lower_idempotent(last.get_text("from"@)->0);
        }
        if last.get_text("to"@) is Some {
            crate::text::lemma_lower_idempotent(last.get_text("to"@)->0);
        }
    }
}

/// Every address that the replies of a batch yield is in lower case.
pub proof fn lemma_received_addresses_lower(replies: Seq<JsonView>)
    ensures
        forall|i: int|
            0 <= i < received_addresses(replies).len() ==> lower_text(
                #[trigger] received_addresses(replies)[i],
            ) == received_addresses(replies)[i],
    decreases replies.len(),
{
    if replies.len() > 0 {
        let before = received_addresses(replies.drop_last());
        let all = received_addresses(replies);
        lemma_received_addresses_lower(replies.drop_last());
        if carried_block(replies.last()) is Some {
            let block = carried_block(replies.last())->0;
            lemma_block_addresses_lower(block);
            assert forall|i: int| 0 <= i < all.len() implies lower_text(#[trigger] all[i]) == all[i] by {
                if i < before.len() {
                    assert(all[i] == before[i]);
                } else {
                    assert(all[i] == block_addresses(block)[i - before.len()]);
                }
            }
        }
    }
}

/// A transaction yields its sender and then its receiver, each in lower case and each exactly where
/// the transaction names it with a text, whatever else the transaction holds.
pub proof fn lemma_one_transaction(transaction: JsonView, from: Seq<char>, to: Seq<char>)
    ensures
        ({
            let found = transactions_addresses(seq![transaction]);
            let sends = transaction.get("from"@) == Some(JsonView::Text(from));
            let receives = transaction.get("to"@) == Some(JsonView::Text(to));
            let no_sender = transaction.get("from"@) is None || transaction.get("from"@)->0 !is Text;
            let no_receiver = transaction.get("to"@) is None || transaction.get("to"@)->0 !is Text;
            &&& sends && receives ==> found == seq![lower_text(from), lower_text(to)]
            &&& sends && no_receiver ==> found == seq![lower_text(from)]
            &&& no_sender && receives ==> found == seq![lower_text(to)]
            &&& no_sender && no_receiver ==> found.len() == 0
        }),
{
    let one = seq![transaction];
    let found = transactions_addresses(one);
    reveal_with_fuel(transactions_addresses, 2);
    assert(one.drop_last() =~= Seq::<JsonView>::empty());
    assert(found =~= transaction_addresses(transaction));
    if transaction.get("from"@) == Some(JsonView::Text(from)) && transaction.get("to"@) == Some(
        JsonView::Text(to),
    ) {
        assert(found =~= seq![lower_text(from), lower_text(to)]);
    }
    if transaction.get("from"@) == Some(JsonView::Text(from)) && transaction.get_text("to"@) is None {
        assert(found =~= seq![lower_text(from)]);
    }
    if transaction.get_text("from"@) is None && transaction.get("to"@) == Some(JsonView::Text(to)) {
        assert(found =~= seq![lower_text(to)]);
    }
}

/// Two lists of transactions, joined, yield the addresses of the first and then those of the second; no
/// transactions yield none.
pub proof fn lemma_transactions_joined(a: Seq<JsonView>, b: Seq<JsonView>)
    ensures
        transactions_addresses(Seq::empty()) == Seq::<Seq<char>>::empty(),
        transactions_addresses(a + b) == transactions_addresses(a) + transactions_addresses(b),
    decreases b.len(),
{
    if b.len() == 0 {
        assert(a + b =~= a);
    } else {
        lemma_transactions_joined(a, b.drop_last());
        assert((a + b).drop_last() =~= a + b.drop_last());
        assert((a + b).last() == b.last());
    }
    assert(transactions_addresses(a + b) =~= transactions_addresses(a) + transactions_addresses(b));
}

/// A block yields the addresses of its list of transactions, and none where it has no such list.
pub proof fn lemma_block_addresses(block: JsonView, transactions: Seq<JsonView>)
    ensures
        block.get("transactions"@) == Some(JsonView::Array(transactions)) ==> block_addresses(block)
            == transactions_addresses(transactions),
        block.get("transactions"@) is None || block.get("transactions"@)->0 !is Array
            ==> block_addresses(block).len() == 0,
{
}

/// Every sender and every receiver that a transaction of the block names with a text is among the
/// addresses of the block, in lower case.
pub proof fn lemma_block_addresses_complete(
    block: JsonView,
    transactions: Seq<JsonView>,
    i: int,
    key: Seq<char>,
    address: Seq<char>,
)
    requires
        block.get("transactions"@) == Some(JsonView::Array(transactions)),
        0 <= i < transactions.len(),
        key == "from"@ || key == "to"@,
        transactions[i].get(key) == Some(JsonView::Text(address)),
    ensures
        block_addresses(block).contains(lower_text(address)),
{
    let front = transactions.take(i);
    let one = seq![transactions[i]];
    let back = transactions.skip(i + 1);
    assert(transactions =~= front + one + back);
    lemma_transactions_joined(front + one, back);
    lemma_transactions_joined(front, one);
    reveal_with_fuel(transactions_addresses, 2);
    assert(one.drop_last() =~= Seq::<JsonView>::empty());
    let found = transaction_addresses(transactions[i]);
    assert(transactions_addresses(one) =~= found);
    let senders = listed(transactions[i].get_text("from"@));
    if key == "from"@ {
        assert(found[0] == lower_text(address));
    } else {
        assert(found[senders.len() as int] == lower_text(address));
    }
    let k = choose|k: int| 0 <= k < found.len() && found[k] == lower_text(address);
    assert(block_addresses(block)[transactions_addresses(front).len() + k] == lower_text(address));
}

/// Every address of a block is the lower-case form of the sender or of the receiver that one of its
/// transactions names.
pub proof fn lemma_block_addresses_sound(block: JsonView, address: Seq<char>)
    requires
        block_addresses(block).contains(address),
    ensures
        block.get("transactions"@) is Some,
        block.get("transactions"@)->0 is Array,
        ({
            let transactions = block.get("transactions"@)->0->Array_0;
            exists|i: int, text: Seq<char>|
                #![trigger transactions[i], lower_text(text)]
                0 <= i < transactions.len() && address == lower_text(text) && (
                transactions[i].get("from"@) == Some(JsonView::Text(text)) || transactions[i].get(
                    "to"@,
                ) == Some(JsonView::Text(text)))
        }),
{
    lemma_transactions_sound(block.get("transactions"@)->0->Array_0, address);
}

proof fn lemma_transactions_sound(transactions: Seq<JsonView>, address: Seq<char>)
    requires
        transactions_addresses(transactions).contains(address),
    ensures
        exists|i: int, text: Seq<char>|
            #![trigger transactions[i], lower_text(text)]
            0 <= i < transactions.len() && address == lower_text(text) && (transactions[i].get(
                "from"@,
            ) == Some(JsonView::Text(text)) || transactions[i].get("to"@) == Some(
                JsonView::Text(text),
            )),
    decreases transactions.len(),
{
    let all = transactions_addresses(transactions);
    let k = choose|k: int| 0 <= k < all.len() && all[k] == address;
    let front = transactions.drop_last();
    let before = transactions_addresses(front);
    let last = transactions.last();
    if k < before.len() {
        assert(before[k] == address);
        lemma_transactions_sound(front, address);
        let (i, text) = choose|i: int, text: Seq<char>|
            #![trigger front[i], lower_text(text)]
            0 <= i < front.len() && address == lower_text(text) && (front[i].get("from"@) == Some(
                JsonView::Text(text),
            ) || front[i].get("to"@) == Some(JsonView::Text(text)));
        assert(transactions[i] == front[i]);
        assert(address == lower_text(text));
    } else {
        let found = transaction_addresses(last);
        assert(found[k - before.len()] == address);
        assert(transactions[transactions.len() - 1] == last);
        if last.get_text("from"@) is Some {
            let text = last.get_text("from"@)->0;
            assert(last.get("from"@) == Some(JsonView::Text(text)));
            assert(found[0] == lower_text(text));
        }
        if last.get_text("to"@) is Some {
            let text = last.get_text("to"@)->0;
            assert(last.get("to"@) == Some(JsonView::Text(text)));
            assert(found[found.len() - 1] == lower_text(text));
        }
    }
}

/// A reply of a batch carries a block exactly where it has no member `error` and a member `result` that
/// is not `null`; the block gives itself a number exactly where its member `number` is a hexadecimal
/// text.
pub proof fn lemma_carried_block(reply: JsonView, block: JsonView, number: u64)
    ensures
        carried_block(reply) == Some(block) <==> reply.get("error"@) is None && reply.get("result"@)
            == Some(block) && block != JsonView::Null,
        carried_block(reply) is None <==> reply.get("error"@) is Some || reply.get("result"@) is None
            || reply.get("result"@) == Some(JsonView::Null),
        block_number(block) == Some(number) <==> block.get("number"@) is Some && block.get(
            "number"@,
        )->0 is Text && hex_read(block.get("number"@)->0->Text_0) == Some(number),
{
}

/// The addresses that replies yield are, reply after reply, those of the block that each carries: joined
/// lists of replies yield the addresses of the first and then those of the second, a reply that carries
/// a block yields the addresses of that block, and any other reply yields none.
pub proof fn lemma_received_joined(a: Seq<JsonView>, b: Seq<JsonView>, reply: JsonView)
    ensures
        received_addresses(Seq::empty()) == Seq::<Seq<char>>::empty(),
        received_addresses(a + b) == received_addresses(a) + received_addresses(b),
        reply.get("error"@) is None && reply.get("result"@) is Some && reply.get("result"@)->0
            != JsonView::Null ==> received_addresses(seq![reply]) == block_addresses(
            reply.get("result"@)->0,
        ),
        reply.get("error"@) is Some || reply.get("result"@) is None || reply.get("result"@)->0
            == JsonView::Null ==> received_addresses(seq![reply]).len() == 0,
    decreases b.len(),
{
    if b.len() == 0 {
        assert(a + b =~= a);
    } else {
        lemma_received_joined(a, b.drop_last(), reply);
        assert((a + b).drop_last() =~= a + b.drop_last());
        assert((a + b).last() == b.last());
    }
    assert(received_addresses(a + b) =~= received_addresses(a) + received_addresses(b));
    let one = seq![reply];
    reveal_with_fuel(received_addresses, 2);
    assert(one.drop_last() =~= Seq::<JsonView>::empty());
    if carried_block(reply) is Some {
        assert(received_addresses(one) =~= block_addresses(carried_block(reply)->0));
    }
}

/// An accepted batch leaves out no address: those of the block that any of the replies carries are all
/// there, as they stand in that block.
pub proof fn lemma_accepted_batch_complete(
    replies: Seq<JsonView>,
    expected: nat,
    i: int,
    address: Seq<char>,
)
    requires
        batch_read(replies, expected) is Ok,
        0 <= i < replies.len(),
        replies[i].get("error"@) is None,
        replies[i].get("result"@) is Some,
        replies[i].get("result"@)->0 != JsonView::Null,
        block_addresses(replies[i].get("result"@)->0).contains(address),
    ensures
        batch_read(replies, expected)->Ok_0.contains(address),
        batch_read(replies, expected)->Ok_0 == received_addresses(replies.take(i)) + block_addresses(
            replies[i].get("result"@)->0,
        ) + received_addresses(replies.skip(i + 1)),
{
    let front = replies.take(i);
    let one = seq![replies[i]];
    let back = replies.skip(i + 1);
    assert(replies =~= front + one + back);
    lemma_received_joined(front + one, back, replies[i]);
    lemma_received_joined(front, one, replies[i]);
    let block = replies[i].get("result"@)->0;
    let k = choose|k: int| 0 <= k < block_addresses(block).len() && block_addresses(block)[k] == address;
    assert(batch_read(replies, expected)->Ok_0[received_addresses(front).len() + k] == address);
}

/// Every address of an accepted batch is one of the block that one of the replies carries.
pub proof fn lemma_accepted_batch_sound(replies: Seq<JsonView>, expected: nat, address: Seq<char>)
    requires
        batch_read(replies, expected) is Ok,
        batch_read(replies, expected)->Ok_0.contains(address),
    ensures
        exists|i: int|
            #![trigger replies[i]]
            0 <= i < replies.len() && replies[i].get("error"@) is None && replies[i].get("result"@) is Some
                && replies[i].get("result"@)->0 != JsonView::Null && block_addresses(
                replies[i].get("result"@)->0,
            ).contains(address),
{
    lemma_received_sound(replies, address);
}

proof fn lemma_received_sound(replies: Seq<JsonView>, address: Seq<char>)
    requires
        received_addresses(replies).contains(address),
    ensures
        exists|i: int|
            #![trigger replies[i]]
            0 <= i < replies.len() && replies[i].get("error"@) is None && replies[i].get("result"@) is Some
                && replies[i].get("result"@)->0 != JsonView::Null && block_addresses(
                replies[i].get("result"@)->0,
            ).contains(address),
    decreases replies.len(),
{
    let all = received_addresses(replies);
    let k = choose|k: int| 0 <= k < all.len() && all[k] == address;
    let front = replies.drop_last();
    let before = received_addresses(front);
    if k < before.len() {
        assert(before[k] == address);
        lemma_received_sound(front, address);
        let i = choose|i: int|
            #![trigger front[i]]
            0 <= i < front.len() && front[i].get("error"@) is None && front[i].get("result"@) is Some
                && front[i].get("result"@)->0 != JsonView::Null && block_addresses(
                front[i].get("result"@)->0,
            ).contains(address);
        assert(replies[i] == front[i]);
    } else {
        let block = carried_block(replies.last())->0;
        assert(block_addresses(block)[k - before.len()] == address);
        assert(replies[replies.len() - 1] == replies.last());
    }
}

/// A batch is accepted exactly where the blocks that its replies carry give themselves as many different
/// numbers as blocks were asked for; else the two counts are reported.
pub proof fn lemma_batch_decided(replies: Seq<JsonView>, expected: nat, numbers: Set<u64>)
    requires
        forall|number: u64| #[trigger]
            numbers.contains(number) <==> exists|i: int|
                #![trigger replies[i]]
                0 <= i < replies.len() && replies[i].get("error"@) is None && replies[i].get(
                    "result"@,
                ) is Some && replies[i].get("result"@)->0 != JsonView::Null && replies[i].get(
                    "result"@,
                )->0.get("number"@) is Some && replies[i].get("result"@)->0.get("number"@)->0 is Text
                    && hex_read(replies[i].get("result"@)->0.get("number"@)->0->Text_0) == Some(number),
    ensures
        batch_read(replies, expected) is Ok <==> numbers.len() == expected,
        numbers.len() != expected ==> batch_read(replies, expected) == Err::<
            Seq<Seq<char>>,
            Seq<char>,
        >(
            "incomplete batch: received "@ + decimal_text(numbers.len()) + " / "@ + decimal_text(
                expected,
            ) + " blocks"@,
        ),
{
    assert forall|number: u64| received_numbers(replies).contains(number) <==> #[trigger]
        numbers.contains(number) by {
        lemma_received_number(replies, number);
        if numbers.contains(number) {
            let i = choose|i: int|
                #![trigger replies[i]]
                0 <= i < replies.len() && replies[i].get("error"@) is None && replies[i].get(
                    "result"@,
                ) is Some && replies[i].get("result"@)->0 != JsonView::Null && replies[i].get(
                    "result"@,
                )->0.get("number"@) is Some && replies[i].get("result"@)->0.get("number"@)->0 is Text
                    && hex_read(replies[i].get("result"@)->0.get("number"@)->0->Text_0) == Some(number);
            assert(carries_number(replies[i], number));
        }
        if received_numbers(replies).contains(number) {
            let i = choose|i: int|
                0 <= i < replies.len() && carries_number(#[trigger] replies[i], number);
            assert(carries_number(replies[i], number));
        }
    }
    assert(received_numbers(replies) =~= numbers);
}

/// The reply carries a block that gives itself the number.
spec fn carries_number(reply: JsonView, number: u64) -> bool {
    &&& reply.get("error"@) is None
    &&& reply.get("result"@) is Some
    &&& reply.get("result"@)->0 != JsonView::Null
    &&& reply.get("result"@)->0.get("number"@) is Some
    &&& reply.get("result"@)->0.get("number"@)->0 is Text
    &&& hex_read(reply.get("result"@)->0.get("number"@)->0->Text_0) == Some(number)
}

proof fn lemma_received_number(replies: Seq<JsonView>, number: u64)
    ensures
        received_numbers(replies).contains(number) <==> exists|i: int|
            0 <= i < replies.len() && carries_number(#[trigger] replies[i], number),
    decreases replies.len(),
{
    if replies.len() > 0 {
        let front = replies.drop_last();
        lemma_received_number(front, number);
        assert(replies[replies.len() - 1] == replies.last());
        if received_numbers(front).contains(number) {
            let i = choose|i: int| 0 <= i < front.len() && carries_number(#[trigger] front[i], number);
            assert(carries_number(replies[i], number));
        }
        if exists|i: int| 0 <= i < replies.len() && carries_number(#[trigger] replies[i], number) {
            let i = choose|i: int|
                0 <= i < replies.len() && carries_number(#[trigger] replies[i], number);
            if i < front.len() {
                assert(carries_number(front[i], number));
            }
        }
        if received_numbers(replies).contains(number) && !received_numbers(front).contains(number) {
            assert(carries_number(replies.last(), number));
        }
    }
}

/// A request has four members and no other: the version of the protocol, the method, the parameters and
/// the number of the request. The newest block is asked for without parameters and as request one; a
/// block by its hexadecimal number, with its whole transactions, and under its own number.
pub proof fn lemma_calls(block: u64)
    ensures
        latest_block_call() is Object,
        latest_block_call()->Object_0.len() == 4,
        latest_block_call().get("jsonrpc"@) == Some(JsonView::Text("2.0"@)),
        latest_block_call().get("method"@) == Some(JsonView::Text("eth_blockNumber"@)),
        latest_block_call().get("params"@) == Some(JsonView::Array(Seq::empty())),
        latest_block_call().get("id"@) == Some(JsonView::Number(decimal_text(1))),
        block_call(block) is Object,
        block_call(block)->Object_0.len() == 4,
        block_call(block).get("jsonrpc"@) == Some(JsonView::Text("2.0"@)),
        block_call(block).get("method"@) == Some(JsonView::Text("eth_getBlockByNumber"@)),
        block_call(block).get("params"@) == Some(
            JsonView::Array(seq![JsonView::Text(hex_text(block)), JsonView::Bool(true)]),
        ),
        block_call(block).get("id"@) == Some(JsonView::Number(decimal_text(block as nat))),
{
    lemma_call_members("eth_blockNumber"@, Seq::empty(), 1);
    lemma_call_members(
        "eth_getBlockByNumber"@,
        seq![JsonView::Text(hex_text(block)), JsonView::Bool(true)],
        block,
    );
}

proof fn lemma_call_members(method: Seq<char>, params: Seq<JsonView>, id: u64)
    ensures
        ({
            let call = rpc_call(method, params, id);
            &&& call.get("jsonrpc"@) == Some(JsonView::Text("2.0"@))
            &&& call.get("method"@) == Some(JsonView::Text(method))
            &&& call.get("params"@) == Some(JsonView::Array(params))
            &&& call.get("id"@) == Some(JsonView::Number(decimal_text(id as nat)))
        }),
{
    reveal_strlit("jsonrpc");
    reveal_strlit("method");
    reveal_strlit("params");
    reveal_strlit("id");
    let call = rpc_call(method, params, id);
    let fields = call->Object_0;
    assert("jsonrpc"@.len() == 7 && "method"@.len() == 6 && "params"@.len() == 6 && "id"@.len() == 2);
    assert("method"@[0] != "params"@[0]);
    assert forall|i: int, j: int| 0 <= i < j < fields.len() implies (#[trigger] fields[i]).0 != (
    #[trigger] fields[j]).0 by {}
    assert(fields.contains(fields[0]));
    assert(fields.contains(fields[1]));
    assert(fields.contains(fields[2]));
    assert(fields.contains(fields[3]));
    crate::json::lemma_lookup_by_membership(fields, "jsonrpc"@, fields[0].1);
    crate::json::lemma_lookup_by_membership(fields, "method"@, fields[1].1);
    crate::json::lemma_lookup_by_membership(fields, "params"@, fields[2].1);
    crate::json::lemma_lookup_by_membership(fields, "id"@, fields[3].1);
}

/// The request for a block names the block: its first parameter reads back as the block's number,
/// and no two blocks have the same request.
pub proof fn lemma_block_call_names_block(a: u64, b: u64)
    ensures
        block_call(a).get("params"@) is Some,
        block_call(a).get("params"@)->0.as_items() is Some,
        block_call(a).get("params"@)->0.as_items()->0.len() == 2,
        block_call(a).get("params"@)->0.as_items()->0[0].as_text() is Some,
        hex_read(block_call(a).get("params"@)->0.as_items()->0[0].as_text()->0) == Some(a),
        block_call(a) == block_call(b) ==> a == b,
{
    reveal_strlit("jsonrpc");
    reveal_strlit("method");
    reveal_strlit("params");
    crate::number::lemma_hex_round_trip(a);
    let fields = block_call(a)->Object_0;
    assert("jsonrpc"@.len() != "params"@.len());
    assert("method"@[0] != "params"@[0]);
    assert(fields.skip(1)[0] == fields[1]);
    assert(fields.skip(1).skip(1)[0] == fields[2]);
    assert(lookup(fields, "params"@) == lookup(fields.skip(1), "params"@));
    assert(lookup(fields.skip(1), "params"@) == lookup(fields.skip(1).skip(1), "params"@));
    assert(lookup(fields.skip(1).skip(1), "params"@) == Some(fields[2].1));
    if block_call(a) == block_call(b) {
        let other = block_call(b)->Object_0;
        assert(fields[3] == other[3]);
        crate::number::lemma_decimal_injective(a, b);
    }
}

/// An accepted batch carries at least as many blocks as were asked for.
pub proof fn lemma_accepted_batch_carries(replies: Seq<JsonView>, expected: nat)
    requires
        batch_read(replies, expected) is Ok,
    ensures
        replies.filter(|reply: JsonView| carried_block(reply) is Some).len() >= expected,
{
    lemma_received_at_most(replies);
}

proof fn lemma_received_at_most(replies: Seq<JsonView>)
    ensures
        received_numbers(replies).finite(),
        received_numbers(replies).len() <= replies.filter(
            |reply: JsonView| carried_block(reply) is Some,
        ).len(),
    decreases replies.len(),
{
    reveal(Seq::filter);
    if replies.len() > 0 {
        lemma_received_at_most(replies.drop_last());
    }
}

} // verus!
