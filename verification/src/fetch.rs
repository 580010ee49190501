//! What the endpoints' replies come to, and what is done next.
use crate::blocks::{
    batch_read, block_addresses, extract_addresses, parse_batch, received_addresses,
    received_numbers,
};
use crate::failover::{
    lemma_done_is_first_success, lemma_first_success_wins, run_result, step_after_failure, Failover, FailoverView, RunResult,
    Step, MAX_RETRIES,
};
use crate::json::{json_views, parse_json, parse_json_list, parsed_json, parsed_json_list, Json, JsonView};
use crate::number::{decimal, decimal_text, hex_read, hex_to_u64};
use crate::text::{is_blank, is_white_space, lemma_trimmed_empty, texts, trimmed};
use vstd::prelude::*;
use vstd::string::*;

verus! {

/// How an exchange with an endpoint ended. The errors of the connection and the status come as the
/// words that describe them.
#[derive(Debug, PartialEq, Eq)]
pub enum HttpReply {
    /// The request could not be sent, or nothing came back.
    SendFailed(String),
    /// The endpoint answered with a status other than success.
    Refused(String),
    /// The body of the answer could not be read.
    ReadFailed(String),
    /// The body of a successful answer.
    Body(String),
}

/// A list of addresses, or an error in words.
pub type Addresses = Result<Vec<String>, String>;

/// What such a result says.
pub open spec fn addresses_view(result: Addresses) -> Result<Seq<Seq<char>>, Seq<char>> {
    match result {
        Ok(list) => Ok(texts(list@)),
        Err(error) => Err(error@),
    }
}

/// What the result of reading a document says.
pub open spec fn answer_view(answer: Result<Json, String>) -> Result<JsonView, Seq<char>> {
    match answer {
        Ok(json) => Ok(json@),
        Err(error) => Err(error@),
    }
}

/// What the result of reading a list of documents says.
pub open spec fn answers_view(answers: Result<Vec<Json>, String>) -> Result<
    Seq<JsonView>,
    Seq<char>,
> {
    match answers {
        Ok(list) => Ok(json_views(list@)),
        Err(error) => Err(error@),
    }
}

/// What the result of asking for a number says.
pub open spec fn number_view(result: Result<u64, String>) -> Result<u64, Seq<char>> {
    match result {
        Ok(number) => Ok(number),
        Err(error) => Err(error@),
    }
}

/// Tells whether an HTTP status means success.
pub fn is_success(status: u16) -> (success: bool)
    ensures
        success == (200 <= status < 300),
{
    200 <= status && status < 300
}

/// `words` in front of `detail`.
fn labelled(words: &str, detail: &str) -> (text: String)
    ensures
        text@ == words@ + detail@,
{
    let mut text: String = words.to_owned();
    text.append(detail);
    text
}

// ---------------------------------------------------------------------------
// Reading a reply
// ---------------------------------------------------------------------------

/// The document that the reply to a single call brings.
pub open spec fn rpc_answer(reply: HttpReply) -> Result<JsonView, Seq<char>> {
    match reply {
        HttpReply::SendFailed(error) => Err("request error: "@ + error@),
        HttpReply::Refused(status) => Err("HTTP status "@ + status@),
        HttpReply::ReadFailed(error) => Err("response read error: "@ + error@),
        HttpReply::Body(body) => if trimmed(body@).len() == 0 {
            Err("empty response"@)
        } else {
            match parsed_json(body@) {
                Ok(json) => Ok(json),
                Err(error) => Err("invalid JSON: "@ + error),
            }
        },
    }
}

/// The documents that the reply to a batch of calls brings.
pub open spec fn batch_answer(reply: HttpReply) -> Result<Seq<JsonView>, Seq<char>> {
    match reply {
        HttpReply::SendFailed(error) => Err("request error: "@ + error@),
        HttpReply::Refused(status) => Err("HTTP "@ + status@),
        HttpReply::ReadFailed(error) => Err("read error: "@ + error@),
        HttpReply::Body(body) => match parsed_json_list(body@) {
            Ok(list) => Ok(list),
            Err(error) => Err("invalid JSON: "@ + error),
        },
    }
}

/// A single call is answered exactly where a body came that is not blank and is one document, and then
/// with that document; each other reply is an error, in words that say at which point it failed.
pub proof fn lemma_rpc_answer(reply: HttpReply)
    ensures
        match reply {
            HttpReply::SendFailed(error) => rpc_answer(reply) == Err::<JsonView, Seq<char>>(
                "request error: "@ + error@,
            ),
            HttpReply::Refused(status) => rpc_answer(reply) == Err::<JsonView, Seq<char>>(
                "HTTP status "@ + status@,
            ),
            HttpReply::ReadFailed(error) => rpc_answer(reply) == Err::<JsonView, Seq<char>>(
                "response read error: "@ + error@,
            ),
            HttpReply::Body(body) => {
                let blank = forall|i: int| 0 <= i < body@.len() ==> is_white_space(#[trigger] body@[i]);
                &&& blank ==> rpc_answer(reply) == Err::<JsonView, Seq<char>>("empty response"@)
                &&& !blank && parsed_json(body@) is Ok ==> rpc_answer(reply) == parsed_json(body@)
                &&& !blank && parsed_json(body@) is Err ==> rpc_answer(reply) == Err::<
                    JsonView,
                    Seq<char>,
                >("invalid JSON: "@ + parsed_json(body@)->Err_0)
            },
        },
{
    if let HttpReply::Body(body) = reply {
        lemma_trimmed_empty(body@);
    }
}

/// A batch is answered exactly where a body came that is one array of documents, and then with these
/// documents; each other reply is an error, in words that say at which point it failed.
pub proof fn lemma_batch_answer(reply: HttpReply)
    ensures
        match reply {
            HttpReply::SendFailed(error) => batch_answer(reply) == Err::<Seq<JsonView>, Seq<char>>(
                "request error: "@ + error@,
            ),
            HttpReply::Refused(status) => batch_answer(reply) == Err::<Seq<JsonView>, Seq<char>>(
                "HTTP "@ + status@,
            ),
            HttpReply::ReadFailed(error) => batch_answer(reply) == Err::<Seq<JsonView>, Seq<char>>(
                "read error: "@ + error@,
            ),
            HttpReply::Body(body) => {
                &&& parsed_json_list(body@) is Ok ==> batch_answer(reply) == parsed_json_list(body@)
                &&& parsed_json_list(body@) is Err ==> batch_answer(reply) == Err::<
                    Seq<JsonView>,
                    Seq<char>,
                >("invalid JSON: "@ + parsed_json_list(body@)->Err_0)
            },
        },
{
}

/// A result says success exactly where it is one, and then what it holds; else its words.
pub proof fn lemma_result_views(
    addresses: Addresses,
    answer: Result<Json, String>,
    answers: Result<Vec<Json>, String>,
    number: Result<u64, String>,
)
    ensures
        addresses matches Ok(list) ==> addresses_view(addresses) == Ok::<Seq<Seq<char>>, Seq<char>>(
            texts(list@),
        ),
        addresses matches Err(error) ==> addresses_view(addresses) == Err::<
            Seq<Seq<char>>,
            Seq<char>,
        >(error@),
        answer matches Ok(json) ==> answer_view(answer) == Ok::<JsonView, Seq<char>>(json@),
        answer matches Err(error) ==> answer_view(answer) == Err::<JsonView, Seq<char>>(error@),
        answers matches Ok(list) ==> answers_view(answers) == Ok::<Seq<JsonView>, Seq<char>>(
            json_views(list@),
        ),
        answers matches Err(error) ==> answers_view(answers) == Err::<Seq<JsonView>, Seq<char>>(
            error@,
        ),
        number matches Ok(n) ==> number_view(number) == Ok::<u64, Seq<char>>(n),
        number matches Err(error) ==> number_view(number) == Err::<u64, Seq<char>>(error@),
{
}

/// Reads the reply to a single call.
pub fn read_rpc_reply(reply: HttpReply) -> (answer: Result<Json, String>)
    ensures
        answer_view(answer) == rpc_answer(reply),
        answer matches Ok(json) ==> json@.well_formed(),
{
    match reply {
        HttpReply::SendFailed(error) => Err(labelled("request error: ", error.as_str())),
        HttpReply::Refused(status) => Err(labelled("HTTP status ", status.as_str())),
        HttpReply::ReadFailed(error) => Err(labelled("response read error: ", error.as_str())),
        HttpReply::Body(body) => {
            if is_blank(body.as_str()) {
                return Err("empty response".to_owned());
            }
            match parse_json(body.as_str()) {
                Ok(json) => Ok(json),
                Err(error) => Err(labelled("invalid JSON: ", error.as_str())),
            }
        },
    }
}

/// Reads the reply to a batch of calls.
pub fn read_batch_reply(reply: HttpReply) -> (answers: Result<Vec<Json>, String>)
    ensures
        answers_view(answers) == batch_answer(reply),
        answers matches Ok(list) ==> forall|i: int|
            0 <= i < list.len() ==> (#[trigger] list@[i])@.well_formed(),
{
    match reply {
        HttpReply::SendFailed(error) => Err(labelled("request error: ", error.as_str())),
        HttpReply::Refused(status) => Err(labelled("HTTP ", status.as_str())),
        HttpReply::ReadFailed(error) => Err(labelled("read error: ", error.as_str())),
        HttpReply::Body(body) => match parse_json_list(body.as_str()) {
            Ok(list) => Ok(list),
            Err(error) => Err(labelled("invalid JSON: ", error.as_str())),
        },
    }
}

// ---------------------------------------------------------------------------
// The newest block
// ---------------------------------------------------------------------------

/// The number that an answer of endpoint `rpc` gives for the newest block.
pub open spec fn latest_block(rpc: Seq<char>, answer: Result<JsonView, Seq<char>>) -> Result<
    u64,
    Seq<char>,
> {
    match answer {
        Ok(json) => match json.get_text("result"@) {
            Some(text) => match hex_read(text) {
                Some(number) => Ok(number),
                None => Err(rpc + " returned invalid block number"@),
            },
            None => Err(rpc + " returned invalid block number"@),
        },
        Err(error) => Err(rpc + " -> "@ + error),
    }
}

/// Reads the number of the newest block out of an answer of endpoint `rpc`.
pub fn latest_block_in(rpc: &str, answer: Result<Json, String>) -> (result: Result<u64, String>)
    ensures
        number_view(result) == latest_block(rpc@, answer_view(answer)),
{
    match answer {
        Ok(json) => {
            if let Some(text) = json.get_str("result") {
                if let Some(number) = hex_to_u64(text) {
                    return Ok(number);
                }
            }
            Err(labelled(rpc, " returned invalid block number"))
        },
        Err(error) => Err(labelled(labelled(rpc, " -> ").as_str(), error.as_str())),
    }
}

/// An answer tells the newest block exactly where it is a document whose member `result` is a
/// hexadecimal text, whatever other members it has; else the error names the endpoint, and why an
/// answer that never came did not.
pub proof fn lemma_latest_block_decided(
    rpc: Seq<char>,
    answer: Result<JsonView, Seq<char>>,
    number: u64,
)
    ensures
        latest_block(rpc, answer) == Ok::<u64, Seq<char>>(number) <==> answer is Ok
            && answer->Ok_0.get("result"@) is Some && answer->Ok_0.get("result"@)->0 is Text
            && hex_read(answer->Ok_0.get("result"@)->0->Text_0) == Some(number),
        latest_block(rpc, answer) is Err <==> answer is Err || answer->Ok_0.get("result"@) is None
            || answer->Ok_0.get("result"@)->0 !is Text || hex_read(
            answer->Ok_0.get("result"@)->0->Text_0,
        ) is None,
        answer is Err ==> latest_block(rpc, answer) == Err::<u64, Seq<char>>(
            rpc + " -> "@ + answer->Err_0,
        ),
        answer is Ok && latest_block(rpc, answer) is Err ==> latest_block(rpc, answer) == Err::<
            u64,
            Seq<char>,
        >(rpc + " returned invalid block number"@),
{
}

/// Takes in the reply of endpoint `rpc` to the question for the newest block.
pub fn get_latest_block_step(run: &mut Failover, rpc: &str, reply: HttpReply) -> (step: Step<u64>)
    requires
        old(run)@.well_formed(),
        !old(run)@.exhausted(),
    ensures
        final(run)@.well_formed(),
        match latest_block(rpc@, rpc_answer(reply)) {
            Ok(number) => step == Step::Done(number) && final(run)@ == old(run)@,
            Err(error) => {
                &&& final(run)@ == old(run)@.failed(error)
                &&& step == step_after_failure::<u64>(old(run)@)
            },
        },
{
    run.advance(latest_block_in(rpc, read_rpc_reply(reply)))
}

/// What is said where no endpoint tells the newest block.
pub fn get_latest_block_failure(last_error: &str) -> (text: String)
    ensures
        text@ == "All RPCs failed: "@ + last_error@,
{
    labelled("All RPCs failed: ", last_error)
}

/// What the replies to the question for the newest block come to, each for itself: every endpoint is
/// asked `MAX_RETRIES` times before the next one is.
pub open spec fn latest_block_outcomes(rpcs: Seq<Seq<char>>, replies: Seq<HttpReply>) -> Seq<
    Result<u64, Seq<char>>,
> {
    Seq::new(
        replies.len(),
        |i: int| latest_block(rpcs[i / MAX_RETRIES as int], rpc_answer(replies[i])),
    )
}

/// Endpoints that answer find the newest block: the first reply whose member `result` is a hexadecimal
/// text, of those that the endpoints may send, settles it.
pub proof fn lemma_latest_block_found(
    rpcs: Seq<Seq<char>>,
    replies: Seq<HttpReply>,
    k: int,
    text: Seq<char>,
    number: u64,
)
    requires
        0 <= k < replies.len(),
        k < rpcs.len() * MAX_RETRIES,
        forall|i: int|
            0 <= i < k ==> rpc_answer(#[trigger] replies[i]) is Err || rpc_answer(
                replies[i],
            )->Ok_0.get_text("result"@) is None || hex_read(
                rpc_answer(replies[i])->Ok_0.get_text("result"@)->0,
            ) is None,
        rpc_answer(replies[k]) is Ok,
        rpc_answer(replies[k])->Ok_0.get("result"@) == Some(JsonView::Text(text)),
        hex_read(text) == Some(number),
    ensures
        run_result(FailoverView::start(rpcs.len()), latest_block_outcomes(rpcs, replies))
            == RunResult::Done(number),
{
    let outcomes = latest_block_outcomes(rpcs, replies);
    assert forall|i: int| 0 <= i < k implies (#[trigger] outcomes[i]) is Err by {
        assert(rpc_answer(replies[i]) is Err || rpc_answer(replies[i])->Ok_0.get_text("result"@) is None
            || hex_read(rpc_answer(replies[i])->Ok_0.get_text("result"@)->0) is None);
    }
    lemma_first_success_wins(rpcs.len(), outcomes, k, number);
}

/// The number that the endpoints yield for the newest block stands in one of their replies, as the
/// hexadecimal text of its member `result`.
pub proof fn lemma_latest_block_was_replied(
    rpcs: Seq<Seq<char>>,
    replies: Seq<HttpReply>,
    number: u64,
) -> (k: int)
    requires
        run_result(FailoverView::start(rpcs.len()), latest_block_outcomes(rpcs, replies))
            == RunResult::Done(number),
    ensures
        0 <= k < replies.len(),
        k < rpcs.len() * MAX_RETRIES,
        rpc_answer(replies[k]) is Ok,
        rpc_answer(replies[k])->Ok_0.get_text("result"@) is Some,
        hex_read(rpc_answer(replies[k])->Ok_0.get_text("result"@)->0) == Some(number),
{
    lemma_done_is_first_success(rpcs.len(), latest_block_outcomes(rpcs, replies), number)
}

// ---------------------------------------------------------------------------
// A batch of blocks
// ---------------------------------------------------------------------------

/// The addresses that the answers to a batch of `expected` calls give.
pub open spec fn batch_addresses(answers: Result<Seq<JsonView>, Seq<char>>, expected: nat) -> Result<
    Seq<Seq<char>>,
    Seq<char>,
> {
    match answers {
        Ok(list) => batch_read(list, expected),
        Err(error) => Err(error),
    }
}

/// The answers to a batch give the addresses of all the blocks that they carry, exactly where these
/// give themselves as many different numbers as blocks were asked for; an answer that failed is handed
/// on.
pub proof fn lemma_batch_addresses_decided(
    answers: Result<Seq<JsonView>, Seq<char>>,
    expected: nat,
    addresses: Seq<Seq<char>>,
)
    ensures
        batch_addresses(answers, expected) == Ok::<Seq<Seq<char>>, Seq<char>>(addresses)
            <==> answers is Ok && received_numbers(answers->Ok_0).len() == expected && addresses
            == received_addresses(answers->Ok_0),
        answers is Err ==> batch_addresses(answers, expected) == Err::<Seq<Seq<char>>, Seq<char>>(
            answers->Err_0,
        ),
{
}

/// Reads the addresses out of the answers to a batch of calls.
pub fn batch_addresses_in(answers: Result<Vec<Json>, String>, blocks: &[u64]) -> (result: Addresses)
    ensures
        addresses_view(result) == batch_addresses(answers_view(answers), blocks@.len()),
{
    match answers {
        Ok(list) => parse_batch(list, blocks),
        Err(error) => Err(error),
    }
}

/// What a run does with an outcome that is a list of addresses.
pub open spec fn addresses_step(
    before: FailoverView,
    outcome: Result<Seq<Seq<char>>, Seq<char>>,
    after: FailoverView,
    step: Step<Vec<String>>,
) -> bool {
    match outcome {
        Ok(addresses) => {
            &&& step is Done
            &&& texts(step->Done_0@) == addresses
            &&& after == before
        },
        Err(error) => {
            &&& after == before.failed(error)
            &&& step == step_after_failure::<Vec<String>>(before)
        },
    }
}

/// A step with a list of addresses is over exactly where the list came, and hands out that list; an error
/// is one more failed try.
pub proof fn lemma_addresses_step(
    before: FailoverView,
    outcome: Result<Seq<Seq<char>>, Seq<char>>,
    after: FailoverView,
    step: Step<Vec<String>>,
)
    requires
        addresses_step(before, outcome, after, step),
    ensures
        outcome is Ok ==> step is Done && texts(step->Done_0@) == outcome->Ok_0 && after == before,
        outcome is Err ==> step !is Done && after == before.failed(outcome->Err_0) && step
            == step_after_failure::<Vec<String>>(before),
{
}

/// Takes in the reply to the request for a batch of blocks.
pub fn fetch_batch_step(run: &mut Failover, reply: HttpReply, blocks: &[u64]) -> (step: Step<
    Vec<String>,
>)
    requires
        old(run)@.well_formed(),
        !old(run)@.exhausted(),
    ensures
        final(run)@.well_formed(),
        addresses_step(
            old(run)@,
            batch_addresses(batch_answer(reply), blocks@.len()),
            final(run)@,
            step,
        ),
{
    run.advance(batch_addresses_in(read_batch_reply(reply), blocks))
}

/// What is said where no endpoint gives the whole batch.
pub fn fetch_batch_failure(last_error: &str) -> (text: String)
    ensures
        text@ == "all RPCs failed: "@ + last_error@,
{
    labelled("all RPCs failed: ", last_error)
}

/// What the replies to the request for a batch come to, each for itself.
pub open spec fn batch_outcomes(replies: Seq<HttpReply>, expected: nat) -> Seq<
    Result<Seq<Seq<char>>, Seq<char>>,
> {
    replies.map_values(|reply: HttpReply| batch_addresses(batch_answer(reply), expected))
}

/// Endpoints that answer give the batch: the first reply that is an array of documents with as many
/// different block numbers as blocks were asked for, of those that the endpoints may send, settles it.
pub proof fn lemma_batch_found(endpoints: nat, replies: Seq<HttpReply>, expected: nat, k: int)
    requires
        0 <= k < replies.len(),
        k < endpoints * MAX_RETRIES,
        forall|i: int|
            0 <= i < k ==> batch_answer(#[trigger] replies[i]) is Err || received_numbers(
                batch_answer(replies[i])->Ok_0,
            ).len() != expected,
        batch_answer(replies[k]) is Ok,
        received_numbers(batch_answer(replies[k])->Ok_0).len() == expected,
    ensures
        run_result(FailoverView::start(endpoints), batch_outcomes(replies, expected))
            == RunResult::Done(received_addresses(batch_answer(replies[k])->Ok_0)),
{
    let outcomes = batch_outcomes(replies, expected);
    assert forall|i: int| 0 <= i < k implies (#[trigger] outcomes[i]) is Err by {
        assert(batch_answer(replies[i]) is Err || received_numbers(
            batch_answer(replies[i])->Ok_0,
        ).len() != expected);
    }
    lemma_first_success_wins(
        endpoints,
        outcomes,
        k,
        received_addresses(batch_answer(replies[k])->Ok_0),
    );
}

/// A batch is never accepted in part: where the endpoints yield addresses, these are the addresses of
/// one reply, and that reply is a list of documents with as many different block numbers as blocks
/// were asked for.
pub proof fn lemma_batch_never_partial(
    endpoints: nat,
    replies: Seq<HttpReply>,
    expected: nat,
    addresses: Seq<Seq<char>>,
) -> (k: int)
    requires
        run_result(FailoverView::start(endpoints), batch_outcomes(replies, expected))
            == RunResult::Done(addresses),
    ensures
        0 <= k < replies.len(),
        k < endpoints * MAX_RETRIES,
        replies[k] is Body,
        parsed_json_list(replies[k]->Body_0@) is Ok,
        received_numbers(parsed_json_list(replies[k]->Body_0@)->Ok_0).len() == expected,
        received_addresses(parsed_json_list(replies[k]->Body_0@)->Ok_0) == addresses,
{
    lemma_done_is_first_success(endpoints, batch_outcomes(replies, expected), addresses)
}

// ---------------------------------------------------------------------------
// One block
// ---------------------------------------------------------------------------

/// The addresses that an answer gives for one block.
pub open spec fn single_addresses(answer: Result<JsonView, Seq<char>>) -> Result<
    Seq<Seq<char>>,
    Seq<char>,
> {
    match answer {
        Ok(json) => match json.get("result"@) {
            Some(JsonView::Null) => Err("invalid block result"@),
            Some(block) => Ok(block_addresses(block)),
            None => Err("invalid block result"@),
        },
        Err(error) => Err(error),
    }
}

/// An answer gives a block exactly where it is a document whose member `result` is there and not `null`,
/// and then it gives the addresses of that block, be they many or none; it is an error only where the
/// block is missing or the answer itself failed.
pub proof fn lemma_single_addresses_decided(answer: Result<JsonView, Seq<char>>)
    ensures
        answer is Ok && answer->Ok_0.get("result"@) is Some && answer->Ok_0.get("result"@)->0
            != JsonView::Null ==> single_addresses(answer) == Ok::<Seq<Seq<char>>, Seq<char>>(
            block_addresses(answer->Ok_0.get("result"@)->0),
        ),
        answer is Ok && (answer->Ok_0.get("result"@) is None || answer->Ok_0.get("result"@)->0
            == JsonView::Null) ==> single_addresses(answer) == Err::<Seq<Seq<char>>, Seq<char>>(
            "invalid block result"@,
        ),
        answer is Err ==> single_addresses(answer) == Err::<Seq<Seq<char>>, Seq<char>>(
            answer->Err_0,
        ),
{
}

/// Reads the addresses of one block out of an answer.
pub fn single_addresses_in(answer: Result<Json, String>) -> (result: Addresses)
    ensures
        addresses_view(result) == single_addresses(answer_view(answer)),
{
    match answer {
        Ok(json) => {
            if let Some(block) = json.get("result") {
                if !block.is_null() {
                    return Ok(extract_addresses(block));
                }
            }
            Err("invalid block result".to_owned())
        },
        Err(error) => Err(error),
    }
}

/// Takes in the reply to the request for one block.
pub fn fetch_single_block_step(run: &mut Failover, reply: HttpReply) -> (step: Step<Vec<String>>)
    requires
        old(run)@.well_formed(),
        !old(run)@.exhausted(),
    ensures
        final(run)@.well_formed(),
        addresses_step(old(run)@, single_addresses(rpc_answer(reply)), final(run)@, step),
{
    run.advance(single_addresses_in(read_rpc_reply(reply)))
}

/// What is said where no endpoint gives the block.
pub fn fetch_single_block_failure(block: u64, last_error: &str) -> (text: String)
    ensures
        text@ == "Block "@ + decimal_text(block as nat) + " failed on ALL RPCs: "@ + last_error@,
{
    let mut text: String = labelled("Block ", decimal(block).as_str());
    text.append(" failed on ALL RPCs: ");
    text.append(last_error);
    text
}

/// What the replies to the request for one block come to, each for itself.
pub open spec fn single_outcomes(replies: Seq<HttpReply>) -> Seq<
    Result<Seq<Seq<char>>, Seq<char>>,
> {
    replies.map_values(|reply: HttpReply| single_addresses(rpc_answer(reply)))
}

/// Endpoints that answer give the block: the first reply whose member `result` is there and not `null`,
/// of those that the endpoints may send, settles it.
pub proof fn lemma_single_block_found(endpoints: nat, replies: Seq<HttpReply>, k: int)
    requires
        0 <= k < replies.len(),
        k < endpoints * MAX_RETRIES,
        forall|i: int|
            0 <= i < k ==> rpc_answer(#[trigger] replies[i]) is Err || rpc_answer(
                replies[i],
            )->Ok_0.get("result"@) is None || rpc_answer(replies[i])->Ok_0.get("result"@)->0
                == JsonView::Null,
        rpc_answer(replies[k]) is Ok,
        rpc_answer(replies[k])->Ok_0.get("result"@) is Some,
        rpc_answer(replies[k])->Ok_0.get("result"@)->0 != JsonView::Null,
    ensures
        run_result(FailoverView::start(endpoints), single_outcomes(replies)) == RunResult::Done(
            block_addresses(rpc_answer(replies[k])->Ok_0.get("result"@)->0),
        ),
{
    let outcomes = single_outcomes(replies);
    assert forall|i: int| 0 <= i < k implies (#[trigger] outcomes[i]) is Err by {
        assert(rpc_answer(replies[i]) is Err || rpc_answer(replies[i])->Ok_0.get("result"@) is None
            || rpc_answer(replies[i])->Ok_0.get("result"@)->0 == JsonView::Null);
    }
    lemma_first_success_wins(
        endpoints,
        outcomes,
        k,
        block_addresses(rpc_answer(replies[k])->Ok_0.get("result"@)->0),
    );
}

/// The addresses that the endpoints yield for one block are those of a block that one of their replies
/// carries.
pub proof fn lemma_single_block_was_replied(
    endpoints: nat,
    replies: Seq<HttpReply>,
    addresses: Seq<Seq<char>>,
) -> (k: int)
    requires
        run_result(FailoverView::start(endpoints), single_outcomes(replies)) == RunResult::Done(
            addresses,
        ),
    ensures
        0 <= k < replies.len(),
        k < endpoints * MAX_RETRIES,
        rpc_answer(replies[k]) is Ok,
        rpc_answer(replies[k])->Ok_0.get("result"@) is Some,
        rpc_answer(replies[k])->Ok_0.get("result"@)->0 != JsonView::Null,
        block_addresses(rpc_answer(replies[k])->Ok_0.get("result"@)->0) == addresses,
{
    lemma_done_is_first_success(endpoints, single_outcomes(replies), addresses)
}

// ---------------------------------------------------------------------------
// A batch, and its blocks one by one where the batch fails
// ---------------------------------------------------------------------------

/// How far a resilient fetch has come.
pub enum StageView {
    /// The batch is asked for.
    Batch,
    /// The batch failed: the blocks are asked for one by one. So many are done, with these addresses.
    Blocks(nat, Seq<Seq<char>>),
    /// It is over.
    Finished(Result<Seq<Seq<char>>, Seq<char>>),
}

/// A resilient fetch of `blocks`.
pub struct ResilientView {
    pub blocks: Seq<u64>,
    pub stage: StageView,
}

impl ResilientView {
    /// A fetch before anything is asked for.
    pub open spec fn start(blocks: Seq<u64>) -> ResilientView {
        ResilientView { blocks, stage: StageView::Batch }
    }

    /// The stage in which `done` blocks are done.
    pub open spec fn with_done(self, done: nat, addresses: Seq<Seq<char>>) -> ResilientView {
        ResilientView {
            stage: if done >= self.blocks.len() {
                StageView::Finished(Ok(addresses))
            } else {
                StageView::Blocks(done, addresses)
            },
            ..self
        }
    }

    /// The fetch after what was asked for last ended with `result`.
    pub open spec fn absorbed(self, result: Result<Seq<Seq<char>>, Seq<char>>) -> ResilientView {
        match self.stage {
            StageView::Batch => match result {
                Ok(addresses) => ResilientView { stage: StageView::Finished(Ok(addresses)), ..self },
                Err(_) => self.with_done(0, Seq::empty()),
            },
            StageView::Blocks(done, addresses) => match result {
                Ok(more) => self.with_done(done + 1, addresses + more),
                Err(error) => ResilientView { stage: StageView::Finished(Err(error)), ..self },
            },
            StageView::Finished(_) => self,
        }
    }

    /// The fetch after these results, one after the other.
    pub open spec fn absorbed_all(self, results: Seq<Result<Seq<Seq<char>>, Seq<char>>>) -> ResilientView
        decreases results.len(),
    {
        if results.len() == 0 {
            self
        } else {
            self.absorbed(results[0]).absorbed_all(results.skip(1))
        }
    }

    /// Where blocks are asked for one by one, there is a block left to ask for.
    pub open spec fn well_formed(self) -> bool {
        self.stage matches StageView::Blocks(done, _) ==> done < self.blocks.len()
    }
}

/// The lists one after the other, or the first error among them.
pub open spec fn joined(results: Seq<Result<Seq<Seq<char>>, Seq<char>>>) -> Result<
    Seq<Seq<char>>,
    Seq<char>,
>
    decreases results.len(),
{
    if results.len() == 0 {
        Ok(Seq::empty())
    } else {
        match results[0] {
            Err(error) => Err(error),
            Ok(first) => match joined(results.skip(1)) {
                Err(error) => Err(error),
                Ok(rest) => Ok(first + rest),
            },
        }
    }
}

/// Joining succeeds exactly where every list came, and then leaves none out: the joined lists of two
/// halves are joined, one list is itself, and of no list nothing comes.
pub proof fn lemma_joined(
    a: Seq<Result<Seq<Seq<char>>, Seq<char>>>,
    b: Seq<Result<Seq<Seq<char>>, Seq<char>>>,
    list: Seq<Seq<char>>,
)
    ensures
        joined(Seq::empty()) == Ok::<Seq<Seq<char>>, Seq<char>>(Seq::empty()),
        joined(seq![Ok::<Seq<Seq<char>>, Seq<char>>(list)]) == Ok::<Seq<Seq<char>>, Seq<char>>(list),
        joined(a) is Ok <==> forall|i: int| 0 <= i < a.len() ==> (#[trigger] a[i]) is Ok,
        joined(a) is Ok && joined(b) is Ok ==> joined(a + b) == Ok::<Seq<Seq<char>>, Seq<char>>(
            joined(a)->Ok_0 + joined(b)->Ok_0,
        ),
        joined(a) is Ok && joined(b) is Err ==> joined(a + b) == joined(b),
        joined(a) is Err ==> joined(a + b) == joined(a),
    decreases a.len(),
{
    let one = seq![Ok::<Seq<Seq<char>>, Seq<char>>(list)];
    reveal_with_fuel(joined, 2);
    assert(one.skip(1) =~= Seq::<Result<Seq<Seq<char>>, Seq<char>>>::empty());
    assert(list + Seq::<Seq<char>>::empty() =~= list);
    if a.len() == 0 {
        assert(a + b =~= b);
        if joined(b) is Ok {
            assert(Seq::<Seq<char>>::empty() + joined(b)->Ok_0 =~= joined(b)->Ok_0);
        }
    } else {
        let rest = a.skip(1);
        lemma_joined(rest, b, list);
        assert((a + b).skip(1) =~= rest + b);
        if joined(a) is Ok {
            assert forall|i: int| 0 <= i < a.len() implies (#[trigger] a[i]) is Ok by {
                if i > 0 {
                    assert(rest[i - 1] is Ok);
                }
            }
            if joined(b) is Ok {
                assert(a[0]->Ok_0 + (joined(rest)->Ok_0 + joined(b)->Ok_0) =~= a[0]->Ok_0 + joined(
                    rest,
                )->Ok_0 + joined(b)->Ok_0);
            }
        }
        if forall|i: int| 0 <= i < a.len() ==> (#[trigger] a[i]) is Ok {
            assert forall|i: int| 0 <= i < rest.len() implies (#[trigger] rest[i]) is Ok by {
                assert(a[i + 1] is Ok);
            }
        }
    }
}

/// What joining reports is the first error.
pub proof fn lemma_joined_first_error(
    results: Seq<Result<Seq<Seq<char>>, Seq<char>>>,
    k: int,
    error: Seq<char>,
)
    requires
        0 <= k < results.len(),
        forall|i: int| 0 <= i < k ==> (#[trigger] results[i]) is Ok,
        results[k] == Err::<Seq<Seq<char>>, Seq<char>>(error),
    ensures
        joined(results) == Err::<Seq<Seq<char>>, Seq<char>>(error),
    decreases k,
{
    if k > 0 {
        let rest = results.skip(1);
        assert forall|i: int| 0 <= i < k - 1 implies (#[trigger] rest[i]) is Ok by {
            assert(rest[i] == results[i + 1]);
        }
        lemma_joined_first_error(rest, k - 1, error);
    }
}

/// A batch that is accepted is the result; the blocks are not asked for one by one.
pub proof fn lemma_accepted_batch_is_result(blocks: Seq<u64>, addresses: Seq<Seq<char>>)
    ensures
        ResilientView::start(blocks).absorbed(Ok(addresses)).stage
            == StageView::Finished(Ok(addresses)),
{
}

/// Where the batch fails, its blocks are asked for one by one and in their order: as long as each of
/// them comes, the next one is asked for, and what came is kept.
pub proof fn lemma_fallback_in_order(
    blocks: Seq<u64>,
    batch_error: Seq<char>,
    results: Seq<Result<Seq<Seq<char>>, Seq<char>>>,
)
    requires
        results.len() < blocks.len(),
        joined(results) is Ok,
    ensures
        ResilientView::start(blocks).absorbed(Err(batch_error)).absorbed_all(
            results,
        ).stage == StageView::Blocks(results.len(), joined(results)->Ok_0),
{
    lemma_order_from(ResilientView::start(blocks), 0, Seq::empty(), results);
    assert(Seq::<Seq<char>>::empty() + joined(results)->Ok_0 =~= joined(results)->Ok_0);
}

proof fn lemma_order_from(
    fetch: ResilientView,
    done: nat,
    addresses: Seq<Seq<char>>,
    results: Seq<Result<Seq<Seq<char>>, Seq<char>>>,
)
    requires
        done + results.len() <= fetch.blocks.len(),
        joined(results) is Ok,
    ensures
        fetch.with_done(done, addresses).absorbed_all(results) == fetch.with_done(
            done + results.len(),
            addresses + joined(results)->Ok_0,
        ),
    decreases results.len(),
{
    if results.len() == 0 {
        assert(addresses + Seq::<Seq<char>>::empty() =~= addresses);
    } else {
        let rest = results.skip(1);
        let more = results[0]->Ok_0;
        lemma_order_from(fetch, done + 1, addresses + more, rest);
        assert(fetch.with_done(done, addresses).absorbed(results[0]) == fetch.with_done(
            done + 1,
            addresses + more,
        ));
        assert(addresses + more + joined(rest)->Ok_0 =~= addresses + (more + joined(rest)->Ok_0));
    }
}

/// Where the batch fails and each of its blocks is asked for, the result is the addresses of all the
/// blocks, in their order, or the first error: never the addresses of some of the blocks only.
pub proof fn lemma_fallback_is_whole(
    blocks: Seq<u64>,
    batch_error: Seq<char>,
    results: Seq<Result<Seq<Seq<char>>, Seq<char>>>,
)
    requires
        results.len() == blocks.len(),
    ensures
        ResilientView::start(blocks).absorbed(Err(batch_error)).absorbed_all(
            results,
        ).stage == StageView::Finished(joined(results)),
{
    let start = ResilientView::start(blocks);
    lemma_fallback_from(start, 0, Seq::empty(), results);
    match joined(results) {
        Ok(addresses) => {
            assert(Seq::<Seq<char>>::empty() + addresses =~= addresses);
        },
        Err(_) => {},
    }
}

proof fn lemma_fallback_from(
    fetch: ResilientView,
    done: nat,
    addresses: Seq<Seq<char>>,
    results: Seq<Result<Seq<Seq<char>>, Seq<char>>>,
)
    requires
        done + results.len() == fetch.blocks.len(),
    ensures
        fetch.with_done(done, addresses).absorbed_all(results).stage == StageView::Finished(
            match joined(results) {
                Ok(more) => Ok(addresses + more),
                Err(error) => Err(error),
            },
        ),
    decreases results.len(),
{
    if results.len() == 0 {
        assert(addresses + Seq::<Seq<char>>::empty() =~= addresses);
    } else {
        let rest = results.skip(1);
        match results[0] {
            Ok(more) => {
                lemma_fallback_from(fetch, done + 1, addresses + more, rest);
                let before = fetch.with_done(done, addresses);
                assert(before.absorbed(results[0]) == fetch.with_done(done + 1, addresses + more));
                if joined(rest) is Ok {
                    assert(addresses + more + joined(rest)->Ok_0 =~= addresses + (more + joined(
                        rest,
                    )->Ok_0));
                }
            },
            Err(error) => {
                let over = fetch.with_done(done, addresses).absorbed(results[0]);
                lemma_finished_stays(over, rest);
            },
        }
    }
}

/// What is over stays as it ended, whatever else comes.
pub proof fn lemma_finished_stays(
    fetch: ResilientView,
    results: Seq<Result<Seq<Seq<char>>, Seq<char>>>,
)
    requires
        fetch.stage is Finished,
    ensures
        fetch.absorbed_all(results) == fetch,
    decreases results.len(),
{
    if results.len() > 0 {
        lemma_finished_stays(fetch, results.skip(1));
    }
}

/// What a resilient fetch asks for next.
#[derive(Clone, Copy, Debug, PartialEq, Eq, Structural)]
pub enum Task {
    /// All the blocks at once.
    Batch,
    /// This block alone.
    Block(u64),
    /// Nothing: it is over.
    Finished,
}

enum Stage {
    Batch,
    Blocks(usize, Vec<String>),
    Finished(Addresses),
}

/// A fetch of a batch that falls back to the single blocks.
pub struct ResilientFetch {
    blocks: Vec<u64>,
    stage: Stage,
}

impl View for ResilientFetch {
    type V = ResilientView;

    closed spec fn view(&self) -> ResilientView {
        ResilientView {
            blocks: self.blocks@,
            stage: match self.stage {
                Stage::Batch => StageView::Batch,
                Stage::Blocks(done, addresses) => StageView::Blocks(
                    done as nat,
                    texts(addresses@),
                ),
                Stage::Finished(result) => StageView::Finished(addresses_view(result)),
            },
        }
    }
}

impl ResilientFetch {
    /// A fetch of `blocks`, before anything is asked for.
    pub fn new(blocks: Vec<u64>) -> (fetch: ResilientFetch)
        ensures
            fetch@ == ResilientView::start(blocks@),
            fetch@.well_formed(),
    {
        ResilientFetch { blocks, stage: Stage::Batch }
    }

    /// The blocks that are fetched.
    pub fn blocks(&self) -> (blocks: &Vec<u64>)
        ensures
            blocks@ == self@.blocks,
    {
        &self.blocks
    }

    /// What is asked for next.
    pub fn task(&self) -> (task: Task)
        requires
            self@.well_formed(),
        ensures
            task == match self@.stage {
                StageView::Batch => Task::Batch,
                StageView::Blocks(done, _) => Task::Block(self@.blocks[done as int]),
                StageView::Finished(_) => Task::Finished,
            },
    {
        match &self.stage {
            Stage::Batch => Task::Batch,
            Stage::Blocks(done, _) => Task::Block(self.blocks[*done]),
            Stage::Finished(_) => Task::Finished,
        }
    }

    /// Takes in how the current task ended.
    pub fn absorb(&mut self, result: Addresses)
        requires
            old(self)@.well_formed(),
        ensures
            final(self)@ == old(self)@.absorbed(addresses_view(result)),
            final(self)@.well_formed(),
    {
        let ghost before = self@;
        let total: usize = self.blocks.len();
        let mut stage: Stage = Stage::Batch;
        std::mem::swap(&mut stage, &mut self.stage);
        let (done, addresses): (usize, Vec<String>) = match stage {
            Stage::Batch => match result {
                Ok(addresses) => {
                    self.stage = Stage::Finished(Ok(addresses));
                    return;
                },
                Err(_) => {
                    let none: Vec<String> = Vec::new();
                    assert(texts(none@) =~= Seq::<Seq<char>>::empty());
                    (0, none)
                },
            },
            Stage::Blocks(done, mut addresses) => match result {
                Ok(mut more) => {
                    let ghost old_list = addresses@;
                    let ghost new_list = more@;
                    addresses.append(&mut more);
                    assert(texts(addresses@) =~= texts(old_list) + texts(new_list));
                    assert(before.stage is Blocks && before.stage->Blocks_0 == done);
                    assert(done < total);
                    (done + 1, addresses)
                },
                Err(error) => {
                    self.stage = Stage::Finished(Err(error));
                    return;
                },
            },
            Stage::Finished(result) => {
                self.stage = Stage::Finished(result);
                return;
            },
        };
        if done >= total {
            self.stage = Stage::Finished(Ok(addresses));
        } else {
            self.stage = Stage::Blocks(done, addresses);
        }
    }

    /// The result, once the fetch is over.
    pub fn into_result(self) -> (result: Option<Addresses>)
        ensures
            match self@.stage {
                StageView::Finished(view) => result is Some && addresses_view(result->0) == view,
                _ => result is None,
            },
    {
        match self.stage {
            Stage::Finished(result) => Some(result),
            _ => None,
        }
    }
}

} // verus!
