//! The plan of an extraction: a range of blocks, cut into parts, the parts cut into batches, and the
//! checkpoint from which an interrupted run goes on.
use crate::number::{decimal, decimal_text, number_read, parse_number, NumberError};
use crate::text::{is_white_space, lemma_trimmed_between, trim, trimmed};
use vstd::prelude::*;
use vstd::string::*;

verus! {

/// The most blocks that one file covers.
pub const BLOCKS_PER_PART: u64 = 1_000_000;

/// The most blocks that one request asks for: a reply holds whole transactions.
pub const BLOCKS_PER_BATCH: u64 = 5;

/// A line on the progress is due each time so many batches are done.
pub const BATCHES_PER_REPORT: usize = 500;

// ---------------------------------------------------------------------------
// Ranges
// ---------------------------------------------------------------------------

/// The blocks from `first` to `last`, both included.
pub open spec fn block_range(first: int, last: int) -> Seq<u64> {
    Seq::new((if first <= last { last - first + 1 } else { 0 }) as nat, |i: int| (first + i) as u64)
}

/// The last block of a stretch of at most `size` blocks that begins at `first`.
pub open spec fn stretch_end(first: int, last: int, size: int) -> int {
    if first + size - 1 < last {
        first + size - 1
    } else {
        last
    }
}

/// The blocks from `first` to `last` cut into stretches of `size` blocks, the last one of what is
/// left, each given by its first and its last block.
pub open spec fn stretches(first: int, last: int, size: int) -> Seq<(int, int)>
    decreases last - first + 1,
{
    if first > last || size < 1 {
        Seq::empty()
    } else {
        let stop = stretch_end(first, last, size);
        seq![(first, stop)] + stretches(stop + 1, last, size)
    }
}

/// The blocks of a list of stretches, one stretch after the other.
pub open spec fn covered(list: Seq<(int, int)>) -> Seq<u64>
    decreases list.len(),
{
    if list.len() == 0 {
        Seq::empty()
    } else {
        block_range(list[0].0, list[0].1) + covered(list.skip(1))
    }
}

/// The blocks of a range are its first block and those that follow it, one by one, to its last.
pub proof fn lemma_block_range(first: int, last: int)
    requires
        0 <= first,
        last <= u64::MAX,
    ensures
        first <= last ==> block_range(first, last).len() == last - first + 1,
        first > last ==> block_range(first, last).len() == 0,
        forall|i: int|
            0 <= i < block_range(first, last).len() ==> #[trigger] block_range(first, last)[i] == first
                + i,
{
}

/// Stretches begin at the first block of the range and end at its last, each begins right behind the one
/// before it, none is empty, and all but the last are `size` long.
pub proof fn lemma_stretches_chain(first: int, last: int, size: int)
    requires
        size >= 1,
    ensures
        ({
            let list = stretches(first, last, size);
            &&& list.len() > 0 <==> first <= last
            &&& list.len() > 0 ==> list[0].0 == first && list[list.len() - 1].1 == last
            &&& forall|i: int|
                #![trigger list[i]]
                0 <= i < list.len() ==> {
                    &&& 1 <= list[i].1 - list[i].0 + 1 <= size
                    &&& i + 1 < list.len() ==> list[i].1 - list[i].0 + 1 == size && list[i + 1].0
                        == list[i].1 + 1
                }
        }),
    decreases last - first + 1,
{
    let list = stretches(first, last, size);
    if first <= last {
        let stop = stretch_end(first, last, size);
        let rest = stretches(stop + 1, last, size);
        lemma_stretches_chain(stop + 1, last, size);
        assert forall|i: int|
            #![trigger list[i]]
            0 <= i < list.len() implies {
            &&& 1 <= list[i].1 - list[i].0 + 1 <= size
            &&& i + 1 < list.len() ==> list[i].1 - list[i].0 + 1 == size && list[i + 1].0 == list[i].1
                + 1
        } by {
            if i > 0 {
                assert(list[i] == rest[i - 1]);
                if i + 1 < list.len() {
                    assert(list[i + 1] == rest[i]);
                }
            } else if list.len() > 1 {
                assert(list[1] == rest[0]);
            }
        }
        if rest.len() > 0 {
            assert(list[list.len() - 1] == rest[rest.len() - 1]);
        }
    }
}

/// The stretches cover every block of the range once and in order; none is empty, none is longer
/// than `size`, and all but the last are `size` long.
pub proof fn lemma_stretches_cover(first: int, last: int, size: int)
    requires
        0 <= first,
        last <= u64::MAX,
        size >= 1,
    ensures
        covered(stretches(first, last, size)) == block_range(first, last),
        forall|i: int|
            #![trigger stretches(first, last, size)[i]]
            0 <= i < stretches(first, last, size).len() ==> {
                let stretch = stretches(first, last, size)[i];
                &&& first <= stretch.0 <= stretch.1 <= last
                &&& stretch.1 - stretch.0 + 1 <= size
                &&& i < stretches(first, last, size).len() - 1 ==> stretch.1 - stretch.0 + 1 == size
            },
    decreases last - first + 1,
{
    let list = stretches(first, last, size);
    if first > last {
        assert(block_range(first, last) =~= Seq::<u64>::empty());
    } else {
        let stop = stretch_end(first, last, size);
        let rest = stretches(stop + 1, last, size);
        lemma_stretches_cover(stop + 1, last, size);
        assert(list.skip(1) =~= rest);
        assert(block_range(first, stop) + block_range(stop + 1, last) =~= block_range(first, last));
        assert forall|i: int|
            #![trigger list[i]]
            0 <= i < list.len() implies {
                let stretch = list[i];
                &&& first <= stretch.0 <= stretch.1 <= last
                &&& stretch.1 - stretch.0 + 1 <= size
                &&& i < list.len() - 1 ==> stretch.1 - stretch.0 + 1 == size
            } by {
            if i > 0 {
                assert(list[i] == rest[i - 1]);
            } else if list.len() > 1 {
                assert(rest.len() > 0);
            }
        }
    }
}

/// After the first `k` stretches the others are the stretches of what is left, which begins right
/// behind the `k`th: stopping there and going on there repeats no block and leaves none out.
pub proof fn lemma_stretches_go_on(first: int, last: int, size: int, k: int)
    requires
        first <= last + 1,
        size >= 1,
        0 <= k <= stretches(first, last, size).len(),
    ensures
        ({
            let list = stretches(first, last, size);
            let next = if k == 0 {
                first
            } else {
                list[k - 1].1 + 1
            };
            &&& first <= next <= last + 1
            &&& list.skip(k) == stretches(next, last, size)
            &&& next > last <==> k == list.len()
        }),
    decreases k,
{
    let list = stretches(first, last, size);
    if k == 0 {
        assert(list.skip(0) =~= list);
    } else {
        let stop = stretch_end(first, last, size);
        let rest = stretches(stop + 1, last, size);
        lemma_stretches_go_on(stop + 1, last, size, k - 1);
        assert(list.skip(k) =~= rest.skip(k - 1));
        if k > 1 {
            assert(list[k - 1] == rest[k - 2]);
        }
    }
}

/// The last block of a stretch of at most `size` blocks that begins at `first`.
fn last_of_stretch(first: u64, last: u64, size: u64) -> (end: u64)
    requires
        first <= last,
        size >= 1,
    ensures
        end == stretch_end(first as int, last as int, size as int),
        first <= end <= last,
{
    if last - first < size {
        last
    } else {
        first + (size - 1)
    }
}

/// How many blocks there are from `start_block` to `end_block`.
pub fn block_count(start_block: u64, end_block: u64) -> (count: u64)
    requires
        start_block <= end_block,
        end_block - start_block < u64::MAX,
    ensures
        count == end_block - start_block + 1,
        count == block_range(start_block as int, end_block as int).len(),
{
    end_block - start_block + 1
}

/// What is said of a block, named by `which`, that the chain has not reached.
pub open spec fn beyond_height(which: Seq<char>, block: u64, latest: u64) -> Seq<char> {
    which + " block "@ + decimal_text(block as nat) + " is greater than current chain height "@
        + decimal_text(latest as nat)
}

/// The words for a block that the chain has not reached name the block and the height of the chain, each
/// readable as a number.
pub proof fn lemma_beyond_height(which: Seq<char>, block: u64, latest: u64)
    ensures
        ({
            let (number, height) = (decimal_text(block as nat), decimal_text(latest as nat));
            &&& beyond_height(which, block, latest) == which + " block "@ + number
                + " is greater than current chain height "@ + height
            &&& number_read(number, 10) == Ok::<u64, NumberError>(block)
            &&& number_read(height, 10) == Ok::<u64, NumberError>(latest)
        }),
{
    crate::number::lemma_numeral_texts(block);
    crate::number::lemma_numeral_texts(latest);
}

fn beyond_height_message(which: &str, block: u64, latest: u64) -> (text: String)
    ensures
        text@ == beyond_height(which@, block, latest),
{
    let mut text: String = which.to_owned();
    text.append(" block ");
    text.append(decimal(block).as_str());
    text.append(" is greater than current chain height ");
    text.append(decimal(latest).as_str());
    text
}

/// Checks that the chain has reached the whole range.
pub fn check_height(start_block: u64, end_block: u64, latest: u64) -> (result: Result<(), String>)
    ensures
        match result {
            Ok(_) => start_block <= latest && end_block <= latest,
            Err(error) => if start_block > latest {
                error@ == beyond_height("Start"@, start_block, latest)
            } else {
                end_block > latest && error@ == beyond_height("End"@, end_block, latest)
            },
        },
{
    if start_block > latest {
        return Err(beyond_height_message("Start", start_block, latest));
    }
    if end_block > latest {
        return Err(beyond_height_message("End", end_block, latest));
    }
    Ok(())
}

// ---------------------------------------------------------------------------
// Batches
// ---------------------------------------------------------------------------

/// What a list of batches holds.
pub open spec fn batch_views(batches: Seq<Vec<u64>>) -> Seq<Seq<u64>> {
    batches.map_values(|batch: Vec<u64>| batch@)
}

/// The blocks of each of a list of stretches.
pub open spec fn stretch_blocks(list: Seq<(int, int)>) -> Seq<Seq<u64>> {
    list.map_values(|stretch: (int, int)| block_range(stretch.0, stretch.1))
}

/// The blocks from `first` to `last`, both included.
fn list_range(first: u64, last: u64) -> (blocks: Vec<u64>)
    requires
        first <= last,
    ensures
        blocks@ == block_range(first as int, last as int),
{
    let mut blocks: Vec<u64> = Vec::new();
    let mut block: u64 = first;
    while block < last
        invariant
            first <= block <= last,
            blocks@ == block_range(first as int, block - 1),
        decreases last - block,
    {
        blocks.push(block);
        assert(blocks@ =~= block_range(first as int, block as int));
        block += 1;
    }
    blocks.push(last);
    assert(blocks@ =~= block_range(first as int, last as int));
    blocks
}

/// Cuts the blocks from `first` to `last` into batches.
pub fn make_batches(first: u64, last: u64) -> (batches: Vec<Vec<u64>>)
    ensures
        batch_views(batches@) == stretch_blocks(
            stretches(first as int, last as int, BLOCKS_PER_BATCH as int),
        ),
        first > last ==> batches.len() == 0,
        first <= last ==> batch_views(batches@).flatten().len() == last - first + 1,
        forall|i: int|
            0 <= i < batch_views(batches@).flatten().len() ==> #[trigger] batch_views(
                batches@,
            ).flatten()[i] == first + i,
        forall|i: int|
            #![trigger batches@[i]]
            0 <= i < batches.len() ==> {
                &&& 1 <= batches@[i].len() <= BLOCKS_PER_BATCH
                &&& i + 1 < batches.len() ==> batches@[i].len() == BLOCKS_PER_BATCH
            },
{
    proof {
        lemma_batches_asked(first, last);
    }
    let ghost size = BLOCKS_PER_BATCH as int;
    let ghost whole = stretch_blocks(stretches(first as int, last as int, size));
    let mut batches: Vec<Vec<u64>> = Vec::new();
    assert(batch_views(batches@) =~= Seq::<Seq<u64>>::empty());
    if first > last {
        assert(whole =~= Seq::<Seq<u64>>::empty());
        return batches;
    }
    let mut block: u64 = first;
    assert(batch_views(batches@) + whole =~= whole);
    loop
        invariant
            first <= block <= last,
            size == BLOCKS_PER_BATCH,
            whole == stretch_blocks(stretches(first as int, last as int, size)),
            whole.flatten().len() == last - first + 1,
            forall|i: int| 0 <= i < whole.flatten().len() ==> #[trigger] whole.flatten()[i] == first + i,
            forall|i: int|
                #![trigger whole[i]]
                0 <= i < whole.len() ==> {
                    &&& 1 <= whole[i].len() <= BLOCKS_PER_BATCH
                    &&& i + 1 < whole.len() ==> whole[i].len() == BLOCKS_PER_BATCH
                },
            whole == batch_views(batches@) + stretch_blocks(stretches(block as int, last as int, size)),
        decreases last - block,
    {
        let ghost done = batch_views(batches@);
        let batch_end: u64 = last_of_stretch(block, last, BLOCKS_PER_BATCH);
        batches.push(list_range(block, batch_end));
        proof {
            let rest = stretches(batch_end + 1, last as int, size);
            assert(batch_views(batches@) =~= done.push(block_range(block as int, batch_end as int)));
            assert(stretch_blocks(stretches(block as int, last as int, size)) =~= seq![
                block_range(block as int, batch_end as int),
            ] + stretch_blocks(rest));
            assert(whole =~= batch_views(batches@) + stretch_blocks(rest));
        }
        if batch_end == last {
            assert(stretch_blocks(stretches(last + 1, last as int, size)) =~= Seq::<
                Seq<u64>,
            >::empty());
            assert(whole =~= batch_views(batches@));
            assert forall|i: int|
                #![trigger batches@[i]]
                0 <= i < batches.len() implies {
                &&& 1 <= batches@[i].len() <= BLOCKS_PER_BATCH
                &&& i + 1 < batches.len() ==> batches@[i].len() == BLOCKS_PER_BATCH
            } by {
                assert(whole[i] == batches@[i]@);
            }
            return batches;
        }
        block = batch_end + 1;
    }
}

/// The batches of a range hold each of its blocks once, in order, and each batch holds at least one
/// block and at most as many as a request may ask for.
pub proof fn lemma_batches_cover(first: u64, last: u64)
    ensures
        ({
            let batches = stretch_blocks(
                stretches(first as int, last as int, BLOCKS_PER_BATCH as int),
            );
            &&& batches.flatten() == block_range(first as int, last as int)
            &&& forall|i: int|
                0 <= i < batches.len() ==> 1 <= (#[trigger] batches[i]).len() <= BLOCKS_PER_BATCH
        }),
{
    let list = stretches(first as int, last as int, BLOCKS_PER_BATCH as int);
    let batches = stretch_blocks(list);
    lemma_stretches_cover(first as int, last as int, BLOCKS_PER_BATCH as int);
    lemma_covered_flatten(list);
    assert forall|i: int| 0 <= i < batches.len() implies 1 <= (#[trigger] batches[i]).len()
        <= BLOCKS_PER_BATCH by {
        let stretch = list[i];
    }
}

/// The batches of a range, one after the other, ask for its first block and those that follow it, one by
/// one, to its last; all but the last batch are as long as a request may be.
pub proof fn lemma_batches_asked(first: u64, last: u64)
    ensures
        ({
            let batches = stretch_blocks(
                stretches(first as int, last as int, BLOCKS_PER_BATCH as int),
            );
            &&& first <= last ==> batches.flatten().len() == last - first + 1
            &&& first > last ==> batches.len() == 0 && batches.flatten().len() == 0
            &&& forall|i: int|
                0 <= i < batches.flatten().len() ==> #[trigger] batches.flatten()[i] == first + i
            &&& forall|i: int|
                #![trigger batches[i]]
                0 <= i < batches.len() ==> {
                    &&& 1 <= batches[i].len() <= BLOCKS_PER_BATCH
                    &&& i + 1 < batches.len() ==> batches[i].len() == BLOCKS_PER_BATCH
                }
        }),
{
    let list = stretches(first as int, last as int, BLOCKS_PER_BATCH as int);
    let batches = stretch_blocks(list);
    lemma_batches_cover(first, last);
    lemma_block_range(first as int, last as int);
    lemma_stretches_cover(first as int, last as int, BLOCKS_PER_BATCH as int);
    assert forall|i: int|
        #![trigger batches[i]]
        0 <= i < batches.len() implies {
        &&& 1 <= batches[i].len() <= BLOCKS_PER_BATCH
        &&& i + 1 < batches.len() ==> batches[i].len() == BLOCKS_PER_BATCH
    } by {
        let stretch = list[i];
        lemma_block_range(stretch.0, stretch.1);
    }
}

/// Each batch of a list holds its own blocks, at its own place.
pub proof fn lemma_batch_views(batches: Seq<Vec<u64>>)
    ensures
        batch_views(batches).len() == batches.len(),
        forall|i: int| 0 <= i < batches.len() ==> #[trigger] batch_views(batches)[i] == batches[i]@,
{
}

proof fn lemma_covered_flatten(list: Seq<(int, int)>)
    ensures
        stretch_blocks(list).flatten() == covered(list),
    decreases list.len(),
{
    if list.len() > 0 {
        lemma_covered_flatten(list.skip(1));
        assert(stretch_blocks(list).drop_first() =~= stretch_blocks(list.skip(1)));
        assert(stretch_blocks(list).first() == block_range(list[0].0, list[0].1));
    }
}

/// Tells whether a line on the progress is due, `processed` of `total` batches being done.
pub fn should_report(processed: usize, total: usize) -> (due: bool)
    ensures
        due == (processed % BATCHES_PER_REPORT == 0 || processed == total),
{
    processed % BATCHES_PER_REPORT == 0 || processed == total
}

// ---------------------------------------------------------------------------
// Checkpoints
// ---------------------------------------------------------------------------

/// The block that a checkpoint file names.
pub open spec fn checkpoint_read(text: Seq<char>) -> Option<u64> {
    match number_read(trimmed(text), 10) {
        Ok(block) => Some(block),
        Err(_) => None,
    }
}

/// Where a run begins: at the saved block, where it belongs to the range or follows it directly,
/// else at the start.
pub open spec fn begin_at(saved: Option<u64>, start_block: u64, end_block: u64) -> u64 {
    match saved {
        Some(block) => if start_block <= block <= end_block + 1 {
            block
        } else {
            start_block
        },
        None => start_block,
    }
}

/// What the checkpoint file holds once everything before `block` is done.
pub fn checkpoint_text(block: u64) -> (text: String)
    ensures
        text@ == decimal_text(block as nat),
{
    decimal(block)
}

/// Reads the block that a checkpoint file names.
pub fn parse_checkpoint(text: &str) -> (block: Option<u64>)
    ensures
        block == checkpoint_read(text@),
{
    match parse_number(trim(text).as_str(), 10) {
        Ok(block) => Some(block),
        Err(_) => None,
    }
}

/// Finds the block to begin with, given the saved one.
pub fn resume_point(saved: Option<u64>, start_block: u64, end_block: u64) -> (block: u64)
    requires
        saved matches Some(block) ==> block >= start_block ==> end_block < u64::MAX,
    ensures
        block == begin_at(saved, start_block, end_block),
{
    match saved {
        Some(block) => if block >= start_block && block <= end_block + 1 {
            block
        } else {
            start_block
        },
        None => start_block,
    }
}

/// A saved checkpoint reads back as the block that was saved.
pub proof fn lemma_checkpoint_round_trip(block: u64)
    ensures
        checkpoint_read(decimal_text(block as nat)) == Some(block),
{
    crate::number::lemma_decimal_round_trip(block);
}

/// A text names a block exactly where it is the decimal number of that block once the white space around
/// it is gone.
pub proof fn lemma_checkpoint_decided(text: Seq<char>, block: u64)
    ensures
        checkpoint_read(text) == Some(block) <==> number_read(trimmed(text), 10) == Ok::<
            u64,
            NumberError,
        >(block),
{
}

/// A checkpoint reads back through any white space around it.
pub proof fn lemma_checkpoint_spaced(before: Seq<char>, block: u64, after: Seq<char>)
    requires
        forall|i: int| 0 <= i < before.len() ==> is_white_space(#[trigger] before[i]),
        forall|i: int| 0 <= i < after.len() ==> is_white_space(#[trigger] after[i]),
    ensures
        checkpoint_read(before + decimal_text(block as nat) + after) == Some(block),
{
    let digits = decimal_text(block as nat);
    let whole = before + digits + after;
    crate::number::lemma_decimal_round_trip(block);
    crate::number::lemma_numeral_texts(block);
    crate::number::lemma_digits_round_trip(block, 10);
    let cut = lemma_trimmed_between(whole);
    let (start, end) = (before.len() as int, before.len() + digits.len());
    assert(whole[start] == digits[0]);
    assert(whole[end - 1] == digits[digits.len() - 1]);
    assert('0' <= digits[0] <= '9');
    assert('0' <= digits[digits.len() - 1] <= '9');
    assert(!is_white_space(whole[start]));
    assert(!is_white_space(whole[end - 1]));
    assert(cut.0 <= start && end <= cut.1);
    if cut.0 < start {
        assert(whole[cut.0] == before[cut.0]);
    }
    if cut.1 > end {
        assert(whole[cut.1 - 1] == after[cut.1 - 1 - end]);
    }
    assert(whole.subrange(cut.0, cut.1) =~= digits);
}

/// A run begins at the saved block exactly where that is a block of the range or the one right behind
/// it; in any other case, and where none is saved, it begins at the start.
pub proof fn lemma_begin_at(block: u64, start_block: u64, end_block: u64)
    ensures
        begin_at(None, start_block, end_block) == start_block,
        start_block <= block && block - end_block <= 1 ==> begin_at(
            Some(block),
            start_block,
            end_block,
        ) == block,
        block < start_block || block - end_block > 1 ==> begin_at(
            Some(block),
            start_block,
            end_block,
        ) == start_block,
{
}

// ---------------------------------------------------------------------------
// Parts
// ---------------------------------------------------------------------------

/// One part of an extraction: the blocks of one file.
#[derive(Clone, Copy, Debug, PartialEq, Eq, Structural)]
pub struct Part {
    pub number: u32,
    pub first_block: u64,
    pub last_block: u64,
}

/// How far an extraction has come.
pub struct Extraction {
    /// The first block that is still to be done.
    pub current: u64,
    /// The last block of the whole range.
    pub end_block: u64,
    /// The number of the part that begins at `current`.
    pub part: u32,
}

impl Extraction {
    /// The parts that are still to be done, each by its first and its last block.
    pub open spec fn remaining(self) -> Seq<(int, int)> {
        stretches(self.current as int, self.end_block as int, BLOCKS_PER_PART as int)
    }

    /// The part to do next; nothing once the range is done.
    pub fn next_part(&self) -> (part: Option<Part>)
        ensures
            match part {
                Some(part) => {
                    &&& self.remaining().len() > 0
                    &&& self.remaining()[0] == (part.first_block as int, part.last_block as int)
                    &&& part.number == self.part
                    &&& part.first_block == self.current
                    &&& part.first_block <= part.last_block <= self.end_block
                    &&& part.last_block - part.first_block + 1 <= BLOCKS_PER_PART
                    &&& part.last_block == self.end_block || part.last_block - part.first_block + 1
                        == BLOCKS_PER_PART
                },
                None => self.remaining().len() == 0,
            },
            part is Some <==> self.current <= self.end_block,
    {
        if self.current > self.end_block {
            return None;
        }
        let last_block: u64 = last_of_stretch(self.current, self.end_block, BLOCKS_PER_PART);
        Some(Part { number: self.part, first_block: self.current, last_block })
    }

    /// Records that the next part is done, and returns the checkpoint to save: the block behind it.
    pub fn complete_part(&mut self) -> (checkpoint: u64)
        requires
            old(self).current <= old(self).end_block,
            old(self).remaining()[0].1 < u64::MAX,
            old(self).remaining()[0].1 < old(self).end_block ==> old(self).part < u32::MAX,
        ensures
            checkpoint == old(self).remaining()[0].1 + 1,
            old(self).current < checkpoint <= old(self).end_block + 1,
            checkpoint - old(self).current <= BLOCKS_PER_PART,
            checkpoint == old(self).end_block + 1 || checkpoint - old(self).current
                == BLOCKS_PER_PART,
            final(self).current == checkpoint,
            final(self).end_block == old(self).end_block,
            final(self).remaining() == old(self).remaining().skip(1),
            final(self).part == old(self).part + if checkpoint <= old(self).end_block {
                1int
            } else {
                0int
            },
    {
        let ghost list = self.remaining();
        let last_block: u64 = last_of_stretch(self.current, self.end_block, BLOCKS_PER_PART);
        let checkpoint: u64 = last_block + 1;
        proof {
            assert(list.skip(1) =~= stretches(
                checkpoint as int,
                self.end_block as int,
                BLOCKS_PER_PART as int,
            ));
        }
        self.current = checkpoint;
        if checkpoint <= self.end_block {
            self.part = self.part + 1;
        }
        checkpoint
    }
}

/// The parts that are left hold each block that is left once and in order, none of them more blocks
/// than a file may cover.
pub proof fn lemma_parts_cover(run: Extraction)
    ensures
        covered(run.remaining()) == block_range(run.current as int, run.end_block as int),
        forall|i: int|
            #![trigger run.remaining()[i]]
            0 <= i < run.remaining().len() ==> 1 <= run.remaining()[i].1 - run.remaining()[i].0 + 1
                <= BLOCKS_PER_PART,
{
    lemma_stretches_cover(run.current as int, run.end_block as int, BLOCKS_PER_PART as int);
}

/// The batches of a list of parts, one part after the other.
pub open spec fn batches_of_parts(parts: Seq<(int, int)>) -> Seq<Seq<u64>>
    decreases parts.len(),
{
    if parts.len() == 0 {
        Seq::empty()
    } else {
        stretch_blocks(stretches(parts[0].0, parts[0].1, BLOCKS_PER_BATCH as int)) + batches_of_parts(
            parts.skip(1),
        )
    }
}

/// Over all the parts that are left, the batches ask for each block that is left once and in order.
pub proof fn lemma_batches_of_parts_cover(run: Extraction)
    ensures
        batches_of_parts(run.remaining()).flatten() == block_range(
            run.current as int,
            run.end_block as int,
        ),
{
    lemma_stretches_cover(run.current as int, run.end_block as int, BLOCKS_PER_PART as int);
    lemma_batches_of_parts(run.remaining());
}

proof fn lemma_batches_of_parts(parts: Seq<(int, int)>)
    requires
        forall|i: int|
            #![trigger parts[i]]
            0 <= i < parts.len() ==> 0 <= parts[i].0 <= parts[i].1 <= u64::MAX,
    ensures
        batches_of_parts(parts).flatten() == covered(parts),
    decreases parts.len(),
{
    if parts.len() > 0 {
        let rest = parts.skip(1);
        assert forall|i: int|
            #![trigger rest[i]]
            0 <= i < rest.len() implies 0 <= rest[i].0 <= rest[i].1 <= u64::MAX by {
            assert(rest[i] == parts[i + 1]);
        }
        lemma_batches_of_parts(rest);
        lemma_batches_cover(parts[0].0 as u64, parts[0].1 as u64);
        vstd::seq_lib::lemma_flatten_concat(
            stretch_blocks(stretches(parts[0].0, parts[0].1, BLOCKS_PER_BATCH as int)),
            batches_of_parts(rest),
        );
    }
}

/// A run that stops after `k` of its parts, and is started again from the checkpoint that it saved
/// last, has exactly the other parts left: it repeats no block and leaves none out.
pub proof fn lemma_resume_exact(run: Extraction, start_block: u64, k: int)
    requires
        start_block <= run.current <= run.end_block,
        run.end_block < u64::MAX,
        0 < k <= run.remaining().len(),
    ensures
        ({
            let checkpoint = (run.remaining()[k - 1].1 + 1) as u64;
            let again = begin_at(
                checkpoint_read(decimal_text(checkpoint as nat)),
                start_block,
                run.end_block,
            );
            &&& checkpoint == run.remaining()[k - 1].1 + 1
            &&& again == checkpoint
            &&& stretches(again as int, run.end_block as int, BLOCKS_PER_PART as int)
                == run.remaining().skip(k)
            &&& covered(run.remaining().take(k)) + block_range(again as int, run.end_block as int)
                == block_range(run.current as int, run.end_block as int)
        }),
{
    let size = BLOCKS_PER_PART as int;
    let list = run.remaining();
    let checkpoint = (list[k - 1].1 + 1) as u64;
    lemma_stretches_go_on(run.current as int, run.end_block as int, size, k);
    lemma_checkpoint_round_trip(checkpoint);
    lemma_stretches_cover(run.current as int, run.end_block as int, size);
    lemma_stretches_cover(checkpoint as int, run.end_block as int, size);
    lemma_covered_joined(list.take(k), list.skip(k));
    assert(list.take(k) + list.skip(k) =~= list);
}

/// What two lists of stretches cover one after the other is what they cover joined.
proof fn lemma_covered_joined(front: Seq<(int, int)>, back: Seq<(int, int)>)
    ensures
        covered(front + back) == covered(front) + covered(back),
    decreases front.len(),
{
    if front.len() == 0 {
        assert(front + back =~= back);
        assert(covered(front) + covered(back) =~= covered(back));
    } else {
        lemma_covered_joined(front.skip(1), back);
        assert((front + back).skip(1) =~= front.skip(1) + back);
        assert(covered(front + back) =~= covered(front) + covered(back));
    }
}

} // verus!
