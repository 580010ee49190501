//! The files that an extraction leaves: their names, their contents, and where they go.
use crate::number::{
    decimal, decimal_text, lemma_numeral_texts, lemma_padded_text, number_read, padded_decimal,
    padded_text, NumberError,
};
use crate::text::texts;
use flate2::write::GzEncoder;
use flate2::Compression;
use vstd::prelude::*;
use vstd::string::*;
use vstd::utf8::*;

verus! {

// ---------------------------------------------------------------------------
// Names
// ---------------------------------------------------------------------------

/// The file that tells whether a part number is taken.
pub open spec fn part_name(chain: Seq<char>, part: u32) -> Seq<char> {
    "output/"@ + chain + "_addresses_part_"@ + padded_text(part as nat) + ".csv.gz"@
}

/// The file of a part that covers the blocks from `first` to `last`.
pub open spec fn archive_name(chain: Seq<char>, first: u64, last: u64, part: u32) -> Seq<char> {
    "output/"@ + chain + "_blocks_"@ + decimal_text(first as nat) + "_to_"@ + decimal_text(
        last as nat,
    ) + "_part_"@ + padded_text(part as nat) + ".csv.gz"@
}

/// Names the file that tells whether a part number is taken.
pub fn part_file_name(chain: &str, part: u32) -> (name: String)
    ensures
        name@ == part_name(chain@, part),
{
    let mut name: String = "output/".to_owned();
    name.append(chain);
    name.append("_addresses_part_");
    name.append(padded_decimal(part).as_str());
    name.append(".csv.gz");
    name
}

/// Names the file of a part that covers the blocks from `first_block` to `last_block`.
pub fn archive_file_name(chain: &str, first_block: u64, last_block: u64, part: u32) -> (name: String)
    ensures
        name@ == archive_name(chain@, first_block, last_block, part),
{
    let mut name: String = "output/".to_owned();
    name.append(chain);
    name.append("_blocks_");
    name.append(decimal(first_block).as_str());
    name.append("_to_");
    name.append(decimal(last_block).as_str());
    name.append("_part_");
    name.append(padded_decimal(part).as_str());
    name.append(".csv.gz");
    name
}

/// The question `is_there` may be answered with `answer` for the file called `name`.
pub open spec fn may_answer<F: Fn(&String) -> bool>(is_there: F, name: Seq<char>, answer: bool) -> bool {
    exists|file: String| file@ == name && #[trigger] call_ensures(is_there, (&file,), answer)
}

/// Finds the first part number, counted from one, whose file is not there. `is_there` tells whether a
/// file is there. Nothing is found where every part number is taken.
pub fn get_next_part<F: Fn(&String) -> bool>(chain: &str, is_there: F) -> (part: Option<u32>)
    requires
        forall|file: String| #[trigger] call_requires(is_there, (&file,)),
    ensures
        match part {
            Some(part) => {
                &&& part >= 1
                &&& may_answer(is_there, part_name(chain@, part), false)
                &&& forall|taken: u32|
                    1 <= taken < part ==> may_answer(is_there, #[trigger] part_name(chain@, taken), true)
            },
            None => forall|taken: u32|
                1 <= taken ==> may_answer(is_there, #[trigger] part_name(chain@, taken), true),
        },
{
    let mut part: u32 = 1;
    loop
        invariant
            part >= 1,
            forall|file: String| #[trigger] call_requires(is_there, (&file,)),
            forall|taken: u32|
                1 <= taken < part ==> may_answer(is_there, #[trigger] part_name(chain@, taken), true),
        decreases u32::MAX - part,
    {
        let name: String = part_file_name(chain, part);
        if !is_there(&name) {
            return Some(part);
        }
        if part == u32::MAX {
            return None;
        }
        part += 1;
    }
}

/// An answer may be given for a name only where the question, put for a file of just that name, may be
/// answered so.
pub proof fn lemma_may_answer<F: Fn(&String) -> bool>(is_there: F, name: Seq<char>, answer: bool)
    ensures
        may_answer(is_there, name, answer) <==> exists|file: String|
            file@ == name && #[trigger] call_ensures(is_there, (&file,), answer),
{
}

/// A name tells what the file holds: its chain stands behind the directory, and between the words stand
/// the first block, the last block and the number of the part, each readable as a number.
pub proof fn lemma_names(chain: Seq<char>, first: u64, last: u64, part: u32)
    ensures
        ({
            let head = "output/"@ + chain + "_addresses_part_"@;
            let digits = padded_text(part as nat);
            &&& part_name(chain, part) == head + digits + ".csv.gz"@
            &&& number_read(digits, 10) == Ok::<u64, NumberError>(part as u64)
        }),
        ({
            let head = "output/"@ + chain + "_blocks_"@;
            let (from, to, digits) = (
                decimal_text(first as nat),
                decimal_text(last as nat),
                padded_text(part as nat),
            );
            &&& archive_name(chain, first, last, part) == head + from + "_to_"@ + to + "_part_"@ + digits
                + ".csv.gz"@
            &&& number_read(from, 10) == Ok::<u64, NumberError>(first)
            &&& number_read(to, 10) == Ok::<u64, NumberError>(last)
            &&& number_read(digits, 10) == Ok::<u64, NumberError>(part as u64)
        }),
{
    lemma_padded_text(part);
    lemma_numeral_texts(first);
    lemma_numeral_texts(last);
}

/// The characters of `s` are all decimal digits.
spec fn only_digits(s: Seq<char>) -> bool {
    forall|i: int| 0 <= i < s.len() ==> '0' <= #[trigger] s[i] <= '9'
}

proof fn lemma_only_digits(n: u64)
    ensures
        only_digits(decimal_text(n as nat)),
        n <= u32::MAX ==> only_digits(padded_text(n as nat)),
{
    crate::number::lemma_digits_round_trip(n, 10);
    let digits = decimal_text(n as nat);
    assert forall|i: int| 0 <= i < digits.len() implies '0' <= #[trigger] digits[i] <= '9' by {
        let d = choose|d: int| 0 <= d < 10 && #[trigger] crate::number::digit_char(d) == digits[i];
    }
    let padded = padded_text(n as nat);
    let fill = padded.len() - digits.len();
    assert forall|i: int| 0 <= i < padded.len() implies '0' <= #[trigger] padded[i] <= '9' by {
        if i >= fill {
            assert(padded[i] == digits[i - fill]);
        }
    }
}

/// Where two texts begin with digits and go on with something else, their digits agree.
proof fn lemma_digits_split(a: Seq<char>, s: Seq<char>, b: Seq<char>, t: Seq<char>)
    requires
        a + s == b + t,
        only_digits(a),
        only_digits(b),
        s.len() > 0,
        t.len() > 0,
        !('0' <= s[0] <= '9'),
        !('0' <= t[0] <= '9'),
    ensures
        a == b,
        s == t,
{
    let whole = a + s;
    assert(whole[a.len() as int] == s[0]);
    assert((b + t)[b.len() as int] == t[0]);
    if a.len() < b.len() {
        assert((b + t)[a.len() as int] == b[a.len() as int]);
    } else if b.len() < a.len() {
        assert(whole[b.len() as int] == a[b.len() as int]);
    }
    assert forall|i: int| 0 <= i < a.len() implies a[i] == b[i] by {
        assert(whole[i] == a[i]);
        assert((b + t)[i] == b[i]);
    }
    assert(a =~= b);
    assert(s =~= whole.skip(a.len() as int));
    assert(t =~= (b + t).skip(b.len() as int));
}

/// Different part numbers of a chain are told apart by different files.
pub proof fn lemma_part_names_differ(chain: Seq<char>, a: u32, b: u32)
    requires
        part_name(chain, a) == part_name(chain, b),
    ensures
        a == b,
{
    let head = "output/"@ + chain + "_addresses_part_"@;
    let tail = ".csv.gz"@;
    let (x, y) = (padded_text(a as nat), padded_text(b as nat));
    reveal_strlit(".csv.gz");
    assert(part_name(chain, a) =~= head + (x + tail));
    assert(part_name(chain, b) =~= head + (y + tail));
    lemma_same_head(head, x + tail, y + tail);
    lemma_only_digits(a as u64);
    lemma_only_digits(b as u64);
    lemma_digits_split(x, tail, y, tail);
    crate::number::lemma_padded_injective(a, b);
}

/// Parts of a chain that differ in their blocks or in their number have different files.
pub proof fn lemma_archive_names_differ(
    chain: Seq<char>,
    first_a: u64,
    last_a: u64,
    part_a: u32,
    first_b: u64,
    last_b: u64,
    part_b: u32,
)
    requires
        archive_name(chain, first_a, last_a, part_a) == archive_name(chain, first_b, last_b, part_b),
    ensures
        first_a == first_b,
        last_a == last_b,
        part_a == part_b,
{
    let (fa, fb) = (decimal_text(first_a as nat), decimal_text(first_b as nat));
    let (la, lb) = (decimal_text(last_a as nat), decimal_text(last_b as nat));
    let (pa, pb) = (padded_text(part_a as nat), padded_text(part_b as nat));
    let head = "output/"@ + chain + "_blocks_"@;
    let tail = ".csv.gz"@;
    reveal_strlit("_to_");
    reveal_strlit("_part_");
    reveal_strlit(".csv.gz");
    lemma_archive_name_parts(head, fa, la, pa, tail);
    lemma_archive_name_parts(head, fb, lb, pb, tail);
    lemma_only_digits(first_a);
    lemma_only_digits(first_b);
    lemma_only_digits(last_a);
    lemma_only_digits(last_b);
    lemma_only_digits(part_a as u64);
    lemma_only_digits(part_b as u64);
    let (qa, qb) = ("_part_"@ + (pa + tail), "_part_"@ + (pb + tail));
    let (ta, tb) = ("_to_"@ + (la + qa), "_to_"@ + (lb + qb));
    lemma_same_head(head, fa + ta, fb + tb);
    lemma_digits_split(fa, ta, fb, tb);
    lemma_same_head("_to_"@, la + qa, lb + qb);
    lemma_digits_split(la, qa, lb, qb);
    lemma_same_head("_part_"@, pa + tail, pb + tail);
    lemma_digits_split(pa, tail, pb, tail);
    crate::number::lemma_decimal_injective(first_a, first_b);
    crate::number::lemma_decimal_injective(last_a, last_b);
    crate::number::lemma_padded_injective(part_a, part_b);
}

/// The pieces of a name, joined from the left or from the right.
proof fn lemma_archive_name_parts(
    head: Seq<char>,
    first: Seq<char>,
    last: Seq<char>,
    part: Seq<char>,
    tail: Seq<char>,
)
    ensures
        head + first + "_to_"@ + last + "_part_"@ + part + tail == head + (first + ("_to_"@ + (last + (
        "_part_"@ + (part + tail))))),
{
    assert(head + first + "_to_"@ + last + "_part_"@ + part + tail =~= head + (first + ("_to_"@ + (
    last + ("_part_"@ + (part + tail))))));
}

/// Texts with the same beginning are equal where the rest is.
proof fn lemma_same_head(head: Seq<char>, a: Seq<char>, b: Seq<char>)
    requires
        head + a == head + b,
    ensures
        a == b,
{
    assert(a =~= (head + a).skip(head.len() as int));
    assert(b =~= (head + b).skip(head.len() as int));
}

// ---------------------------------------------------------------------------
// Contents
// ---------------------------------------------------------------------------

/// A field needs quotes where it holds a comma, a quote or the end of a line.
pub open spec fn needs_quotes(field: Seq<u8>) -> bool {
    exists|i: int|
        0 <= i < field.len() && (#[trigger] field[i] == 44 || field[i] == 34 || field[i] == 13
            || field[i] == 10)
}

/// `field` with each quote doubled.
pub open spec fn quotes_doubled(field: Seq<u8>) -> Seq<u8>
    decreases field.len(),
{
    if field.len() == 0 {
        Seq::empty()
    } else if field.last() == 34 {
        quotes_doubled(field.drop_last()) + seq![34u8, 34u8]
    } else {
        quotes_doubled(field.drop_last()).push(field.last())
    }
}

/// A row of one field: the field, in quotes where it needs them or is empty, and the end of the line.
pub open spec fn csv_row(field: Seq<u8>) -> Seq<u8> {
    if field.len() == 0 {
        seq![34u8, 34u8, 10u8]
    } else if needs_quotes(field) {
        seq![34u8] + quotes_doubled(field) + seq![34u8, 10u8]
    } else {
        field.push(10)
    }
}

/// The rows of a list of fields.
pub open spec fn csv_rows(fields: Seq<Seq<char>>) -> Seq<u8>
    decreases fields.len(),
{
    if fields.len() == 0 {
        Seq::empty()
    } else {
        csv_rows(fields.drop_last()) + csv_row(encode_utf8(fields.last()))
    }
}

/// The table of a list of addresses: one column called `address`, one row for each, in order.
pub open spec fn csv_table(addresses: Seq<Seq<char>>) -> Seq<u8> {
    csv_row(encode_utf8("address"@)) + csv_rows(addresses)
}

/// Rows are written one after the other: joined lists of fields give joined rows, one field gives its
/// row, and a table is its title followed by the rows.
pub proof fn lemma_csv_rows_joined(a: Seq<Seq<char>>, b: Seq<Seq<char>>, field: Seq<char>)
    ensures
        csv_rows(Seq::empty()).len() == 0,
        csv_rows(seq![field]) == csv_row(encode_utf8(field)),
        csv_rows(a + b) == csv_rows(a) + csv_rows(b),
        csv_table(a) == csv_rows(seq!["address"@] + a),
    decreases b.len(),
{
    lemma_csv_rows_first(seq![field]);
    assert(seq![field].skip(1) =~= Seq::<Seq<char>>::empty());
    assert(csv_rows(seq![field]) =~= csv_row(encode_utf8(field)));
    if b.len() == 0 {
        assert(a + b =~= a);
    } else {
        lemma_csv_rows_joined(a, b.drop_last(), field);
        assert((a + b).drop_last() =~= a + b.drop_last());
        assert((a + b).last() == b.last());
    }
    assert(csv_rows(a + b) =~= csv_rows(a) + csv_rows(b));
    lemma_csv_rows_first(seq!["address"@] + a);
    assert((seq!["address"@] + a).skip(1) =~= a);
}

/// A field without commas, quotes and ends of lines is written as it is, any other between quotes with
/// each of its quotes doubled, and every row ends with a line feed.
pub proof fn lemma_csv_row(field: Seq<u8>, more: Seq<u8>, byte: u8)
    ensures
        field.len() > 0 && (forall|i: int|
            0 <= i < field.len() ==> #[trigger] field[i] != 44 && field[i] != 34 && field[i] != 13
                && field[i] != 10) ==> csv_row(field) == field.push(10),
        field.len() == 0 || (exists|i: int|
            0 <= i < field.len() && (#[trigger] field[i] == 44 || field[i] == 34 || field[i] == 13
                || field[i] == 10)) ==> csv_row(field) == seq![34u8] + quotes_doubled(field) + seq![
            34u8,
            10u8,
        ],
        quotes_doubled(Seq::empty()).len() == 0,
        quotes_doubled(seq![byte]) == if byte == 34 {
            seq![34u8, 34u8]
        } else {
            seq![byte]
        },
        quotes_doubled(field + more) == quotes_doubled(field) + quotes_doubled(more),
    decreases more.len(),
{
    lemma_quotes_doubled_first(seq![byte]);
    assert(seq![byte].skip(1) =~= Seq::<u8>::empty());
    assert(quotes_doubled(seq![byte]) =~= if byte == 34 {
        seq![34u8, 34u8]
    } else {
        seq![byte]
    });
    if field.len() == 0 {
        assert(csv_row(field) =~= seq![34u8] + quotes_doubled(field) + seq![34u8, 10u8]);
    }
    if more.len() == 0 {
        assert(field + more =~= field);
    } else {
        lemma_csv_row(field, more.drop_last(), byte);
        assert((field + more).drop_last() =~= field + more.drop_last());
        assert((field + more).last() == more.last());
    }
    assert(quotes_doubled(field + more) =~= quotes_doubled(field) + quotes_doubled(more));
}

/// No table stands for two lists of addresses: a table can be read back.
pub proof fn lemma_csv_table_injective(a: Seq<Seq<char>>, b: Seq<Seq<char>>)
    requires
        csv_table(a) == csv_table(b),
    ensures
        a == b,
{
    let head = csv_row(encode_utf8("address"@));
    assert(csv_rows(a) =~= csv_table(a).skip(head.len() as int));
    assert(csv_rows(b) =~= csv_table(b).skip(head.len() as int));
    lemma_csv_rows_injective(a, b);
}

proof fn lemma_csv_rows_injective(a: Seq<Seq<char>>, b: Seq<Seq<char>>)
    requires
        csv_rows(a) == csv_rows(b),
    ensures
        a == b,
    decreases a.len(),
{
    lemma_csv_rows_first(a);
    lemma_csv_rows_first(b);
    if a.len() > 0 && b.len() > 0 {
        lemma_csv_row_ends(
            encode_utf8(a[0]),
            csv_rows(a.skip(1)),
            encode_utf8(b[0]),
            csv_rows(b.skip(1)),
        );
        encode_utf8_decode_utf8(a[0]);
        encode_utf8_decode_utf8(b[0]);
        lemma_csv_rows_injective(a.skip(1), b.skip(1));
        assert(a =~= seq![a[0]] + a.skip(1));
        assert(b =~= seq![b[0]] + b.skip(1));
    } else {
        assert(a =~= b);
    }
}

/// The rows of a list begin with the row of its first field.
proof fn lemma_csv_rows_first(fields: Seq<Seq<char>>)
    ensures
        fields.len() > 0 ==> csv_rows(fields) == csv_row(encode_utf8(fields[0])) + csv_rows(
            fields.skip(1),
        ),
        fields.len() > 0 ==> csv_rows(fields).len() > 0,
        fields.len() == 0 ==> csv_rows(fields).len() == 0,
    decreases fields.len(),
{
    if fields.len() == 1 {
        assert(fields.drop_last() =~= Seq::<Seq<char>>::empty());
        assert(fields.skip(1) =~= Seq::<Seq<char>>::empty());
        assert(csv_rows(fields) =~= csv_row(encode_utf8(fields[0])) + csv_rows(fields.skip(1)));
    } else if fields.len() > 1 {
        let front = fields.drop_last();
        lemma_csv_rows_first(front);
        assert(front.skip(1) =~= fields.skip(1).drop_last());
        assert(csv_rows(fields) =~= csv_row(encode_utf8(fields[0])) + csv_rows(fields.skip(1)));
    }
}

/// Where a row ends, and which field it holds, does not depend on what follows it.
proof fn lemma_csv_row_ends(a: Seq<u8>, s: Seq<u8>, b: Seq<u8>, t: Seq<u8>)
    requires
        csv_row(a) + s == csv_row(b) + t,
    ensures
        a == b,
        s == t,
{
    let quoted_a = a.len() == 0 || needs_quotes(a);
    let quoted_b = b.len() == 0 || needs_quotes(b);
    let (left, right) = (csv_row(a) + s, csv_row(b) + t);
    if !quoted_a {
        assert(left[0] == a[0]);
    }
    if !quoted_b {
        assert(right[0] == b[0]);
    }
    assert(quoted_a ==> left[0] == 34);
    assert(quoted_b ==> right[0] == 34);
    assert(quoted_a == quoted_b);
    if quoted_a {
        let (x, y) = (
            quotes_doubled(a) + (seq![34u8, 10u8] + s),
            quotes_doubled(b) + (seq![34u8, 10u8] + t),
        );
        assert(left.skip(1) =~= x);
        assert(right.skip(1) =~= y);
        lemma_quoted_ends(a, s, b, t);
    } else {
        assert(left[a.len() as int] == 10);
        assert(right[b.len() as int] == 10);
        if a.len() < b.len() {
            assert(right[a.len() as int] == b[a.len() as int]);
        } else if b.len() < a.len() {
            assert(left[b.len() as int] == a[b.len() as int]);
        }
        assert forall|i: int| 0 <= i < a.len() implies a[i] == b[i] by {
            assert(left[i] == a[i]);
            assert(right[i] == b[i]);
        }
        assert(a =~= b);
        assert(s =~= left.skip(a.len() as int + 1));
        assert(t =~= right.skip(b.len() as int + 1));
    }
}

/// A quoted field ends at the first quote that is not doubled.
proof fn lemma_quoted_ends(a: Seq<u8>, s: Seq<u8>, b: Seq<u8>, t: Seq<u8>)
    requires
        quotes_doubled(a) + (seq![34u8, 10u8] + s) == quotes_doubled(b) + (seq![34u8, 10u8] + t),
    ensures
        a == b,
        s == t,
    decreases a.len() + b.len(),
{
    let (end_a, end_b) = (seq![34u8, 10u8] + s, seq![34u8, 10u8] + t);
    let (left, right) = (quotes_doubled(a) + end_a, quotes_doubled(b) + end_b);
    lemma_quotes_doubled_first(a);
    lemma_quotes_doubled_first(b);
    if a.len() == 0 {
        assert(left =~= end_a);
        assert(left[0] == 34 && left[1] == 10);
    }
    if b.len() == 0 {
        assert(right =~= end_b);
        assert(right[0] == 34 && right[1] == 10);
    }
    if a.len() > 0 {
        assert(left[0] == a[0]);
        assert(a[0] == 34 ==> left[1] == 34);
    }
    if b.len() > 0 {
        assert(right[0] == b[0]);
        assert(b[0] == 34 ==> right[1] == 34);
    }
    if a.len() > 0 && b.len() > 0 {
        let width: int = if a[0] == 34 {
            2
        } else {
            1
        };
        assert(left.skip(width) =~= quotes_doubled(a.skip(1)) + end_a);
        assert(right.skip(width) =~= quotes_doubled(b.skip(1)) + end_b);
        lemma_quoted_ends(a.skip(1), s, b.skip(1), t);
        assert(a =~= seq![a[0]] + a.skip(1));
        assert(b =~= seq![b[0]] + b.skip(1));
    } else {
        assert(a =~= b);
        assert(s =~= left.skip(2));
        assert(t =~= right.skip(2));
    }
}

/// Doubling quotes, seen from the first byte.
proof fn lemma_quotes_doubled_first(field: Seq<u8>)
    ensures
        field.len() > 0 ==> quotes_doubled(field) == (if field[0] == 34 {
            seq![34u8, 34u8]
        } else {
            seq![field[0]]
        }) + quotes_doubled(field.skip(1)),
    decreases field.len(),
{
    if field.len() == 1 {
        assert(field.drop_last() =~= Seq::<u8>::empty());
        assert(field.skip(1) =~= Seq::<u8>::empty());
        assert(quotes_doubled(field) =~= (if field[0] == 34 {
            seq![34u8, 34u8]
        } else {
            seq![field[0]]
        }) + quotes_doubled(field.skip(1)));
    } else if field.len() > 1 {
        let front = field.drop_last();
        lemma_quotes_doubled_first(front);
        assert(front.skip(1) =~= field.skip(1).drop_last());
        assert(quotes_doubled(field) =~= (if field[0] == 34 {
            seq![34u8, 34u8]
        } else {
            seq![field[0]]
        }) + quotes_doubled(field.skip(1)));
    }
}

/// A `flate2::write::GzEncoder` that compresses into memory.
#[verifier::external_body]
pub struct GzipStream {
    inner: GzEncoder<Vec<u8>>,
}

/// A `csv::Writer` in front of such a compressor.
#[verifier::external_body]
pub struct CsvSheet {
    inner: csv::Writer<GzEncoder<Vec<u8>>>,
}

/// The bytes, not yet compressed, that a stream has taken in.
pub uninterp spec fn gzip_taken(stream: GzipStream) -> Seq<u8>;

/// The bytes that a sheet has handed to the stream behind it, or still holds back for it.
pub uninterp spec fn sheet_written(sheet: CsvSheet) -> Seq<u8>;

/// What a gzip reader, such as `flate2::read::GzDecoder`, makes of these bytes; nothing where they are
/// no gzip file.
pub uninterp spec fn gunzipped(bytes: Seq<u8>) -> Option<Seq<u8>>;

/// `flate2::write::GzEncoder::new`, with the level `Compression::default()`, makes a compressor that
/// has taken nothing in.
#[verifier::external_body]
fn open_stream() -> (stream: GzipStream)
    ensures
        gzip_taken(stream) == Seq::<u8>::empty(),
{
    GzipStream { inner: GzEncoder::new(Vec::new(), Compression::default()) }
}

/// `csv::Writer::from_writer` puts a CSV writer in front of a stream, and writes nothing itself.
#[verifier::external_body]
fn open_sheet(stream: GzipStream) -> (sheet: CsvSheet)
    ensures
        sheet_written(sheet) == gzip_taken(stream),
{
    CsvSheet { inner: csv::Writer::from_writer(stream.inner) }
}

/// `csv::Writer::write_record` with a record of one field writes one row. It doubles quotes, quotes
/// where that is necessary, and ends the row with a line feed, as the defaults of the crate have it.
/// It succeeds: all rows of a sheet have one field, and the stream behind it takes its bytes into
/// memory, where neither the compressor of `flate2` (`miniz_oxide`) nor a `Vec` refuses any.
#[verifier::external_body]
fn write_row(sheet: CsvSheet, field: &str) -> (result: Result<CsvSheet, String>)
    ensures
        result is Ok,
        sheet_written(result->Ok_0) == sheet_written(sheet) + csv_row(encode_utf8(field@)),
{
    let mut sheet = sheet;
    match sheet.inner.write_record([field]) {
        Ok(()) => Ok(sheet),
        Err(error) => Err(error.to_string()),
    }
}

/// `csv::Writer::flush` hands on what the sheet holds back; nothing is added. It succeeds, as the
/// stream behind the sheet takes its bytes into memory.
#[verifier::external_body]
fn flush_sheet(sheet: CsvSheet) -> (result: Result<CsvSheet, String>)
    ensures
        result is Ok,
        sheet_written(result->Ok_0) == sheet_written(sheet),
{
    let mut sheet = sheet;
    match sheet.inner.flush() {
        Ok(()) => Ok(sheet),
        Err(error) => Err(error.to_string()),
    }
}

/// `csv::Writer::into_inner` gives the stream back, with all that the sheet has written. It fails only
/// where flushing does, and so it succeeds.
#[verifier::external_body]
fn close_sheet(sheet: CsvSheet) -> (result: Result<GzipStream, String>)
    ensures
        result is Ok,
        gzip_taken(result->Ok_0) == sheet_written(sheet),
{
    match sheet.inner.into_inner() {
        Ok(inner) => Ok(GzipStream { inner }),
        Err(error) => Err(error.into_error().to_string()),
    }
}

/// `flate2::write::GzEncoder::finish` ends the compression: what a gzip reader makes of the bytes is
/// what the stream has taken in. It succeeds, as the stream compresses into memory. Which bytes come
/// out is not stated.
#[verifier::external_body]
fn close_stream(stream: GzipStream) -> (result: Result<Vec<u8>, String>)
    ensures
        result is Ok,
        gunzipped(result->Ok_0@) == Some(gzip_taken(stream)),
{
    match stream.inner.finish() {
        Ok(bytes) => Ok(bytes),
        Err(error) => Err(error.to_string()),
    }
}

/// The contents of a file for these addresses: their table, compressed. Written to memory, it never
/// fails.
pub fn gzip_csv(addresses: &Vec<String>) -> (result: Result<Vec<u8>, String>)
    ensures
        result is Ok,
        gunzipped(result->Ok_0@) == Some(csv_table(texts(addresses@))),
{
    let ghost all = texts(addresses@);
    let mut sheet: CsvSheet = match write_row(open_sheet(open_stream()), "address") {
        Ok(sheet) => sheet,
        Err(error) => return Err(error),
    };
    let mut i: usize = 0;
    assert(all.take(0) =~= Seq::<Seq<char>>::empty());
    assert(sheet_written(sheet) =~= csv_table(all.take(0)));
    while i < addresses.len()
        invariant
            i <= addresses.len(),
            all == texts(addresses@),
            sheet_written(sheet) == csv_table(all.take(i as int)),
        decreases addresses.len() - i,
    {
        sheet = match write_row(sheet, addresses[i].as_str()) {
            Ok(sheet) => sheet,
            Err(error) => return Err(error),
        };
        proof {
            assert(all.take(i + 1).drop_last() =~= all.take(i as int));
            assert(all.take(i + 1).last() == addresses@[i as int]@);
            assert(sheet_written(sheet) =~= csv_table(all.take(i + 1)));
        }
        i += 1;
    }
    assert(all.take(i as int) =~= all);
    let flushed: CsvSheet = match flush_sheet(sheet) {
        Ok(sheet) => sheet,
        Err(error) => return Err(error),
    };
    match close_sheet(flushed) {
        Ok(stream) => close_stream(stream),
        Err(error) => Err(error),
    }
}

// ---------------------------------------------------------------------------
// Release
// ---------------------------------------------------------------------------

/// The arguments with which the tool `gh` adds a file to a release, replacing one of the same name.
pub fn upload_arguments(tag: &str, file_name: &str) -> (arguments: Vec<String>)
    ensures
        texts(arguments@) == seq!["release"@, "upload"@, tag@, file_name@, "--clobber"@],
{
    let arguments: Vec<String> = vec![
        "release".to_owned(),
        "upload".to_owned(),
        tag.to_owned(),
        file_name.to_owned(),
        "--clobber".to_owned(),
    ];
    assert(texts(arguments@) =~= seq!["release"@, "upload"@, tag@, file_name@, "--clobber"@]);
    arguments
}

/// What is said where the upload of a file fails.
pub fn upload_failure(file_name: &str) -> (text: String)
    ensures
        text@ == "GitHub release upload failed for "@ + file_name@,
{
    let mut text: String = "GitHub release upload failed for ".to_owned();
    text.append(file_name);
    text
}

/// What the end of an upload means: an error where the release tool did not succeed.
pub fn upload_outcome(file_name: &str, success: bool) -> (result: Result<(), String>)
    ensures
        match result {
            Ok(_) => success,
            Err(error) => !success && error@ == "GitHub release upload failed for "@ + file_name@,
        },
{
    if success {
        Ok(())
    } else {
        Err(upload_failure(file_name))
    }
}

} // verus!
