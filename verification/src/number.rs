//! Numerals: unsigned 64-bit numbers read from and written as text.
use crate::text::chars_of;
use vstd::prelude::*;

verus! {

/// Why a text is not the numeral of a `u64`.
#[derive(Clone, Copy, Debug, PartialEq, Eq, Structural)]
pub enum NumberError {
    /// The text is empty.
    Empty,
    /// A character is no digit of the radix, or a sign stands alone.
    InvalidDigit,
    /// The number is larger than a `u64` can hold.
    Overflow,
}

impl NumberError {
    /// The words for the error.
    pub open spec fn words(self) -> Seq<char> {
        match self {
            NumberError::Empty => "cannot parse integer from empty string"@,
            NumberError::InvalidDigit => "invalid digit found in string"@,
            NumberError::Overflow => "number too large to fit in target type"@,
        }
    }

    /// The error in words.
    pub fn message(&self) -> (text: String)
        ensures
            text@ == self.words(),
    {
        match self {
            NumberError::Empty => "cannot parse integer from empty string".to_owned(),
            NumberError::InvalidDigit => "invalid digit found in string".to_owned(),
            NumberError::Overflow => "number too large to fit in target type".to_owned(),
        }
    }
}

/// The value of `c` as a digit of the radix (at most 36), letters counting from ten in either case.
pub open spec fn digit_value(c: char, radix: int) -> Option<int> {
    let value: int = if '0' <= c <= '9' {
        c as int - '0' as int
    } else if 'a' <= c <= 'z' {
        c as int - 'a' as int + 10
    } else if 'A' <= c <= 'Z' {
        c as int - 'A' as int + 10
    } else {
        radix
    };
    if value < radix {
        Some(value)
    } else {
        None
    }
}

/// The digit of value `d`, letters in lower case.
pub open spec fn digit_char(d: int) -> char {
    if d < 10 {
        ('0' as int + d) as char
    } else {
        ('a' as int + d - 10) as char
    }
}

/// What a row of digits says, read from the left: its value, or what is wrong with the first
/// character at which reading fails.
pub open spec fn digits_read(s: Seq<char>, radix: int) -> Result<u64, NumberError>
    decreases s.len(),
{
    if s.len() == 0 {
        Ok(0u64)
    } else {
        match digits_read(s.drop_last(), radix) {
            Err(error) => Err(error),
            Ok(value) => match digit_value(s.last(), radix) {
                None => Err(NumberError::InvalidDigit),
                Some(digit) => if value * radix + digit > u64::MAX {
                    Err(NumberError::Overflow)
                } else {
                    Ok((value * radix + digit) as u64)
                },
            },
        }
    }
}

/// What a text says as a numeral: an optional `+`, then at least one digit and nothing else.
pub open spec fn number_read(s: Seq<char>, radix: int) -> Result<u64, NumberError> {
    if s.len() == 0 {
        Err(NumberError::Empty)
    } else if s[0] != '+' {
        digits_read(s, radix)
    } else if s.len() == 1 {
        Err(NumberError::InvalidDigit)
    } else {
        digits_read(s.skip(1), radix)
    }
}

/// The numeral of `n` without leading zeros.
pub open spec fn digits_of(n: nat, radix: nat) -> Seq<char>
    decreases n,
{
    if radix < 2 || n < radix {
        seq![digit_char(n as int)]
    } else {
        proof {
            vstd::arithmetic::div_mod::lemma_div_decreases(n as int, radix as int);
        }
        digits_of(n / radix, radix).push(digit_char((n % radix) as int))
    }
}

/// `s` without any `0x` at its beginning, however often it is repeated.
pub open spec fn without_hex_mark(s: Seq<char>) -> Seq<char>
    decreases s.len(),
{
    if s.len() >= 2 && s[0] == '0' && s[1] == 'x' {
        without_hex_mark(s.skip(2))
    } else {
        s
    }
}

/// The number that a hexadecimal text stands for, with or without the mark `0x`.
pub open spec fn hex_read(s: Seq<char>) -> Option<u64> {
    match number_read(without_hex_mark(s), 16) {
        Ok(value) => Some(value),
        Err(_) => None,
    }
}

/// `n` in hexadecimal, behind the mark `0x`.
pub open spec fn hex_text(n: u64) -> Seq<char> {
    seq!['0', 'x'] + digits_of(n as nat, 16)
}

/// `n` in decimal.
pub open spec fn decimal_text(n: nat) -> Seq<char> {
    digits_of(n, 10)
}

/// `n` in decimal, filled up with zeros on the left to at least three characters.
pub open spec fn padded_text(n: nat) -> Seq<char> {
    if n < 10 {
        seq!['0', '0'] + decimal_text(n)
    } else if n < 100 {
        seq!['0'] + decimal_text(n)
    } else {
        decimal_text(n)
    }
}

proof fn lemma_digit(d: int, radix: int)
    requires
        0 <= d < radix <= 36,
    ensures
        digit_value(digit_char(d), radix) == Some(d),
        digit_char(d) != '+',
        d < 16 ==> digit_char(d) != 'x',
        !crate::text::is_white_space(digit_char(d)),
{
}

/// A numeral starts and ends with digits, and reading its digits gives the number back.
pub proof fn lemma_digits_round_trip(n: u64, radix: nat)
    requires
        2 <= radix <= 36,
    ensures
        digits_of(n as nat, radix).len() > 0,
        digits_read(digits_of(n as nat, radix), radix as int) == Ok::<u64, NumberError>(n),
        forall|i: int|
            0 <= i < digits_of(n as nat, radix).len() ==> exists|d: int|
                0 <= d < radix && #[trigger] digit_char(d) == #[trigger] digits_of(n as nat, radix)[i],
    decreases n,
{
    let s = digits_of(n as nat, radix);
    if n < radix {
        lemma_digit(n as int, radix as int);
        assert(s.drop_last() =~= Seq::<char>::empty());
        assert(digits_read(s.drop_last(), radix as int) == Ok::<u64, NumberError>(0u64));
        assert(0u64 * (radix as int) == 0) by (nonlinear_arith);
        assert(digit_value(s.last(), radix as int) == Some(n as int));
    } else {
        vstd::arithmetic::div_mod::lemma_div_decreases(n as int, radix as int);
        vstd::arithmetic::div_mod::lemma_fundamental_div_mod(n as int, radix as int);
        vstd::arithmetic::div_mod::lemma_div_pos_is_pos(n as int, radix as int);
        let upper: u64 = (n as nat / radix) as u64;
        assert(upper as nat == n as nat / radix);
        lemma_digits_round_trip(upper, radix);
        lemma_digit((n as nat % radix) as int, radix as int);
        assert(s.drop_last() =~= digits_of(upper as nat, radix));
        assert(upper * radix == radix as int * (n as int / radix as int)) by (nonlinear_arith)
            requires
                upper as int == n as int / radix as int,
        ;
        assert(upper * (radix as int) + (n as nat % radix) as int == n);
        assert forall|i: int| 0 <= i < s.len() implies exists|d: int|
            0 <= d < radix && #[trigger] digit_char(d) == #[trigger] s[i] by {
            if i < s.len() - 1 {
                assert(s[i] == digits_of(upper as nat, radix)[i]);
            } else {
                assert(s[i] == digit_char((n as nat % radix) as int));
            }
        }
    }
}

/// A numeral begins with no sign and with no mark `0x`, and has no white space at its two ends.
proof fn lemma_digits_edges(n: u64, radix: nat)
    requires
        2 <= radix <= 16,
    ensures
        digits_of(n as nat, radix).len() > 0,
        digits_of(n as nat, radix)[0] != '+',
        !crate::text::is_white_space(digits_of(n as nat, radix)[0]),
        !crate::text::is_white_space(digits_of(n as nat, radix).last()),
        digits_of(n as nat, radix).len() > 1 ==> digits_of(n as nat, radix)[1] != 'x',
{
    lemma_digits_round_trip(n, radix);
    let s = digits_of(n as nat, radix);
    let first = choose|d: int| 0 <= d < radix && #[trigger] digit_char(d) == s[0];
    lemma_digit(first, radix as int);
    let last_index = s.len() - 1;
    let last = choose|d: int| 0 <= d < radix && #[trigger] digit_char(d) == s[last_index];
    lemma_digit(last, radix as int);
    if s.len() > 1 {
        let second = choose|d: int| 0 <= d < radix && #[trigger] digit_char(d) == s[1];
        lemma_digit(second, radix as int);
    }
}

/// Reading the decimal text of a number gives the number back, and the text needs no trimming.
pub proof fn lemma_decimal_round_trip(n: u64)
    ensures
        number_read(decimal_text(n as nat), 10) == Ok::<u64, NumberError>(n),
        crate::text::trimmed(decimal_text(n as nat)) == decimal_text(n as nat),
{
    lemma_digits_round_trip(n, 10);
    lemma_digits_edges(n, 10);
    crate::text::lemma_trimmed_solid(decimal_text(n as nat));
}

/// Reading the hexadecimal text of a number gives the number back.
pub proof fn lemma_hex_round_trip(n: u64)
    ensures
        hex_read(hex_text(n)) == Some(n),
{
    lemma_digits_round_trip(n, 16);
    lemma_digits_edges(n, 16);
    let digits = digits_of(n as nat, 16);
    assert(hex_text(n).skip(2) =~= digits);
    assert(without_hex_mark(digits) == digits);
}

/// Two numbers with the same decimal text are equal.
pub proof fn lemma_decimal_injective(a: u64, b: u64)
    requires
        decimal_text(a as nat) == decimal_text(b as nat),
    ensures
        a == b,
{
    lemma_decimal_round_trip(a);
    lemma_decimal_round_trip(b);
}

/// A character has the value `v` as a digit exactly where it is the `v`th of `0` to `9` or, from ten
/// on, of `a` to `z` or of `A` to `Z`, and `v` is below the radix.
pub proof fn lemma_digit_values(c: char, v: int, radix: int)
    requires
        2 <= radix <= 36,
    ensures
        digit_value(c, radix) == Some(v) <==> {
            &&& 0 <= v < radix
            &&& {
                ||| v < 10 && c as int == '0' as int + v
                ||| v >= 10 && c as int == 'a' as int + (v - 10)
                ||| v >= 10 && c as int == 'A' as int + (v - 10)
            }
        },
{
}

/// How reading begins: no text is no number, one digit is its value, a single other character is no
/// number, and one `+` in front changes nothing but cannot be followed by another.
pub proof fn lemma_number_read_begins(c: char, s: Seq<char>, radix: int)
    requires
        2 <= radix <= 36,
        s.len() > 0,
    ensures
        number_read(Seq::empty(), radix) == Err::<u64, NumberError>(NumberError::Empty),
        number_read(seq![c], radix) == match digit_value(c, radix) {
            Some(v) => Ok::<u64, NumberError>(v as u64),
            None => Err::<u64, NumberError>(NumberError::InvalidDigit),
        },
        number_read(seq!['+'] + s, radix) == if s[0] == '+' {
            Err::<u64, NumberError>(NumberError::InvalidDigit)
        } else {
            number_read(s, radix)
        },
{
    reveal_with_fuel(digits_read, 2);
    let one = seq![c];
    assert(one.drop_last() =~= Seq::<char>::empty());
    assert(0u64 * radix == 0) by (nonlinear_arith);
    let signed = seq!['+'] + s;
    assert(signed.skip(1) =~= s);
    if s[0] == '+' {
        assert(s.take(1) =~= seq!['+']);
        assert(seq!['+'].drop_last() =~= Seq::<char>::empty());
        assert(digits_read(s.take(1), radix) == Err::<u64, NumberError>(NumberError::InvalidDigit));
        lemma_failure_stays(s, 1, radix);
    }
}

/// How reading goes on: what has failed stays failed, and a further digit multiplies the number by the
/// radix and adds to it, as long as that fits in a `u64`.
pub proof fn lemma_number_read_grows(s: Seq<char>, c: char, radix: int)
    requires
        2 <= radix <= 36,
        s.len() > 0,
        s != seq!['+'],
    ensures
        number_read(s.push(c), radix) == match number_read(s, radix) {
            Err(error) => Err::<u64, NumberError>(error),
            Ok(n) => match digit_value(c, radix) {
                None => Err::<u64, NumberError>(NumberError::InvalidDigit),
                Some(v) => if n * radix + v <= u64::MAX {
                    Ok::<u64, NumberError>((n * radix + v) as u64)
                } else {
                    Err::<u64, NumberError>(NumberError::Overflow)
                },
            },
        },
{
    let longer = s.push(c);
    assert(longer.drop_last() =~= s);
    if s[0] == '+' {
        if s.len() == 1 {
            assert(s =~= seq!['+']);
        }
        assert(longer.skip(1).drop_last() =~= s.skip(1));
        assert(longer.skip(1).last() == c);
    }
}

/// The numeral of a number reads back as that number, has no zero in front of other digits, and is
/// written with `0` to `9` and small letters only.
pub proof fn lemma_numeral(n: u64, radix: nat)
    requires
        2 <= radix <= 16,
    ensures
        number_read(digits_of(n as nat, radix), radix as int) == Ok::<u64, NumberError>(n),
        digits_of(n as nat, radix).len() > 1 ==> digits_of(n as nat, radix)[0] != '0',
        forall|i: int|
            #![trigger digits_of(n as nat, radix)[i]]
            0 <= i < digits_of(n as nat, radix).len() ==> {
                let c = digits_of(n as nat, radix)[i];
                '0' <= c <= '9' || 'a' <= c <= 'f'
            },
{
    lemma_digits_round_trip(n, radix);
    lemma_digits_edges(n, radix);
    lemma_no_leading_zero(n as nat, radix);
    let s = digits_of(n as nat, radix);
    assert forall|i: int| #![trigger s[i]] 0 <= i < s.len() implies '0' <= s[i] <= '9' || 'a' <= s[i]
        <= 'f' by {
        let d = choose|d: int| 0 <= d < radix && #[trigger] digit_char(d) == s[i];
        assert(digit_char(d) == s[i]);
    }
}

proof fn lemma_no_leading_zero(n: nat, radix: nat)
    requires
        2 <= radix <= 16,
    ensures
        digits_of(n, radix).len() >= 1,
        n > 0 ==> digits_of(n, radix)[0] != '0',
        n < radix ==> digits_of(n, radix).len() == 1,
    decreases n,
{
    if n >= radix {
        vstd::arithmetic::div_mod::lemma_div_decreases(n as int, radix as int);
        vstd::arithmetic::div_mod::lemma_div_non_zero(n as int, radix as int);
        lemma_no_leading_zero(n / radix, radix);
    }
}

/// The decimal and the hexadecimal text of a number are its numerals, the latter behind `0x`.
pub proof fn lemma_numeral_texts(n: u64)
    ensures
        number_read(decimal_text(n as nat), 10) == Ok::<u64, NumberError>(n),
        decimal_text(n as nat).len() > 1 ==> decimal_text(n as nat)[0] != '0',
        forall|i: int|
            0 <= i < decimal_text(n as nat).len() ==> '0' <= #[trigger] decimal_text(n as nat)[i]
                <= '9',
        hex_text(n).len() > 2,
        hex_text(n)[0] == '0',
        hex_text(n)[1] == 'x',
        number_read(hex_text(n).skip(2), 16) == Ok::<u64, NumberError>(n),
        hex_text(n).len() > 3 ==> hex_text(n)[2] != '0',
        forall|i: int|
            #![trigger hex_text(n)[i]]
            2 <= i < hex_text(n).len() ==> '0' <= hex_text(n)[i] <= '9' || 'a' <= hex_text(n)[i]
                <= 'f',
{
    lemma_numeral(n, 10);
    lemma_numeral(n, 16);
    lemma_digits_round_trip(n, 10);
    lemma_digits_round_trip(n, 16);
    let (ten, sixteen) = (decimal_text(n as nat), digits_of(n as nat, 16));
    assert forall|i: int| 0 <= i < ten.len() implies '0' <= #[trigger] ten[i] <= '9' by {
        let d = choose|d: int| 0 <= d < 10 && #[trigger] digit_char(d) == ten[i];
        assert(digit_char(d) == ten[i]);
    }
    assert(hex_text(n).skip(2) =~= sixteen);
    assert forall|i: int|
        #![trigger hex_text(n)[i]]
        2 <= i < hex_text(n).len() implies '0' <= hex_text(n)[i] <= '9' || 'a' <= hex_text(n)[i]
        <= 'f' by {
        assert(hex_text(n)[i] == sixteen[i - 2]);
    }
}

/// The padded text of a number reads as the number and has at least three characters; where it has
/// more, it is the decimal text.
pub proof fn lemma_padded_text(n: u32)
    ensures
        number_read(padded_text(n as nat), 10) == Ok::<u64, NumberError>(n as u64),
        padded_text(n as nat).len() >= 3,
        padded_text(n as nat).len() > 3 ==> padded_text(n as nat) == decimal_text(n as nat),
        forall|i: int|
            0 <= i < padded_text(n as nat).len() ==> '0' <= #[trigger] padded_text(n as nat)[i]
                <= '9',
{
    lemma_padded_reads(n);
    lemma_numeral_texts(n as u64);
    let digits = decimal_text(n as nat);
    let padded = padded_text(n as nat);
    reveal_with_fuel(digits_of, 4);
    if n >= 100 {
        assert(digits.len() >= 3);
    }
    let fill = padded.len() - digits.len();
    assert forall|i: int| 0 <= i < padded.len() implies '0' <= #[trigger] padded[i] <= '9' by {
        if i >= fill {
            assert(padded[i] == digits[i - fill]);
        }
    }
    assert('0' <= padded[0] <= '9');
}

/// A mark `0x` in front changes nothing, and a text without one reads as its hexadecimal digits.
pub proof fn lemma_hex_read(s: Seq<char>, n: u64)
    ensures
        hex_read(seq!['0', 'x'] + s) == hex_read(s),
        !(s.len() >= 2 && s[0] == '0' && s[1] == 'x') ==> (hex_read(s) == Some(n) <==> number_read(
            s,
            16,
        ) == Ok::<u64, NumberError>(n)),
{
    assert((seq!['0', 'x'] + s).skip(2) =~= s);
}

/// Leading zeros do not change what a row of digits says.
proof fn lemma_leading_zero(s: Seq<char>)
    ensures
        digits_read(seq!['0'] + s, 10) == digits_read(s, 10),
    decreases s.len(),
{
    let longer = seq!['0'] + s;
    if s.len() == 0 {
        assert(longer.drop_last() =~= Seq::<char>::empty());
        assert(digits_read(longer.drop_last(), 10) == Ok::<u64, NumberError>(0u64));
    } else {
        assert(longer.drop_last() =~= seq!['0'] + s.drop_last());
        assert(longer.last() == s.last());
        lemma_leading_zero(s.drop_last());
    }
}

/// Two numbers with the same padded text are equal.
pub proof fn lemma_padded_injective(a: u32, b: u32)
    requires
        padded_text(a as nat) == padded_text(b as nat),
    ensures
        a == b,
{
    lemma_padded_reads(a);
    lemma_padded_reads(b);
}

proof fn lemma_padded_reads(n: u32)
    ensures
        digits_read(padded_text(n as nat), 10) == Ok::<u64, NumberError>(n as u64),
{
    let digits = decimal_text(n as nat);
    lemma_digits_round_trip(n as u64, 10);
    lemma_leading_zero(digits);
    lemma_leading_zero(seq!['0'] + digits);
    assert(seq!['0', '0'] + digits =~= seq!['0'] + (seq!['0'] + digits));
}

/// A row of characters reads as a number exactly where each is a digit of the radix and the number
/// that they write fits in a `u64`, and it reads as that number.
pub proof fn lemma_digits_read_ok(s: Seq<char>, radix: int)
    requires
        2 <= radix <= 36,
    ensures
        digits_read(s, radix) is Ok <==> {
            &&& forall|i: int| 0 <= i < s.len() ==> digit_value(#[trigger] s[i], radix) is Some
            &&& digits_sum(s, radix) <= u64::MAX
        },
        digits_read(s, radix) matches Ok(value) ==> value == digits_sum(s, radix),
    decreases s.len(),
{
    if s.len() > 0 {
        let front = s.drop_last();
        lemma_digits_read_ok(front, radix);
        lemma_digits_sum_nonnegative(front, radix);
        if digit_value(s.last(), radix) is Some {
            let digit = digit_value(s.last(), radix).unwrap();
            assert(digits_sum(front, radix) * radix + digit >= digits_sum(front, radix))
                by (nonlinear_arith)
                requires
                    radix >= 2,
                    digit >= 0,
                    digits_sum(front, radix) >= 0,
            ;
        }
        if forall|i: int| 0 <= i < s.len() ==> digit_value(#[trigger] s[i], radix) is Some {
            assert forall|i: int| 0 <= i < front.len() implies digit_value(#[trigger] front[i], radix) is Some by {
                assert(front[i] == s[i]);
            }
        }
        if digits_read(s, radix) is Ok {
            assert forall|i: int| 0 <= i < s.len() implies digit_value(#[trigger] s[i], radix) is Some by {
                if i < front.len() {
                    assert(front[i] == s[i]);
                }
            }
        }
        assert(s[s.len() - 1] == s.last());
    }
}

/// The number that a row of digits writes in the radix, whatever its size.
pub open spec fn digits_sum(s: Seq<char>, radix: int) -> int
    decreases s.len(),
{
    if s.len() == 0 {
        0
    } else {
        digits_sum(s.drop_last(), radix) * radix + digit_value(s.last(), radix).unwrap_or(0)
    }
}

proof fn lemma_digits_sum_nonnegative(s: Seq<char>, radix: int)
    requires
        2 <= radix <= 36,
    ensures
        digits_sum(s, radix) >= 0,
    decreases s.len(),
{
    if s.len() > 0 {
        let front = s.drop_last();
        lemma_digits_sum_nonnegative(front, radix);
        assert(digits_sum(front, radix) * radix >= 0) by (nonlinear_arith)
            requires
                digits_sum(front, radix) >= 0,
                radix >= 2,
        ;
    }
}

/// The value of `c` as a digit.
fn digit(c: char, radix: u32) -> (value: Option<u32>)
    requires
        2 <= radix <= 36,
    ensures
        match value {
            Some(v) => digit_value(c, radix as int) == Some(v as int),
            None => digit_value(c, radix as int) is None,
        },
{
    let code: u32 = c as u32;
    let value: u32 = if '0' <= c && c <= '9' {
        code - 48
    } else if 'a' <= c && c <= 'z' {
        code - 87
    } else if 'A' <= c && c <= 'Z' {
        code - 55
    } else {
        radix
    };
    if value < radix {
        Some(value)
    } else {
        None
    }
}

/// Reads `text` as a numeral of the radix.
pub fn parse_number(text: &str, radix: u32) -> (result: Result<u64, NumberError>)
    requires
        2 <= radix <= 36,
    ensures
        result == number_read(text@, radix as int),
{
    let chars: Vec<char> = chars_of(text);
    assert(chars@.skip(0) =~= chars@);
    number_at(&chars, 0, radix)
}

/// Reads the characters from index `from` on as a numeral of the radix.
fn number_at(chars: &Vec<char>, from: usize, radix: u32) -> (result: Result<u64, NumberError>)
    requires
        from <= chars.len(),
        2 <= radix <= 36,
    ensures
        result == number_read(chars@.skip(from as int), radix as int),
{
    let ghost text = chars@.skip(from as int);
    if from == chars.len() {
        return Err(NumberError::Empty);
    }
    let mut i: usize = from;
    if chars[from] == '+' {
        if chars.len() - from == 1 {
            return Err(NumberError::InvalidDigit);
        }
        i = from + 1;
    }
    let start: usize = i;
    let ghost digits = chars@.skip(start as int);
    assert(start > from ==> digits =~= text.skip(1));
    assert(start == from ==> digits =~= text);
    let mut value: u64 = 0;
    while i < chars.len()
        invariant
            start <= i <= chars.len(),
            2 <= radix <= 36,
            digits == chars@.skip(start as int),
            digits_read(digits.take(i - start), radix as int) == Ok::<u64, NumberError>(value),
            number_read(text, radix as int) == digits_read(digits, radix as int),
            text == chars@.skip(from as int),
        decreases chars.len() - i,
    {
        let c: char = chars[i];
        let ghost next = digits.take(i - start + 1);
        proof {
            assert(next.drop_last() =~= digits.take(i - start));
            assert(next.last() == c);
        }
        match digit(c, radix) {
            None => {
                proof {
                    lemma_failure_stays(digits, i - start + 1, radix as int);
                }
                return Err(NumberError::InvalidDigit);
            },
            Some(d) => {
                let wide: u128 = wide_step(value, radix, d);
                if wide > u64::MAX as u128 {
                    proof {
                        lemma_failure_stays(digits, i - start + 1, radix as int);
                    }
                    return Err(NumberError::Overflow);
                }
                value = wide as u64;
            },
        }
        i += 1;
    }
    assert(digits.take(i - start) =~= digits);
    Ok(value)
}

/// A failure on a prefix is the failure of the whole.
proof fn lemma_failure_stays(s: Seq<char>, k: int, radix: int)
    requires
        0 <= k <= s.len(),
        digits_read(s.take(k), radix) is Err,
    ensures
        digits_read(s, radix) == digits_read(s.take(k), radix),
    decreases s.len() - k,
{
    if k == s.len() {
        assert(s.take(k) =~= s);
    } else {
        assert(s.take(k + 1).drop_last() =~= s.take(k));
        lemma_failure_stays(s, k + 1, radix);
    }
}

/// One more digit behind `value`.
fn wide_step(value: u64, radix: u32, digit: u32) -> (wide: u128)
    requires
        radix <= 36,
        digit < radix,
    ensures
        wide == value * radix + digit,
{
    assert(0 <= value * radix <= u64::MAX * 36) by (nonlinear_arith)
        requires
            0 <= value <= u64::MAX,
            0 <= radix <= 36,
    ;
    (value as u128) * (radix as u128) + (digit as u128)
}

/// Reads a hexadecimal number, with or without the mark `0x`.
pub fn hex_to_u64(value: &str) -> (number: Option<u64>)
    ensures
        number == hex_read(value@),
{
    let chars: Vec<char> = chars_of(value);
    let mut from: usize = 0;
    assert(chars@.skip(0) =~= chars@);
    while chars.len() - from >= 2 && chars[from] == '0' && chars[from + 1] == 'x'
        invariant
            from <= chars.len(),
            without_hex_mark(chars@) == without_hex_mark(chars@.skip(from as int)),
        decreases chars.len() - from,
    {
        assert(chars@.skip(from as int).skip(2) =~= chars@.skip(from + 2));
        from += 2;
    }
    match number_at(&chars, from, 16) {
        Ok(number) => Some(number),
        Err(_) => None,
    }
}

/// Appends the numeral of `n` to `out`.
fn push_digits(out: &mut String, n: u64, radix: u64)
    requires
        2 <= radix <= 16,
    ensures
        final(out)@ == old(out)@ + digits_of(n as nat, radix as nat),
    decreases n,
{
    if n >= radix {
        proof {
            vstd::arithmetic::div_mod::lemma_div_decreases(n as int, radix as int);
        }
        push_digits(out, n / radix, radix);
    }
    let d: u8 = (n % radix) as u8;
    let c: char = if d < 10 {
        (48u8 + d) as char
    } else {
        (87u8 + d) as char
    };
    proof {
        if n < radix {
            vstd::arithmetic::div_mod::lemma_small_mod(n as nat, radix as nat);
        }
        assert(c == digit_char(d as int));
    }
    out.push(c);
    assert(final(out)@ =~= old(out)@ + digits_of(n as nat, radix as nat));
}

/// Writes `n` in decimal.
pub fn decimal(n: u64) -> (text: String)
    ensures
        text@ == decimal_text(n as nat),
{
    let mut text: String = String::new();
    push_digits(&mut text, n, 10);
    assert(text@ =~= decimal_text(n as nat));
    text
}

/// Writes `n` in hexadecimal behind the mark `0x`.
pub fn hexadecimal(n: u64) -> (text: String)
    ensures
        text@ == hex_text(n),
{
    let mut text: String = String::new();
    text.push('0');
    text.push('x');
    push_digits(&mut text, n, 16);
    assert(text@ =~= hex_text(n));
    text
}

/// Writes `n` in decimal with at least three characters.
pub fn padded_decimal(n: u32) -> (text: String)
    ensures
        text@ == padded_text(n as nat),
{
    let mut text: String = String::new();
    if n < 100 {
        text.push('0');
    }
    if n < 10 {
        text.push('0');
    }
    push_digits(&mut text, n as u64, 10);
    assert(text@ =~= padded_text(n as nat));
    text
}

} // verus!
