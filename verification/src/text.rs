//! Characters and strings: white space, ASCII case, comparison.
use vstd::prelude::*;

verus! {

/// `String::push` of the standard library appends one character to the end of the string.
pub assume_specification[ String::push ](s: &mut String, c: char)
    ensures
        final(s)@ == old(s)@.push(c),
;

/// The texts that a list of strings holds, in order.
pub open spec fn texts(list: Seq<String>) -> Seq<Seq<char>> {
    list.map_values(|s: String| s@)
}

/// What a `String` that may be missing says.
pub open spec fn text_of(text: Option<String>) -> Option<Seq<char>> {
    match text {
        Some(text) => Some(text@),
        None => None,
    }
}

/// The characters that carry the Unicode property `White_Space`.
pub open spec fn is_white_space(c: char) -> bool {
    let code = c as u32;
    ||| 0x09 <= code <= 0x0d
    ||| code == 0x20
    ||| code == 0x85
    ||| code == 0xa0
    ||| code == 0x1680
    ||| 0x2000 <= code <= 0x200a
    ||| code == 0x2028
    ||| code == 0x2029
    ||| code == 0x202f
    ||| code == 0x205f
    ||| code == 0x3000
}

/// `s` without its leading white space.
pub open spec fn trimmed_start(s: Seq<char>) -> Seq<char>
    decreases s.len(),
{
    if s.len() > 0 && is_white_space(s[0]) {
        trimmed_start(s.skip(1))
    } else {
        s
    }
}

/// `s` without its trailing white space.
pub open spec fn trimmed_end(s: Seq<char>) -> Seq<char>
    decreases s.len(),
{
    if s.len() > 0 && is_white_space(s.last()) {
        trimmed_end(s.drop_last())
    } else {
        s
    }
}

/// `s` without the white space at its two ends.
pub open spec fn trimmed(s: Seq<char>) -> Seq<char> {
    trimmed_end(trimmed_start(s))
}

/// `A` to `Z` become `a` to `z`; every other character stays.
pub open spec fn lower_char(c: char) -> char {
    if 'A' <= c <= 'Z' {
        (c as u32 + 32) as char
    } else {
        c
    }
}

/// `s` with its ASCII letters in lower case.
pub open spec fn lower_text(s: Seq<char>) -> Seq<char> {
    s.map_values(|c: char| lower_char(c))
}

/// Trimming leaves the empty text exactly where every character is white space.
pub proof fn lemma_trimmed_empty(s: Seq<char>)
    ensures
        trimmed(s).len() == 0 <==> forall|i: int| 0 <= i < s.len() ==> is_white_space(#[trigger] s[i]),
    decreases s.len(),
{
    if s.len() > 0 {
        if is_white_space(s[0]) {
            let rest = s.skip(1);
            lemma_trimmed_empty(rest);
            if forall|i: int| 0 <= i < rest.len() ==> is_white_space(#[trigger] rest[i]) {
                assert forall|i: int| 0 <= i < s.len() implies is_white_space(#[trigger] s[i]) by {
                    if i > 0 {
                        assert(rest[i - 1] == s[i]);
                    }
                }
            } else {
                let k = choose|k: int| 0 <= k < rest.len() && !is_white_space(#[trigger] rest[k]);
                assert(!is_white_space(s[k + 1]));
            }
        } else {
            lemma_trimmed_end_keeps(s, 0);
        }
    }
}

/// A character that is no white space survives `trimmed_end`, and so does what stands before it.
proof fn lemma_trimmed_end_keeps(s: Seq<char>, k: int)
    requires
        0 <= k < s.len(),
        !is_white_space(s[k]),
    ensures
        trimmed_end(s).len() > k,
    decreases s.len(),
{
    if is_white_space(s.last()) {
        lemma_trimmed_end_keeps(s.drop_last(), k);
    }
}

/// A text that begins and ends with other characters than white space is its own trimmed form.
pub proof fn lemma_trimmed_solid(s: Seq<char>)
    requires
        s.len() > 0,
        !is_white_space(s[0]),
        !is_white_space(s.last()),
    ensures
        trimmed(s) == s,
{
}

/// Each string of a list gives its own text, at its own place.
pub proof fn lemma_texts(list: Seq<String>)
    ensures
        texts(list).len() == list.len(),
        forall|i: int| 0 <= i < list.len() ==> #[trigger] texts(list)[i] == list[i]@,
{
}

/// A string says its text, a missing one nothing.
pub proof fn lemma_text_of(text: Option<String>)
    ensures
        text matches Some(found) ==> text_of(text) == Some(found@),
        text is None ==> text_of(text) is None,
{
}

/// Trimming cuts a text at two places: everything before the first and from the second on is white
/// space, and what stands between them neither begins nor ends with white space.
pub proof fn lemma_trimmed_between(s: Seq<char>) -> (cut: (int, int))
    ensures
        0 <= cut.0 <= cut.1 <= s.len(),
        trimmed(s) == s.subrange(cut.0, cut.1),
        forall|i: int| 0 <= i < cut.0 ==> is_white_space(#[trigger] s[i]),
        forall|i: int| cut.1 <= i < s.len() ==> is_white_space(#[trigger] s[i]),
        cut.0 < cut.1 ==> !is_white_space(s[cut.0]) && !is_white_space(s[cut.1 - 1]),
{
    let from = lemma_trimmed_start_at(s);
    let rest = s.skip(from);
    let to = lemma_trimmed_end_at(rest);
    assert(trimmed(s) =~= s.subrange(from, from + to));
    assert forall|i: int| from + to <= i < s.len() implies is_white_space(#[trigger] s[i]) by {
        assert(rest[i - from] == s[i]);
    }
    (from, from + to)
}

proof fn lemma_trimmed_start_at(s: Seq<char>) -> (from: int)
    ensures
        0 <= from <= s.len(),
        trimmed_start(s) == s.skip(from),
        forall|i: int| 0 <= i < from ==> is_white_space(#[trigger] s[i]),
        from < s.len() ==> !is_white_space(s[from]),
    decreases s.len(),
{
    if s.len() > 0 && is_white_space(s[0]) {
        let rest = s.skip(1);
        let from = lemma_trimmed_start_at(rest);
        assert(rest.skip(from) =~= s.skip(from + 1));
        assert forall|i: int| 0 <= i < from + 1 implies is_white_space(#[trigger] s[i]) by {
            if i > 0 {
                assert(rest[i - 1] == s[i]);
            }
        }
        from + 1
    } else {
        assert(s.skip(0) =~= s);
        0
    }
}

proof fn lemma_trimmed_end_at(s: Seq<char>) -> (to: int)
    ensures
        0 <= to <= s.len(),
        trimmed_end(s) == s.take(to),
        forall|i: int| to <= i < s.len() ==> is_white_space(#[trigger] s[i]),
        to > 0 ==> !is_white_space(s[to - 1]),
    decreases s.len(),
{
    if s.len() > 0 && is_white_space(s.last()) {
        let front = s.drop_last();
        let to = lemma_trimmed_end_at(front);
        assert(front.take(to) =~= s.take(to));
        assert forall|i: int| to <= i < s.len() implies is_white_space(#[trigger] s[i]) by {
            if i < front.len() {
                assert(front[i] == s[i]);
            }
        }
        to
    } else {
        assert(s.take(s.len() as int) =~= s);
        s.len() as int
    }
}

/// Lowering leaves no ASCII capital, moves each capital by the distance between the two cases, and
/// touches no other character.
pub proof fn lemma_lower_text(s: Seq<char>)
    ensures
        lower_text(s).len() == s.len(),
        forall|i: int|
            #![trigger lower_text(s)[i]]
            0 <= i < s.len() ==> {
                let c = lower_text(s)[i];
                &&& !('A' <= c <= 'Z')
                &&& 'A' <= s[i] <= 'Z' ==> c as int - s[i] as int == 'a' as int - 'A' as int
                &&& !('A' <= s[i] <= 'Z') ==> c == s[i]
            },
{
}

/// Lowering works character by character: the lowered form of a joined text is joined from the
/// lowered forms.
pub proof fn lemma_lower_joined(a: Seq<char>, b: Seq<char>)
    ensures
        lower_text(a + b) == lower_text(a) + lower_text(b),
{
    assert(lower_text(a + b) =~= lower_text(a) + lower_text(b));
}

/// Lowering twice is lowering once.
pub proof fn lemma_lower_idempotent(s: Seq<char>)
    ensures
        lower_text(lower_text(s)) == lower_text(s),
{
    assert forall|i: int| 0 <= i < s.len() implies lower_text(lower_text(s))[i] == #[trigger] lower_text(s)[i] by {
        lemma_lower_char(s[i]);
    }
    assert(lower_text(lower_text(s)) =~= lower_text(s));
}

proof fn lemma_lower_char(c: char)
    ensures
        lower_char(lower_char(c)) == lower_char(c),
{
}

/// Tells whether `c` carries the Unicode property `White_Space`.
pub(crate) fn white_space(c: char) -> (white: bool)
    ensures
        white == is_white_space(c),
{
    let code: u32 = c as u32;
    (0x09 <= code && code <= 0x0d) || code == 0x20 || code == 0x85 || code == 0xa0 || code == 0x1680
        || (0x2000 <= code && code <= 0x200a) || code == 0x2028 || code == 0x2029 || code == 0x202f
        || code == 0x205f || code == 0x3000
}

/// The characters of `text`.
pub(crate) fn chars_of(text: &str) -> (chars: Vec<char>)
    ensures
        chars@ == text@,
{
    let mut chars: Vec<char> = Vec::new();
    for c in it: text.chars()
        invariant
            chars@ == it.seq().take(it.index() as int),
            it.seq() == text@,
    {
        chars.push(c);
    }
    chars
}

/// Tells whether the two texts are equal.
pub(crate) fn same_text(a: &str, b: &str) -> (same: bool)
    ensures
        same == (a@ == b@),
{
    a.to_owned() == b.to_owned()
}

/// `text` without the white space at its two ends.
pub fn trim(text: &str) -> (result: String)
    ensures
        result@ == trimmed(text@),
{
    let chars: Vec<char> = chars_of(text);
    let mut from: usize = 0;
    assert(chars@.skip(0) =~= chars@);
    while from < chars.len() && white_space(chars[from])
        invariant
            from <= chars.len(),
            trimmed_start(chars@) == trimmed_start(chars@.skip(from as int)),
        decreases chars.len() - from,
    {
        assert(chars@.skip(from as int).skip(1) =~= chars@.skip(from + 1));
        from += 1;
    }
    let ghost start = chars@.skip(from as int);
    let mut to: usize = chars.len();
    assert(chars@.subrange(from as int, to as int) =~= start);
    while from < to && white_space(chars[to - 1])
        invariant
            from <= to <= chars.len(),
            trimmed_end(start) == trimmed_end(chars@.subrange(from as int, to as int)),
        decreases to,
    {
        assert(chars@.subrange(from as int, to as int).drop_last() =~= chars@.subrange(
            from as int,
            to - 1,
        ));
        to -= 1;
    }
    let mut result: String = String::new();
    let mut i: usize = from;
    while i < to
        invariant
            from <= i <= to <= chars.len(),
            result@ == chars@.subrange(from as int, i as int),
        decreases to - i,
    {
        result.push(chars[i]);
        i += 1;
    }
    result
}

/// Tells whether nothing is left of `text` once it is trimmed.
pub fn is_blank(text: &str) -> (blank: bool)
    ensures
        blank == (trimmed(text@).len() == 0),
{
    proof {
        lemma_trimmed_empty(text@);
    }
    for c in it: text.chars()
        invariant
            it.seq() == text@,
            forall|i: int| 0 <= i < it.index() ==> is_white_space(#[trigger] it.seq()[i]),
            trimmed(text@).len() == 0 <==> forall|i: int|
                0 <= i < text@.len() ==> is_white_space(#[trigger] text@[i]),
    {
        if !white_space(c) {
            assert(text@[it.index() as int] == c);
            return false;
        }
    }
    true
}

/// `text` with its ASCII letters in lower case.
pub fn ascii_lowercase(text: &str) -> (result: String)
    ensures
        result@ == lower_text(text@),
{
    let mut result: String = String::new();
    for c in it: text.chars()
        invariant
            it.seq() == text@,
            result@ == lower_text(it.seq().take(it.index() as int)),
    {
        let lowered: char = if 'A' <= c && c <= 'Z' {
            ((c as u8) + 32u8) as char
        } else {
            c
        };
        result.push(lowered);
        assert(lower_text(it.seq().take(it.index() + 1)) =~= lower_text(
            it.seq().take(it.index() as int),
        ).push(lower_char(c)));
    }
    assert(text@.take(text@.len() as int) =~= text@);
    result
}

} // verus!
