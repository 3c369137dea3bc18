//! Text and its characters.
use vstd::arithmetic::power2::*;
use vstd::prelude::*;
use vstd::string::*;
use vstd::utf8::*;

verus! {

/// The text of bytes that may not be UTF-8.
pub uninterp spec fn utf8_lossy(bytes: Seq<u8>) -> Seq<char>;

/// Reads bytes as text with `String::from_utf8_lossy`.
///
/// Bytes that are UTF-8 keep their text. What text other bytes become is a function of the bytes
/// alone; that the parts that are not UTF-8 become replacement characters is not stated.
#[verifier::external_body]
pub(crate) fn lossy_text(bytes: &[u8]) -> (text: String)
    ensures
        text@ == utf8_lossy(bytes@),
        valid_utf8(bytes@) ==> text@ == decode_utf8(bytes@),
{
    String::from_utf8_lossy(bytes).into_owned()
}

/// `String::push` appends one character.
pub assume_specification[ String::push ](string: &mut String, ch: char)
    ensures
        final(string)@ == old(string)@.push(ch),
;

/// The texts of some strings.
pub open spec fn texts(strings: Seq<String>) -> Seq<Seq<char>> {
    strings.map_values(|string: String| string@)
}

/// The text of a string, if there is one.
pub open spec fn text_option(string: Option<String>) -> Option<Seq<char>> {
    match string {
        Some(text) => Some(text@),
        None => None,
    }
}

/// The characters of a text.
pub fn chars_of(text: &str) -> (chars: Vec<char>)
    ensures
        chars@ == text@,
{
    let mut chars: Vec<char> = Vec::new();
    for c in iter: text.chars()
        invariant
            iter.seq() == text@,
            chars@ == text@.take(iter.index()),
    {
        proof {
            assert(text@.take(iter.index()).push(c) =~= text@.take(iter.index() + 1));
        }
        chars.push(c);
    }
    proof {
        assert(text@.take(text@.len() as int) =~= text@);
    }
    chars
}

/// The text of the characters from one position up to another.
pub fn text_between(chars: &Vec<char>, start: usize, end: usize) -> (text: String)
    requires
        start <= end <= chars.len(),
    ensures
        text@ == chars@.subrange(start as int, end as int),
{
    let mut text = String::new();
    let mut i = start;
    while i < end
        invariant
            start <= i <= end <= chars.len(),
            text@ == chars@.subrange(start as int, i as int),
        decreases end - i,
    {
        text.push(chars[i]);
        proof {
            assert(chars@.subrange(start as int, i as int).push(chars@[i as int])
                =~= chars@.subrange(start as int, i + 1));
        }
        i = i + 1;
    }
    proof {
        assert(chars@.subrange(start as int, start as int) =~= Seq::<char>::empty());
    }
    text
}

/// Whether two texts are the same.
pub fn same_text(a: &str, b: &str) -> (same: bool)
    ensures
        same == (a@ == b@),
{
    a.to_owned() == b.to_owned()
}

/// Whether a text is among some strings.
pub fn contains_text(strings: &Vec<String>, text: &str) -> (found: bool)
    ensures
        found == texts(strings@).contains(text@),
{
    let mut i: usize = 0;
    while i < strings.len()
        invariant
            i <= strings.len(),
            forall|j: int| 0 <= j < i ==> texts(strings@)[j] != text@,
        decreases strings.len() - i,
    {
        if same_text(strings[i].as_str(), text) {
            assert(texts(strings@)[i as int] == text@);
            return true;
        }
        i = i + 1;
    }
    false
}

/// A copy of some strings.
pub fn clone_texts(strings: &Vec<String>) -> (copy: Vec<String>)
    ensures
        texts(copy@) == texts(strings@),
{
    let mut copy: Vec<String> = Vec::new();
    let mut i: usize = 0;
    while i < strings.len()
        invariant
            i <= strings.len(),
            texts(copy@) == texts(strings@).take(i as int),
        decreases strings.len() - i,
    {
        let ghost before = copy@;
        copy.push(strings[i].clone());
        proof {
            assert(texts(copy@) =~= texts(before).push(strings@[i as int]@));
            assert(texts(strings@).take(i as int).push(strings@[i as int]@) =~= texts(
                strings@,
            ).take(i + 1));
        }
        i = i + 1;
    }
    proof {
        assert(texts(strings@).take(strings@.len() as int) =~= texts(strings@));
    }
    copy
}

/// A copy of a string, if there is one.
pub fn clone_option(string: &Option<String>) -> (copy: Option<String>)
    ensures
        text_option(copy) == text_option(*string),
{
    match string {
        Some(text) => Some(text.clone()),
        None => None,
    }
}

/// The character of a decimal digit.
pub open spec fn digit(value: nat) -> char {
    (48 + value) as char
}

/// A number in decimal digits, without leading zeros.
pub open spec fn decimal_text(value: nat) -> Seq<char>
    decreases value,
{
    if value < 10 {
        seq![digit(value)]
    } else {
        decimal_text(value / 10).push(digit(value % 10))
    }
}

/// Writes a number in decimal digits.
pub fn decimal(value: u128) -> (text: String)
    ensures
        text@ == decimal_text(value as nat),
    decreases value,
{
    let mut text = if value < 10 {
        String::new()
    } else {
        decimal(value / 10)
    };
    let last = (48 + (value % 10) as u8) as char;
    text.push(last);
    assert(text@ =~= decimal_text(value as nat));
    text
}

/// The number that decimal digits denote, the most significant one first.
pub open spec fn digits_number(digits: Seq<u8>) -> nat
    decreases digits.len(),
{
    if digits.len() == 0 {
        0
    } else {
        10 * digits_number(digits.drop_last()) + digits.last() as nat
    }
}

/// Whether digits are decimal and do not start with a zero.
pub open spec fn are_digits(digits: Seq<u8>) -> bool {
    &&& forall|i: int| 0 <= i < digits.len() ==> #[trigger] digits[i] < 10
    &&& digits.len() > 0 ==> digits[0] > 0
}

/// The digits of a number; none where it is zero.
fn digits_of(value: u64) -> (digits: Vec<u8>)
    ensures
        are_digits(digits@),
        digits_number(digits@) == value,
    decreases value,
{
    if value == 0 {
        return Vec::new();
    }
    let mut digits = digits_of(value / 10);
    let ghost before = digits@;
    digits.push((value % 10) as u8);
    assert(digits@.drop_last() =~= before);
    digits
}

/// The digits of twice a number, and one more where `carry` is set.
fn doubled(digits: Vec<u8>, carry: bool) -> (result: Vec<u8>)
    requires
        are_digits(digits@),
    ensures
        are_digits(result@),
        digits_number(result@) == 2 * digits_number(digits@) + (if carry {
            1nat
        } else {
            0
        }),
        digits@.len() > 0 ==> result@.len() > 0,
    decreases digits@.len(),
{
    let ghost all = digits@;
    let mut digits = digits;
    match digits.pop() {
        None => {
            let mut result: Vec<u8> = Vec::new();
            if carry {
                result.push(1);
                assert(result@.drop_last() =~= Seq::<u8>::empty());
                reveal_with_fuel(digits_number, 2);
            }
            result
        },
        Some(last) => {
            assert(last == all.last() && digits@ =~= all.drop_last());
            assert(last == all[all.len() - 1]);
            let twice: u8 = 2 * last + (if carry {
                1
            } else {
                0
            });
            let mut result = doubled(digits, twice >= 10);
            let ghost before = result@;
            result.push(twice % 10);
            proof {
                assert(result@.drop_last() =~= before);
                if before.len() == 0 {
                    assert(all.len() == 1);
                    assert(all[0] > 0);
                }
            }
            result
        },
    }
}

/// The digits of a number are its text.
proof fn lemma_digits_text(digits: Seq<u8>)
    requires
        are_digits(digits),
        digits.len() > 0,
    ensures
        decimal_text(digits_number(digits)) == digits.map_values(|value: u8| digit(value as nat)),
        digits_number(digits) > 0,
    decreases digits.len(),
{
    let value = digits_number(digits);
    let rest = digits.drop_last();
    let last = digits.last() as nat;
    assert(digits[digits.len() - 1] < 10);
    let written = digits.map_values(|value: u8| digit(value as nat));
    if digits.len() == 1 {
        assert(rest =~= Seq::<u8>::empty());
        assert(written =~= seq![digit(last)]);
    } else {
        lemma_digits_text(rest);
        assert(value / 10 == digits_number(rest) && value % 10 == last);
        assert(written =~= rest.map_values(|value: u8| digit(value as nat)).push(digit(last)));
    }
}

/// Writes a positive number times a power of two in decimal digits.
pub fn decimal_shifted(value: u64, shift: u32) -> (text: String)
    requires
        value > 0,
    ensures
        text@ == decimal_text((value * pow2(shift as nat)) as nat),
{
    let mut digits = digits_of(value);
    let mut done: u32 = 0;
    proof {
        lemma2_to64();
    }
    while done < shift
        invariant
            done <= shift,
            are_digits(digits@),
            digits_number(digits@) == value * pow2(done as nat),
        decreases shift - done,
    {
        proof {
            lemma_pow2_unfold((done + 1) as nat);
            assert(value * (2 * pow2(done as nat)) == 2 * (value * pow2(done as nat)))
                by (nonlinear_arith);
        }
        digits = doubled(digits, false);
        done = done + 1;
    }
    let mut text = String::new();
    let mut i: usize = 0;
    let ghost written = digits@.map_values(|value: u8| digit(value as nat));
    proof {
        lemma_pow2_pos(shift as nat);
        assert(value * pow2(shift as nat) > 0) by (nonlinear_arith)
            requires
                value > 0,
                pow2(shift as nat) > 0,
        ;
        assert(digits@.len() > 0);
        lemma_digits_text(digits@);
        assert(text@ =~= written.take(0));
    }
    while i < digits.len()
        invariant
            i <= digits.len(),
            are_digits(digits@),
            written == digits@.map_values(|value: u8| digit(value as nat)),
            text@ == written.take(i as int),
        decreases digits.len() - i,
    {
        assert(digits@[i as int] < 10);
        let next = (48 + digits[i]) as char;
        text.push(next);
        proof {
            assert(next == written[i as int]);
            assert(written.take(i as int).push(next) =~= written.take(i + 1));
        }
        i = i + 1;
    }
    assert(written.take(written.len() as int) =~= written);
    text
}

/// A character with the Unicode property `White_Space`.
pub open spec fn is_space(c: char) -> bool {
    '\u{9}' <= c <= '\u{d}' || c == ' ' || c == '\u{85}' || c == '\u{a0}' || c == '\u{1680}'
        || '\u{2000}' <= c <= '\u{200a}' || c == '\u{2028}' || c == '\u{2029}' || c == '\u{202f}'
        || c == '\u{205f}' || c == '\u{3000}'
}

/// A text without the whitespace around it.
pub open spec fn trimmed(value: Seq<char>) -> Seq<char>
    decreases value.len(),
{
    if value.len() > 0 && is_space(value[0]) {
        trimmed(value.drop_first())
    } else if value.len() > 0 && is_space(value.last()) {
        trimmed(value.drop_last())
    } else {
        value
    }
}

/// Whether a character is whitespace.
fn space(c: char) -> (result: bool)
    ensures
        result == is_space(c),
{
    ('\u{9}' <= c && c <= '\u{d}') || c == ' ' || c == '\u{85}' || c == '\u{a0}' || c == '\u{1680}'
        || ('\u{2000}' <= c && c <= '\u{200a}') || c == '\u{2028}' || c == '\u{2029}' || c
        == '\u{202f}' || c == '\u{205f}' || c == '\u{3000}'
}

/// Where a text without the whitespace around it starts and ends.
pub fn trim_bounds(chars: &Vec<char>) -> (bounds: (usize, usize))
    ensures
        bounds.0 <= bounds.1 <= chars.len(),
        chars@.subrange(bounds.0 as int, bounds.1 as int) == trimmed(chars@),
{
    let mut start: usize = 0;
    let mut end: usize = chars.len();
    proof {
        assert(chars@.subrange(0, end as int) =~= chars@);
    }
    while start < end && space(chars[start])
        invariant
            start <= end <= chars.len(),
            trimmed(chars@.subrange(start as int, end as int)) == trimmed(chars@),
        ensures
            start <= end <= chars.len(),
            trimmed(chars@.subrange(start as int, end as int)) == trimmed(chars@),
            start < end ==> !is_space(chars@[start as int]),
        decreases end - start,
    {
        proof {
            let body = chars@.subrange(start as int, end as int);
            assert(body.drop_first() =~= chars@.subrange(start + 1, end as int));
        }
        start = start + 1;
    }
    while start < end && space(chars[end - 1])
        invariant
            start <= end <= chars.len(),
            trimmed(chars@.subrange(start as int, end as int)) == trimmed(chars@),
            start < end ==> !is_space(chars@[start as int]),
        ensures
            start <= end <= chars.len(),
            trimmed(chars@.subrange(start as int, end as int)) == trimmed(chars@),
            start < end ==> !is_space(chars@[start as int]) && !is_space(chars@[end - 1]),
        decreases end - start,
    {
        proof {
            let body = chars@.subrange(start as int, end as int);
            assert(body.drop_last() =~= chars@.subrange(start as int, end - 1));
        }
        end = end - 1;
    }
    (start, end)
}

} // verus!
