//! Durations as configuration texts.
use crate::config::ConfigError;
use crate::duration::{Duration, NANOS_PER_SEC};
use crate::text::{self, chars_of, decimal, trim_bounds};
use vstd::prelude::*;
use vstd::string::*;

verus! {

/// Whether a character is a decimal digit.
pub open spec fn is_digit(c: char) -> bool {
    '0' <= c <= '9'
}

/// How many digits a text starts with.
pub open spec fn leading_digits(value: Seq<char>) -> nat
    decreases value.len(),
{
    if value.len() > 0 && is_digit(value[0]) {
        1 + leading_digits(value.drop_first())
    } else {
        0
    }
}

/// The number that decimal digits denote.
pub open spec fn digits_value(digits: Seq<char>) -> nat
    decreases digits.len(),
{
    if digits.len() == 0 {
        0
    } else {
        (digits_value(digits.drop_last()) * 10 + (digits.last() as nat - 48)) as nat
    }
}

/// A number of seconds, no more than `u64` holds.
pub open spec fn capped_seconds(secs: nat) -> nat {
    if secs > u64::MAX {
        u64::MAX as nat
    } else {
        secs
    }
}

/// The number with which a text starts, where `u64` holds it. Whitespace before it does not count.
pub open spec fn number_of(raw: Seq<char>) -> Option<nat> {
    let body = text::trimmed(raw);
    let count = leading_digits(body);
    let value = digits_value(body.take(count as int));
    if count == 0 || value > u64::MAX {
        None
    } else {
        Some(value)
    }
}

/// The seconds that a text denotes.
///
/// The text is a number of at most `u64::MAX`, written in decimal digits, and directly behind it
/// the unit `s`, `m` or `h`. Whitespace around it does not count.
pub open spec fn seconds_of(raw: Seq<char>) -> Option<nat> {
    let body = text::trimmed(raw);
    let unit = body.skip(leading_digits(body) as int);
    match number_of(raw) {
        None => None,
        Some(value) => if unit == seq!['s'] {
            Some(value)
        } else if unit == seq!['m'] {
            Some(capped_seconds(value * 60))
        } else if unit == seq!['h'] {
            Some(capped_seconds(value * 3600))
        } else {
            None
        },
    }
}

/// What keeps a text from denoting a duration.
#[derive(Clone, Copy, Debug, PartialEq, Eq, Structural)]
pub enum DurationFault {
    /// It does not start with a number that `u64` holds.
    Number,
    /// What follows the number is none of the units.
    Unit,
}

impl DurationFault {
    /// The fault in words.
    pub open spec fn words(self) -> Seq<char> {
        match self {
            DurationFault::Number => "duration needs a numeric value"@,
            DurationFault::Unit => "duration must use s, m, or h"@,
        }
    }

    /// The fault in words.
    pub fn message(&self) -> (words: &'static str)
        ensures
            words@ == self.words(),
    {
        match self {
            DurationFault::Number => "duration needs a numeric value",
            DurationFault::Unit => "duration must use s, m, or h",
        }
    }
}

/// What keeps a text from denoting a duration, if anything does.
pub open spec fn fault_of(raw: Seq<char>) -> Option<DurationFault> {
    if number_of(raw) is None {
        Some(DurationFault::Number)
    } else if seconds_of(raw) is None {
        Some(DurationFault::Unit)
    } else {
        None
    }
}

/// The leading digits of a text are digits, and no digit follows them.
pub proof fn lemma_leading_digits(value: Seq<char>, count: nat)
    requires
        count <= value.len(),
        forall|i: int| 0 <= i < count ==> is_digit(#[trigger] value[i]),
        count < value.len() ==> !is_digit(value[count as int]),
    ensures
        leading_digits(value) == count,
    decreases count,
{
    if count > 0 {
        let rest = value.drop_first();
        assert forall|i: int| 0 <= i < count - 1 implies is_digit(#[trigger] rest[i]) by {
            assert(rest[i] == value[i + 1]);
        }
        lemma_leading_digits(rest, (count - 1) as nat);
    }
}

/// More digits denote no smaller number.
proof fn lemma_digits_value_grows(digits: Seq<char>, count: int)
    requires
        0 <= count <= digits.len(),
        forall|i: int| 0 <= i < digits.len() ==> is_digit(#[trigger] digits[i]),
    ensures
        digits_value(digits.take(count)) <= digits_value(digits),
    decreases digits.len(),
{
    if count < digits.len() {
        let shorter = digits.drop_last();
        lemma_digits_value_grows(shorter, count);
        assert(shorter.take(count) =~= digits.take(count));
        assert(is_digit(digits[digits.len() - 1]));
    } else {
        assert(digits.take(count) =~= digits);
    }
}

/// Reads the number that the first `count` characters denote, where `u64` holds it.
fn number(chars: &Vec<char>, start: usize, end: usize) -> (value: Option<u64>)
    requires
        start <= end <= chars.len(),
        forall|i: int| start <= i < end ==> is_digit(#[trigger] chars@[i]),
    ensures
        value == (if digits_value(chars@.subrange(start as int, end as int)) <= u64::MAX {
            Some(digits_value(chars@.subrange(start as int, end as int)) as u64)
        } else {
            None
        }),
{
    let ghost digits = chars@.subrange(start as int, end as int);
    let mut value: u64 = 0;
    let mut i = start;
    proof {
        assert(digits.take(0) =~= Seq::<char>::empty());
    }
    while i < end
        invariant
            start <= i <= end <= chars.len(),
            digits == chars@.subrange(start as int, end as int),
            forall|j: int| start <= j < end ==> is_digit(#[trigger] chars@[j]),
            value == digits_value(digits.take(i - start)),
        decreases end - i,
    {
        let digit = chars[i] as u64 - 48;
        let ghost so_far = digits.take(i - start + 1);
        proof {
            assert(so_far.drop_last() =~= digits.take(i - start));
            assert(so_far.last() == chars@[i as int]);
            assert(digits_value(so_far) == value * 10 + digit);
            assert forall|j: int| 0 <= j < digits.len() implies is_digit(#[trigger] digits[j]) by {
                assert(digits[j] == chars@[start + j]);
            }
            lemma_digits_value_grows(digits, i - start + 1);
        }
        if value > (u64::MAX - digit) / 10 {
            assert(value * 10 + digit > u64::MAX);
            return None;
        }
        value = value * 10 + digit;
        i = i + 1;
    }
    assert(digits.take(digits.len() as int) =~= digits);
    Some(value)
}

/// Some units of `unit` seconds each, as seconds.
fn seconds(count: u64, unit: u16) -> (secs: u64)
    ensures
        secs == capped_seconds((count * unit) as nat),
{
    assert(count * unit <= u64::MAX * u16::MAX) by (nonlinear_arith)
        requires
            count <= u64::MAX,
            unit <= u16::MAX,
    ;
    let total = count as u128 * unit as u128;
    if total > u64::MAX as u128 {
        u64::MAX
    } else {
        total as u64
    }
}

/// Reads a duration such as `30s`, `5m` or `1h`, or tells what is wrong with it.
pub fn read_duration(raw: &str) -> (result: Result<Duration, DurationFault>)
    ensures
        match result {
            Ok(duration) => fault_of(raw@) is None && duration@ == seconds_of(raw@)->0
                * NANOS_PER_SEC,
            Err(fault) => fault_of(raw@) == Some(fault),
        },
{
    let chars = chars_of(raw);
    let (start, end) = trim_bounds(&chars);
    let ghost body = text::trimmed(raw@);
    let mut split = start;
    while split < end && '0' <= chars[split] && chars[split] <= '9'
        invariant
            start <= split <= end <= chars.len(),
            body == chars@.subrange(start as int, end as int),
            forall|i: int| start <= i < split ==> is_digit(#[trigger] chars@[i]),
        ensures
            start <= split <= end,
            forall|i: int| start <= i < split ==> is_digit(#[trigger] chars@[i]),
            split < end ==> !is_digit(chars@[split as int]),
        decreases end - split,
    {
        split = split + 1;
    }
    let ghost count = (split - start) as nat;
    proof {
        assert forall|i: int| 0 <= i < count implies is_digit(#[trigger] body[i]) by {
            assert(body[i] == chars@[start + i]);
        }
        lemma_leading_digits(body, count);
        assert(body.take(count as int) =~= chars@.subrange(start as int, split as int));
        assert(body.skip(count as int) =~= chars@.subrange(split as int, end as int));
    }
    if split == start {
        return Err(DurationFault::Number);
    }
    let value = match number(&chars, start, split) {
        Some(value) => value,
        None => {
            return Err(DurationFault::Number);
        },
    };
    proof {
        assert(seq!['s'].len() == 1 && seq!['m'].len() == 1 && seq!['h'].len() == 1);
        assert(seq!['s'][0] == 's' && seq!['m'][0] == 'm' && seq!['h'][0] == 'h');
    }
    if end - split != 1 {
        return Err(DurationFault::Unit);
    }
    let unit = chars[split];
    proof {
        assert(body.skip(count as int) =~= seq![unit]);
        assert(seq![unit][0] == unit);
    }
    if unit == 's' {
        Ok(Duration::from_secs(value))
    } else if unit == 'm' {
        Ok(Duration::from_secs(seconds(value, 60)))
    } else if unit == 'h' {
        Ok(Duration::from_secs(seconds(value, 3600)))
    } else {
        Err(DurationFault::Unit)
    }
}

/// Reads a duration of a configuration, such as `30s`, `5m` or `1h`.
pub fn parse_duration(raw: &str) -> (result: Result<Duration, ConfigError>)
    ensures
        match result {
            Ok(duration) => seconds_of(raw@) is Some && duration@ == seconds_of(raw@)->0
                * NANOS_PER_SEC,
            Err(ConfigError::Duration(quoted)) => seconds_of(raw@) is None && quoted@ == raw@,
        },
{
    match read_duration(raw) {
        Ok(duration) => Ok(duration),
        Err(_) => Err(ConfigError::Duration(raw.to_owned())),
    }
}

/// Writes a duration's whole seconds, such as `30s`.
pub fn duration_text(value: &Duration) -> (result: String)
    ensures
        result@ == text::decimal_text(value@ / NANOS_PER_SEC as nat) + seq!['s'],
{
    let mut result = decimal(value.as_secs() as u128);
    let ghost before = result@;
    result.push('s');
    assert(result@ =~= before + seq!['s']);
    result
}

/// A number written in decimal digits is read back.
pub proof fn lemma_decimal_value(value: nat)
    ensures
        digits_value(text::decimal_text(value)) == value,
        text::decimal_text(value).len() > 0,
        forall|i: int|
            0 <= i < text::decimal_text(value).len() ==> is_digit(
                #[trigger] text::decimal_text(value)[i],
            ),
    decreases value,
{
    let written = text::decimal_text(value);
    reveal_with_fuel(digits_value, 2);
    assert(written.last() == text::digit(value % 10));
    assert(text::digit(value % 10) as nat == 48 + value % 10);
    if value >= 10 {
        lemma_decimal_value(value / 10);
        assert(written.drop_last() =~= text::decimal_text(value / 10));
    } else {
        assert(written.drop_last() =~= Seq::<char>::empty());
    }
}

/// Reading what `duration_text` writes gives the duration's whole seconds back.
pub proof fn law_duration_text(secs: nat)
    requires
        secs <= u64::MAX,
    ensures
        seconds_of(text::decimal_text(secs) + seq!['s']) == Some(secs),
{
    let digits = text::decimal_text(secs);
    let whole = digits + seq!['s'];
    lemma_decimal_value(secs);
    assert(is_digit(whole[0]));
    assert(whole.last() == 's');
    assert(text::trimmed(whole) == whole);
    lemma_leading_digits(whole, digits.len());
    assert(whole.take(digits.len() as int) =~= digits);
    assert(whole.skip(digits.len() as int) =~= seq!['s']);
}

/// A number with a unit is read as so many seconds, minutes of 60 seconds or hours of 60 minutes, as
/// far as `u64` holds them; with any other unit, or with none, it is not read.
pub proof fn law_units(value: nat, unit: char)
    requires
        value <= u64::MAX,
        !('0' <= unit <= '9'),
        !text::is_space(unit),
    ensures
        ({
            let read = seconds_of(text::decimal_text(value) + seq![unit]);
            &&& unit == 's' ==> read == Some(value)
            &&& unit == 'm' && 60 * value <= u64::MAX ==> read == Some(60 * value)
            &&& unit == 'm' && 60 * value > u64::MAX ==> read == Some(u64::MAX as nat)
            &&& unit == 'h' && 60 * (60 * value) <= u64::MAX ==> read == Some(60 * (60 * value))
            &&& unit == 'h' && 60 * (60 * value) > u64::MAX ==> read == Some(u64::MAX as nat)
            &&& unit != 's' && unit != 'm' && unit != 'h' ==> read is None && fault_of(
                text::decimal_text(value) + seq![unit],
            ) == Some(DurationFault::Unit)
        }),
        seconds_of(text::decimal_text(value)) is None,
{
    let digits = text::decimal_text(value);
    let whole = digits + seq![unit];
    lemma_decimal_value(value);
    assert(is_digit(whole[0]));
    assert(whole.last() == unit);
    assert(text::trimmed(whole) == whole);
    lemma_leading_digits(whole, digits.len());
    assert(whole.take(digits.len() as int) =~= digits);
    assert(whole.skip(digits.len() as int) =~= seq![unit]);
    assert(seq![unit][0] == unit);
    assert(seq!['s'][0] == 's' && seq!['m'][0] == 'm' && seq!['h'][0] == 'h');
    assert(is_digit(digits[0]) && is_digit(digits[digits.len() - 1]));
    assert(digits.last() == digits[digits.len() - 1]);
    assert(text::trimmed(digits) == digits);
    lemma_leading_digits(digits, digits.len());
    assert(digits.take(digits.len() as int) =~= digits);
    assert(digits.skip(digits.len() as int).len() == 0);
}

/// Spaces around a duration do not matter.
pub proof fn law_spaces_around(raw: Seq<char>, space: char)
    requires
        text::is_space(space),
    ensures
        seconds_of(seq![space] + raw) == seconds_of(raw),
        raw.len() > 0 && !text::is_space(raw[0]) ==> seconds_of(raw.push(space)) == seconds_of(raw),
{
    let front = seq![space] + raw;
    assert(front[0] == space);
    assert(front.drop_first() =~= raw);
    if raw.len() > 0 && !text::is_space(raw[0]) {
        let back = raw.push(space);
        assert(back[0] == raw[0]);
        assert(back.last() == space);
        assert(back.drop_last() =~= raw);
    }
}

/// What does not start with a digit, once spaces are left out, denotes no duration.
pub proof fn law_durations_start_with_a_digit(raw: Seq<char>)
    requires
        seconds_of(raw) is Some,
    ensures
        ({
            let body = text::trimmed(raw);
            &&& body.len() >= 2
            &&& '0' <= body[0] <= '9'
            &&& body.last() == 's' || body.last() == 'm' || body.last() == 'h'
            &&& forall|i: int| 0 <= i < body.len() - 1 ==> '0' <= #[trigger] body[i] <= '9'
        }),
        fault_of(raw) is None,
{
    let body = text::trimmed(raw);
    let count = leading_digits(body);
    lemma_digits_lead(body);
    let unit = body.skip(count as int);
    assert(unit.len() == 1);
    assert(unit[0] == body[count as int]);
    assert(seq!['s'][0] == 's' && seq!['m'][0] == 'm' && seq!['h'][0] == 'h');
    assert(body.last() == body[count as int]);
}

/// The leading digits are digits, and no more than there are characters.
proof fn lemma_digits_lead(value: Seq<char>)
    ensures
        leading_digits(value) <= value.len(),
        forall|i: int| 0 <= i < leading_digits(value) ==> is_digit(#[trigger] value[i]),
    decreases value.len(),
{
    if value.len() > 0 && is_digit(value[0]) {
        let rest = value.drop_first();
        lemma_digits_lead(rest);
        assert forall|i: int| 0 <= i < leading_digits(value) implies is_digit(
            #[trigger] value[i],
        ) by {
            if i > 0 {
                assert(rest[i - 1] == value[i]);
            }
        }
    }
}

} // verus!
