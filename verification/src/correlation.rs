//! Correlation identifiers.
use uuid::Uuid;
use vstd::prelude::*;

verus! {

/// The identifier that a text denotes.
pub uninterp spec fn uuid_value(text: Seq<char>) -> Option<u128>;

/// Sixteen to the power of `n`.
pub open spec fn power_of_16(n: nat) -> nat
    decreases n,
{
    if n == 0 {
        1
    } else {
        16 * power_of_16((n - 1) as nat)
    }
}

/// The character of a hexadecimal digit.
pub open spec fn hex_digit(value: nat) -> char {
    if value < 10 {
        (48 + value) as char
    } else {
        (87 + value) as char
    }
}

/// The digit of an identifier that stands `place` digits from its end.
pub open spec fn hex_digit_at(id: u128, place: nat) -> char {
    hex_digit((id as nat / power_of_16(place)) % 16)
}

/// The text of an identifier: 32 lower-case hexadecimal digits in groups of 8, 4, 4, 4 and 12,
/// with a hyphen between two groups.
pub open spec fn uuid_text(id: u128) -> Seq<char> {
    Seq::new(
        36,
        |i: int|
            if i < 8 {
                hex_digit_at(id, (31 - i) as nat)
            } else if i == 8 || i == 13 || i == 18 || i == 23 {
                '-'
            } else if i < 13 {
                hex_digit_at(id, (32 - i) as nat)
            } else if i < 18 {
                hex_digit_at(id, (33 - i) as nat)
            } else if i < 23 {
                hex_digit_at(id, (34 - i) as nat)
            } else {
                hex_digit_at(id, (35 - i) as nat)
            },
    )
}

/// Whether an identifier is laid out as a random one: its version digit is 4, and the digit of its
/// variant is one of 8 to 11.
pub open spec fn is_random_id(id: u128) -> bool {
    &&& (id as nat / power_of_16(19)) % 16 == 4
    &&& 8 <= (id as nat / power_of_16(15)) % 16 < 12
}

/// Draws an identifier with `Uuid::new_v4`.
///
/// The identifier has the layout of a random one. Its other digits come from the random numbers of
/// the operating system, and nothing is said of them. Where the operating system has none to give,
/// the call does not return.
#[verifier::external_body]
pub(crate) fn random_id() -> (id: u128)
    ensures
        is_random_id(id),
{
    Uuid::new_v4().as_u128()
}

/// Reads an identifier with `Uuid::from_str`.
///
/// Whether a text denotes an identifier, and which, is a function of the text.
#[verifier::external_body]
pub(crate) fn parse_uuid(text: &str) -> (id: Option<u128>)
    ensures
        id == uuid_value(text@),
{
    text.parse::<Uuid>().ok().map(|found| found.as_u128())
}

/// Writes an identifier with the `Display` of `Uuid`.
///
/// Reading the text gives the identifier back.
#[verifier::external_body]
pub(crate) fn format_uuid(id: u128) -> (text: String)
    ensures
        text@ == uuid_text(id),
        uuid_value(text@) == Some(id),
{
    Uuid::from_u128(id).to_string()
}

} // verus!
