//! Identities of cells, bullets, threads and entities.
use vstd::prelude::*;

verus! {

/// A UUID, as the 128-bit number it is.
pub type Uuid = u128;

/// What `uuid` reads out of a text: the number of the UUID that it spells, in any
/// of the forms the crate knows.
pub uninterp spec fn uuid_spelled(text: Seq<char>) -> Option<u128>;

/// `Uuid::now_v7`: a UUID made of the current time and of chance, so nothing is
/// said of it.
#[verifier::external_body]
fn now_v7() -> u128 {
    uuid::Uuid::now_v7().as_u128()
}

/// `Uuid::parse_str`: the UUID that a text spells, if it spells one.
#[verifier::external_body]
fn parse_str(text: &str) -> (id: Option<u128>)
    ensures
        id == uuid_spelled(text@),
{
    uuid::Uuid::parse_str(text).ok().map(|id| id.as_u128())
}

/// `Uuid`'s `Display`: 32 lower-case hexadecimal digits in groups of 8, 4, 4, 4
/// and 12, which `Uuid::parse_str` reads back.
#[verifier::external_body]
fn hyphenated(id: u128) -> (text: String)
    ensures
        text@ == spelling(id),
        uuid_spelled(text@) == Some(id),
{
    uuid::Uuid::from_u128(id).to_string()
}

/// The hexadecimal digit of `n`.
pub open spec fn hex_digit(n: int) -> char {
    if n < 10 {
        (48 + n) as char
    } else {
        (87 + n) as char
    }
}

/// `16` to the power `n`.
pub open spec fn pow16(n: int) -> int
    decreases n,
{
    if n <= 0 {
        1
    } else {
        16 * pow16(n - 1)
    }
}

/// The text that a UUID is written as.
pub open spec fn spelling(id: u128) -> Seq<char> {
    Seq::new(
        36,
        |i: int|
            if i == 8 || i == 13 || i == 18 || i == 23 {
                '-'
            } else {
                let dashes: int = if i < 8 {
                    0
                } else if i < 13 {
                    1
                } else if i < 18 {
                    2
                } else if i < 23 {
                    3
                } else {
                    4
                };
                hex_digit((id as int / pow16(31 - (i - dashes))) % 16)
            },
    )
}

/// A fresh identity. Two calls give two identities; which, time and chance
/// decide.
pub fn new_id() -> Uuid {
    now_v7()
}

/// The identity that `text` spells, if it spells one.
pub fn parse_id(text: &str) -> (id: Option<Uuid>)
    ensures
        id == uuid_spelled(text@),
{
    parse_str(text)
}

/// The text that spells `id`.
pub fn id_text(id: Uuid) -> (text: String)
    ensures
        text@ == spelling(id),
        uuid_spelled(text@) == Some(id),
{
    hyphenated(id)
}

} // verus!
