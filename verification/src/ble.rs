//! The guitar's GATT surface: its service and characteristic identifiers.
use vstd::prelude::*;

use crate::probe::{hex_value, is_hex_digit};

verus! {

/// The guitar's GATT service.
pub const GUITAR_SERVICE: &'static str = "eb65b6c6-fec3-4ed1-a6fc-9eff755a4160";

/// The characteristic the client writes requests to.
pub const GUITAR_CHARACTERISTIC_REQUEST: &'static str = "eb65b6c6-fec3-4ed1-a6fc-9eff755a4161";

/// The characteristic the device notifies responses on.
pub const GUITAR_CHARACTERISTIC_RESPONSE: &'static str = "eb65b6c6-fec3-4ed1-a6fc-9eff755a4162";

/// The write length assumed when the platform will not say what it
/// negotiated: what the vendor's client gets after asking for an MTU of 517.
/// An inference, not a measurement; lower it if writes are rejected.
pub const ASSUMED_WRITE_LEN: usize = 514;

/// The hyphenated form of a UUID: 36 characters, hyphens at 8, 13, 18 and 23,
/// hex digits everywhere else.
pub open spec fn is_hyphenated_uuid(s: Seq<char>) -> bool {
    &&& s.len() == 36
    &&& forall|i: int|
        0 <= i < 36 ==> if i == 8 || i == 13 || i == 18 || i == 23 {
            s[i] == '-'
        } else {
            is_hex_digit(#[trigger] s[i])
        }
}

/// The number the hex digits of `s` spell, first digit most significant,
/// hyphens skipped.
pub open spec fn hex_number(s: Seq<char>) -> int
    decreases s.len(),
{
    if s.len() == 0 {
        0
    } else if s.last() == '-' {
        hex_number(s.drop_last())
    } else {
        hex_number(s.drop_last()) * 16 + hex_value(s.last())
    }
}

#[verifier::external_type_specification]
#[verifier::external_body]
pub struct ExUuid(uuid::Uuid);

/// What `uuid::Uuid::parse_str` gives for `text`: the identifier it spells,
/// or nothing.
pub uninterp spec fn uuid_parsed(text: Seq<char>) -> Option<uuid::Uuid>;

/// `uuid::Uuid::parse_str`, keeping the identifier on success. The result is
/// fixed by the text alone. Its source accepts every text in the hyphenated
/// form and keeps the 16 bytes its 32 hex digits spell, so two hyphenated
/// texts whose digits spell different numbers give different identifiers.
/// What it does with the simple, braced and URN forms is not stated here.
#[verifier::external_body]
fn parse_uuid(text: &str) -> (r: Option<uuid::Uuid>)
    ensures
        r == uuid_parsed(text@),
        is_hyphenated_uuid(text@) ==> r is Some,
        is_hyphenated_uuid(text@) ==> forall|other: Seq<char>|
            is_hyphenated_uuid(other) && hex_number(other) != hex_number(text@) ==> uuid_parsed(
                other,
            ) != r,
{
    uuid::Uuid::parse_str(text).ok()
}

/// The identifier a hyphenated constant spells, which no hyphenated text
/// spelling another number gives.
fn uuid_constant(text: &str) -> (u: uuid::Uuid)
    requires
        is_hyphenated_uuid(text@),
    ensures
        uuid_parsed(text@) == Some(u),
        forall|other: Seq<char>|
            is_hyphenated_uuid(other) && hex_number(other) != hex_number(text@) ==> uuid_parsed(
                other,
            ) != Some(u),
{
    match parse_uuid(text) {
        Some(u) => u,
        None => vstd::pervasive::unreached(),
    }
}

/// The three constants are hyphenated identifiers that spell three
/// different numbers: they differ in their last digit only.
proof fn lemma_the_constants_differ()
    ensures
        is_hyphenated_uuid(GUITAR_SERVICE@),
        is_hyphenated_uuid(GUITAR_CHARACTERISTIC_REQUEST@),
        is_hyphenated_uuid(GUITAR_CHARACTERISTIC_RESPONSE@),
        hex_number(GUITAR_SERVICE@) != hex_number(GUITAR_CHARACTERISTIC_REQUEST@),
        hex_number(GUITAR_SERVICE@) != hex_number(GUITAR_CHARACTERISTIC_RESPONSE@),
        hex_number(GUITAR_CHARACTERISTIC_REQUEST@) != hex_number(GUITAR_CHARACTERISTIC_RESPONSE@),
{
    reveal_strlit("eb65b6c6-fec3-4ed1-a6fc-9eff755a4160");
    reveal_strlit("eb65b6c6-fec3-4ed1-a6fc-9eff755a4161");
    reveal_strlit("eb65b6c6-fec3-4ed1-a6fc-9eff755a4162");
    let a = GUITAR_SERVICE@;
    let b = GUITAR_CHARACTERISTIC_REQUEST@;
    let c = GUITAR_CHARACTERISTIC_RESPONSE@;
    assert(a.drop_last() =~= b.drop_last());
    assert(a.drop_last() =~= c.drop_last());
    assert(a.last() == '0' && b.last() == '1' && c.last() == '2');
}

/// The guitar's GATT service, which is neither characteristic.
pub fn service_uuid() -> (u: uuid::Uuid)
    ensures
        uuid_parsed(GUITAR_SERVICE@) == Some(u),
        uuid_parsed(GUITAR_CHARACTERISTIC_REQUEST@) != Some(u),
        uuid_parsed(GUITAR_CHARACTERISTIC_RESPONSE@) != Some(u),
{
    proof {
        lemma_the_constants_differ();
    }
    uuid_constant(GUITAR_SERVICE)
}

/// The characteristic requests are written to, which is neither the service
/// nor the response characteristic.
pub fn request_uuid() -> (u: uuid::Uuid)
    ensures
        uuid_parsed(GUITAR_CHARACTERISTIC_REQUEST@) == Some(u),
        uuid_parsed(GUITAR_SERVICE@) != Some(u),
        uuid_parsed(GUITAR_CHARACTERISTIC_RESPONSE@) != Some(u),
{
    proof {
        lemma_the_constants_differ();
    }
    uuid_constant(GUITAR_CHARACTERISTIC_REQUEST)
}

/// The characteristic responses are notified on, which is neither the
/// service nor the request characteristic.
pub fn response_uuid() -> (u: uuid::Uuid)
    ensures
        uuid_parsed(GUITAR_CHARACTERISTIC_RESPONSE@) == Some(u),
        uuid_parsed(GUITAR_SERVICE@) != Some(u),
        uuid_parsed(GUITAR_CHARACTERISTIC_REQUEST@) != Some(u),
{
    proof {
        lemma_the_constants_differ();
    }
    uuid_constant(GUITAR_CHARACTERISTIC_RESPONSE)
}

} // verus!
