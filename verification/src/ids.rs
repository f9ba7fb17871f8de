//! Universally unique identifiers, held as their 128 bits.
use vstd::prelude::*;

verus! {

/// The version and variant bits of a random identifier.
pub open spec fn is_random_uuid(id: u128) -> bool {
    id & 0xf000c000000000000000u128 == 0x40008000000000000000u128
}

/// `uuid::Uuid::new_v4`: a random identifier. Of the result only the version
/// and variant bits are known.
#[verifier::external_body]
pub(crate) fn random_uuid() -> (r: u128)
    ensures
        is_random_uuid(r),
{
    uuid::Uuid::new_v4().as_u128()
}

/// What `uuid::Uuid::parse_str` reads from a text.
pub uninterp spec fn uuid_of(s: Seq<char>) -> Option<u128>;

/// `uuid::Uuid::parse_str`: the identifier that a text writes, in any of the
/// forms the crate accepts; nothing for any other text.
#[verifier::external_body]
pub(crate) fn parse_uuid(s: &str) -> (r: Option<u128>)
    ensures
        r == uuid_of(s@),
{
    match uuid::Uuid::parse_str(s) {
        Ok(id) => Some(id.as_u128()),
        Err(_) => None,
    }
}

/// A random identifier is never the nil identifier.
pub proof fn lemma_random_uuid_is_not_nil(id: u128)
    requires
        is_random_uuid(id),
    ensures
        id != 0,
{
    assert(0u128 & 0xf000c000000000000000u128 != 0x40008000000000000000u128) by (bit_vector);
}

} // verus!
