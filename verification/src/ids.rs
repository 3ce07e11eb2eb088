//! Random identifiers.
use vstd::prelude::*;

verus! {

/// Calls `uuid::Uuid::new_v4()` and takes the high 64 bits of the random
/// UUID (`as_u64_pair().0`).  The bits are random; claimed only that the
/// version nibble (bits 12 to 15) is 4, as `new_v4` sets it.
#[verifier::external_body]
pub(crate) fn random_order_id() -> (r: u64)
    ensures
        (r >> 12u64) & 0xfu64 == 4,
{
    uuid::Uuid::new_v4().as_u64_pair().0
}

/// A lowercase hexadecimal digit.
pub open spec fn is_lower_hex_digit(c: char) -> bool {
    ('0' as int <= c as int <= '9' as int) || ('a' as int <= c as int <= 'f' as int)
}

/// The text of a version-4 UUID in lowercase hyphenated form: 36 characters,
/// hyphens at 8, 13, 18 and 23, lowercase hexadecimal digits elsewhere, the
/// version digit (at 14) 4 and the variant digit (at 19) one of 8, 9, a, b.
pub open spec fn is_uuid_v4_text(s: Seq<char>) -> bool {
    &&& s.len() == 36
    &&& forall|i: int|
        0 <= i < 36 ==> if i == 8 || i == 13 || i == 18 || i == 23 {
            #[trigger] s[i] == '-'
        } else {
            is_lower_hex_digit(s[i])
        }
    &&& s[14] == '4'
    &&& (s[19] == '8' || s[19] == '9' || s[19] == 'a' || s[19] == 'b')
}

/// Calls `uuid::Uuid::new_v4().to_string()`.  Claimed: the text is a version-4
/// UUID in lowercase hyphenated form (`Display` writes the hyphenated lowercase
/// form, and `new_v4` sets the version and variant bits); the other digits are
/// random.
#[verifier::external_body]
pub(crate) fn uuid_v4_string() -> (r: String)
    ensures
        is_uuid_v4_text(r@),
{
    uuid::Uuid::new_v4().to_string()
}

} // verus!
