//! Fresh identifiers for units, bases and resource nodes.

use vstd::prelude::*;

verus! {

pub open spec fn is_lower_hex(c: char) -> bool {
    ('0' <= c <= '9') || ('a' <= c <= 'f')
}

/// The hyphenated lower-case form of a version 4 UUID: `xxxxxxxx-xxxx-4xxx-yxxx-xxxxxxxxxxxx`
/// where `y` is one of `8`, `9`, `a`, `b`.
pub open spec fn uuid_shaped(s: Seq<char>) -> bool {
    &&& s.len() == 36
    &&& forall|i: int| 0 <= i < 36 ==> (i == 8 || i == 13 || i == 18 || i == 23) ==> #[trigger] s[i] == '-'
    &&& forall|i: int| 0 <= i < 36 ==> !(i == 8 || i == 13 || i == 18 || i == 23) ==> is_lower_hex(#[trigger] s[i])
    &&& s[14] == '4'
    &&& (s[19] == '8' || s[19] == '9' || s[19] == 'a' || s[19] == 'b')
}

/// A random identifier: `uuid::Uuid::new_v4()` formatted with `to_string`.
/// The contract states the text's shape, which `Uuid`'s `Display` (the lower-case
/// hyphenated form) and `new_v4`'s version and variant bits give; which of the
/// possible identifiers comes back is chance, and two calls may return the same one.
#[verifier::external_body]
pub(crate) fn new_id() -> (id: String)
    ensures
        uuid_shaped(id@),
{
    uuid::Uuid::new_v4().to_string()
}

} // verus!
