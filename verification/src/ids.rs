//! Identifiers made from random UUIDs.

use vstd::prelude::*;
use vstd::string::*;

verus! {

/// Whether `c` is a digit of lower-case hexadecimal.
pub open spec fn is_hex(c: char) -> bool {
    ('0' <= c && c <= '9') || ('a' <= c && c <= 'f')
}

/// Whether `s` is a random UUID written without hyphens: 32 hexadecimal digits,
/// of which the version is 4 and the variant is that of RFC 9562.
pub open spec fn is_uuid(s: Seq<char>) -> bool {
    &&& s.len() == 32
    &&& forall|i: int| 0 <= i < 32 ==> is_hex(#[trigger] s[i])
    &&& s[12] == '4'
    &&& (s[16] == '8' || s[16] == '9' || s[16] == 'a' || s[16] == 'b')
}

/// Whether `s` is a random UUID behind `prefix`.
pub open spec fn is_id(s: Seq<char>, prefix: Seq<char>) -> bool {
    &&& s.len() == prefix.len() + 32
    &&& s.take(prefix.len() as int) == prefix
    &&& is_uuid(s.skip(prefix.len() as int))
}

/// `Uuid::new_v4`, written by `Uuid::simple`: a random UUID as lower-case
/// hexadecimal digits. Which one is left to chance; that no two are alike is not
/// claimed. It panics where the system has no randomness to give.
#[verifier::external_body]
fn random_uuid() -> (r: String)
    ensures
        is_uuid(r@),
{
    uuid::Uuid::new_v4().simple().to_string()
}

/// A new identifier: a random UUID behind `prefix`.
pub fn new_id(prefix: &str) -> (r: String)
    ensures
        is_id(r@, prefix@),
{
    let mut r: String = prefix.to_owned();
    let tail: String = random_uuid();
    r.append(tail.as_str());
    proof {
        assert(r@.take(prefix@.len() as int) =~= prefix@);
        assert(r@.skip(prefix@.len() as int) =~= tail@);
    }
    r
}

} // verus!
