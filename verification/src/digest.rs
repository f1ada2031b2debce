//! The digest that names an object.
use sha1::Digest;
use sha1::Sha1;
use crate::text::is_space;
use crate::text::is_token;
use vstd::prelude::*;

verus! {

/// The SHA-1 digest of `data`, as 40 lower-case hexadecimal digits in ASCII.
pub uninterp spec fn sha1_hex(data: Seq<u8>) -> Seq<u8>;

/// An ASCII digit or one of the letters `a` to `f`.
pub open spec fn is_hex_digit(b: u8) -> bool {
    (48 <= b && b <= 57) || (97 <= b && b <= 102)
}

/// The shape of a digest in text: 40 lower-case hexadecimal digits.
pub open spec fn is_digest(s: Seq<u8>) -> bool {
    s.len() == 40 && forall|i: int| 0 <= i < s.len() ==> is_hex_digit(#[trigger] s[i])
}

/// Calls `Sha1::new`, `update` and `finalize` of the crate `sha1` on `data`
/// and formats the 20 bytes that come back with `{:x}`. Trusted: the result
/// is a function of `data` alone, and it is 40 characters long, each a
/// lower-case hexadecimal digit.
#[verifier::external_body]
pub(crate) fn sha1_digest(data: &[u8]) -> (r: Vec<u8>)
    ensures
        r@ == sha1_hex(data@),
        is_digest(r@),
{
    let mut hasher = Sha1::new();
    hasher.update(data);
    format!("{:x}", hasher.finalize()).into_bytes()
}

/// A digest is a token.
pub proof fn lemma_digest_is_token(id: Seq<u8>)
    requires
        is_digest(id),
    ensures
        is_token(id),
{
    assert forall|i: int| 0 <= i < id.len() implies !is_space(#[trigger] id[i]) by {
        assert(is_hex_digit(id[i]));
    }
}

} // verus!
