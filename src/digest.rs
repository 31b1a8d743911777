use vstd::prelude::*;

verus! {

/// The SHA-1 digest of a byte sequence.
pub uninterp spec fn sha1_of(data: Seq<u8>) -> Seq<u8>;

/// Relies on `sha1::Sha1` through `Digest::digest`: the 20-byte SHA-1 digest of `data`, which
/// depends on `data` alone.
#[verifier::external_body]
pub(crate) fn sha1_digest(data: &[u8]) -> (r: [u8; 20])
    ensures
        r@ == sha1_of(data@),
{
    <sha1::Sha1 as sha1::Digest>::digest(data).into()
}

/// Whether `data` hashes to `expected`.
pub fn matches_digest(data: &[u8], expected: &[u8; 20]) -> (r: bool)
    ensures
        r == (sha1_of(data@) == expected@),
{
    let d = sha1_digest(data);
    same_digest(&d, expected)
}

/// Whether two digests are equal.
pub fn same_digest(a: &[u8; 20], b: &[u8; 20]) -> (r: bool)
    ensures
        r == (a@ == b@),
{
    let mut i: usize = 0;
    while i < 20
        invariant
            i <= 20,
            a@.len() == 20,
            b@.len() == 20,
            forall|j: int| 0 <= j < i ==> a@[j] == b@[j],
        decreases 20 - i,
    {
        if a[i] != b[i] {
            return false;
        }
        i = i + 1;
    }
    assert(a@ =~= b@);
    true
}

} // verus!
