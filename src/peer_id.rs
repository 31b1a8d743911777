use vstd::prelude::*;

verus! {

/// ASCII letters and digits.
pub open spec fn is_alphanumeric(b: u8) -> bool {
    (48 <= b <= 57) || (65 <= b <= 90) || (97 <= b <= 122)
}

/// The client prefix `-CRAB01-` that opens every peer id.
pub open spec fn client_prefix() -> Seq<u8> {
    seq![45u8, 67u8, 82u8, 65u8, 66u8, 48u8, 49u8, 45u8]
}

/// Relies on rand's `Alphanumeric` distribution, sampled from `thread_rng`: one byte drawn from
/// `A-Z`, `a-z` and `0-9`.
#[verifier::external_body]
fn random_alphanumeric() -> (r: u8)
    ensures
        is_alphanumeric(r),
{
    rand::Rng::sample(&mut rand::thread_rng(), rand::distributions::Alphanumeric)
}

/// A fresh 20-byte peer id: the client prefix, then 12 random letters and digits.
pub fn generate_peer_id() -> (r: [u8; 20])
    ensures
        r@.subrange(0, 8) == client_prefix(),
        forall|i: int| 8 <= i < 20 ==> is_alphanumeric(#[trigger] r@[i]),
{
    let prefix: [u8; 8] = [45, 67, 82, 65, 66, 48, 49, 45];
    assert(prefix@ =~= client_prefix());
    let mut id = [0u8; 20];
    let mut i: usize = 0;
    while i < 20
        invariant
            i <= 20,
            id@.len() == 20,
            prefix@ == client_prefix(),
            forall|k: int| 0 <= k < i && k < 8 ==> id@[k] == client_prefix()[k],
            forall|k: int| 8 <= k < i ==> is_alphanumeric(#[trigger] id@[k]),
        decreases 20 - i,
    {
        if i < 8 {
            id[i] = prefix[i];
        } else {
            id[i] = random_alphanumeric();
        }
        i = i + 1;
    }
    assert(id@.subrange(0, 8) =~= client_prefix());
    id
}

} // verus!
