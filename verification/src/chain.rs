//! The computation of the SHA-256 chain benchmark program: hashing a 32-byte
//! input a given number of times.

use vstd::prelude::*;
use sha2::Digest;

verus! {

/// The SHA-256 digest of `data`, as the `sha2` crate computes it.
pub uninterp spec fn sha256(data: Seq<u8>) -> Seq<u8>;

/// Calls `sha2::Sha256` (`new`, `update`, `finalize`) on the 32 bytes of `data`.
/// The contract claims only that the digest is the function `sha256` of the
/// bytes hashed, the same bytes giving the same digest; what SHA-256 computes is
/// not stated.
#[verifier::external_body]
fn sha256_digest(data: &[u8; 32]) -> (digest: [u8; 32])
    ensures
        digest@ == sha256(data@),
{
    let mut hasher = sha2::Sha256::new();
    hasher.update(data);
    hasher.finalize().into()
}

/// What the program commits after `num_iters` rounds on `input`: each round
/// hashes the original input, so no round leaves the input itself, and every
/// round leaves the digest of the input.
pub open spec fn chained_hash(input: Seq<u8>, num_iters: nat) -> Seq<u8> {
    if num_iters == 0 {
        input
    } else {
        sha256(input)
    }
}

/// Runs `num_iters` rounds of the benchmark on `input`: each round sets the hash
/// to the SHA-256 digest of `input`. Returns the hash after the last round, or
/// `input` when there is none.
pub fn sha2_chain(input: [u8; 32], num_iters: u32) -> (hash: [u8; 32])
    ensures
        hash@ == chained_hash(input@, num_iters as nat),
{
    let mut hash: [u8; 32] = input;
    let mut i: u32 = 0;
    while i < num_iters
        invariant
            i <= num_iters,
            hash@ == chained_hash(input@, i as nat),
        decreases num_iters - i,
    {
        hash = sha256_digest(&input);
        i = i + 1;
    }
    hash
}

/// Every round count from one on gives the same hash: the rounds do not build
/// on each other.
pub proof fn lemma_chain_rounds_agree(input: Seq<u8>, m: nat, n: nat)
    requires
        m >= 1,
        n >= 1,
    ensures
        chained_hash(input, m) == chained_hash(input, n),
{
}

} // verus!
