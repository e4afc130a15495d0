//! Hashing and encoding of head data.

use crate::types::H256;
use vstd::prelude::*;

verus! {

/// The 256-bit Blake2b hash of `data`.
pub uninterp spec fn blake2_256(data: Seq<u8>) -> Seq<u8>;

/// Calls `sp_runtime::traits::BlakeTwo256::hash`, the hash function of the runtime. Its result is
/// trusted to depend on the bytes of `data` alone; `blake2_256` names it. Nothing more is claimed
/// of it: not, above all, that the hashes of different data differ.
#[verifier::external_body]
pub(crate) fn hash_data(data: &[u8]) -> (r: H256)
    ensures
        r@ == blake2_256(data@),
{
    let hash = <sp_runtime::traits::BlakeTwo256 as sp_runtime::traits::Hash>::hash(data);
    hash.into()
}

/// A hash function.
pub trait Hashing {
    /// The hash of `data`.
    fn hash(data: &[u8]) -> H256;
}

/// The 256-bit Blake2b hash function.
pub struct BlakeTwo256;

impl Hashing for BlakeTwo256 {
    fn hash(data: &[u8]) -> (r: H256)
        ensures
            r@ == blake2_256(data@),
    {
        hash_data(data)
    }
}

/// Calls `parity_scale_codec::Encode::encode` on an array of 32 bytes, which is trusted to give
/// back those bytes, without a length in front.
#[verifier::external_body]
pub(crate) fn encode_hash(hash: &H256) -> (r: Vec<u8>)
    ensures
        r@ == hash@,
{
    parity_scale_codec::Encode::encode(hash)
}

/// Whether two hashes are the same.
pub fn same_hash(a: &H256, b: &H256) -> (r: bool)
    ensures
        r == (a@ == b@),
{
    for i in 0..32usize
        invariant
            forall|j: int| 0 <= j < i ==> #[trigger] a@[j] == b@[j],
    {
        if a[i] != b[i] {
            assert(a@[i as int] != b@[i as int]);
            return false;
        }
    }
    assert(a@ =~= b@);
    true
}

} // verus!
