use vstd::prelude::*;

use crate::types::{Address, LogsBloom};

verus! {

/// Whether a bloom filter accepts an input: the keccak-256 based membership
/// test of the Ethereum logs bloom. It has no false negatives.
pub uninterp spec fn bloom_accepts(bloom: Seq<u8>, input: Seq<u8>) -> bool;

/// Whether every byte of a bloom filter is zero.
pub open spec fn bloom_is_empty(bloom: Seq<u8>) -> bool {
    forall|i: int| 0 <= i < bloom.len() ==> bloom[i] == 0
}

/// Relies on `ethbloom::Bloom::contains_input` with a raw input: the bits that
/// the input's keccak-256 hash selects are all set in the filter. An input
/// always selects at least one bit, so an all-zero filter accepts nothing.
#[verifier::external_body]
fn block_has_contract_log(bloom: &LogsBloom, contract: &Address) -> (r: bool)
    ensures
        r == bloom_accepts(bloom@, contract@),
        bloom_is_empty(bloom@) ==> !r,
{
    ethbloom::Bloom::from(bloom.bytes).contains_input(ethbloom::Input::Raw(&contract.bytes))
}

/// Whether the bloom filter admits that one of `contracts` emitted a log.
pub open spec fn bloom_admits_any(bloom: Seq<u8>, contracts: Seq<Address>) -> bool {
    exists|k: int| 0 <= k < contracts.len() && bloom_accepts(bloom, contracts[k]@)
}

/// Tests each contract against the block's bloom filter. An empty list of
/// contracts is never admitted.
pub fn might_have_logs(bloom: &LogsBloom, contracts: &Vec<Address>) -> (r: bool)
    ensures
        r == bloom_admits_any(bloom@, contracts@),
        bloom_is_empty(bloom@) ==> !r,
{
    let mut i: usize = 0;
    while i < contracts.len()
        invariant
            i <= contracts@.len(),
            forall|k: int| 0 <= k < i ==> !bloom_accepts(bloom@, #[trigger] contracts@[k]@),
        decreases contracts.len() - i,
    {
        if block_has_contract_log(bloom, &contracts[i]) {
            return true;
        }
        i = i + 1;
    }
    false
}

} // verus!
