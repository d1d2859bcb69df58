use vstd::prelude::*;

use crate::types::{Error, LogsBloom};

verus! {

/// A block header as the node reports it, where a pending block still lacks
/// its hash, number and bloom.
pub struct PendingBlock {
    pub hash: Option<[u8; 32]>,
    pub number: Option<u64>,
    pub logs_bloom: Option<LogsBloom>,
}

/// The listener's view of a produced block.
#[derive(Clone, Copy, Debug)]
pub struct Block {
    pub hash: [u8; 32],
    pub number: u64,
    pub logs_bloom: LogsBloom,
}

impl Block {
    /// The produced block behind a header, or `PendingBlock` where the header
    /// lacks its hash, number or bloom.
    pub fn try_from_pending(block: PendingBlock) -> (r: Result<Block, Error>)
        ensures
            r is Ok <==> (block.hash is Some && block.number is Some && block.logs_bloom is Some),
            r is Err ==> r == Err::<Block, Error>(Error::PendingBlock),
            r matches Ok(b) ==> Some(b.hash) == block.hash && Some(b.number) == block.number
                && Some(b.logs_bloom) == block.logs_bloom,
    {
        match (block.hash, block.number, block.logs_bloom) {
            (Some(hash), Some(number), Some(logs_bloom)) => Ok(Block { hash, number, logs_bloom }),
            _ => Err(Error::PendingBlock),
        }
    }
}

} // verus!
