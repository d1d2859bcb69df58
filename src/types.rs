use vstd::prelude::*;

verus! {

/// A 20-byte account or contract address.
#[derive(Clone, Copy, Debug)]
pub struct Address {
    pub bytes: [u8; 20],
}

impl View for Address {
    type V = Seq<u8>;

    open spec fn view(&self) -> Seq<u8> {
        self.bytes@
    }
}

impl Address {
    /// Byte-wise comparison of two addresses.
    pub fn same_as(&self, other: &Address) -> (r: bool)
        ensures
            r == (self@ == other@),
    {
        let mut i: usize = 0;
        while i < 20
            invariant
                i <= 20,
                self@.len() == 20,
                other@.len() == 20,
                forall|k: int| 0 <= k < i ==> self@[k] == other@[k],
            decreases 20 - i,
        {
            if self.bytes[i] != other.bytes[i] {
                return false;
            }
            i = i + 1;
        }
        assert(self@ =~= other@);
        true
    }
}

/// Whether `a` is one of the addresses of `set`.
pub open spec fn address_in(a: Seq<u8>, set: Seq<Address>) -> bool {
    exists|k: int| 0 <= k < set.len() && set[k]@ == a
}

/// Linear membership test of an address in a list of addresses.
pub fn contains_address(set: &Vec<Address>, a: &Address) -> (r: bool)
    ensures
        r == address_in(a@, set@),
{
    let mut i: usize = 0;
    while i < set.len()
        invariant
            i <= set@.len(),
            forall|k: int| 0 <= k < i ==> set@[k]@ != a@,
        decreases set.len() - i,
    {
        if set[i].same_as(a) {
            return true;
        }
        i = i + 1;
    }
    false
}

/// A log as returned by the node. The listener reads only the emitting
/// address and the block number; `json` is the whole log object as received,
/// passed through verbatim to the webhook payload.
#[derive(Debug)]
pub struct Log {
    pub address: Address,
    /// `None` for a pending or removed log.
    pub block_number: Option<u64>,
    pub json: String,
}

impl Log {
    /// A copy of this log.
    pub fn duplicate(&self) -> (r: Log)
        ensures
            r == *self,
    {
        Log { address: self.address, block_number: self.block_number, json: self.json.clone() }
    }
}

/// The 2048-bit logs bloom filter of a block header.
#[derive(Clone, Copy, Debug)]
pub struct LogsBloom {
    pub bytes: [u8; 256],
}

impl View for LogsBloom {
    type V = Seq<u8>;

    open spec fn view(&self) -> Seq<u8> {
        self.bytes@
    }
}

/// Errors of the library's own rules.
#[derive(Clone, Copy, Debug, PartialEq, Eq, Structural)]
pub enum Error {
    /// No network of the configuration has the requested chain id.
    NetworkNotFound,
    /// A block number does not fit the store's signed 64-bit column.
    BlockNumberOutOfRange,
    /// A block header still lacks its number or its bloom: the block is pending.
    PendingBlock,
}

} // verus!
