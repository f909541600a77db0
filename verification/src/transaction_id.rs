use vstd::prelude::*;

verus! {

/// Identifier of a transaction, unique across the whole event stream.
#[derive(Debug, Clone, Copy, PartialEq, Eq, Structural, Hash)]
pub struct TransactionId(pub u64);

impl TransactionId {
    pub fn new(id: u64) -> (r: TransactionId)
        ensures
            r.0 == id,
    {
        TransactionId(id)
    }

    pub fn value(&self) -> (r: u64)
        ensures
            r == self.0,
    {
        self.0
    }
}

} // verus!
