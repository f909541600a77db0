use vstd::prelude::*;

verus! {

/// Identifier of a client account. Events carry a wider integer; the engine
/// narrows it to this 16-bit space before any lookup.
#[derive(Debug, Clone, Copy, PartialEq, Eq, Structural, Hash)]
pub struct ClientId(pub u16);

impl ClientId {
    pub fn new(id: u16) -> (r: ClientId)
        ensures
            r.0 == id,
    {
        ClientId(id)
    }

    pub fn value(&self) -> (r: u16)
        ensures
            r == self.0,
    {
        self.0
    }
}

} // verus!
