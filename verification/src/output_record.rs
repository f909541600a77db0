use vstd::prelude::*;

verus! {

/// Snapshot row for one client account. Monetary fields count 1/10000ths of
/// a currency unit; `total` always equals `available + held`.
#[derive(Debug, Clone, Copy)]
pub struct OutputRecord {
    pub client: u64,
    pub available: i128,
    pub held: i128,
    pub total: i128,
    pub locked: bool,
}

} // verus!
