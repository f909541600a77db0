use vstd::prelude::*;

verus! {

/// The kind of an event read from the input stream.
#[derive(Debug, Clone, Copy, PartialEq, Eq, Structural)]
pub enum InputFileRecordType {
    Deposit,
    Withdrawal,
    Dispute,
    Resolve,
    Chargeback,
}

/// One event of the input stream. `client` is narrowed to 16 bits by the
/// engine; `amount` counts 1/10000ths of a currency unit and is present only
/// for deposits and withdrawals.
#[derive(Debug, Clone, Copy)]
pub struct InputFileRecord {
    pub kind: InputFileRecordType,
    pub client: u64,
    pub tx: u64,
    pub amount: Option<i64>,
}

/// Remembers where the event stream is to be read from. The reading itself
/// is input/output and belongs to the surrounding program.
pub struct InputFileReader {
    pub path: String,
}

impl InputFileReader {
    pub fn new(path: String) -> (r: InputFileReader)
        ensures
            r.path@ == path@,
    {
        InputFileReader { path }
    }
}

} // verus!
