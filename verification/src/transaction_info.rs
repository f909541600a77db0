use crate::client_id::ClientId;
use vstd::prelude::*;

verus! {

/// The kind of an event or of a recorded transaction. Only deposits and
/// withdrawals create a record; the other three refer to an existing one.
#[derive(Debug, Clone, Copy, PartialEq, Eq, Structural)]
pub enum TransactionType {
    Deposit,
    Withdrawal,
    Dispute,
    Resolve,
    Chargeback,
}

/// Outcome of a recorded transaction. A record that failed validation after
/// claiming its identifier keeps the identifier with this mark.
#[derive(Debug, Clone, Copy, PartialEq, Eq, Structural)]
pub enum TransactionStatus {
    Success,
    Failure,
}

/// Record of one deposit or withdrawal, created at most once per
/// transaction identifier.
#[derive(Debug, Clone, Copy)]
pub struct TransactionInfo {
    pub kind: TransactionType,
    pub client: ClientId,
    pub amount: Option<i64>,
    pub status: TransactionStatus,
}

} // verus!
