//! The transaction engine: consumes one event at a time, validates it
//! against the recorded history, and mutates the ledger store or rejects
//! the event with a typed reason.

use crate::client_id::ClientId;
use crate::client_info::ClientInfo;
use crate::input_file_reader::{InputFileRecord, InputFileRecordType};
use crate::model::{
    account_ok, accounts_view, chargeback_step, deposit_step, dispute_step, dispute_target_wf,
    initial_ledger, ledger_wf, lemma_chargeback_step_wf, lemma_deposit_step_wf,
    lemma_dispute_hold_bound, lemma_dispute_step_wf, lemma_resolve_step_wf, lemma_units_bound,
    lemma_withdrawal_step_wf, record_wf, resolve_step, spec_handle, withdrawal_step,
    LedgerView,
};
use crate::output_record::OutputRecord;
use crate::transaction_id::TransactionId;
use crate::transaction_info::{TransactionInfo, TransactionStatus, TransactionType};
use std::collections::{HashMap, HashSet};
use vstd::prelude::*;

verus! {

broadcast use vstd::std_specs::hash::group_hash_axioms;

/// Why an event was rejected. Every rejection is recoverable: the stream
/// continues with the next event.
#[derive(Debug, Clone, Copy, PartialEq, Eq, Structural)]
pub enum RejectionReason {
    DuplicateTransaction,
    MissingAmount,
    NegativeAmount,
    UnknownClient,
    InsufficientFunds,
    UnknownTransaction,
    InvalidDisputeTarget,
    InsufficientFundsForHold,
    UnknownDispute,
    ClientMismatch,
    UnknownResolvedDispute,
    InsufficientFundsForChargeback,
}

/// The ledger store and the engine that is its sole writer.
pub struct Service {
    transaction_table: HashMap<u64, TransactionInfo>,
    client_table: HashMap<u16, ClientInfo>,
    dispute_table: HashMap<u64, u16>,
    chargeback_table: HashSet<u64>,
    client_order: Vec<u16>,
}

impl View for Service {
    type V = LedgerView;

    closed spec fn view(&self) -> LedgerView {
        LedgerView {
            transactions: self.transaction_table@,
            clients: accounts_view(self.client_table@),
            disputes: self.dispute_table@,
            chargebacks: self.chargeback_table@,
        }
    }
}

impl Service {
    /// Accounts are created in a remembered order, so that snapshots can be
    /// produced deterministically; the order covers exactly the accounts
    /// that exist.
    pub closed spec fn order_wf(self) -> bool {
        &&& self.client_order@.no_duplicates()
        &&& forall|i: int|
            0 <= i < self.client_order@.len() ==> self@.clients.contains_key(
                #[trigger] self.client_order@[i],
            )
        &&& forall|c: u16| #[trigger]
            self@.clients.contains_key(c) ==> self.client_order@.contains(c)
    }

    pub open spec fn wf(self) -> bool {
        &&& ledger_wf(self@)
        &&& self.order_wf()
    }

    pub fn new() -> (s: Service)
        ensures
            s.wf(),
            s@ == initial_ledger(),
    {
        let s = Service {
            transaction_table: HashMap::new(),
            client_table: HashMap::new(),
            dispute_table: HashMap::new(),
            chargeback_table: HashSet::new(),
            client_order: Vec::new(),
        };
        proof {
            assert(accounts_view(s.client_table@) =~= Map::<u16, crate::client_info::AccountState>::empty());
            assert(s@ =~= initial_ledger());
        }
        s
    }

    fn process_deposit(
        &mut self,
        transaction_id: TransactionId,
        client_id: ClientId,
        amount: Option<i64>,
    ) -> (r: Result<(), RejectionReason>)
        requires
            old(self).wf(),
        ensures
            final(self).wf(),
            ({
                let (post, res) = deposit_step(old(self)@, transaction_id.0, client_id.0, amount);
                final(self)@ == post && r == res
            }),
    {
        let tx: u64 = transaction_id.0;
        let cid: u16 = client_id.0;
        if self.transaction_table.contains_key(&tx) {
            return Err(RejectionReason::DuplicateTransaction);
        }
        let a: i64 = match amount {
            Some(v) => v,
            None => {
                return Err(RejectionReason::MissingAmount);
            },
        };
        proof {
            lemma_deposit_step_wf(old(self)@, tx, cid, amount);
        }
        if a < 0 {
            let rec = TransactionInfo {
                kind: TransactionType::Deposit,
                client: client_id,
                amount: Some(a),
                status: TransactionStatus::Failure,
            };
            self.transaction_table.insert(tx, rec);
            proof {
                assert(self@ =~= deposit_step(old(self)@, tx, cid, amount).0);
            }
            return Err(RejectionReason::NegativeAmount);
        }
        let table_size: usize = self.transaction_table.len();
        let rec = TransactionInfo {
            kind: TransactionType::Deposit,
            client: client_id,
            amount: Some(a),
            status: TransactionStatus::Success,
        };
        self.transaction_table.insert(tx, rec);
        let created: bool;
        let acct: ClientInfo;
        if self.client_table.contains_key(&cid) {
            created = false;
            acct = *self.client_table.get(&cid).unwrap();
        } else {
            created = true;
            self.client_order.push(cid);
            acct = ClientInfo::default();
        }
        proof {
            lemma_units_bound(table_size as nat);
            if old(self)@.clients.contains_key(cid) {
                assert(account_ok(old(self)@, cid));
            }
            assert(acct.available + (a as i128) <= i128::MAX);
        }
        let updated = ClientInfo { available: acct.available + a as i128, ..acct };
        self.client_table.insert(cid, updated);
        proof {
            let pre = old(self)@;
            assert(self@.clients =~= deposit_step(pre, tx, cid, amount).0.clients);
            assert(self@ =~= deposit_step(pre, tx, cid, amount).0);
            let pre_order = old(self).client_order@;
            if created {
                assert(!pre_order.contains(cid)) by {
                    if pre_order.contains(cid) {
                        let i = choose|i: int|
                            0 <= i < pre_order.len() && pre_order[i] == cid;
                        assert(pre.clients.contains_key(pre_order[i]));
                    }
                }
                assert(self.client_order@ =~= pre_order.push(cid));
                assert(self.client_order@.no_duplicates());
                assert forall|c2: u16| #[trigger]
                    self@.clients.contains_key(c2) implies self.client_order@.contains(c2) by {
                    if c2 != cid {
                        assert(pre.clients.contains_key(c2));
                        let i = choose|i: int|
                            0 <= i < pre_order.len() && pre_order[i] == c2;
                        assert(self.client_order@[i] == c2);
                    } else {
                        assert(self.client_order@[pre_order.len() as int] == cid);
                    }
                }
            } else {
                assert forall|c2: u16| #[trigger]
                    self@.clients.contains_key(c2) implies self.client_order@.contains(c2) by {
                    assert(pre.clients.contains_key(c2));
                }
            }
            assert(self.order_wf());
        }
        Ok(())
    }

    fn process_withdrawal(
        &mut self,
        transaction_id: TransactionId,
        client_id: ClientId,
        amount: Option<i64>,
    ) -> (r: Result<(), RejectionReason>)
        requires
            old(self).wf(),
        ensures
            final(self).wf(),
            ({
                let (post, res) = withdrawal_step(
                    old(self)@,
                    transaction_id.0,
                    client_id.0,
                    amount,
                );
                final(self)@ == post && r == res
            }),
    {
        let tx: u64 = transaction_id.0;
        let cid: u16 = client_id.0;
        if self.transaction_table.contains_key(&tx) {
            return Err(RejectionReason::DuplicateTransaction);
        }
        let a: i64 = match amount {
            Some(v) => v,
            None => {
                return Err(RejectionReason::MissingAmount);
            },
        };
        proof {
            lemma_withdrawal_step_wf(old(self)@, tx, cid, amount);
        }
        if a < 0 {
            let rec = TransactionInfo {
                kind: TransactionType::Withdrawal,
                client: client_id,
                amount: Some(a),
                status: TransactionStatus::Failure,
            };
            self.transaction_table.insert(tx, rec);
            proof {
                assert(self@ =~= withdrawal_step(old(self)@, tx, cid, amount).0);
            }
            return Err(RejectionReason::NegativeAmount);
        }
        if !self.client_table.contains_key(&cid) {
            let rec = TransactionInfo {
                kind: TransactionType::Withdrawal,
                client: client_id,
                amount: Some(a),
                status: TransactionStatus::Success,
            };
            self.transaction_table.insert(tx, rec);
            proof {
                assert(self@ =~= withdrawal_step(old(self)@, tx, cid, amount).0);
            }
            return Err(RejectionReason::UnknownClient);
        }
        let acct = *self.client_table.get(&cid).unwrap();
        if acct.available < a as i128 {
            let rec = TransactionInfo {
                kind: TransactionType::Withdrawal,
                client: client_id,
                amount: Some(a),
                status: TransactionStatus::Failure,
            };
            self.transaction_table.insert(tx, rec);
            proof {
                assert(self@ =~= withdrawal_step(old(self)@, tx, cid, amount).0);
            }
            return Err(RejectionReason::InsufficientFunds);
        }
        let rec = TransactionInfo {
            kind: TransactionType::Withdrawal,
            client: client_id,
            amount: Some(a),
            status: TransactionStatus::Success,
        };
        self.transaction_table.insert(tx, rec);
        let updated = ClientInfo { available: acct.available - a as i128, ..acct };
        self.client_table.insert(cid, updated);
        proof {
            let pre = old(self)@;
            assert(self@.clients =~= withdrawal_step(pre, tx, cid, amount).0.clients);
            assert(self@ =~= withdrawal_step(pre, tx, cid, amount).0);
            assert forall|c2: u16| #[trigger]
                self@.clients.contains_key(c2) implies self.client_order@.contains(c2) by {
                assert(pre.clients.contains_key(c2));
            }
            assert(self.order_wf());
        }
        Ok(())
    }

    fn process_dispute(&mut self, transaction_id: TransactionId, client_id: ClientId) -> (r:
        Result<(), RejectionReason>)
        requires
            old(self).wf(),
        ensures
            final(self).wf(),
            ({
                let (post, res) = dispute_step(old(self)@, transaction_id.0, client_id.0);
                final(self)@ == post && r == res
            }),
    {
        let tx: u64 = transaction_id.0;
        let cid: u16 = client_id.0;
        if !self.transaction_table.contains_key(&tx) {
            return Err(RejectionReason::UnknownTransaction);
        }
        if !self.client_table.contains_key(&cid) {
            return Err(RejectionReason::UnknownClient);
        }
        let rec = *self.transaction_table.get(&tx).unwrap();
        if let Err(e) = Self::validate_dispute_transaction(client_id, &rec) {
            return Err(e);
        }
        proof {
            assert(record_wf(old(self)@.transactions[tx]));
            lemma_dispute_step_wf(old(self)@, tx, cid);
        }
        let a: i64 = rec.amount.unwrap();
        let acct = *self.client_table.get(&cid).unwrap();
        if acct.available < a as i128 {
            return Err(RejectionReason::InsufficientFundsForHold);
        }
        let table_size: usize = self.transaction_table.len();
        proof {
            lemma_units_bound(table_size as nat);
            assert(account_ok(old(self)@, cid));
        }
        self.dispute_table.insert(tx, cid);
        let updated = ClientInfo {
            available: acct.available - a as i128,
            on_hold: acct.on_hold + a as i128,
            ..acct
        };
        self.client_table.insert(cid, updated);
        proof {
            let pre = old(self)@;
            assert(self@.clients =~= dispute_step(pre, tx, cid).0.clients);
            assert(self@ =~= dispute_step(pre, tx, cid).0);
            assert forall|c2: u16| #[trigger]
                self@.clients.contains_key(c2) implies self.client_order@.contains(c2) by {
                assert(pre.clients.contains_key(c2));
            }
            assert(self.order_wf());
        }
        Ok(())
    }

    /// A dispute may only target a successful deposit owned by the
    /// disputing client.
    fn validate_dispute_transaction(client_id: ClientId, transaction_info: &TransactionInfo) -> (r:
        Result<(), RejectionReason>)
        ensures
            r == (if transaction_info.kind == TransactionType::Deposit && transaction_info.status
                == TransactionStatus::Success && transaction_info.client.0 == client_id.0 {
                Ok::<(), RejectionReason>(())
            } else {
                Err::<(), RejectionReason>(RejectionReason::InvalidDisputeTarget)
            }),
    {
        if transaction_info.kind != TransactionType::Deposit {
            return Err(RejectionReason::InvalidDisputeTarget);
        }
        if transaction_info.status != TransactionStatus::Success {
            return Err(RejectionReason::InvalidDisputeTarget);
        }
        if transaction_info.client != client_id {
            return Err(RejectionReason::InvalidDisputeTarget);
        }
        Ok(())
    }

    fn process_resolve(&mut self, transaction_id: TransactionId, client_id: ClientId) -> (r:
        Result<(), RejectionReason>)
        requires
            old(self).wf(),
        ensures
            final(self).wf(),
            ({
                let (post, res) = resolve_step(old(self)@, transaction_id.0, client_id.0);
                final(self)@ == post && r == res
            }),
    {
        let tx: u64 = transaction_id.0;
        let cid: u16 = client_id.0;
        if !self.dispute_table.contains_key(&tx) {
            return Err(RejectionReason::UnknownDispute);
        }
        let dispute_client: u16 = *self.dispute_table.get(&tx).unwrap();
        if dispute_client != cid {
            return Err(RejectionReason::ClientMismatch);
        }
        proof {
            assert(dispute_target_wf(old(self)@, tx, cid));
            lemma_dispute_hold_bound(old(self)@, tx);
            lemma_resolve_step_wf(old(self)@, tx, cid);
        }
        let rec = *self.transaction_table.get(&tx).unwrap();
        proof {
            // A disputed transaction is always a successful deposit; this is
            // an internal consistency fact, not a rejectable condition.
            assert(rec.status != TransactionStatus::Failure);
        }
        let a: i64 = rec.amount.unwrap();
        let acct = *self.client_table.get(&cid).unwrap();
        let table_size: usize = self.transaction_table.len();
        proof {
            lemma_units_bound(table_size as nat);
            assert(account_ok(old(self)@, cid));
        }
        self.dispute_table.remove(&tx);
        self.chargeback_table.insert(tx);
        let updated = ClientInfo {
            available: acct.available + a as i128,
            on_hold: acct.on_hold - a as i128,
            ..acct
        };
        self.client_table.insert(cid, updated);
        proof {
            let pre = old(self)@;
            assert(self@.clients =~= resolve_step(pre, tx, cid).0.clients);
            assert(self@ =~= resolve_step(pre, tx, cid).0);
            assert forall|c2: u16| #[trigger]
                self@.clients.contains_key(c2) implies self.client_order@.contains(c2) by {
                assert(pre.clients.contains_key(c2));
            }
            assert(self.order_wf());
        }
        Ok(())
    }

    fn process_chargeback(&mut self, transaction_id: TransactionId, client_id: ClientId) -> (r:
        Result<(), RejectionReason>)
        requires
            old(self).wf(),
        ensures
            final(self).wf(),
            ({
                let (post, res) = chargeback_step(old(self)@, transaction_id.0, client_id.0);
                final(self)@ == post && r == res
            }),
    {
        let tx: u64 = transaction_id.0;
        let cid: u16 = client_id.0;
        if !self.chargeback_table.contains(&tx) {
            return Err(RejectionReason::UnknownResolvedDispute);
        }
        proof {
            assert(dispute_target_wf(old(self)@, tx, old(self)@.transactions[tx].client.0));
        }
        let rec = *self.transaction_table.get(&tx).unwrap();
        if rec.client.0 != cid {
            return Err(RejectionReason::ClientMismatch);
        }
        proof {
            lemma_chargeback_step_wf(old(self)@, tx, cid);
        }
        let a: i64 = rec.amount.unwrap();
        let acct = *self.client_table.get(&cid).unwrap();
        if acct.available < a as i128 {
            return Err(RejectionReason::InsufficientFundsForChargeback);
        }
        self.chargeback_table.remove(&tx);
        let updated = ClientInfo {
            available: acct.available - a as i128,
            is_locked: true,
            ..acct
        };
        self.client_table.insert(cid, updated);
        proof {
            let pre = old(self)@;
            assert(self@.clients =~= chargeback_step(pre, tx, cid).0.clients);
            assert(self@ =~= chargeback_step(pre, tx, cid).0);
            assert forall|c2: u16| #[trigger]
                self@.clients.contains_key(c2) implies self.client_order@.contains(c2) by {
                assert(pre.clients.contains_key(c2));
            }
            assert(self.order_wf());
        }
        Ok(())
    }

    /// The engine's single entry point: apply one event, mutating the store
    /// on acceptance, and report a typed reason on rejection. Every
    /// rejection is non-fatal; the caller goes on with the next event.
    pub fn handle(&mut self, record: &InputFileRecord) -> (r: Result<(), RejectionReason>)
        requires
            old(self).wf(),
        ensures
            final(self).wf(),
            ({
                let (post, res) = spec_handle(old(self)@, *record);
                final(self)@ == post && r == res
            }),
    {
        let client_id = ClientId::new((record.client % 0x1_0000) as u16);
        if self.client_table.contains_key(&client_id.0) {
            let info = *self.client_table.get(&client_id.0).unwrap();
            if record.kind != InputFileRecordType::Resolve && info.is_locked {
                return Ok(());
            }
        }
        let transaction_id = TransactionId::new(record.tx);
        match record.kind {
            InputFileRecordType::Deposit => self.process_deposit(
                transaction_id,
                client_id,
                record.amount,
            ),
            InputFileRecordType::Withdrawal => self.process_withdrawal(
                transaction_id,
                client_id,
                record.amount,
            ),
            InputFileRecordType::Dispute => self.process_dispute(transaction_id, client_id),
            InputFileRecordType::Resolve => self.process_resolve(transaction_id, client_id),
            InputFileRecordType::Chargeback => self.process_chargeback(transaction_id, client_id),
        }
    }

    /// Snapshot of every account ever created, one row per client, in the
    /// order the accounts were created.
    pub fn get_records(&self) -> (records: Vec<OutputRecord>)
        requires
            self.wf(),
        ensures
            records@.len() == self@.clients.dom().len(),
            forall|i: int|
                0 <= i < records@.len() ==> {
                    let rec = #[trigger] records@[i];
                    &&& rec.client < 0x1_0000
                    &&& self@.clients.contains_key(rec.client as u16)
                    &&& rec.available == self@.clients[rec.client as u16].available
                    &&& rec.held == self@.clients[rec.client as u16].on_hold
                    &&& rec.total == rec.available + rec.held
                    &&& rec.locked == self@.clients[rec.client as u16].is_locked
                },
            forall|c: u16| #[trigger]
                self@.clients.contains_key(c) ==> exists|i: int|
                    0 <= i < records@.len() && records@[i].client == c as u64,
            forall|i: int, j: int|
                0 <= i < records@.len() && 0 <= j < records@.len() && i != j
                    ==> records@[i].client != records@[j].client,
    {
        let table_size: usize = self.transaction_table.len();
        let mut records: Vec<OutputRecord> = Vec::new();
        let mut idx: usize = 0;
        while idx < self.client_order.len()
            invariant
                self.wf(),
                table_size == self@.transactions.dom().len(),
                idx <= self.client_order@.len(),
                records@.len() == idx,
                forall|k: int|
                    0 <= k < idx ==> {
                        let rec = #[trigger] records@[k];
                        &&& rec.client == self.client_order@[k] as u64
                        &&& self@.clients.contains_key(self.client_order@[k])
                        &&& rec.available == self@.clients[self.client_order@[k]].available
                        &&& rec.held == self@.clients[self.client_order@[k]].on_hold
                        &&& rec.total == rec.available + rec.held
                        &&& rec.locked == self@.clients[self.client_order@[k]].is_locked
                    },
            decreases self.client_order@.len() - idx,
        {
            let c: u16 = self.client_order[idx];
            let info = *self.client_table.get(&c).unwrap();
            proof {
                lemma_units_bound(table_size as nat);
                assert(account_ok(self@, c));
            }
            let rec = OutputRecord {
                client: c as u64,
                available: info.available,
                held: info.on_hold,
                total: info.available + info.on_hold,
                locked: info.is_locked,
            };
            records.push(rec);
            idx += 1;
        }
        proof {
            self.client_order@.unique_seq_to_set();
            assert(self.client_order@.to_set() =~= self@.clients.dom());
            assert forall|c: u16| #[trigger] self@.clients.contains_key(c) implies exists|i: int|
                0 <= i < records@.len() && records@[i].client == c as u64 by {
                let i = choose|i: int|
                    0 <= i < self.client_order@.len() && self.client_order@[i] == c;
                assert(records@[i].client == c as u64);
            }
        }
        records
    }
}

} // verus!
