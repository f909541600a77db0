//! Mathematical model of the ledger: the state the engine maintains, the
//! transition each event performs on it, and the invariants every reachable
//! state satisfies.

use crate::client_id::ClientId;
use crate::client_info::{AccountState, ClientInfo};
use crate::input_file_reader::{InputFileRecord, InputFileRecordType};
use crate::service::RejectionReason;
use crate::transaction_info::{TransactionInfo, TransactionStatus, TransactionType};
use vstd::prelude::*;

verus! {

/// Image of the whole ledger store: the transaction history, the accounts,
/// the open disputes (each mapped to the disputing client) and the resolved
/// disputes awaiting a possible chargeback.
#[verifier::ext_equal]
pub ghost struct LedgerView {
    pub transactions: Map<u64, TransactionInfo>,
    pub clients: Map<u16, AccountState>,
    pub disputes: Map<u64, u16>,
    pub chargebacks: Set<u64>,
}

/// The ledger before any event has been processed.
pub open spec fn initial_ledger() -> LedgerView {
    LedgerView {
        transactions: Map::empty(),
        clients: Map::empty(),
        disputes: Map::empty(),
        chargebacks: Set::empty(),
    }
}

/// Events carry a 64-bit client field; the engine works in a 16-bit
/// identifier space, so wider values alias.
pub open spec fn narrow_client(client: u64) -> u16 {
    (client % 0x1_0000) as u16
}

/// Largest amount a single event can carry, in 1/10000ths of a currency
/// unit.
pub open spec fn max_units() -> int {
    0x7fff_ffff_ffff_ffff
}

/// The amount stored in a transaction record, as an unbounded integer.
pub open spec fn rec_amount(r: TransactionInfo) -> int {
    r.amount->0 as int
}

/// The ghost image of the account a client starts with.
pub open spec fn fresh_account() -> AccountState {
    AccountState { available: 0, on_hold: 0, is_locked: false }
}

/// The account of `c`, or a zeroed one if no event has created it yet.
pub open spec fn account_of(s: LedgerView, c: u16) -> AccountState {
    if s.clients.contains_key(c) {
        s.clients[c]
    } else {
        fresh_account()
    }
}

pub open spec fn available_of(s: LedgerView, c: u16) -> int {
    account_of(s, c).available
}

pub open spec fn held_of(s: LedgerView, c: u16) -> int {
    account_of(s, c).on_hold
}

/// The transaction identifiers currently under open dispute by client `c`.
pub open spec fn open_disputes(disputes: Map<u64, u16>, c: u16) -> Set<u64> {
    disputes.dom().filter(|tx: u64| disputes[tx] == c)
}

/// Sum of the recorded amounts of the transactions in `s`.
pub open spec fn sum_amounts(transactions: Map<u64, TransactionInfo>, s: Set<u64>) -> int
    recommends
        s.finite(),
    decreases s.len(),
{
    if s.finite() && s.len() > 0 {
        let x = s.choose();
        rec_amount(transactions[x]) + sum_amounts(transactions, s.remove(x))
    } else {
        0
    }
}

/// Total amount currently held against client `c`'s open disputes.
pub open spec fn held_sum(s: LedgerView, c: u16) -> int {
    sum_amounts(s.transactions, open_disputes(s.disputes, c))
}

/// Every record stores an amount, and a successful deposit never stores a
/// negative one.
pub open spec fn record_wf(r: TransactionInfo) -> bool {
    &&& r.amount is Some
    &&& (r.kind == TransactionType::Deposit && r.status == TransactionStatus::Success
        ==> rec_amount(r) >= 0)
}

/// What membership of the dispute or chargeback sets guarantees about the
/// referenced transaction: a successful deposit owned by `c`, whose account
/// exists.
pub open spec fn dispute_target_wf(s: LedgerView, tx: u64, c: u16) -> bool {
    &&& s.transactions.contains_key(tx)
    &&& s.transactions[tx].kind == TransactionType::Deposit
    &&& s.transactions[tx].status == TransactionStatus::Success
    &&& s.transactions[tx].client.0 == c
    &&& s.clients.contains_key(c)
}

/// Balance invariants of one account: nothing is negative, the held funds
/// cover every open dispute, and the whole balance is bounded by the number
/// of recorded transactions (each deposit consumes a fresh identifier and
/// carries at most `max_units`).
pub open spec fn account_ok(s: LedgerView, c: u16) -> bool {
    &&& 0 <= s.clients[c].available
    &&& 0 <= s.clients[c].on_hold
    &&& held_sum(s, c) <= s.clients[c].on_hold
    &&& s.clients[c].available + s.clients[c].on_hold <= s.transactions.dom().len()
        * max_units()
}

/// Invariant of every reachable ledger state.
pub open spec fn ledger_wf(s: LedgerView) -> bool {
    &&& s.transactions.dom().finite()
    &&& s.clients.dom().finite()
    &&& s.disputes.dom().finite()
    &&& s.chargebacks.finite()
    &&& forall|tx: u64| #[trigger]
        s.transactions.contains_key(tx) ==> record_wf(s.transactions[tx])
    &&& forall|tx: u64| #[trigger]
        s.disputes.contains_key(tx) ==> dispute_target_wf(s, tx, s.disputes[tx])
    &&& forall|tx: u64| #[trigger]
        s.chargebacks.contains(tx) ==> dispute_target_wf(s, tx, s.transactions[tx].client.0)
    &&& forall|c: u16| #[trigger] s.clients.contains_key(c) ==> account_ok(s, c)
}

/// Ghost image of the executable account table.
pub open spec fn accounts_view(m: Map<u16, ClientInfo>) -> Map<u16, AccountState> {
    m.map_values(|ci: ClientInfo| ci@)
}

// ---------------------------------------------------------------------------
// The per-event transitions, exactly as the engine performs them.
// ---------------------------------------------------------------------------

/// Deposit: claim the transaction identifier (even on a sign failure),
/// then credit the lazily created account.
pub open spec fn deposit_step(s: LedgerView, tx: u64, c: u16, amount: Option<i64>) -> (
    LedgerView,
    Result<(), RejectionReason>,
) {
    if s.transactions.contains_key(tx) {
        (s, Err(RejectionReason::DuplicateTransaction))
    } else if !(amount is Some) {
        (s, Err(RejectionReason::MissingAmount))
    } else {
        let a: i64 = amount->0;
        if a < 0 {
            let rec = TransactionInfo {
                kind: TransactionType::Deposit,
                client: ClientId(c),
                amount: Some(a),
                status: TransactionStatus::Failure,
            };
            (
                LedgerView { transactions: s.transactions.insert(tx, rec), ..s },
                Err(RejectionReason::NegativeAmount),
            )
        } else {
            let rec = TransactionInfo {
                kind: TransactionType::Deposit,
                client: ClientId(c),
                amount: Some(a),
                status: TransactionStatus::Success,
            };
            let acct = account_of(s, c);
            (
                LedgerView {
                    transactions: s.transactions.insert(tx, rec),
                    clients: s.clients.insert(
                        c,
                        AccountState { available: acct.available + a, ..acct },
                    ),
                    ..s
                },
                Ok(()),
            )
        }
    }
}

/// Withdrawal: claim the transaction identifier, then debit the account if
/// it exists and covers the amount; an uncovered or unknown-client request
/// leaves the balances untouched but keeps the record.
pub open spec fn withdrawal_step(s: LedgerView, tx: u64, c: u16, amount: Option<i64>) -> (
    LedgerView,
    Result<(), RejectionReason>,
) {
    if s.transactions.contains_key(tx) {
        (s, Err(RejectionReason::DuplicateTransaction))
    } else if !(amount is Some) {
        (s, Err(RejectionReason::MissingAmount))
    } else {
        let a: i64 = amount->0;
        if a < 0 {
            let rec = TransactionInfo {
                kind: TransactionType::Withdrawal,
                client: ClientId(c),
                amount: Some(a),
                status: TransactionStatus::Failure,
            };
            (
                LedgerView { transactions: s.transactions.insert(tx, rec), ..s },
                Err(RejectionReason::NegativeAmount),
            )
        } else if !s.clients.contains_key(c) {
            let rec = TransactionInfo {
                kind: TransactionType::Withdrawal,
                client: ClientId(c),
                amount: Some(a),
                status: TransactionStatus::Success,
            };
            (
                LedgerView { transactions: s.transactions.insert(tx, rec), ..s },
                Err(RejectionReason::UnknownClient),
            )
        } else if s.clients[c].available < a {
            let rec = TransactionInfo {
                kind: TransactionType::Withdrawal,
                client: ClientId(c),
                amount: Some(a),
                status: TransactionStatus::Failure,
            };
            (
                LedgerView { transactions: s.transactions.insert(tx, rec), ..s },
                Err(RejectionReason::InsufficientFunds),
            )
        } else {
            let rec = TransactionInfo {
                kind: TransactionType::Withdrawal,
                client: ClientId(c),
                amount: Some(a),
                status: TransactionStatus::Success,
            };
            let acct = s.clients[c];
            (
                LedgerView {
                    transactions: s.transactions.insert(tx, rec),
                    clients: s.clients.insert(
                        c,
                        AccountState { available: acct.available - a, ..acct },
                    ),
                    ..s
                },
                Ok(()),
            )
        }
    }
}

/// Dispute: freeze the amount of a successful deposit owned by the caller,
/// provided the available funds cover it.
pub open spec fn dispute_step(s: LedgerView, tx: u64, c: u16) -> (
    LedgerView,
    Result<(), RejectionReason>,
) {
    if !s.transactions.contains_key(tx) {
        (s, Err(RejectionReason::UnknownTransaction))
    } else if !s.clients.contains_key(c) {
        (s, Err(RejectionReason::UnknownClient))
    } else if !(s.transactions[tx].kind == TransactionType::Deposit
        && s.transactions[tx].status == TransactionStatus::Success && s.transactions[tx].client.0
        == c) {
        (s, Err(RejectionReason::InvalidDisputeTarget))
    } else if s.clients[c].available < rec_amount(s.transactions[tx]) {
        (s, Err(RejectionReason::InsufficientFundsForHold))
    } else {
        let a = rec_amount(s.transactions[tx]);
        let acct = s.clients[c];
        (
            LedgerView {
                disputes: s.disputes.insert(tx, c),
                clients: s.clients.insert(
                    c,
                    AccountState {
                        available: acct.available - a,
                        on_hold: acct.on_hold + a,
                        ..acct
                    },
                ),
                ..s
            },
            Ok(()),
        )
    }
}

/// Resolve: release the frozen amount of an open dispute back to the
/// disputing client and remember the transaction for a possible chargeback.
pub open spec fn resolve_step(s: LedgerView, tx: u64, c: u16) -> (
    LedgerView,
    Result<(), RejectionReason>,
) {
    if !s.disputes.contains_key(tx) {
        (s, Err(RejectionReason::UnknownDispute))
    } else if s.disputes[tx] != c {
        (s, Err(RejectionReason::ClientMismatch))
    } else {
        let a = rec_amount(s.transactions[tx]);
        let acct = s.clients[c];
        (
            LedgerView {
                disputes: s.disputes.remove(tx),
                chargebacks: s.chargebacks.insert(tx),
                clients: s.clients.insert(
                    c,
                    AccountState {
                        available: acct.available + a,
                        on_hold: acct.on_hold - a,
                        ..acct
                    },
                ),
                ..s
            },
            Ok(()),
        )
    }
}

/// Chargeback: withdraw the resolved amount from the owner and lock the
/// account for good.
pub open spec fn chargeback_step(s: LedgerView, tx: u64, c: u16) -> (
    LedgerView,
    Result<(), RejectionReason>,
) {
    if !s.chargebacks.contains(tx) {
        (s, Err(RejectionReason::UnknownResolvedDispute))
    } else if s.transactions[tx].client.0 != c {
        (s, Err(RejectionReason::ClientMismatch))
    } else if s.clients[c].available < rec_amount(s.transactions[tx]) {
        (s, Err(RejectionReason::InsufficientFundsForChargeback))
    } else {
        let a = rec_amount(s.transactions[tx]);
        let acct = s.clients[c];
        (
            LedgerView {
                chargebacks: s.chargebacks.remove(tx),
                clients: s.clients.insert(
                    c,
                    AccountState { available: acct.available - a, is_locked: true, ..acct },
                ),
                ..s
            },
            Ok(()),
        )
    }
}

/// One event against the ledger: narrow the client identifier, silently
/// drop every event but a resolve when the account is locked, otherwise
/// dispatch on the event's kind.
pub open spec fn spec_handle(s: LedgerView, r: InputFileRecord) -> (
    LedgerView,
    Result<(), RejectionReason>,
) {
    let c = narrow_client(r.client);
    if s.clients.contains_key(c) && s.clients[c].is_locked && r.kind
        != InputFileRecordType::Resolve {
        (s, Ok(()))
    } else {
        match r.kind {
            InputFileRecordType::Deposit => deposit_step(s, r.tx, c, r.amount),
            InputFileRecordType::Withdrawal => withdrawal_step(s, r.tx, c, r.amount),
            InputFileRecordType::Dispute => dispute_step(s, r.tx, c),
            InputFileRecordType::Resolve => resolve_step(s, r.tx, c),
            InputFileRecordType::Chargeback => chargeback_step(s, r.tx, c),
        }
    }
}

// ---------------------------------------------------------------------------
// Sums of recorded amounts over sets of transaction identifiers.
// ---------------------------------------------------------------------------

/// Splitting off one member of a finite set splits the sum.
pub proof fn lemma_sum_remove(transactions: Map<u64, TransactionInfo>, s: Set<u64>, x: u64)
    requires
        s.finite(),
        s.contains(x),
    ensures
        sum_amounts(transactions, s) == rec_amount(transactions[x]) + sum_amounts(
            transactions,
            s.remove(x),
        ),
    decreases s.len(),
{
    let y = s.choose();
    if y != x {
        lemma_sum_remove(transactions, s.remove(y), x);
        lemma_sum_remove(transactions, s.remove(x), y);
        assert(s.remove(y).remove(x) =~= s.remove(x).remove(y));
    }
}

/// Adding a fresh member to a finite set adds its amount to the sum.
pub proof fn lemma_sum_insert(transactions: Map<u64, TransactionInfo>, s: Set<u64>, x: u64)
    requires
        s.finite(),
        !s.contains(x),
    ensures
        sum_amounts(transactions, s.insert(x)) == sum_amounts(transactions, s) + rec_amount(
            transactions[x],
        ),
{
    lemma_sum_remove(transactions, s.insert(x), x);
    assert(s.insert(x).remove(x) =~= s);
}

/// A sum of nonnegative amounts is nonnegative.
pub proof fn lemma_sum_nonneg(transactions: Map<u64, TransactionInfo>, s: Set<u64>)
    requires
        s.finite(),
        forall|tx: u64| s.contains(tx) ==> rec_amount(#[trigger] transactions[tx]) >= 0,
    ensures
        sum_amounts(transactions, s) >= 0,
    decreases s.len(),
{
    if s.len() > 0 {
        let y = s.choose();
        lemma_sum_nonneg(transactions, s.remove(y));
    }
}

/// In a sum of nonnegative amounts, each member is covered by the whole.
pub proof fn lemma_sum_member(transactions: Map<u64, TransactionInfo>, s: Set<u64>, x: u64)
    requires
        s.finite(),
        s.contains(x),
        forall|tx: u64| s.contains(tx) ==> rec_amount(#[trigger] transactions[tx]) >= 0,
    ensures
        rec_amount(transactions[x]) <= sum_amounts(transactions, s),
{
    lemma_sum_remove(transactions, s, x);
    lemma_sum_nonneg(transactions, s.remove(x));
}

/// The sum only reads the amounts of the members: two histories that agree
/// there give the same sum.
pub proof fn lemma_sum_congruent(
    t1: Map<u64, TransactionInfo>,
    t2: Map<u64, TransactionInfo>,
    s: Set<u64>,
)
    requires
        s.finite(),
        forall|tx: u64| s.contains(tx) ==> rec_amount(#[trigger] t1[tx]) == rec_amount(t2[tx]),
    ensures
        sum_amounts(t1, s) == sum_amounts(t2, s),
    decreases s.len(),
{
    if s.len() > 0 {
        let y = s.choose();
        lemma_sum_congruent(t1, t2, s.remove(y));
    }
}

/// The open disputes of one client form a finite set.
pub proof fn lemma_open_disputes_finite(disputes: Map<u64, u16>, c: u16)
    requires
        disputes.dom().finite(),
    ensures
        open_disputes(disputes, c).finite(),
{
    let f = |tx: u64| disputes[tx] == c;
    disputes.dom().lemma_len_filter(f);
    assert(open_disputes(disputes, c) =~= disputes.dom().filter(f));
}

/// Each balance stays within `i128` because the transaction table is a real
/// hash map: it can never hold more entries than `usize::MAX`.
pub proof fn lemma_units_bound(t: nat)
    requires
        t <= 0xffff_ffff_ffff_ffff,
    ensures
        t * max_units() + max_units() <= i128::MAX,
{
}

/// The held funds of the disputing client cover each open dispute.
pub proof fn lemma_dispute_hold_bound(s: LedgerView, tx: u64)
    requires
        ledger_wf(s),
        s.disputes.contains_key(tx),
    ensures
        0 <= rec_amount(s.transactions[tx]),
        rec_amount(s.transactions[tx]) <= s.clients[s.disputes[tx]].on_hold,
{
    let c = s.disputes[tx];
    assert(dispute_target_wf(s, tx, c));
    lemma_open_disputes_finite(s.disputes, c);
    assert(open_disputes(s.disputes, c).contains(tx));
    assert forall|t: u64| open_disputes(s.disputes, c).contains(t) implies rec_amount(
        #[trigger] s.transactions[t],
    ) >= 0 by {
        assert(dispute_target_wf(s, t, s.disputes[t]));
    }
    lemma_sum_member(s.transactions, open_disputes(s.disputes, c), tx);
    assert(account_ok(s, c));
}

// ---------------------------------------------------------------------------
// Every transition preserves the ledger invariant.
// ---------------------------------------------------------------------------

/// Claiming a fresh transaction identifier, without touching balances,
/// preserves the invariant.
proof fn lemma_record_insert_wf(s: LedgerView, tx: u64, rec: TransactionInfo)
    requires
        ledger_wf(s),
        !s.transactions.contains_key(tx),
        record_wf(rec),
    ensures
        ledger_wf(LedgerView { transactions: s.transactions.insert(tx, rec), ..s }),
{
    let s1 = LedgerView { transactions: s.transactions.insert(tx, rec), ..s };
    assert(s1.transactions.dom() =~= s.transactions.dom().insert(tx));
    assert(s1.transactions.dom().len() == s.transactions.dom().len() + 1);
    assert forall|t: u64| #[trigger] s1.disputes.contains_key(t) implies dispute_target_wf(
        s1,
        t,
        s1.disputes[t],
    ) by {
        assert(dispute_target_wf(s, t, s.disputes[t]));
    }
    assert forall|t: u64| #[trigger] s1.chargebacks.contains(t) implies dispute_target_wf(
        s1,
        t,
        s1.transactions[t].client.0,
    ) by {
        assert(dispute_target_wf(s, t, s.transactions[t].client.0));
    }
    assert forall|cl: u16| #[trigger] s1.clients.contains_key(cl) implies account_ok(s1, cl) by {
        assert(account_ok(s, cl));
        lemma_open_disputes_finite(s.disputes, cl);
        lemma_sum_congruent(s.transactions, s1.transactions, open_disputes(s.disputes, cl));
        assert(held_sum(s1, cl) == held_sum(s, cl));
    }
}

/// A fresh client account holds nothing, so its held sum is zero.
proof fn lemma_fresh_client_no_disputes(s: LedgerView, c: u16)
    requires
        ledger_wf(s),
        !s.clients.contains_key(c),
    ensures
        held_sum(s, c) == 0,
{
    assert(open_disputes(s.disputes, c) =~= Set::<u64>::empty());
}

pub proof fn lemma_deposit_step_wf(s: LedgerView, tx: u64, c: u16, amount: Option<i64>)
    requires
        ledger_wf(s),
    ensures
        ledger_wf(deposit_step(s, tx, c, amount).0),
{
    let s1 = deposit_step(s, tx, c, amount).0;
    if !s.transactions.contains_key(tx) && amount is Some {
        let a: i64 = amount->0;
        if a < 0 {
            let rec = TransactionInfo {
                kind: TransactionType::Deposit,
                client: ClientId(c),
                amount: Some(a),
                status: TransactionStatus::Failure,
            };
            lemma_record_insert_wf(s, tx, rec);
        } else {
            let rec = TransactionInfo {
                kind: TransactionType::Deposit,
                client: ClientId(c),
                amount: Some(a),
                status: TransactionStatus::Success,
            };
            lemma_record_insert_wf(s, tx, rec);
            let mid = LedgerView { transactions: s.transactions.insert(tx, rec), ..s };
            let acct = account_of(s, c);
            let acct1 = AccountState { available: acct.available + a, ..acct };
            assert(s1 == LedgerView { clients: mid.clients.insert(c, acct1), ..mid });
            assert(s1.transactions.dom().len() == s.transactions.dom().len() + 1);
            if !s.clients.contains_key(c) {
                lemma_fresh_client_no_disputes(s, c);
            }
            assert forall|t: u64| #[trigger] s1.disputes.contains_key(t) implies dispute_target_wf(
                s1,
                t,
                s1.disputes[t],
            ) by {
                assert(dispute_target_wf(mid, t, mid.disputes[t]));
            }
            assert forall|t: u64| #[trigger] s1.chargebacks.contains(t) implies dispute_target_wf(
                s1,
                t,
                s1.transactions[t].client.0,
            ) by {
                assert(dispute_target_wf(mid, t, mid.transactions[t].client.0));
            }
            assert forall|cl: u16| #[trigger] s1.clients.contains_key(cl) implies account_ok(
                s1,
                cl,
            ) by {
                lemma_open_disputes_finite(s.disputes, cl);
                lemma_sum_congruent(s.transactions, s1.transactions, open_disputes(s.disputes, cl));
                assert(held_sum(s1, cl) == held_sum(mid, cl));
                assert(held_sum(mid, cl) == held_sum(s, cl));
                if cl != c {
                    assert(account_ok(mid, cl));
                    assert(s1.clients[cl] == mid.clients[cl]);
                } else {
                    if s.clients.contains_key(c) {
                        assert(account_ok(s, c));
                    } else {
                        assert(held_sum(s, c) == 0);
                    }
                }
            }
        }
    }
}

pub proof fn lemma_withdrawal_step_wf(s: LedgerView, tx: u64, c: u16, amount: Option<i64>)
    requires
        ledger_wf(s),
    ensures
        ledger_wf(withdrawal_step(s, tx, c, amount).0),
{
    let s1 = withdrawal_step(s, tx, c, amount).0;
    if !s.transactions.contains_key(tx) && amount is Some {
        let a: i64 = amount->0;
        if a < 0 {
            let rec = TransactionInfo {
                kind: TransactionType::Withdrawal,
                client: ClientId(c),
                amount: Some(a),
                status: TransactionStatus::Failure,
            };
            lemma_record_insert_wf(s, tx, rec);
        } else {
            let rec_ok = TransactionInfo {
                kind: TransactionType::Withdrawal,
                client: ClientId(c),
                amount: Some(a),
                status: TransactionStatus::Success,
            };
            let rec_fail = TransactionInfo {
                kind: TransactionType::Withdrawal,
                client: ClientId(c),
                amount: Some(a),
                status: TransactionStatus::Failure,
            };
            if !s.clients.contains_key(c) {
                lemma_record_insert_wf(s, tx, rec_ok);
            } else if s.clients[c].available < a {
                lemma_record_insert_wf(s, tx, rec_fail);
            } else {
                lemma_record_insert_wf(s, tx, rec_ok);
                let mid = LedgerView { transactions: s.transactions.insert(tx, rec_ok), ..s };
                let acct = s.clients[c];
                let acct1 = AccountState { available: acct.available - a, ..acct };
                assert(s1 == LedgerView { clients: mid.clients.insert(c, acct1), ..mid });
                assert(s1.transactions.dom().len() == s.transactions.dom().len() + 1);
                assert forall|t: u64| #[trigger] s1.disputes.contains_key(
                    t,
                ) implies dispute_target_wf(s1, t, s1.disputes[t]) by {
                    assert(dispute_target_wf(mid, t, mid.disputes[t]));
                }
                assert forall|t: u64| #[trigger] s1.chargebacks.contains(
                    t,
                ) implies dispute_target_wf(s1, t, s1.transactions[t].client.0) by {
                    assert(dispute_target_wf(mid, t, mid.transactions[t].client.0));
                }
                assert forall|cl: u16| #[trigger] s1.clients.contains_key(cl) implies account_ok(
                    s1,
                    cl,
                ) by {
                    assert(account_ok(s, cl));
                    assert(account_ok(mid, cl));
                    lemma_open_disputes_finite(s.disputes, cl);
                    lemma_sum_congruent(
                        s.transactions,
                        s1.transactions,
                        open_disputes(s.disputes, cl),
                    );
                    assert(held_sum(s1, cl) == held_sum(s, cl));
                }
            }
        }
    }
}

pub proof fn lemma_dispute_step_wf(s: LedgerView, tx: u64, c: u16)
    requires
        ledger_wf(s),
    ensures
        ledger_wf(dispute_step(s, tx, c).0),
{
    let s1 = dispute_step(s, tx, c).0;
    if s.transactions.contains_key(tx) && s.clients.contains_key(c) && s.transactions[tx].kind
        == TransactionType::Deposit && s.transactions[tx].status == TransactionStatus::Success
        && s.transactions[tx].client.0 == c && s.clients[c].available >= rec_amount(
        s.transactions[tx],
    ) {
        let a = rec_amount(s.transactions[tx]);
        let acct = s.clients[c];
        assert(a >= 0);
        assert(s1.disputes.dom() =~= s.disputes.dom().insert(tx));
        assert forall|t: u64| #[trigger] s1.disputes.contains_key(t) implies dispute_target_wf(
            s1,
            t,
            s1.disputes[t],
        ) by {
            if t != tx {
                assert(dispute_target_wf(s, t, s.disputes[t]));
            }
        }
        assert forall|t: u64| #[trigger] s1.chargebacks.contains(t) implies dispute_target_wf(
            s1,
            t,
            s1.transactions[t].client.0,
        ) by {
            assert(dispute_target_wf(s, t, s.transactions[t].client.0));
        }
        assert forall|cl: u16| #[trigger] s1.clients.contains_key(cl) implies account_ok(
            s1,
            cl,
        ) by {
            assert(account_ok(s, cl));
            lemma_open_disputes_finite(s.disputes, cl);
            if cl != c {
                assert(open_disputes(s1.disputes, cl) =~= open_disputes(s.disputes, cl));
                assert(held_sum(s1, cl) == held_sum(s, cl));
            } else {
                if s.disputes.contains_key(tx) {
                    assert(s.disputes[tx] == c);
                    assert(s1.disputes =~= s.disputes);
                    assert(held_sum(s1, c) == held_sum(s, c));
                } else {
                    assert(open_disputes(s1.disputes, c) =~= open_disputes(
                        s.disputes,
                        c,
                    ).insert(tx));
                    lemma_sum_insert(s.transactions, open_disputes(s.disputes, c), tx);
                    assert(held_sum(s1, c) == held_sum(s, c) + a);
                }
            }
        }
    }
}

pub proof fn lemma_resolve_step_wf(s: LedgerView, tx: u64, c: u16)
    requires
        ledger_wf(s),
    ensures
        ledger_wf(resolve_step(s, tx, c).0),
{
    let s1 = resolve_step(s, tx, c).0;
    if s.disputes.contains_key(tx) && s.disputes[tx] == c {
        assert(dispute_target_wf(s, tx, c));
        let a = rec_amount(s.transactions[tx]);
        assert(a >= 0);
        assert(s1.disputes.dom() =~= s.disputes.dom().remove(tx));
        lemma_open_disputes_finite(s.disputes, c);
        assert(open_disputes(s.disputes, c).contains(tx));
        assert forall|t: u64| open_disputes(s.disputes, c).contains(t) implies rec_amount(
            #[trigger] s.transactions[t],
        ) >= 0 by {
            assert(dispute_target_wf(s, t, s.disputes[t]));
        }
        lemma_sum_member(s.transactions, open_disputes(s.disputes, c), tx);
        lemma_sum_remove(s.transactions, open_disputes(s.disputes, c), tx);
        assert forall|t: u64| #[trigger] s1.disputes.contains_key(t) implies dispute_target_wf(
            s1,
            t,
            s1.disputes[t],
        ) by {
            assert(dispute_target_wf(s, t, s.disputes[t]));
        }
        assert forall|t: u64| #[trigger] s1.chargebacks.contains(t) implies dispute_target_wf(
            s1,
            t,
            s1.transactions[t].client.0,
        ) by {
            if t != tx {
                assert(dispute_target_wf(s, t, s.transactions[t].client.0));
            }
        }
        assert forall|cl: u16| #[trigger] s1.clients.contains_key(cl) implies account_ok(
            s1,
            cl,
        ) by {
            assert(account_ok(s, cl));
            lemma_open_disputes_finite(s.disputes, cl);
            if cl != c {
                assert(open_disputes(s1.disputes, cl) =~= open_disputes(s.disputes, cl));
                assert(held_sum(s1, cl) == held_sum(s, cl));
            } else {
                assert(open_disputes(s1.disputes, c) =~= open_disputes(s.disputes, c).remove(tx));
                assert(held_sum(s1, c) == held_sum(s, c) - a);
            }
        }
    }
}

pub proof fn lemma_chargeback_step_wf(s: LedgerView, tx: u64, c: u16)
    requires
        ledger_wf(s),
    ensures
        ledger_wf(chargeback_step(s, tx, c).0),
{
    let s1 = chargeback_step(s, tx, c).0;
    if s.chargebacks.contains(tx) && s.transactions[tx].client.0 == c && s.clients[c].available
        >= rec_amount(s.transactions[tx]) {
        assert(dispute_target_wf(s, tx, c));
        assert forall|t: u64| #[trigger] s1.disputes.contains_key(t) implies dispute_target_wf(
            s1,
            t,
            s1.disputes[t],
        ) by {
            assert(dispute_target_wf(s, t, s.disputes[t]));
        }
        assert forall|t: u64| #[trigger] s1.chargebacks.contains(t) implies dispute_target_wf(
            s1,
            t,
            s1.transactions[t].client.0,
        ) by {
            assert(dispute_target_wf(s, t, s.transactions[t].client.0));
        }
        assert forall|cl: u16| #[trigger] s1.clients.contains_key(cl) implies account_ok(
            s1,
            cl,
        ) by {
            assert(account_ok(s, cl));
            lemma_open_disputes_finite(s.disputes, cl);
            assert(open_disputes(s1.disputes, cl) =~= open_disputes(s.disputes, cl));
            assert(held_sum(s1, cl) == held_sum(s, cl));
        }
    }
}

/// The invariant holds in the initial state and is preserved by every
/// event, whatever it is.
pub proof fn lemma_spec_handle_wf(s: LedgerView, r: InputFileRecord)
    requires
        ledger_wf(s),
    ensures
        ledger_wf(spec_handle(s, r).0),
{
    let c = narrow_client(r.client);
    if !(s.clients.contains_key(c) && s.clients[c].is_locked && r.kind
        != InputFileRecordType::Resolve) {
        match r.kind {
            InputFileRecordType::Deposit => lemma_deposit_step_wf(s, r.tx, c, r.amount),
            InputFileRecordType::Withdrawal => lemma_withdrawal_step_wf(s, r.tx, c, r.amount),
            InputFileRecordType::Dispute => lemma_dispute_step_wf(s, r.tx, c),
            InputFileRecordType::Resolve => lemma_resolve_step_wf(s, r.tx, c),
            InputFileRecordType::Chargeback => lemma_chargeback_step_wf(s, r.tx, c),
        }
    }
}

pub proof fn lemma_initial_ledger_wf()
    ensures
        ledger_wf(initial_ledger()),
{
}

} // verus!
