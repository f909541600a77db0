//! Laws of the engine: properties that hold of every event stream, proved
//! once and for all against the transition model.

use crate::input_file_reader::{InputFileRecord, InputFileRecordType};
use crate::model::{
    account_of, available_of, chargeback_step, dispute_step, held_of, initial_ledger, ledger_wf,
    narrow_client, rec_amount, resolve_step, spec_handle, withdrawal_step, LedgerView,
};
use crate::service::RejectionReason;
use crate::transaction_info::TransactionStatus;
use vstd::prelude::*;

verus! {

/// Replay a sequence of events from `s`, applying each in order.
pub open spec fn replay(s: LedgerView, events: Seq<InputFileRecord>) -> LedgerView
    decreases events.len(),
{
    if events.len() == 0 {
        s
    } else {
        replay(spec_handle(s, events[0]).0, events.drop_first())
    }
}

/// Every event of the sequence is accepted when the sequence is replayed
/// from `s`.
pub open spec fn all_accepted(s: LedgerView, events: Seq<InputFileRecord>) -> bool
    decreases events.len(),
{
    if events.len() == 0 {
        true
    } else {
        &&& spec_handle(s, events[0]).1 == Ok::<(), RejectionReason>(())
        &&& all_accepted(spec_handle(s, events[0]).0, events.drop_first())
    }
}

/// A deposit or withdrawal event whose client field narrows to `c`.
pub open spec fn dw_event_for(e: InputFileRecord, c: u16) -> bool {
    &&& (e.kind == InputFileRecordType::Deposit || e.kind == InputFileRecordType::Withdrawal)
    &&& narrow_client(e.client) == c
}

/// Algebraic sum of the events' amounts: deposits count positively,
/// withdrawals negatively.
pub open spec fn signed_sum(events: Seq<InputFileRecord>) -> int
    decreases events.len(),
{
    if events.len() == 0 {
        0
    } else {
        let a: int = events[0].amount->0 as int;
        (if events[0].kind == InputFileRecordType::Deposit {
            a
        } else {
            -a
        }) + signed_sum(events.drop_first())
    }
}

/// Replaying accepted deposits and withdrawals of one unlocked client moves
/// `available` by exactly the algebraic sum of the signed amounts, keeps
/// `held` at zero, and never locks the account.
pub proof fn lemma_deposits_withdrawals_sum(s: LedgerView, events: Seq<InputFileRecord>, c: u16)
    requires
        forall|i: int| 0 <= i < events.len() ==> dw_event_for(#[trigger] events[i], c),
        all_accepted(s, events),
        held_of(s, c) == 0,
        !account_of(s, c).is_locked,
    ensures
        available_of(replay(s, events), c) == available_of(s, c) + signed_sum(events),
        held_of(replay(s, events), c) == 0,
        !account_of(replay(s, events), c).is_locked,
    decreases events.len(),
{
    if events.len() > 0 {
        let e = events[0];
        assert(dw_event_for(events[0], c));
        let s1 = spec_handle(s, e).0;
        assert(available_of(s1, c) == available_of(s, c) + (if e.kind
            == InputFileRecordType::Deposit {
            e.amount->0 as int
        } else {
            -(e.amount->0 as int)
        }));
        assert(forall|i: int|
            0 <= i < events.drop_first().len() ==> dw_event_for(
                #[trigger] events.drop_first()[i],
                c,
            ));
        lemma_deposits_withdrawals_sum(s1, events.drop_first(), c);
    }
}

/// For all sequences of accepted deposits and withdrawals on one client,
/// `available` after a replay from the initial ledger equals the algebraic
/// sum of the signed amounts, and `held` is zero.
pub proof fn lemma_replay_deposits_withdrawals(events: Seq<InputFileRecord>, c: u16)
    requires
        forall|i: int| 0 <= i < events.len() ==> dw_event_for(#[trigger] events[i], c),
        all_accepted(initial_ledger(), events),
    ensures
        available_of(replay(initial_ledger(), events), c) == signed_sum(events),
        held_of(replay(initial_ledger(), events), c) == 0,
{
    lemma_deposits_withdrawals_sum(initial_ledger(), events, c);
}

/// A dispute followed by its resolve is balance-neutral: the resolve is
/// always accepted, and both `available` and `held` return to their
/// pre-dispute values.
pub proof fn lemma_dispute_resolve_round_trip(s: LedgerView, tx: u64, c: u16)
    requires
        ledger_wf(s),
        dispute_step(s, tx, c).1 == Ok::<(), RejectionReason>(()),
    ensures
        ({
            let s1 = dispute_step(s, tx, c).0;
            &&& resolve_step(s1, tx, c).1 == Ok::<(), RejectionReason>(())
            &&& available_of(resolve_step(s1, tx, c).0, c) == available_of(s, c)
            &&& held_of(resolve_step(s1, tx, c).0, c) == held_of(s, c)
        }),
{
}

/// A dispute resolved and then charged back ends with `available` reduced
/// by exactly the disputed amount, `held` back at its pre-dispute value,
/// and the account locked.
pub proof fn lemma_chargeback_outcome(s: LedgerView, tx: u64, c: u16)
    requires
        ledger_wf(s),
        dispute_step(s, tx, c).1 == Ok::<(), RejectionReason>(()),
    ensures
        ({
            let s1 = dispute_step(s, tx, c).0;
            let s2 = resolve_step(s1, tx, c).0;
            &&& chargeback_step(s2, tx, c).1 == Ok::<(), RejectionReason>(())
            &&& available_of(chargeback_step(s2, tx, c).0, c) == available_of(s, c) - rec_amount(
                s.transactions[tx],
            )
            &&& held_of(chargeback_step(s2, tx, c).0, c) == held_of(s, c)
            &&& account_of(chargeback_step(s2, tx, c).0, c).is_locked
        }),
{
    lemma_dispute_resolve_round_trip(s, tx, c);
}

/// Any event but a resolve aimed at a locked account is silently dropped:
/// the ledger does not change and no error is reported.
pub proof fn lemma_locked_account_ignores_events(s: LedgerView, e: InputFileRecord)
    requires
        s.clients.contains_key(narrow_client(e.client)),
        s.clients[narrow_client(e.client)].is_locked,
        e.kind != InputFileRecordType::Resolve,
    ensures
        spec_handle(s, e) == (s, Ok::<(), RejectionReason>(())),
{
}

/// Once locked, an account stays locked, whatever event comes next.
pub proof fn lemma_locked_is_permanent(s: LedgerView, e: InputFileRecord, c: u16)
    requires
        account_of(s, c).is_locked,
    ensures
        account_of(spec_handle(s, e).0, c).is_locked,
{
}

/// A withdrawal asking for more than `available` is rejected with
/// `InsufficientFunds`, leaves every balance unchanged, and still claims
/// its transaction identifier with a record marked as failed.
pub proof fn lemma_overdraft_rejected(s: LedgerView, tx: u64, c: u16, a: i64)
    requires
        ledger_wf(s),
        !s.transactions.contains_key(tx),
        s.clients.contains_key(c),
        0 <= a,
        s.clients[c].available < a,
    ensures
        ({
            let (s1, res) = withdrawal_step(s, tx, c, Some(a));
            &&& res == Err::<(), RejectionReason>(RejectionReason::InsufficientFunds)
            &&& s1.clients == s.clients
            &&& s1.transactions.contains_key(tx)
            &&& s1.transactions[tx].status == TransactionStatus::Failure
            &&& s1.transactions[tx].amount == Some(a)
        }),
{
}

/// Transaction identifiers are never given back: whatever the next event
/// is, a claimed identifier stays claimed.
pub proof fn lemma_claimed_id_stays_claimed(s: LedgerView, e: InputFileRecord, tx: u64)
    requires
        s.transactions.contains_key(tx),
    ensures
        spec_handle(s, e).0.transactions.contains_key(tx),
{
}

/// A deposit or withdrawal reusing a claimed transaction identifier is
/// rejected as a duplicate, provided the client's account is not silently
/// dropping events because of a lock.
pub proof fn lemma_duplicate_id_rejected(s: LedgerView, e: InputFileRecord)
    requires
        s.transactions.contains_key(e.tx),
        e.kind == InputFileRecordType::Deposit || e.kind == InputFileRecordType::Withdrawal,
        !(s.clients.contains_key(narrow_client(e.client)) && s.clients[narrow_client(
            e.client,
        )].is_locked),
    ensures
        spec_handle(s, e) == (s, Err::<(), RejectionReason>(RejectionReason::DuplicateTransaction)),
{
}

} // verus!
