// Tests drive the engine exactly as the surrounding program would: one
// event at a time, then a snapshot. Amounts count 1/10000ths of a currency
// unit, so 10.0 currency units are written 100_000.

use toy_ledger::input_file_reader::{InputFileRecord, InputFileRecordType};
use toy_ledger::output_record::OutputRecord;
use toy_ledger::service::{RejectionReason, Service};

fn event(
    kind: InputFileRecordType,
    client: u64,
    tx: u64,
    amount: Option<i64>,
) -> InputFileRecord {
    InputFileRecord { kind, client, tx, amount }
}

fn single_record(service: &Service) -> OutputRecord {
    let records = service.get_records();
    assert_eq!(records.len(), 1);
    records[0]
}

#[test]
fn deposit_and_withdrawal() {
    let mut service = Service::new();
    service
        .handle(&event(InputFileRecordType::Deposit, 1, 0, Some(100_000)))
        .expect("service failed to handle deposit request");
    let OutputRecord { client, available, held, total, locked } = single_record(&service);
    assert_eq!(client, 1);
    assert_eq!(available, 100_000);
    assert_eq!(held, 0);
    assert_eq!(total, 100_000);
    assert!(!locked);

    service
        .handle(&event(InputFileRecordType::Withdrawal, 1, 1, Some(15_000)))
        .expect("service failed to handle withdrawal request");
    let OutputRecord { client, available, held, total, locked } = single_record(&service);
    assert_eq!(client, 1);
    assert_eq!(available, 85_000);
    assert_eq!(held, 0);
    assert_eq!(total, 85_000);
    assert!(!locked);
}

#[test]
fn chargeback() {
    let mut service = Service::new();
    service
        .handle(&event(InputFileRecordType::Deposit, 1, 0, Some(100_000)))
        .expect("service failed to handle deposit request");
    let OutputRecord { client, available, held, total, locked } = single_record(&service);
    assert_eq!(client, 1);
    assert_eq!(available, 100_000);
    assert_eq!(held, 0);
    assert_eq!(total, 100_000);
    assert!(!locked);

    service
        .handle(&event(InputFileRecordType::Dispute, 1, 0, None))
        .expect("service failed to handle dispute request");
    let OutputRecord { client, available, held, total, locked } = single_record(&service);
    assert_eq!(client, 1);
    assert_eq!(available, 0);
    assert_eq!(held, 100_000);
    assert_eq!(total, 100_000);
    assert!(!locked);

    service
        .handle(&event(InputFileRecordType::Resolve, 1, 0, None))
        .expect("service failed to handle resolution request");
    let OutputRecord { client, available, held, total, locked } = single_record(&service);
    assert_eq!(client, 1);
    assert_eq!(available, 100_000);
    assert_eq!(held, 0);
    assert_eq!(total, 100_000);
    assert!(!locked);

    service
        .handle(&event(InputFileRecordType::Chargeback, 1, 0, None))
        .expect("service failed to handle chargeback request");
    let OutputRecord { client, available, held, total, locked } = single_record(&service);
    assert_eq!(client, 1);
    assert_eq!(available, 0);
    assert_eq!(held, 0);
    assert_eq!(total, 0);
    assert!(locked);
}

#[test]
fn overdraft() {
    let mut service = Service::new();
    service
        .handle(&event(InputFileRecordType::Deposit, 2, 3, Some(100_000)))
        .expect("service failed to handle deposit request");
    let OutputRecord { client, available, held, total, locked } = single_record(&service);
    assert_eq!(client, 2);
    assert_eq!(available, 100_000);
    assert_eq!(held, 0);
    assert_eq!(total, 100_000);
    assert!(!locked);

    let res = service.handle(&event(InputFileRecordType::Withdrawal, 2, 0, Some(110_000)));
    assert_eq!(res, Err(RejectionReason::InsufficientFunds));

    let OutputRecord { client, available, held, total, locked } = single_record(&service);
    assert_eq!(client, 2);
    assert_eq!(available, 100_000);
    assert_eq!(held, 0);
    assert_eq!(total, 100_000);
    assert!(!locked);
}

#[test]
fn negative_deposit() {
    let mut service = Service::new();
    let res = service.handle(&event(InputFileRecordType::Deposit, 1, 0, Some(-100_000)));
    assert!(res.is_err());
    assert_eq!(res, Err(RejectionReason::NegativeAmount));
}

#[test]
fn negative_withdrawal() {
    let mut service = Service::new();
    service
        .handle(&event(InputFileRecordType::Deposit, 1, 0, Some(100_000)))
        .expect("service failed to handle deposit request");
    let OutputRecord { client, available, held, total, locked } = single_record(&service);
    assert_eq!(client, 1);
    assert_eq!(available, 100_000);
    assert_eq!(held, 0);
    assert_eq!(total, 100_000);
    assert!(!locked);

    let res = service.handle(&event(InputFileRecordType::Withdrawal, 1, 1, Some(-15_000)));
    assert!(res.is_err());
    assert_eq!(res, Err(RejectionReason::NegativeAmount));
}

#[test]
fn failed_deposit_claims_its_transaction_id() {
    let mut service = Service::new();
    let res = service.handle(&event(InputFileRecordType::Deposit, 1, 0, Some(-100_000)));
    assert_eq!(res, Err(RejectionReason::NegativeAmount));
    // No account was created by the failed deposit.
    assert_eq!(service.get_records().len(), 0);
    // The identifier is spent even though the deposit failed.
    let res = service.handle(&event(InputFileRecordType::Deposit, 1, 0, Some(100_000)));
    assert_eq!(res, Err(RejectionReason::DuplicateTransaction));
}

#[test]
fn failed_withdrawal_claims_its_transaction_id() {
    let mut service = Service::new();
    service
        .handle(&event(InputFileRecordType::Deposit, 1, 0, Some(100_000)))
        .expect("service failed to handle deposit request");
    let res = service.handle(&event(InputFileRecordType::Withdrawal, 1, 7, Some(200_000)));
    assert_eq!(res, Err(RejectionReason::InsufficientFunds));
    let res = service.handle(&event(InputFileRecordType::Deposit, 1, 7, Some(100_000)));
    assert_eq!(res, Err(RejectionReason::DuplicateTransaction));
}

#[test]
fn missing_amounts_are_rejected() {
    let mut service = Service::new();
    let res = service.handle(&event(InputFileRecordType::Deposit, 1, 0, None));
    assert_eq!(res, Err(RejectionReason::MissingAmount));
    let res = service.handle(&event(InputFileRecordType::Withdrawal, 1, 1, None));
    assert_eq!(res, Err(RejectionReason::MissingAmount));
    // A rejected event with no amount claims nothing: the id is still free.
    service
        .handle(&event(InputFileRecordType::Deposit, 1, 0, Some(100_000)))
        .expect("service failed to handle deposit request");
}

#[test]
fn withdrawal_for_unknown_client_is_rejected() {
    let mut service = Service::new();
    let res = service.handle(&event(InputFileRecordType::Withdrawal, 9, 0, Some(100)));
    assert_eq!(res, Err(RejectionReason::UnknownClient));
    assert_eq!(service.get_records().len(), 0);
}

#[test]
fn dispute_validation_errors() {
    let mut service = Service::new();
    // No such transaction at all.
    let res = service.handle(&event(InputFileRecordType::Dispute, 1, 0, None));
    assert_eq!(res, Err(RejectionReason::UnknownTransaction));

    service
        .handle(&event(InputFileRecordType::Deposit, 1, 0, Some(100_000)))
        .expect("service failed to handle deposit request");
    // The transaction exists but the disputing client has no account.
    let res = service.handle(&event(InputFileRecordType::Dispute, 2, 0, None));
    assert_eq!(res, Err(RejectionReason::UnknownClient));

    // A withdrawal cannot be disputed.
    service
        .handle(&event(InputFileRecordType::Withdrawal, 1, 1, Some(10_000)))
        .expect("service failed to handle withdrawal request");
    let res = service.handle(&event(InputFileRecordType::Dispute, 1, 1, None));
    assert_eq!(res, Err(RejectionReason::InvalidDisputeTarget));

    // A deposit owned by another existing client cannot be disputed either.
    service
        .handle(&event(InputFileRecordType::Deposit, 2, 2, Some(50_000)))
        .expect("service failed to handle deposit request");
    let res = service.handle(&event(InputFileRecordType::Dispute, 2, 0, None));
    assert_eq!(res, Err(RejectionReason::InvalidDisputeTarget));

    // The available funds no longer cover the disputed deposit.
    service
        .handle(&event(InputFileRecordType::Withdrawal, 1, 3, Some(85_000)))
        .expect("service failed to handle withdrawal request");
    let res = service.handle(&event(InputFileRecordType::Dispute, 1, 0, None));
    assert_eq!(res, Err(RejectionReason::InsufficientFundsForHold));
}

#[test]
fn resolve_and_chargeback_lifecycle_errors() {
    let mut service = Service::new();
    service
        .handle(&event(InputFileRecordType::Deposit, 1, 0, Some(100_000)))
        .expect("service failed to handle deposit request");

    // Nothing is under dispute yet.
    let res = service.handle(&event(InputFileRecordType::Resolve, 1, 0, None));
    assert_eq!(res, Err(RejectionReason::UnknownDispute));
    let res = service.handle(&event(InputFileRecordType::Chargeback, 1, 0, None));
    assert_eq!(res, Err(RejectionReason::UnknownResolvedDispute));

    service
        .handle(&event(InputFileRecordType::Dispute, 1, 0, None))
        .expect("service failed to handle dispute request");
    // Only the disputing client may resolve.
    let res = service.handle(&event(InputFileRecordType::Resolve, 2, 0, None));
    assert_eq!(res, Err(RejectionReason::ClientMismatch));
    // A disputed transaction is not yet resolved, so no chargeback.
    let res = service.handle(&event(InputFileRecordType::Chargeback, 1, 0, None));
    assert_eq!(res, Err(RejectionReason::UnknownResolvedDispute));

    service
        .handle(&event(InputFileRecordType::Resolve, 1, 0, None))
        .expect("service failed to handle resolution request");
    // Only the owner may charge back.
    service
        .handle(&event(InputFileRecordType::Deposit, 2, 1, Some(1)))
        .expect("service failed to handle deposit request");
    let res = service.handle(&event(InputFileRecordType::Chargeback, 2, 0, None));
    assert_eq!(res, Err(RejectionReason::ClientMismatch));

    // Spend the released funds, then the chargeback cannot be covered.
    service
        .handle(&event(InputFileRecordType::Withdrawal, 1, 2, Some(100_000)))
        .expect("service failed to handle withdrawal request");
    let res = service.handle(&event(InputFileRecordType::Chargeback, 1, 0, None));
    assert_eq!(res, Err(RejectionReason::InsufficientFundsForChargeback));
}

#[test]
fn locked_account_drops_everything_but_resolve() {
    let mut service = Service::new();
    service
        .handle(&event(InputFileRecordType::Deposit, 1, 0, Some(100_000)))
        .expect("service failed to handle deposit request");
    service
        .handle(&event(InputFileRecordType::Deposit, 1, 1, Some(40_000)))
        .expect("service failed to handle deposit request");
    service
        .handle(&event(InputFileRecordType::Dispute, 1, 0, None))
        .expect("service failed to handle dispute request");
    service
        .handle(&event(InputFileRecordType::Dispute, 1, 1, None))
        .expect("service failed to handle dispute request");
    service
        .handle(&event(InputFileRecordType::Resolve, 1, 0, None))
        .expect("service failed to handle resolution request");
    service
        .handle(&event(InputFileRecordType::Chargeback, 1, 0, None))
        .expect("service failed to handle chargeback request");
    let OutputRecord { available, held, locked, .. } = single_record(&service);
    assert!(locked);
    assert_eq!(available, 0);
    assert_eq!(held, 40_000);

    // Deposits and withdrawals on the locked account are silently dropped.
    let res = service.handle(&event(InputFileRecordType::Deposit, 1, 2, Some(5_000)));
    assert_eq!(res, Ok(()));
    let OutputRecord { available, held, .. } = single_record(&service);
    assert_eq!(available, 0);
    assert_eq!(held, 40_000);

    // A resolve still lands: locked accounts accept resolve callbacks.
    service
        .handle(&event(InputFileRecordType::Resolve, 1, 1, None))
        .expect("service failed to handle resolution request");
    let OutputRecord { available, held, locked, .. } = single_record(&service);
    assert!(locked);
    assert_eq!(available, 40_000);
    assert_eq!(held, 0);
}

#[test]
fn wide_client_identifiers_alias_into_sixteen_bits() {
    let mut service = Service::new();
    service
        .handle(&event(InputFileRecordType::Deposit, 0x1_0001, 0, Some(100)))
        .expect("service failed to handle deposit request");
    let OutputRecord { client, available, .. } = single_record(&service);
    assert_eq!(client, 1);
    assert_eq!(available, 100);
}

#[test]
fn snapshot_covers_every_account_once() {
    let mut service = Service::new();
    service
        .handle(&event(InputFileRecordType::Deposit, 3, 0, Some(10)))
        .expect("service failed to handle deposit request");
    service
        .handle(&event(InputFileRecordType::Deposit, 1, 1, Some(20)))
        .expect("service failed to handle deposit request");
    service
        .handle(&event(InputFileRecordType::Deposit, 3, 2, Some(30)))
        .expect("service failed to handle deposit request");
    let records = service.get_records();
    assert_eq!(records.len(), 2);
    let mut clients: Vec<u64> = records.iter().map(|r| r.client).collect();
    clients.sort();
    assert_eq!(clients, vec![1, 3]);
    for r in &records {
        assert_eq!(r.total, r.available + r.held);
        if r.client == 3 {
            assert_eq!(r.available, 40);
        } else {
            assert_eq!(r.available, 20);
        }
    }
}

#[test]
fn identifier_wrappers_round_trip() {
    let c = toy_ledger::client_id::ClientId::new(7);
    assert_eq!(c.value(), 7);
    let t = toy_ledger::transaction_id::TransactionId::new(9);
    assert_eq!(t.value(), 9);
    let reader = toy_ledger::input_file_reader::InputFileReader::new(String::from("events.csv"));
    assert_eq!(reader.path, "events.csv");
    let _writer = toy_ledger::output_writer::OutputWriter::new();
}
