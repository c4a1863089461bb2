use transaction_oxidizer::account::{ClientAccount, TransactionApplyError, TransactionState};
use transaction_oxidizer::fixed_point::DecimalFixedPoint;
use transaction_oxidizer::input_output::{
    ClientRecord, TransactionConversionError, TransactionRow, TransactionRowType,
};
use transaction_oxidizer::transaction::{AmountTransaction, Transaction, TransactionData};
use transaction_oxidizer::{
    process_transactions, process_transactions_into_accounts,
    process_transactions_into_accounts_reporting, ProcessError,
};

fn money(text: &str) -> DecimalFixedPoint {
    DecimalFixedPoint::from_str(text).unwrap()
}

fn deposit(client: u16, tx: u32, amount: &str) -> Transaction {
    Transaction::Deposit(AmountTransaction {
        tx_data: TransactionData { client, tx },
        amount: money(amount),
    })
}

fn withdrawal(client: u16, tx: u32, amount: &str) -> Transaction {
    Transaction::Withdrawal(AmountTransaction {
        tx_data: TransactionData { client, tx },
        amount: money(amount),
    })
}

fn row(
    transaction_type: TransactionRowType,
    client: u16,
    tx: u32,
    amount: Option<&str>,
) -> TransactionRow {
    TransactionRow {
        transaction_type,
        client,
        tx,
        amount: amount.map(|a| a.to_owned()),
    }
}

#[test]
fn dispute_then_resolve_conserves_balances() {
    let mut account = ClientAccount::new(1);
    account.try_apply(deposit(1, 1, "3.5")).unwrap();
    account.try_apply(deposit(1, 2, "1.25")).unwrap();
    let available_before = account.available;
    let held_before = account.held;
    account
        .try_apply(Transaction::Dispute(TransactionData { client: 1, tx: 1 }))
        .unwrap();
    assert_eq!(money("1.25"), account.available);
    assert_eq!(money("3.5"), account.held);
    account
        .try_apply(Transaction::Resolve(TransactionData { client: 1, tx: 1 }))
        .unwrap();
    assert_eq!(available_before, account.available);
    assert_eq!(held_before, account.held);
    assert!(!account.locked);
}

#[test]
fn locked_account_rejects_everything_unchanged() {
    let mut account = ClientAccount::new(7);
    account.try_apply(deposit(7, 10, "2.0")).unwrap();
    account
        .try_apply(Transaction::Dispute(TransactionData { client: 7, tx: 10 }))
        .unwrap();
    account
        .try_apply(Transaction::ChargeBack(TransactionData { client: 7, tx: 10 }))
        .unwrap();
    assert!(account.locked);
    let available = account.available;
    let held = account.held;
    let err = account.try_apply(deposit(7, 11, "1.0")).unwrap_err();
    assert!(matches!(err, TransactionApplyError::ClientLocked(_)));
    let err = account.try_apply(withdrawal(7, 12, "0.5")).unwrap_err();
    assert!(matches!(err, TransactionApplyError::ClientLocked(_)));
    assert_eq!(available, account.available);
    assert_eq!(held, account.held);
    assert!(account.locked);
}

#[test]
fn withdrawal_succeeds_iff_within_available() {
    let mut account = ClientAccount::new(2);
    account.try_apply(deposit(2, 1, "5.0")).unwrap();
    let err = account.try_apply(withdrawal(2, 2, "5.0001")).unwrap_err();
    match err {
        TransactionApplyError::NegativeBalance(_, available) => {
            assert_eq!(money("5.0"), available)
        }
        other => panic!("unexpected error {:?}", other),
    }
    assert_eq!(money("5.0"), account.available);
    account.try_apply(withdrawal(2, 3, "5.0")).unwrap();
    assert!(account.available.is_zero());
}

#[test]
fn repeated_dispute_is_rejected_unchanged() {
    let mut account = ClientAccount::new(3);
    account.try_apply(deposit(3, 1, "4.0")).unwrap();
    let dispute = Transaction::Dispute(TransactionData { client: 3, tx: 1 });
    account.try_apply(dispute).unwrap();
    let available = account.available;
    let held = account.held;
    let err = account.try_apply(dispute).unwrap_err();
    match err {
        TransactionApplyError::InvalidTransactionState {
            current_state,
            expected_state,
            tx,
            ..
        } => {
            assert_eq!(TransactionState::Disputed, current_state);
            assert_eq!(TransactionState::Valid, expected_state);
            assert_eq!(1, tx);
        }
        other => panic!("unexpected error {:?}", other),
    }
    assert_eq!(available, account.available);
    assert_eq!(held, account.held);
    account
        .try_apply(Transaction::ChargeBack(TransactionData { client: 3, tx: 1 }))
        .unwrap();
    // A charged-back deposit can never be disputed again.
    let mut locked_err_seen = false;
    if let Err(TransactionApplyError::ClientLocked(_)) = account.try_apply(dispute) {
        locked_err_seen = true;
    }
    assert!(locked_err_seen);
}

#[test]
fn dispute_of_unknown_transaction_is_missing() {
    let mut account = ClientAccount::new(4);
    account.try_apply(deposit(4, 1, "1.0")).unwrap();
    let err = account
        .try_apply(Transaction::Resolve(TransactionData { client: 4, tx: 99 }))
        .unwrap_err();
    match err {
        TransactionApplyError::MissingTransaction {
            attemped_action,
            client,
            tx,
        } => {
            assert_eq!("resolve", attemped_action);
            assert_eq!(4, client);
            assert_eq!(99, tx);
        }
        other => panic!("unexpected error {:?}", other),
    }
}

#[test]
fn dispute_may_drive_available_negative() {
    let mut account = ClientAccount::new(5);
    account.try_apply(deposit(5, 1, "5.0")).unwrap();
    account.try_apply(withdrawal(5, 2, "4.0")).unwrap();
    account
        .try_apply(Transaction::Dispute(TransactionData { client: 5, tx: 1 }))
        .unwrap();
    assert_eq!(money("-4.0"), account.available);
    assert_eq!(money("5.0"), account.held);
}

#[test]
fn deposit_overflow_is_a_hard_error() {
    let mut account = ClientAccount::new(6);
    account
        .try_apply(deposit(6, 1, "17014118346046923173168730371588410.5727"))
        .unwrap();
    let err = account.try_apply(deposit(6, 2, "0.0001")).unwrap_err();
    assert!(matches!(err, TransactionApplyError::ArithmeticOverflow(_)));
    assert_eq!(DecimalFixedPoint(i128::MAX), account.available);
}

#[test]
fn end_to_end_scenario() {
    let rows = vec![
        row(TransactionRowType::Deposit, 1, 1, Some("1.0")),
        row(TransactionRowType::Deposit, 1, 2, Some("2.0")),
        row(TransactionRowType::Dispute, 1, 1, None),
        row(TransactionRowType::Resolve, 1, 1, None),
        row(TransactionRowType::Withdrawal, 1, 3, Some("1.5")),
    ];
    let clients = process_transactions(&rows).unwrap();
    assert_eq!(1, clients.len());
    let account = clients.get(&1).unwrap();
    let record = ClientRecord::from(account);
    assert_eq!(1, record.client);
    assert_eq!("1.5000", record.available);
    assert_eq!("0.0000", record.held);
    assert_eq!("1.5000", record.total);
    assert!(!record.locked);
}

#[test]
fn chargeback_scenario() {
    let rows = vec![
        row(TransactionRowType::Deposit, 2, 4, Some("5.0")),
        row(TransactionRowType::Dispute, 2, 4, None),
        row(TransactionRowType::Chargeback, 2, 4, None),
    ];
    let mut clients = process_transactions(&rows).unwrap();
    let account = clients.get_mut(&2).unwrap();
    let record = ClientRecord::from(account);
    assert_eq!("0.0000", record.available);
    assert_eq!("0.0000", record.held);
    assert_eq!("0.0000", record.total);
    assert!(record.locked);
    let err = account.try_apply(deposit(2, 5, "1.0")).unwrap_err();
    assert!(matches!(err, TransactionApplyError::ClientLocked(_)));
}

#[test]
fn failed_rows_do_not_stop_the_run() {
    let rows = vec![
        row(TransactionRowType::Deposit, 1, 1, Some("1.0")),
        row(TransactionRowType::Withdrawal, 1, 2, Some("9.0")),
        row(TransactionRowType::Dispute, 1, 77, None),
        row(TransactionRowType::Deposit, 1, 3, Some("0.5")),
    ];
    let clients = process_transactions(&rows).unwrap();
    let account = clients.get(&1).unwrap();
    assert_eq!(money("1.5"), account.available);
}

#[test]
fn missing_amount_aborts_with_line_number() {
    let rows = vec![
        row(TransactionRowType::Deposit, 1, 1, Some("1.0")),
        row(TransactionRowType::Withdrawal, 1, 2, None),
    ];
    let err = process_transactions(&rows).unwrap_err();
    match err {
        ProcessError::Conversion { line, error } => {
            assert_eq!(3, line);
            match error {
                TransactionConversionError::MissingAmountData(bad) => {
                    assert_eq!(1, bad.client);
                    assert_eq!(2, bad.tx);
                }
                other => panic!("unexpected conversion error {:?}", other),
            }
        }
        other => panic!("unexpected error {:?}", other),
    }
}

#[test]
fn malformed_amount_aborts_with_line_number() {
    let rows = vec![row(TransactionRowType::Deposit, 1, 1, Some("1.00001"))];
    let err = process_transactions(&rows).unwrap_err();
    match err {
        ProcessError::Conversion { line, error } => {
            assert_eq!(2, line);
            assert!(matches!(
                error,
                TransactionConversionError::DecimalAmountConversion(_)
            ));
        }
        other => panic!("unexpected error {:?}", other),
    }
}

#[test]
fn balance_overflow_aborts_the_run() {
    let rows = vec![
        row(
            TransactionRowType::Deposit,
            1,
            1,
            Some("17014118346046923173168730371588410.5727"),
        ),
        row(TransactionRowType::Deposit, 1, 2, Some("0.0001")),
    ];
    let err = process_transactions(&rows).unwrap_err();
    match err {
        ProcessError::Overflow { line, transaction } => {
            assert_eq!(3, line);
            assert!(matches!(transaction, Transaction::Deposit(_)));
        }
        other => panic!("unexpected error {:?}", other),
    }
}

#[test]
fn negative_deposit_amount_is_rejected() {
    let bad = row(TransactionRowType::Deposit, 1, 1, Some("-1.0000"));
    let err = Transaction::try_from(bad).unwrap_err();
    match err {
        TransactionConversionError::NegativeAmount(rejected) => {
            assert_eq!(1, rejected.client);
            assert_eq!(1, rejected.tx);
            assert_eq!(Some("-1.0000".to_owned()), rejected.amount);
        }
        other => panic!("unexpected conversion error {:?}", other),
    }
}

#[test]
fn negative_withdrawal_amount_aborts_the_run() {
    let rows = vec![
        row(TransactionRowType::Deposit, 1, 1, Some("5.0")),
        row(TransactionRowType::Withdrawal, 1, 2, Some("-0.5")),
    ];
    let err = process_transactions(&rows).unwrap_err();
    match err {
        ProcessError::Conversion { line, error } => {
            assert_eq!(3, line);
            assert!(matches!(
                error,
                TransactionConversionError::NegativeAmount(_)
            ));
        }
        other => panic!("unexpected error {:?}", other),
    }
}

#[test]
fn rejections_are_reported_with_lines_and_errors() {
    let mut clients = std::collections::HashMap::new();
    let rows = vec![
        row(TransactionRowType::Deposit, 1, 1, Some("1.0")),
        row(TransactionRowType::Withdrawal, 1, 2, Some("9.0")),
        row(TransactionRowType::Dispute, 1, 77, None),
        row(TransactionRowType::Deposit, 1, 3, Some("0.5")),
    ];
    let (result, rejections) = process_transactions_into_accounts_reporting(&rows, &mut clients);
    result.unwrap();
    assert_eq!(2, rejections.len());
    assert_eq!(3, rejections[0].0);
    assert!(matches!(
        rejections[0].1,
        TransactionApplyError::NegativeBalance(..)
    ));
    assert_eq!(4, rejections[1].0);
    match &rejections[1].1 {
        TransactionApplyError::MissingTransaction {
            attemped_action,
            client,
            tx,
        } => {
            assert_eq!("dispute", attemped_action);
            assert_eq!(&1, client);
            assert_eq!(&77, tx);
        }
        other => panic!("unexpected rejection {:?}", other),
    }
    assert_eq!(money("1.5"), clients.get(&1).unwrap().available);
}

#[test]
fn accounts_carry_over_between_batches() {
    let mut clients = std::collections::HashMap::new();
    let first = vec![row(TransactionRowType::Deposit, 9, 1, Some("2.0"))];
    process_transactions_into_accounts(&first, &mut clients).unwrap();
    let second = vec![row(TransactionRowType::Withdrawal, 9, 2, Some("0.5"))];
    process_transactions_into_accounts(&second, &mut clients).unwrap();
    let account = clients.get(&9).unwrap();
    assert_eq!(money("1.5"), account.available);
    assert!(!account.locked);
}

#[test]
fn action_descriptions_name_each_action() {
    let data = TransactionData { client: 1, tx: 1 };
    assert_eq!("deposit", deposit(1, 1, "1.0").action_description());
    assert_eq!("withdrawal", withdrawal(1, 1, "1.0").action_description());
    assert_eq!("dispute", Transaction::Dispute(data).action_description());
    assert_eq!("resolve", Transaction::Resolve(data).action_description());
    assert_eq!(
        "chargeback",
        Transaction::ChargeBack(data).action_description()
    );
}
