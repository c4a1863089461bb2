//! The record boundary: plain-value input rows, their conversion to
//! transactions, and the per-client output snapshot.

use crate::account::{in_i128, ClientAccount};
use crate::fixed_point::{spec_format, spec_parse, BigFixedPointParseError, DecimalFixedPoint};
use crate::transaction::{AmountTransaction, Transaction, TransactionData};
use vstd::prelude::*;

verus! {

/// The event kind named in an input row.
#[derive(Debug, Clone, Copy, PartialEq, Eq, Structural)]
pub enum TransactionRowType {
    Deposit,
    Withdrawal,
    Dispute,
    Resolve,
    Chargeback,
}

/// One row of the input table, as plain values; the amount is kept as
/// text until conversion.
#[derive(Debug)]
#[verifier::ext_equal]
pub struct TransactionRow {
    pub transaction_type: TransactionRowType,
    pub client: u16,
    pub tx: u32,
    pub amount: Option<String>,
}

impl Clone for TransactionRow {
    /// An exact copy of the row.
    fn clone(&self) -> (r: Self)
        ensures
            r == *self,
    {
        let amount = match &self.amount {
            Some(s) => Some(s.clone()),
            None => None,
        };
        let r = TransactionRow {
            transaction_type: self.transaction_type,
            client: self.client,
            tx: self.tx,
            amount,
        };
        proof {
            assert(r =~= *self);
        }
        r
    }
}

/// One row of the output table: balances rendered as exact decimal text.
#[derive(Debug)]
pub struct ClientRecord {
    pub client: u16,
    pub available: String,
    pub held: String,
    pub total: String,
    pub locked: bool,
}

impl ClientRecord {
    /// Snapshot of a ledger: `total` is `held + available`, computed at
    /// snapshot time.
    pub fn from(account: &ClientAccount) -> (r: ClientRecord)
        requires
            in_i128(account@.held + account@.available),
        ensures
            r.client == account@.id,
            r.available@ == spec_format(account@.available),
            r.held@ == spec_format(account@.held),
            r.total@ == spec_format(account@.held + account@.available),
            r.locked == account@.locked,
    {
        let total = account.held.checked_add(account.available).unwrap();
        ClientRecord {
            client: account.id,
            available: account.available.format(),
            held: account.held.format(),
            total: total.format(),
            locked: account.locked,
        }
    }
}

/// Why a row could not be turned into a transaction.
#[derive(Debug)]
pub enum TransactionConversionError {
    /// A deposit or withdrawal row without an amount; the row is
    /// reported.
    MissingAmountData(TransactionRow),
    /// The amount text is not a decimal within scale and width.
    DecimalAmountConversion(BigFixedPointParseError),
    /// A deposit or withdrawal row with a negative amount, which the
    /// ledger never accepts; the row is reported.
    NegativeAmount(TransactionRow),
}

/// What converting one row yields: the transaction, or the exact error.
/// A deposit or withdrawal amount must parse and be non-negative.
pub open spec fn spec_row_to_transaction(row: TransactionRow) -> Result<
    Transaction,
    TransactionConversionError,
> {
    let tx_data = TransactionData { client: row.client, tx: row.tx };
    match row.transaction_type {
        TransactionRowType::Deposit => match row.amount {
            None => Err(TransactionConversionError::MissingAmountData(row)),
            Some(s) => match spec_parse(s@) {
                Err(e) => Err(TransactionConversionError::DecimalAmountConversion(e)),
                Ok(d) => if d@ < 0 {
                    Err(TransactionConversionError::NegativeAmount(row))
                } else {
                    Ok(Transaction::Deposit(AmountTransaction { tx_data, amount: d }))
                },
            },
        },
        TransactionRowType::Withdrawal => match row.amount {
            None => Err(TransactionConversionError::MissingAmountData(row)),
            Some(s) => match spec_parse(s@) {
                Err(e) => Err(TransactionConversionError::DecimalAmountConversion(e)),
                Ok(d) => if d@ < 0 {
                    Err(TransactionConversionError::NegativeAmount(row))
                } else {
                    Ok(Transaction::Withdrawal(AmountTransaction { tx_data, amount: d }))
                },
            },
        },
        TransactionRowType::Dispute => Ok(Transaction::Dispute(tx_data)),
        TransactionRowType::Resolve => Ok(Transaction::Resolve(tx_data)),
        TransactionRowType::Chargeback => Ok(Transaction::ChargeBack(tx_data)),
    }
}

/// Every amount-bearing transaction the conversion accepts carries a
/// non-negative amount.
pub proof fn lemma_converted_amount_nonneg(row: TransactionRow)
    ensures
        (spec_row_to_transaction(row) matches Ok(t) ==> match t {
            Transaction::Deposit(a) => a.amount@ >= 0,
            Transaction::Withdrawal(a) => a.amount@ >= 0,
            _ => true,
        }),
{
}

impl Transaction {
    /// Converts one input row into a transaction, parsing the amount
    /// text for deposits and withdrawals.
    pub fn try_from(value: TransactionRow) -> (r: Result<
        Transaction,
        TransactionConversionError,
    >)
        ensures
            r == spec_row_to_transaction(value),
    {
        let tx_data = TransactionData { client: value.client, tx: value.tx };
        let transaction_type = value.transaction_type;
        match transaction_type {
            TransactionRowType::Deposit => match value.amount {
                None => {
                    let row = TransactionRow {
                        transaction_type,
                        client: tx_data.client,
                        tx: tx_data.tx,
                        amount: None,
                    };
                    proof {
                        assert(row =~= value);
                    }
                    Err(TransactionConversionError::MissingAmountData(row))
                },
                Some(s) => match DecimalFixedPoint::from_str(s.as_str()) {
                    Err(e) => Err(TransactionConversionError::DecimalAmountConversion(e)),
                    Ok(d) => if d.0 < 0 {
                        let row = TransactionRow {
                            transaction_type,
                            client: tx_data.client,
                            tx: tx_data.tx,
                            amount: Some(s),
                        };
                        proof {
                            assert(row =~= value);
                        }
                        Err(TransactionConversionError::NegativeAmount(row))
                    } else {
                        Ok(Transaction::Deposit(AmountTransaction { tx_data, amount: d }))
                    },
                },
            },
            TransactionRowType::Withdrawal => match value.amount {
                None => {
                    let row = TransactionRow {
                        transaction_type,
                        client: tx_data.client,
                        tx: tx_data.tx,
                        amount: None,
                    };
                    proof {
                        assert(row =~= value);
                    }
                    Err(TransactionConversionError::MissingAmountData(row))
                },
                Some(s) => match DecimalFixedPoint::from_str(s.as_str()) {
                    Err(e) => Err(TransactionConversionError::DecimalAmountConversion(e)),
                    Ok(d) => if d.0 < 0 {
                        let row = TransactionRow {
                            transaction_type,
                            client: tx_data.client,
                            tx: tx_data.tx,
                            amount: Some(s),
                        };
                        proof {
                            assert(row =~= value);
                        }
                        Err(TransactionConversionError::NegativeAmount(row))
                    } else {
                        Ok(Transaction::Withdrawal(AmountTransaction { tx_data, amount: d }))
                    },
                },
            },
            TransactionRowType::Dispute => Ok(Transaction::Dispute(tx_data)),
            TransactionRowType::Resolve => Ok(Transaction::Resolve(tx_data)),
            TransactionRowType::Chargeback => Ok(Transaction::ChargeBack(tx_data)),
        }
    }
}

} // verus!
