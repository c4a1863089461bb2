//! The events the ledger processes: deposits, withdrawals and the three
//! reference-only actions on an earlier deposit.

use crate::fixed_point::DecimalFixedPoint;
use vstd::prelude::*;

verus! {

/// Identifiers of one event: the client it belongs to and the
/// transaction id it carries or references.
#[derive(Debug, Clone, Copy, PartialEq, Eq, Structural)]
pub struct TransactionData {
    pub client: u16,
    pub tx: u32,
}

/// An amount-bearing event: a deposit or a withdrawal.
#[derive(Debug, Clone, Copy, PartialEq, Eq, Structural)]
pub struct AmountTransaction {
    pub tx_data: TransactionData,
    pub amount: DecimalFixedPoint,
}

/// One ledger event.
#[derive(Debug, Clone, Copy, PartialEq, Eq, Structural)]
pub enum Transaction {
    Deposit(AmountTransaction),
    Withdrawal(AmountTransaction),
    Dispute(TransactionData),
    Resolve(TransactionData),
    ChargeBack(TransactionData),
}

/// The lowercase name of the action a transaction performs.
pub open spec fn spec_action_description(t: Transaction) -> Seq<char> {
    match t {
        Transaction::Deposit(_) => "deposit"@,
        Transaction::Withdrawal(_) => "withdrawal"@,
        Transaction::Dispute(_) => "dispute"@,
        Transaction::Resolve(_) => "resolve"@,
        Transaction::ChargeBack(_) => "chargeback"@,
    }
}

impl Transaction {
    /// The name of the action, for error reports.
    pub fn action_description(&self) -> (r: &'static str)
        ensures
            r@ == spec_action_description(*self),
    {
        match self {
            Transaction::Deposit(_) => "deposit",
            Transaction::Withdrawal(_) => "withdrawal",
            Transaction::Dispute(_) => "dispute",
            Transaction::Resolve(_) => "resolve",
            Transaction::ChargeBack(_) => "chargeback",
        }
    }
}

} // verus!
