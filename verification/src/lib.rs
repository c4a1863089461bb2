//! A sequential ledger of client accounts: deposits, withdrawals and the
//! dispute lifecycle, over an exact fixed-point decimal money type.
//!
//! Rows of the input table are folded in order into a per-client ledger
//! mapping; each ledger enforces the lock, balance and lifecycle rules,
//! and balances never silently wrap.

use vstd::prelude::*;

pub mod account;
pub mod fixed_point;
pub mod input_output;
pub mod transaction;

use account::{
    error_matches_outcome,
    spec_apply,
    spec_outcome,
    AccountModel,
    ApplyOutcome,
    ClientAccount,
    TransactionApplyError,
};
use input_output::{spec_row_to_transaction, TransactionConversionError, TransactionRow};
use std::collections::HashMap;
use transaction::Transaction;

verus! {

/// The ledgers of all clients seen so far, as mathematical models.
pub open spec fn accounts_view(m: Map<u16, ClientAccount>) -> Map<u16, AccountModel> {
    m.map_values(|a: ClientAccount| a@)
}

/// A ledger as first created for a client: zero balances, unlocked.
pub open spec fn fresh_account(id: u16) -> AccountModel {
    AccountModel { id, available: 0, held: 0, locked: false, deposits: Map::empty() }
}

/// The line the row at `idx` came from: rows start at line 2, after the
/// header line.
pub open spec fn spec_line(idx: int) -> usize {
    if idx + 2 <= usize::MAX {
        (idx + 2) as usize
    } else {
        usize::MAX
    }
}

/// A fault that aborts a run.
#[derive(Debug)]
pub enum ProcessError {
    /// A row could not be converted to a transaction; the line it came
    /// from is reported.
    Conversion { line: usize, error: TransactionConversionError },
    /// Applying the transaction would overflow a balance, which the
    /// ledger never silently wraps.
    Overflow { line: usize, transaction: Transaction },
}

/// Folds the rows starting at index `idx` over the accounts: each row is
/// converted and applied to its client's ledger, which is created on
/// first reference. A conversion error or an overflow stops the run;
/// any other rejection leaves the ledger as it was and processing goes
/// on with the next row.
pub open spec fn spec_process_from(
    accounts: Map<u16, AccountModel>,
    rows: Seq<TransactionRow>,
    idx: int,
) -> (Map<u16, AccountModel>, Option<ProcessError>)
    decreases rows.len(),
{
    if rows.len() == 0 {
        (accounts, None)
    } else {
        let row = rows[0];
        match spec_row_to_transaction(row) {
            Err(e) => (
                accounts,
                Some(ProcessError::Conversion { line: spec_line(idx), error: e }),
            ),
            Ok(t) => {
                let id = row.client;
                let acc = if accounts.contains_key(id) {
                    accounts[id]
                } else {
                    fresh_account(id)
                };
                if spec_outcome(acc, t) == ApplyOutcome::Overflow {
                    (
                        accounts.insert(id, acc),
                        Some(ProcessError::Overflow { line: spec_line(idx), transaction: t }),
                    )
                } else {
                    spec_process_from(
                        accounts.insert(id, spec_apply(acc, t)),
                        rows.drop_first(),
                        idx + 1,
                    )
                }
            },
        }
    }
}

/// The recoverable rejections the fold reports, in input order: for each
/// refused row, the line it came from, the refused transaction, and the
/// ledger model it was refused against. A fatal fault ends the list.
pub open spec fn spec_rejections_from(
    accounts: Map<u16, AccountModel>,
    rows: Seq<TransactionRow>,
    idx: int,
) -> Seq<(usize, Transaction, AccountModel)>
    decreases rows.len(),
{
    if rows.len() == 0 {
        Seq::empty()
    } else {
        let row = rows[0];
        match spec_row_to_transaction(row) {
            Err(_) => Seq::empty(),
            Ok(t) => {
                let id = row.client;
                let acc = if accounts.contains_key(id) {
                    accounts[id]
                } else {
                    fresh_account(id)
                };
                if spec_outcome(acc, t) == ApplyOutcome::Overflow {
                    Seq::empty()
                } else {
                    let rest = spec_rejections_from(
                        accounts.insert(id, spec_apply(acc, t)),
                        rows.drop_first(),
                        idx + 1,
                    );
                    if spec_outcome(acc, t) == ApplyOutcome::Accepted {
                        rest
                    } else {
                        seq![(spec_line(idx), t, acc)] + rest
                    }
                }
            },
        }
    }
}

/// Processes the rows, in order, into a fresh per-client ledger mapping.
pub fn process_transactions(rows: &Vec<TransactionRow>) -> (r: Result<
    HashMap<u16, ClientAccount>,
    ProcessError,
>)
    ensures
        ({
            let (m, fault) = spec_process_from(Map::empty(), rows@, 0);
            match r {
                Ok(clients) => fault is None && accounts_view(clients@) == m,
                Err(e) => Some(e) == fault,
            }
        }),
{
    let mut clients: HashMap<u16, ClientAccount> = HashMap::new();
    proof {
        assert(accounts_view(clients@) =~= Map::<u16, AccountModel>::empty());
    }
    match process_transactions_into_accounts(rows, &mut clients) {
        Ok(()) => Ok(clients),
        Err(e) => Err(e),
    }
}

/// Folds the rows into an existing ledger mapping, exactly as
/// [`spec_process_from`] describes.
pub fn process_transactions_into_accounts(
    rows: &Vec<TransactionRow>,
    clients: &mut HashMap<u16, ClientAccount>,
) -> (r: Result<(), ProcessError>)
    ensures
        ({
            let (m, fault) = spec_process_from(accounts_view(old(clients)@), rows@, 0);
            &&& accounts_view(final(clients)@) == m
            &&& (match r {
                Ok(()) => fault is None,
                Err(e) => Some(e) == fault,
            })
        }),
{
    let (r, _rejections) = process_transactions_into_accounts_reporting(rows, clients);
    r
}

/// Folds the rows as [`process_transactions_into_accounts`] does and
/// also returns, in input order, every recoverable rejection: the line
/// it came from and the exact error the ledger reported, so a caller
/// can log them for audit.
#[verifier::loop_isolation(false)]
pub fn process_transactions_into_accounts_reporting(
    rows: &Vec<TransactionRow>,
    clients: &mut HashMap<u16, ClientAccount>,
) -> (r: (Result<(), ProcessError>, Vec<(usize, TransactionApplyError)>))
    ensures
        ({
            let (m, fault) = spec_process_from(accounts_view(old(clients)@), rows@, 0);
            let rejs = spec_rejections_from(accounts_view(old(clients)@), rows@, 0);
            &&& accounts_view(final(clients)@) == m
            &&& (match r.0 {
                Ok(()) => fault is None,
                Err(e) => Some(e) == fault,
            })
            &&& r.1@.len() == rejs.len()
            &&& (forall|j: int| 0 <= j < rejs.len() ==> (#[trigger] r.1@[j]).0 == rejs[j].0)
            &&& (forall|j: int|
                0 <= j < rejs.len() ==> error_matches_outcome(
                    Err((#[trigger] r.1@[j]).1),
                    rejs[j].2,
                    rejs[j].1,
                ))
        }),
{
    let ghost total_rej = spec_rejections_from(accounts_view(old(clients)@), rows@, 0);
    let mut rejections: Vec<(usize, TransactionApplyError)> = Vec::new();
    let n = rows.len();
    let mut i: usize = 0;
    proof {
        assert(rows@.skip(0) =~= rows@);
        assert(total_rej.skip(0) =~= total_rej);
    }
    while i < n
        invariant
            i <= n,
            spec_process_from(accounts_view(old(clients)@), rows@, 0) == spec_process_from(
                accounts_view(clients@),
                rows@.skip(i as int),
                i as int,
            ),
            rejections@.len() <= total_rej.len(),
            total_rej.skip(rejections@.len() as int) == spec_rejections_from(
                accounts_view(clients@),
                rows@.skip(i as int),
                i as int,
            ),
            forall|j: int|
                0 <= j < rejections@.len() ==> (#[trigger] rejections@[j]).0 == total_rej[j].0,
            forall|j: int|
                0 <= j < rejections@.len() ==> error_matches_outcome(
                    Err((#[trigger] rejections@[j]).1),
                    total_rej[j].2,
                    total_rej[j].1,
                ),
        decreases n - i,
    {
        let ghost pre_map = accounts_view(clients@);
        let ghost tail = rows@.skip(i as int);
        proof {
            assert(tail[0] == rows@[i as int]);
            assert(tail.drop_first() =~= rows@.skip(i as int + 1));
        }
        let row = rows[i].clone();
        let id = row.client;
        let line: usize = if i <= usize::MAX - 2 {
            i + 2
        } else {
            usize::MAX
        };
        proof {
            assert(line == spec_line(i as int));
        }
        match Transaction::try_from(row) {
            Err(error) => {
                proof {
                    assert(total_rej.skip(rejections@.len() as int).len() == 0);
                }
                return (Err(ProcessError::Conversion { line, error }), rejections);
            },
            Ok(t) => {
                let mut acc = match clients.remove(&id) {
                    Some(a) => a,
                    None => ClientAccount::new(id),
                };
                let ghost acc_pre = acc@;
                proof {
                    if pre_map.contains_key(id) {
                        assert(acc_pre == pre_map[id]);
                    } else {
                        assert(acc_pre =~= fresh_account(id));
                    }
                }
                let res = acc.try_apply(t);
                clients.insert(id, acc);
                proof {
                    assert(accounts_view(clients@) =~= pre_map.insert(id, spec_apply(acc_pre, t)));
                    assert(spec_process_from(pre_map, tail, i as int) == (
                        if spec_outcome(acc_pre, t) == ApplyOutcome::Overflow {
                            (
                                pre_map.insert(id, acc_pre),
                                Some(ProcessError::Overflow { line, transaction: t }),
                            )
                        } else {
                            spec_process_from(
                                accounts_view(clients@),
                                rows@.skip(i as int + 1),
                                i as int + 1,
                            )
                        }
                    ));
                }
                match res {
                    Ok(()) => {
                        proof {
                            assert(spec_outcome(acc_pre, t) == ApplyOutcome::Accepted);
                        }
                    },
                    Err(e) => {
                        match e {
                            TransactionApplyError::ArithmeticOverflow(_) => {
                                proof {
                                    assert(spec_outcome(acc_pre, t) == ApplyOutcome::Overflow);
                                    assert(total_rej.skip(rejections@.len() as int).len() == 0);
                                }
                                return (
                                    Err(ProcessError::Overflow { line, transaction: t }),
                                    rejections,
                                );
                            },
                            other => {
                                let ghost oldlen = rejections@.len() as int;
                                proof {
                                    assert(spec_outcome(acc_pre, t) != ApplyOutcome::Accepted);
                                    assert(spec_outcome(acc_pre, t) != ApplyOutcome::Overflow);
                                    let here = seq![(line, t, acc_pre)];
                                    let rest = spec_rejections_from(
                                        accounts_view(clients@),
                                        rows@.skip(i as int + 1),
                                        i as int + 1,
                                    );
                                    assert(total_rej.skip(oldlen) == here + rest);
                                    assert(total_rej.skip(oldlen)[0] == total_rej[oldlen]);
                                    assert((here + rest)[0] == (line, t, acc_pre));
                                    assert forall|k: int|
                                        0 <= k < total_rej.skip(oldlen + 1).len() implies #[trigger] total_rej.skip(
                                        oldlen + 1,
                                    )[k] == rest[k] by {
                                        assert(total_rej.skip(oldlen + 1)[k] == total_rej[oldlen
                                            + 1 + k]);
                                        assert(total_rej.skip(oldlen)[k + 1] == total_rej[oldlen
                                            + 1 + k]);
                                        assert((here + rest)[k + 1] == rest[k]);
                                    };
                                    assert(total_rej.skip(oldlen + 1) =~= rest);
                                }
                                rejections.push((line, other));
                            },
                        }
                    },
                }
            },
        }
        i += 1;
    }
    proof {
        assert(rows@.skip(n as int) =~= Seq::<TransactionRow>::empty());
        assert(total_rej.skip(rejections@.len() as int).len() == 0);
    }
    (Ok(()), rejections)
}

} // verus!
