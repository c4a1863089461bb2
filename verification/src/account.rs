//! Per-client ledger: balances, the recorded deposits with their dispute
//! lifecycle, and the single mutating operation `try_apply`.

use crate::fixed_point::DecimalFixedPoint;
use crate::transaction::{
    spec_action_description,
    AmountTransaction,
    Transaction,
    TransactionData,
};
use std::collections::HashMap;
use vstd::prelude::*;

verus! {

/// Dispute lifecycle state of one recorded deposit.
#[derive(Debug, Clone, Copy, PartialEq, Eq, Structural)]
pub enum TransactionState {
    Valid,
    Disputed,
    ChargedBack,
}

/// Mathematical model of a ledger: balances as unbounded integers and
/// the recorded deposits as a map from transaction id to amount and
/// lifecycle state.
#[verifier::ext_equal]
pub struct AccountModel {
    pub id: u16,
    pub available: int,
    pub held: int,
    pub locked: bool,
    pub deposits: Map<u32, (int, TransactionState)>,
}

/// Whether a value fits the backing integer of the money type.
pub open spec fn in_i128(v: int) -> bool {
    i128::MIN <= v <= i128::MAX
}

/// The deposit transaction id a reference action points at; for a
/// deposit or withdrawal, the id the event itself carries.
pub open spec fn ref_tx(t: Transaction) -> u32 {
    match t {
        Transaction::Deposit(a) => a.tx_data.tx,
        Transaction::Withdrawal(a) => a.tx_data.tx,
        Transaction::Dispute(d) => d.tx,
        Transaction::Resolve(d) => d.tx,
        Transaction::ChargeBack(d) => d.tx,
    }
}

/// The lifecycle state a reference action requires of its deposit.
pub open spec fn spec_expected_state(t: Transaction) -> TransactionState {
    match t {
        Transaction::Dispute(_) => TransactionState::Valid,
        _ => TransactionState::Disputed,
    }
}

/// Which way one `try_apply` call resolves.
pub enum ApplyOutcome {
    /// The ledger was updated.
    Accepted,
    /// The account is locked; nothing is touched.
    Locked,
    /// A withdrawal was larger than the available balance.
    NegativeBalance,
    /// A reference action names an unrecorded deposit.
    Missing,
    /// A reference action found its deposit in the wrong lifecycle state.
    InvalidState,
    /// The update would leave a balance outside the money type's range.
    Overflow,
}

/// How one transaction resolves against a ledger state.
pub open spec fn spec_outcome(pre: AccountModel, t: Transaction) -> ApplyOutcome {
    if pre.locked {
        ApplyOutcome::Locked
    } else {
        match t {
            Transaction::Deposit(dep) => if in_i128(pre.available + dep.amount@) {
                ApplyOutcome::Accepted
            } else {
                ApplyOutcome::Overflow
            },
            Transaction::Withdrawal(w) => if w.amount@ <= pre.available {
                if in_i128(pre.available - w.amount@) {
                    ApplyOutcome::Accepted
                } else {
                    ApplyOutcome::Overflow
                }
            } else {
                ApplyOutcome::NegativeBalance
            },
            Transaction::Dispute(data) => if !pre.deposits.contains_key(data.tx) {
                ApplyOutcome::Missing
            } else if pre.deposits[data.tx].1 != TransactionState::Valid {
                ApplyOutcome::InvalidState
            } else {
                let amt = pre.deposits[data.tx].0;
                if in_i128(pre.available - amt) && in_i128(pre.held + amt) {
                    ApplyOutcome::Accepted
                } else {
                    ApplyOutcome::Overflow
                }
            },
            Transaction::Resolve(data) => if !pre.deposits.contains_key(data.tx) {
                ApplyOutcome::Missing
            } else if pre.deposits[data.tx].1 != TransactionState::Disputed {
                ApplyOutcome::InvalidState
            } else {
                let amt = pre.deposits[data.tx].0;
                if in_i128(pre.available + amt) && in_i128(pre.held - amt) {
                    ApplyOutcome::Accepted
                } else {
                    ApplyOutcome::Overflow
                }
            },
            Transaction::ChargeBack(data) => if !pre.deposits.contains_key(data.tx) {
                ApplyOutcome::Missing
            } else if pre.deposits[data.tx].1 != TransactionState::Disputed {
                ApplyOutcome::InvalidState
            } else {
                let amt = pre.deposits[data.tx].0;
                if in_i128(pre.held - amt) {
                    ApplyOutcome::Accepted
                } else {
                    ApplyOutcome::Overflow
                }
            },
        }
    }
}

/// Ledger state after one transaction: unchanged unless the outcome is
/// `Accepted`, in which case balances move and the deposit record is
/// inserted or its state stepped through the lifecycle.
pub open spec fn spec_apply(pre: AccountModel, t: Transaction) -> AccountModel {
    if spec_outcome(pre, t) != ApplyOutcome::Accepted {
        pre
    } else {
        match t {
            Transaction::Deposit(dep) => AccountModel {
                available: pre.available + dep.amount@,
                deposits: pre.deposits.insert(
                    dep.tx_data.tx,
                    (dep.amount@, TransactionState::Valid),
                ),
                ..pre
            },
            Transaction::Withdrawal(w) => AccountModel {
                available: pre.available - w.amount@,
                ..pre
            },
            Transaction::Dispute(data) => {
                let amt = pre.deposits[data.tx].0;
                AccountModel {
                    available: pre.available - amt,
                    held: pre.held + amt,
                    deposits: pre.deposits.insert(data.tx, (amt, TransactionState::Disputed)),
                    ..pre
                }
            },
            Transaction::Resolve(data) => {
                let amt = pre.deposits[data.tx].0;
                AccountModel {
                    available: pre.available + amt,
                    held: pre.held - amt,
                    deposits: pre.deposits.insert(data.tx, (amt, TransactionState::Valid)),
                    ..pre
                }
            },
            Transaction::ChargeBack(data) => {
                let amt = pre.deposits[data.tx].0;
                AccountModel {
                    held: pre.held - amt,
                    locked: true,
                    deposits: pre.deposits.insert(data.tx, (amt, TransactionState::ChargedBack)),
                    ..pre
                }
            },
        }
    }
}

/// How a `try_apply` result is tied to its outcome: success exactly for
/// `Accepted`, and for each rejection the matching error with its exact
/// fields (the action name, the client, the transaction id, the
/// reported balance, and the observed and expected lifecycle states).
pub open spec fn error_matches_outcome(
    r: Result<(), TransactionApplyError>,
    pre: AccountModel,
    t: Transaction,
) -> bool {
    match spec_outcome(pre, t) {
        ApplyOutcome::Accepted => r == Ok::<(), TransactionApplyError>(()),
        ApplyOutcome::Locked => r == Err::<(), TransactionApplyError>(
            TransactionApplyError::ClientLocked(t),
        ),
        ApplyOutcome::NegativeBalance => r == Err::<(), TransactionApplyError>(
            TransactionApplyError::NegativeBalance(t, DecimalFixedPoint(pre.available as i128)),
        ),
        ApplyOutcome::Overflow => r == Err::<(), TransactionApplyError>(
            TransactionApplyError::ArithmeticOverflow(t),
        ),
        ApplyOutcome::Missing => (r matches Err(
            TransactionApplyError::MissingTransaction { attemped_action, client, tx },
        ) && attemped_action@ == spec_action_description(t) && client == pre.id && tx == ref_tx(
            t,
        )),
        ApplyOutcome::InvalidState => (r matches Err(
            TransactionApplyError::InvalidTransactionState {
                attemped_action,
                client,
                tx,
                current_state,
                expected_state,
            },
        ) && attemped_action@ == spec_action_description(t) && client == pre.id && tx == ref_tx(t)
            && current_state == pre.deposits[ref_tx(t)].1 && expected_state
            == spec_expected_state(t)),
    }
}

/// Why a transaction was not applied.
#[derive(Debug)]
pub enum TransactionApplyError {
    /// The withdrawal exceeds the available balance, which is reported.
    NegativeBalance(Transaction, DecimalFixedPoint),
    /// The account is locked by an earlier chargeback.
    ClientLocked(Transaction),
    /// A reference action names a deposit this ledger never recorded.
    MissingTransaction { attemped_action: String, client: u16, tx: u32 },
    /// A reference action found its deposit outside the state it requires.
    InvalidTransactionState {
        attemped_action: String,
        client: u16,
        tx: u32,
        current_state: TransactionState,
        expected_state: TransactionState,
    },
    /// Applying the transaction would overflow a balance.
    ArithmeticOverflow(Transaction),
}

/// One client's ledger.
#[derive(Debug)]
pub struct ClientAccount {
    pub id: u16,
    pub available: DecimalFixedPoint,
    pub held: DecimalFixedPoint,
    pub locked: bool,
    pub deposit_transactions: HashMap<u32, (AmountTransaction, TransactionState)>,
}

impl View for ClientAccount {
    type V = AccountModel;

    open spec fn view(&self) -> AccountModel {
        AccountModel {
            id: self.id,
            available: self.available@,
            held: self.held@,
            locked: self.locked,
            deposits: self.deposit_transactions@.map_values(
                |p: (AmountTransaction, TransactionState)| (p.0.amount@, p.1),
            ),
        }
    }
}

impl ClientAccount {
    /// A fresh, unlocked ledger with zero balances and no recorded
    /// deposits.
    pub fn new(id: u16) -> (r: Self)
        ensures
            r@.id == id,
            r@.available == 0,
            r@.held == 0,
            !r@.locked,
            r@.deposits == Map::<u32, (int, TransactionState)>::empty(),
    {
        let r = ClientAccount {
            id,
            available: DecimalFixedPoint::zero(),
            held: DecimalFixedPoint::zero(),
            locked: false,
            deposit_transactions: HashMap::new(),
        };
        proof {
            assert(r@.deposits =~= Map::<u32, (int, TransactionState)>::empty());
        }
        r
    }

    /// The recorded deposit for `tx`, if any.
    fn find_deposit(&self, tx: u32) -> (r: Option<(AmountTransaction, TransactionState)>)
        ensures
            (match r {
                Some(p) => self@.deposits.contains_key(tx) && self@.deposits[tx] == (
                    p.0.amount@,
                    p.1,
                ),
                None => !self@.deposits.contains_key(tx),
            }),
    {
        match self.deposit_transactions.get(&tx) {
            Some(p) => Some(*p),
            None => None,
        }
    }

    /// Applies one transaction to this ledger, or reports exactly why it
    /// is rejected; a rejected transaction leaves the ledger unchanged.
    pub fn try_apply(&mut self, transaction: Transaction) -> (r: Result<
        (),
        TransactionApplyError,
    >)
        ensures
            final(self)@ == spec_apply(old(self)@, transaction),
            error_matches_outcome(r, old(self)@, transaction),
    {
        if self.locked {
            return Err(TransactionApplyError::ClientLocked(transaction));
        }
        match transaction {
            Transaction::Deposit(dep) => {
                match self.available.checked_add(dep.amount) {
                    Some(av) => {
                        self.available = av;
                        self.deposit_transactions.insert(
                            dep.tx_data.tx,
                            (dep, TransactionState::Valid),
                        );
                        proof {
                            assert(self@.deposits =~= spec_apply(
                                old(self)@,
                                transaction,
                            ).deposits);
                            assert(self@ =~= spec_apply(old(self)@, transaction));
                        }
                        Ok(())
                    },
                    None => Err(TransactionApplyError::ArithmeticOverflow(transaction)),
                }
            },
            Transaction::Withdrawal(w) => {
                if w.amount.le(&self.available) {
                    match self.available.checked_sub(w.amount) {
                        Some(av) => {
                            self.available = av;
                            proof {
                                assert(self@ =~= spec_apply(old(self)@, transaction));
                            }
                            Ok(())
                        },
                        None => Err(TransactionApplyError::ArithmeticOverflow(transaction)),
                    }
                } else {
                    Err(TransactionApplyError::NegativeBalance(transaction, self.available))
                }
            },
            Transaction::Dispute(data) => {
                match self.find_deposit(data.tx) {
                    None => Err(
                        TransactionApplyError::MissingTransaction {
                            attemped_action: transaction.action_description().to_owned(),
                            client: self.id,
                            tx: data.tx,
                        },
                    ),
                    Some((dep, st)) => {
                        if st == TransactionState::Valid {
                            match (
                                self.available.checked_sub(dep.amount),
                                self.held.checked_add(dep.amount),
                            ) {
                                (Some(av), Some(h)) => {
                                    self.available = av;
                                    self.held = h;
                                    self.deposit_transactions.insert(
                                        data.tx,
                                        (dep, TransactionState::Disputed),
                                    );
                                    proof {
                                        assert(self@.deposits =~= spec_apply(
                                            old(self)@,
                                            transaction,
                                        ).deposits);
                                        assert(self@ =~= spec_apply(old(self)@, transaction));
                                    }
                                    Ok(())
                                },
                                _ => Err(TransactionApplyError::ArithmeticOverflow(transaction)),
                            }
                        } else {
                            Err(
                                TransactionApplyError::InvalidTransactionState {
                                    attemped_action: transaction.action_description().to_owned(),
                                    client: self.id,
                                    tx: data.tx,
                                    current_state: st,
                                    expected_state: TransactionState::Valid,
                                },
                            )
                        }
                    },
                }
            },
            Transaction::Resolve(data) => {
                match self.find_deposit(data.tx) {
                    None => Err(
                        TransactionApplyError::MissingTransaction {
                            attemped_action: transaction.action_description().to_owned(),
                            client: self.id,
                            tx: data.tx,
                        },
                    ),
                    Some((dep, st)) => {
                        if st == TransactionState::Disputed {
                            match (
                                self.available.checked_add(dep.amount),
                                self.held.checked_sub(dep.amount),
                            ) {
                                (Some(av), Some(h)) => {
                                    self.available = av;
                                    self.held = h;
                                    self.deposit_transactions.insert(
                                        data.tx,
                                        (dep, TransactionState::Valid),
                                    );
                                    proof {
                                        assert(self@.deposits =~= spec_apply(
                                            old(self)@,
                                            transaction,
                                        ).deposits);
                                        assert(self@ =~= spec_apply(old(self)@, transaction));
                                    }
                                    Ok(())
                                },
                                _ => Err(TransactionApplyError::ArithmeticOverflow(transaction)),
                            }
                        } else {
                            Err(
                                TransactionApplyError::InvalidTransactionState {
                                    attemped_action: transaction.action_description().to_owned(),
                                    client: self.id,
                                    tx: data.tx,
                                    current_state: st,
                                    expected_state: TransactionState::Disputed,
                                },
                            )
                        }
                    },
                }
            },
            Transaction::ChargeBack(data) => {
                match self.find_deposit(data.tx) {
                    None => Err(
                        TransactionApplyError::MissingTransaction {
                            attemped_action: transaction.action_description().to_owned(),
                            client: self.id,
                            tx: data.tx,
                        },
                    ),
                    Some((dep, st)) => {
                        if st == TransactionState::Disputed {
                            match self.held.checked_sub(dep.amount) {
                                Some(h) => {
                                    self.held = h;
                                    self.locked = true;
                                    self.deposit_transactions.insert(
                                        data.tx,
                                        (dep, TransactionState::ChargedBack),
                                    );
                                    proof {
                                        assert(self@.deposits =~= spec_apply(
                                            old(self)@,
                                            transaction,
                                        ).deposits);
                                        assert(self@ =~= spec_apply(old(self)@, transaction));
                                    }
                                    Ok(())
                                },
                                None => Err(
                                    TransactionApplyError::ArithmeticOverflow(transaction),
                                ),
                            }
                        } else {
                            Err(
                                TransactionApplyError::InvalidTransactionState {
                                    attemped_action: transaction.action_description().to_owned(),
                                    client: self.id,
                                    tx: data.tx,
                                    current_state: st,
                                    expected_state: TransactionState::Disputed,
                                },
                            )
                        }
                    },
                }
            },
        }
    }
}

/// Conservation: a dispute that is accepted, immediately followed by a
/// resolve of the same transaction, restores `available` and `held` to
/// what they were before the pair.
pub proof fn lemma_dispute_resolve_conservation(pre: AccountModel, data: TransactionData)
    requires
        in_i128(pre.available),
        in_i128(pre.held),
        spec_outcome(pre, Transaction::Dispute(data)) == ApplyOutcome::Accepted,
    ensures
        ({
            let mid = spec_apply(pre, Transaction::Dispute(data));
            let post = spec_apply(mid, Transaction::Resolve(data));
            &&& spec_outcome(mid, Transaction::Resolve(data)) == ApplyOutcome::Accepted
            &&& post.available == pre.available
            &&& post.held == pre.held
            &&& post.locked == pre.locked
        }),
{
}

/// Monotonic lock: a locked account rejects every transaction with
/// `ClientLocked` and is left exactly as it was, and no transaction
/// ever clears the lock.
pub proof fn lemma_locked_is_permanent(pre: AccountModel, t: Transaction)
    ensures
        pre.locked ==> spec_outcome(pre, t) == ApplyOutcome::Locked && spec_apply(pre, t) == pre,
        pre.locked ==> spec_apply(pre, t).locked,
{
}

/// Balance floor: on an unlocked account a withdrawal of a non-negative
/// amount succeeds exactly when the amount is at most the available
/// balance; a rejected withdrawal changes nothing.
pub proof fn lemma_withdrawal_floor(pre: AccountModel, w: AmountTransaction)
    requires
        !pre.locked,
        0 <= w.amount@,
        in_i128(pre.available),
    ensures
        spec_outcome(pre, Transaction::Withdrawal(w)) == ApplyOutcome::Accepted <==> w.amount@
            <= pre.available,
        w.amount@ <= pre.available ==> spec_apply(pre, Transaction::Withdrawal(w))
            == (AccountModel { available: pre.available - w.amount@, ..pre }),
        w.amount@ <= pre.available ==> spec_apply(pre, Transaction::Withdrawal(w)).available >= 0,
        w.amount@ > pre.available ==> spec_outcome(pre, Transaction::Withdrawal(w))
            == ApplyOutcome::NegativeBalance && spec_apply(pre, Transaction::Withdrawal(w)) == pre,
{
}

/// Funds are moved, never created or destroyed: an accepted dispute or
/// resolve keeps `available + held` unchanged, a deposit raises it by
/// the amount, a withdrawal lowers it by the amount, and a chargeback
/// removes exactly the disputed amount from the total.
pub proof fn lemma_total_conservation(pre: AccountModel, t: Transaction)
    requires
        spec_outcome(pre, t) == ApplyOutcome::Accepted,
    ensures
        ({
            let post = spec_apply(pre, t);
            match t {
                Transaction::Deposit(dep) => post.available + post.held == pre.available + pre.held
                    + dep.amount@,
                Transaction::Withdrawal(w) => post.available + post.held == pre.available
                    + pre.held - w.amount@,
                Transaction::Dispute(_) => post.available + post.held == pre.available + pre.held,
                Transaction::Resolve(_) => post.available + post.held == pre.available + pre.held,
                Transaction::ChargeBack(data) => post.available + post.held == pre.available
                    + pre.held - pre.deposits[data.tx].0,
            }
        }),
{
}

/// `ChargedBack` is terminal: every reference action on a charged-back
/// deposit is rejected as an invalid state and mutates nothing.
pub proof fn lemma_chargedback_is_terminal(pre: AccountModel, t: Transaction)
    requires
        !pre.locked,
        t matches Transaction::Dispute(_) || t matches Transaction::Resolve(_) || t
            matches Transaction::ChargeBack(_),
        pre.deposits.contains_key(ref_tx(t)),
        pre.deposits[ref_tx(t)].1 == TransactionState::ChargedBack,
    ensures
        spec_outcome(pre, t) == ApplyOutcome::InvalidState,
        spec_apply(pre, t) == pre,
{
}

/// Idempotent rejection: disputing a deposit that is already disputed or
/// charged back is rejected as an invalid state and mutates nothing.
pub proof fn lemma_dispute_rejected_unless_valid(pre: AccountModel, data: TransactionData)
    requires
        !pre.locked,
        pre.deposits.contains_key(data.tx),
        pre.deposits[data.tx].1 != TransactionState::Valid,
    ensures
        spec_outcome(pre, Transaction::Dispute(data)) == ApplyOutcome::InvalidState,
        spec_apply(pre, Transaction::Dispute(data)) == pre,
{
}

/// Contribution of one recorded deposit to the held balance: its amount
/// while it is disputed, nothing otherwise.
pub open spec fn held_contribution(p: (int, TransactionState)) -> int {
    if p.1 == TransactionState::Disputed {
        p.0
    } else {
        0
    }
}

/// The fold step that accumulates held contributions of `deposits`.
pub open spec fn held_sum_fn(deposits: Map<u32, (int, TransactionState)>) -> spec_fn(int, u32) -> int {
    |acc: int, k: u32| acc + held_contribution(deposits[k])
}

/// Sum of the held contributions of the deposits recorded under `keys`.
pub open spec fn key_sum(keys: Set<u32>, deposits: Map<u32, (int, TransactionState)>) -> int {
    keys.fold(0, held_sum_fn(deposits))
}

/// A coherent ledger model: finitely many recorded deposits, every
/// recorded amount non-negative, and `held` exactly the sum of the
/// currently disputed amounts.
pub open spec fn wf_account(m: AccountModel) -> bool {
    &&& m.deposits.dom().finite()
    &&& (forall|k: u32| #[trigger] m.deposits.contains_key(k) ==> m.deposits[k].0 >= 0)
    &&& m.held == key_sum(m.deposits.dom(), m.deposits)
}

proof fn lemma_held_sum_fn_commutative(deposits: Map<u32, (int, TransactionState)>)
    ensures
        vstd::set::fold::is_fun_commutative(held_sum_fn(deposits)),
{
}

/// Two deposit records that agree on `keys` sum alike over `keys`.
proof fn lemma_key_sum_congruence(
    keys: Set<u32>,
    m1: Map<u32, (int, TransactionState)>,
    m2: Map<u32, (int, TransactionState)>,
)
    requires
        keys.finite(),
        forall|k: u32| keys.contains(k) ==> m1[k] == m2[k],
    ensures
        key_sum(keys, m1) == key_sum(keys, m2),
{
    lemma_held_sum_fn_commutative(m1);
    lemma_held_sum_fn_commutative(m2);
    let pred = |s: Set<u32>| s.subset_of(keys) ==> key_sum(s, m1) == key_sum(s, m2);
    assert(pred(Set::<u32>::empty())) by {
        vstd::set::fold::lemma_fold_empty(0int, held_sum_fn(m1));
        vstd::set::fold::lemma_fold_empty(0int, held_sum_fn(m2));
    };
    assert forall|s: Set<u32>, a: u32|
        pred(s) && s.finite() && !s.contains(a) implies #[trigger] pred(s.insert(a)) by {
        if s.insert(a).subset_of(keys) {
            vstd::set::fold::lemma_fold_insert(s, 0int, held_sum_fn(m1), a);
            vstd::set::fold::lemma_fold_insert(s, 0int, held_sum_fn(m2), a);
            assert(s.subset_of(keys));
            assert(m1[a] == m2[a]);
        }
    };
    vstd::set::fold::lemma_finite_set_induct(keys, pred);
    assert(keys.subset_of(keys));
}

/// Adding a fresh key adds exactly its contribution.
proof fn lemma_key_sum_insert(
    keys: Set<u32>,
    deposits: Map<u32, (int, TransactionState)>,
    k: u32,
)
    requires
        keys.finite(),
        !keys.contains(k),
    ensures
        key_sum(keys.insert(k), deposits) == key_sum(keys, deposits) + held_contribution(
            deposits[k],
        ),
{
    lemma_held_sum_fn_commutative(deposits);
    vstd::set::fold::lemma_fold_insert(keys, 0int, held_sum_fn(deposits), k);
}

/// Non-negative contributions sum to a non-negative total.
proof fn lemma_key_sum_nonneg(keys: Set<u32>, deposits: Map<u32, (int, TransactionState)>)
    requires
        keys.finite(),
        forall|k: u32| keys.contains(k) ==> held_contribution(#[trigger] deposits[k]) >= 0,
    ensures
        key_sum(keys, deposits) >= 0,
{
    lemma_held_sum_fn_commutative(deposits);
    let pred = |s: Set<u32>| s.subset_of(keys) ==> key_sum(s, deposits) >= 0;
    assert(pred(Set::<u32>::empty())) by {
        vstd::set::fold::lemma_fold_empty(0int, held_sum_fn(deposits));
    };
    assert forall|s: Set<u32>, a: u32|
        pred(s) && s.finite() && !s.contains(a) implies #[trigger] pred(s.insert(a)) by {
        if s.insert(a).subset_of(keys) {
            vstd::set::fold::lemma_fold_insert(s, 0int, held_sum_fn(deposits), a);
            assert(s.subset_of(keys));
            assert(keys.contains(a));
        }
    };
    vstd::set::fold::lemma_finite_set_induct(keys, pred);
    assert(keys.subset_of(keys));
}

/// A ledger with zero held balance and no recorded deposits is coherent.
pub proof fn lemma_wf_fresh(m: AccountModel)
    requires
        m.held == 0,
        m.deposits == Map::<u32, (int, TransactionState)>::empty(),
    ensures
        wf_account(m),
{
    assert(m.deposits.dom() =~= Set::<u32>::empty());
    vstd::set::fold::lemma_fold_empty(0int, held_sum_fn(m.deposits));
    lemma_held_sum_fn_commutative(m.deposits);
}

/// The ledger invariant is preserved by every transaction, provided a
/// deposit carries a non-negative amount under an id not yet recorded
/// (deposit ids are globally unique in this domain).
pub proof fn lemma_wf_preserved(m: AccountModel, t: Transaction)
    requires
        wf_account(m),
        t matches Transaction::Deposit(dep) ==> dep.amount@ >= 0 && !m.deposits.contains_key(
            dep.tx_data.tx,
        ),
    ensures
        wf_account(spec_apply(m, t)),
{
    if spec_outcome(m, t) == ApplyOutcome::Accepted {
        let m2 = spec_apply(m, t);
        let dom = m.deposits.dom();
        match t {
            Transaction::Deposit(dep) => {
                let tx = dep.tx_data.tx;
                assert(m2.deposits.dom() =~= dom.insert(tx));
                lemma_key_sum_insert(dom, m2.deposits, tx);
                lemma_key_sum_congruence(dom, m.deposits, m2.deposits);
                assert(held_contribution(m2.deposits[tx]) == 0);
            },
            Transaction::Withdrawal(_) => {},
            Transaction::Dispute(data) => {
                let tx = data.tx;
                let rem = dom.remove(tx);
                assert(m2.deposits.dom() =~= dom);
                assert(rem.insert(tx) =~= dom);
                lemma_key_sum_insert(rem, m.deposits, tx);
                lemma_key_sum_insert(rem, m2.deposits, tx);
                lemma_key_sum_congruence(rem, m.deposits, m2.deposits);
                assert(held_contribution(m.deposits[tx]) == 0);
                assert(held_contribution(m2.deposits[tx]) == m.deposits[tx].0);
            },
            Transaction::Resolve(data) => {
                let tx = data.tx;
                let rem = dom.remove(tx);
                assert(m2.deposits.dom() =~= dom);
                assert(rem.insert(tx) =~= dom);
                lemma_key_sum_insert(rem, m.deposits, tx);
                lemma_key_sum_insert(rem, m2.deposits, tx);
                lemma_key_sum_congruence(rem, m.deposits, m2.deposits);
                assert(held_contribution(m.deposits[tx]) == m.deposits[tx].0);
                assert(held_contribution(m2.deposits[tx]) == 0);
            },
            Transaction::ChargeBack(data) => {
                let tx = data.tx;
                let rem = dom.remove(tx);
                assert(m2.deposits.dom() =~= dom);
                assert(rem.insert(tx) =~= dom);
                lemma_key_sum_insert(rem, m.deposits, tx);
                lemma_key_sum_insert(rem, m2.deposits, tx);
                lemma_key_sum_congruence(rem, m.deposits, m2.deposits);
                assert(held_contribution(m.deposits[tx]) == m.deposits[tx].0);
                assert(held_contribution(m2.deposits[tx]) == 0);
            },
        }
    }
}

/// A coherent ledger never holds a negative amount.
pub proof fn lemma_wf_held_nonneg(m: AccountModel)
    requires
        wf_account(m),
    ensures
        m.held >= 0,
{
    assert forall|k: u32| m.deposits.dom().contains(k) implies held_contribution(
        #[trigger] m.deposits[k],
    ) >= 0 by {
        assert(m.deposits.contains_key(k));
    };
    lemma_key_sum_nonneg(m.deposits.dom(), m.deposits);
}

} // verus!
