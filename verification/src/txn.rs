//! The retry controller for the bulk task update's transaction.
//!
//! Applying a bulk update means running the batch of per-document updates
//! inside one store transaction and committing it.  The store may report
//! a transient conflict (the whole transaction can be retried), an
//! ambiguous commit (it is unknown whether the commit satisfied its write
//! concern; the commit alone can be retried), or a plain failure.  This
//! controller is the pure decision core: the caller performs the store
//! work, reports each outcome as a signal, and follows the phase the
//! controller moves to.  Retries of either kind are bounded, and a
//! controller that runs out of retries fails rather than reporting
//! success.  A single failing per-document update inside the batch aborts
//! the batch (all-or-nothing intent): the caller reports it as a batch
//! signal rather than continuing.

use vstd::prelude::*;

verus! {

/// How often the whole transaction (batch plus commit) is attempted at
/// most.
pub const MAX_TXN_ATTEMPTS: u8 = 4;

/// How many commit attempts one transaction makes at most when the store
/// keeps reporting an ambiguous commit result.
pub const MAX_COMMIT_ATTEMPTS: u8 = 4;

/// What the store reported for the controller's last requested step.
#[derive(Clone, Copy, Debug, PartialEq, Eq, Structural)]
pub enum StoreSignal {
    /// Every per-document update of the batch applied.
    BatchOk,
    /// The batch hit a transient conflict; the transaction can be retried.
    BatchTransient,
    /// A per-document update failed outright; the batch is aborted.
    BatchFailed,
    /// The commit was acknowledged.
    CommitOk,
    /// The store does not know whether the commit satisfied its write
    /// concern; the commit may be retried.
    CommitUnknown,
    /// The commit hit a transient conflict; the transaction can be
    /// retried.
    CommitTransient,
    /// The commit failed outright.
    CommitFailed,
}

/// The controller's phase: the step the caller performs next.
#[derive(Clone, Copy, Debug, PartialEq, Eq, Structural)]
pub enum TxnPhase {
    /// Run the batch of per-document updates inside the transaction.
    RunBatch,
    /// Commit the transaction.
    Commit,
    /// The update is committed.
    Done,
    /// The update failed; the caller must not assume success.
    Failed,
}

/// The retry controller's state.
#[derive(Clone, Copy, Debug, PartialEq, Eq, Structural)]
pub struct TxnController {
    /// The step the caller performs next.
    pub phase: TxnPhase,
    /// How many transactions have been started, this one included.
    pub txn_attempts: u8,
    /// How many commit attempts the current transaction has made.
    pub commit_attempts: u8,
}

/// The controller's bounds hold.
pub open spec fn txn_wf(c: TxnController) -> bool {
    &&& 1 <= c.txn_attempts <= MAX_TXN_ATTEMPTS
    &&& c.commit_attempts <= MAX_COMMIT_ATTEMPTS
}

/// Whether the controller has reached an outcome.
pub open spec fn txn_terminal(c: TxnController) -> bool {
    c.phase == TxnPhase::Done || c.phase == TxnPhase::Failed
}

/// The state after one signal: the controller's whole decision table.
/// A signal that does not belong to the current phase fails the update
/// defensively.
pub open spec fn txn_step_spec(c: TxnController, s: StoreSignal) -> TxnController {
    if txn_terminal(c) {
        c
    } else if c.phase == TxnPhase::RunBatch {
        match s {
            StoreSignal::BatchOk => TxnController { phase: TxnPhase::Commit, ..c },
            StoreSignal::BatchTransient => {
                if c.txn_attempts < MAX_TXN_ATTEMPTS {
                    TxnController {
                        phase: TxnPhase::RunBatch,
                        txn_attempts: (c.txn_attempts + 1) as u8,
                        commit_attempts: 0,
                    }
                } else {
                    TxnController { phase: TxnPhase::Failed, ..c }
                }
            },
            _ => TxnController { phase: TxnPhase::Failed, ..c },
        }
    } else {
        match s {
            StoreSignal::CommitOk => TxnController { phase: TxnPhase::Done, ..c },
            StoreSignal::CommitUnknown => {
                if c.commit_attempts < MAX_COMMIT_ATTEMPTS - 1 {
                    TxnController {
                        phase: TxnPhase::Commit,
                        txn_attempts: c.txn_attempts,
                        commit_attempts: (c.commit_attempts + 1) as u8,
                    }
                } else {
                    TxnController { phase: TxnPhase::Failed, ..c }
                }
            },
            StoreSignal::CommitTransient => {
                if c.txn_attempts < MAX_TXN_ATTEMPTS {
                    TxnController {
                        phase: TxnPhase::RunBatch,
                        txn_attempts: (c.txn_attempts + 1) as u8,
                        commit_attempts: 0,
                    }
                } else {
                    TxnController { phase: TxnPhase::Failed, ..c }
                }
            },
            _ => TxnController { phase: TxnPhase::Failed, ..c },
        }
    }
}

/// How much work the controller can still cause: an upper bound on the
/// store steps until an outcome.  Every non-terminal signal strictly
/// decreases it, so the retry loop terminates.
pub open spec fn txn_measure(c: TxnController) -> int {
    if txn_terminal(c) {
        0
    } else {
        (MAX_TXN_ATTEMPTS - c.txn_attempts) * (MAX_COMMIT_ATTEMPTS + 2) + (
        if c.phase == TxnPhase::RunBatch {
            MAX_COMMIT_ATTEMPTS + 1
        } else {
            MAX_COMMIT_ATTEMPTS - c.commit_attempts
        }) + 1
    }
}

impl TxnController {
    /// A controller about to run its first transaction.
    pub fn new() -> (c: TxnController)
        ensures
            c.phase == TxnPhase::RunBatch,
            c.txn_attempts == 1,
            c.commit_attempts == 0,
            txn_wf(c),
    {
        TxnController { phase: TxnPhase::RunBatch, txn_attempts: 1, commit_attempts: 0 }
    }

    /// Feed one store signal and move to the next state.  The decision
    /// table is `txn_step_spec`; the bounds are preserved, and every step
    /// taken before an outcome strictly shrinks the remaining work.
    pub fn step(&mut self, signal: &StoreSignal)
        ensures
            *final(self) == txn_step_spec(*old(self), *signal),
            txn_wf(*old(self)) ==> txn_wf(*final(self)),
            txn_wf(*old(self)) && !txn_terminal(*old(self)) ==> txn_measure(*final(self))
                < txn_measure(*old(self)),
    {
        let next = match self.phase {
            TxnPhase::Done => *self,
            TxnPhase::Failed => *self,
            TxnPhase::RunBatch => match signal {
                StoreSignal::BatchOk => TxnController { phase: TxnPhase::Commit, ..*self },
                StoreSignal::BatchTransient => {
                    if self.txn_attempts < MAX_TXN_ATTEMPTS {
                        TxnController {
                            phase: TxnPhase::RunBatch,
                            txn_attempts: self.txn_attempts + 1,
                            commit_attempts: 0,
                        }
                    } else {
                        TxnController { phase: TxnPhase::Failed, ..*self }
                    }
                },
                _ => TxnController { phase: TxnPhase::Failed, ..*self },
            },
            TxnPhase::Commit => match signal {
                StoreSignal::CommitOk => TxnController { phase: TxnPhase::Done, ..*self },
                StoreSignal::CommitUnknown => {
                    if self.commit_attempts < MAX_COMMIT_ATTEMPTS - 1 {
                        TxnController {
                            phase: TxnPhase::Commit,
                            txn_attempts: self.txn_attempts,
                            commit_attempts: self.commit_attempts + 1,
                        }
                    } else {
                        TxnController { phase: TxnPhase::Failed, ..*self }
                    }
                },
                StoreSignal::CommitTransient => {
                    if self.txn_attempts < MAX_TXN_ATTEMPTS {
                        TxnController {
                            phase: TxnPhase::RunBatch,
                            txn_attempts: self.txn_attempts + 1,
                            commit_attempts: 0,
                        }
                    } else {
                        TxnController { phase: TxnPhase::Failed, ..*self }
                    }
                },
                _ => TxnController { phase: TxnPhase::Failed, ..*self },
            },
        };
        *self = next;
    }
}

/// From any well-formed state, an outcome is reached within `txn_measure`
/// signals: no sequence of store signals makes the retry loop run
/// forever.
pub proof fn lemma_txn_bounded(c: TxnController, s: StoreSignal)
    requires
        txn_wf(c),
    ensures
        txn_measure(c) >= 0,
        txn_wf(txn_step_spec(c, s)),
        !txn_terminal(c) ==> txn_measure(txn_step_spec(c, s)) < txn_measure(c),
{
}

} // verus!
