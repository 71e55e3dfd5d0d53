use kanban::txn::{StoreSignal, TxnController, TxnPhase, MAX_COMMIT_ATTEMPTS, MAX_TXN_ATTEMPTS};

#[test]
fn a_clean_run_commits() {
    let mut c = TxnController::new();
    assert_eq!(c.phase, TxnPhase::RunBatch);
    c.step(&StoreSignal::BatchOk);
    assert_eq!(c.phase, TxnPhase::Commit);
    c.step(&StoreSignal::CommitOk);
    assert_eq!(c.phase, TxnPhase::Done);
}

#[test]
fn ambiguous_commits_are_retried_a_bounded_number_of_times() {
    let mut c = TxnController::new();
    c.step(&StoreSignal::BatchOk);
    let mut attempts = 0;
    while c.phase == TxnPhase::Commit {
        c.step(&StoreSignal::CommitUnknown);
        attempts += 1;
        assert!(attempts <= MAX_COMMIT_ATTEMPTS as u32);
    }
    assert_eq!(c.phase, TxnPhase::Failed);
    assert_eq!(attempts, MAX_COMMIT_ATTEMPTS as u32);
}

#[test]
fn an_ambiguous_commit_can_still_succeed_on_retry() {
    let mut c = TxnController::new();
    c.step(&StoreSignal::BatchOk);
    c.step(&StoreSignal::CommitUnknown);
    assert_eq!(c.phase, TxnPhase::Commit);
    c.step(&StoreSignal::CommitOk);
    assert_eq!(c.phase, TxnPhase::Done);
}

#[test]
fn transient_conflicts_restart_the_whole_transaction_boundedly() {
    let mut c = TxnController::new();
    let mut restarts = 0;
    loop {
        assert_eq!(c.phase, TxnPhase::RunBatch);
        c.step(&StoreSignal::BatchTransient);
        if c.phase == TxnPhase::Failed {
            break;
        }
        restarts += 1;
        assert!(restarts < MAX_TXN_ATTEMPTS as u32);
    }
    assert_eq!(restarts, (MAX_TXN_ATTEMPTS - 1) as u32);
}

#[test]
fn a_transient_commit_conflict_reruns_the_batch() {
    let mut c = TxnController::new();
    c.step(&StoreSignal::BatchOk);
    c.step(&StoreSignal::CommitTransient);
    assert_eq!(c.phase, TxnPhase::RunBatch);
    assert_eq!(c.txn_attempts, 2);
    assert_eq!(c.commit_attempts, 0);
    c.step(&StoreSignal::BatchOk);
    c.step(&StoreSignal::CommitOk);
    assert_eq!(c.phase, TxnPhase::Done);
}

#[test]
fn a_failing_batch_aborts_the_update() {
    let mut c = TxnController::new();
    c.step(&StoreSignal::BatchFailed);
    assert_eq!(c.phase, TxnPhase::Failed);
}

#[test]
fn an_outright_commit_failure_is_surfaced() {
    let mut c = TxnController::new();
    c.step(&StoreSignal::BatchOk);
    c.step(&StoreSignal::CommitFailed);
    assert_eq!(c.phase, TxnPhase::Failed);
}

#[test]
fn terminal_states_absorb_further_signals() {
    let mut c = TxnController::new();
    c.step(&StoreSignal::BatchOk);
    c.step(&StoreSignal::CommitOk);
    let done = c;
    c.step(&StoreSignal::BatchTransient);
    assert_eq!(c, done);
}
