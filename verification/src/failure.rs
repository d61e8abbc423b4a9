use vstd::prelude::*;
use crate::error::ReconcileError;
use crate::feed::{AccountFeedView, TransactionRecordView, fetched_transactions};
use crate::index::{HistoryView, history_of};
use crate::model::DirectiveView;
use crate::normalize::normalized;
use crate::reconcile::{
    ImportState, ImportTargetView, file_additions, import_account, import_accounts, import_targets,
    ledger_additions, new_transactions, reconciled,
};

verus! {

/// Whether one of the booked records that were fetched for the account lacks its booking date.
pub open spec fn lacks_booking_date(target: ImportTargetView, feed: Seq<AccountFeedView>) -> bool {
    fetched_transactions(feed, target.account_id).is_some() && exists|r: int|
        0 <= r < fetched_transactions(feed, target.account_id).unwrap().booked.len() && (
        #[trigger] fetched_transactions(feed, target.account_id).unwrap().booked[r]).booking_date.is_none()
}

/// A record without a booking date cannot be turned into a directive: it lacks a field.
pub proof fn lemma_no_booking_date_no_directive(record: TransactionRecordView, account: Seq<char>)
    requires
        record.booking_date.is_none(),
    ensures
        normalized(record, account) == Err::<DirectiveView, ReconcileError>(ReconcileError::MissingField),
{
}

/// Booked records of which one lacks its booking date give no directives at all.
pub proof fn lemma_booked_fail(
    found: Seq<DirectiveView>,
    booked: Seq<TransactionRecordView>,
    account: Seq<char>,
    ids: Set<Seq<char>>,
    r: int,
)
    requires
        0 <= r < booked.len(),
        booked[r].booking_date.is_none(),
    ensures
        new_transactions(found, booked, account, ids).is_err(),
    decreases booked.len(),
{
    if r > 0 {
        if normalized(booked[0], account).is_ok() {
            let d = normalized(booked[0], account).unwrap();
            assert(booked.drop_first()[r - 1] == booked[r]);
            lemma_booked_fail(
                if crate::dedup::duplicate(d, ids) {
                    found
                } else {
                    found.push(d)
                },
                booked.drop_first(),
                account,
                ids,
                r - 1,
            );
        }
    }
}

/// The import of accounts of which one has a booked record without a booking date fails.
pub proof fn lemma_accounts_fail(
    state: ImportState,
    targets: Seq<ImportTargetView>,
    feed: Seq<AccountFeedView>,
    ids: Set<Seq<char>>,
    j: int,
)
    requires
        0 <= j < targets.len(),
        lacks_booking_date(targets[j], feed),
    ensures
        import_accounts(state, targets, feed, ids).is_err(),
    decreases targets.len(),
{
    if j == 0 {
        let t = fetched_transactions(feed, targets[0].account_id).unwrap();
        let r = choose|r: int| 0 <= r < t.booked.len() && (#[trigger] t.booked[r]).booking_date.is_none();
        lemma_booked_fail(Seq::empty(), t.booked, targets[0].account, ids, r);
        assert(import_account(state, targets[0], feed, ids).is_err());
    } else if import_account(state, targets[0], feed, ids).is_ok() {
        assert(targets.drop_first()[j - 1] == targets[j]);
        lemma_accounts_fail(
            import_account(state, targets[0], feed, ids).unwrap(),
            targets.drop_first(),
            feed,
            ids,
            j - 1,
        );
    }
}

/// Working out the additions fails where, in one of the files, an account
/// that is set up for import has a booked record without a booking date.
pub proof fn lemma_files_fail(
    files: Seq<Seq<DirectiveView>>,
    feed: Seq<AccountFeedView>,
    history: HistoryView,
    f: int,
    j: int,
)
    requires
        0 <= f < files.len(),
        0 <= j < import_targets(files[f]).len(),
        lacks_booking_date(import_targets(files[f])[j], feed),
    ensures
        ledger_additions(files, feed, history).is_err(),
    decreases files.len(),
{
    if f == 0 {
        lemma_accounts_fail(
            ImportState { additions: Seq::empty(), last_transaction: history.last_transaction, pending: Map::empty() },
            import_targets(files[0]),
            feed,
            history.imported_ids,
            j,
        );
        assert(file_additions(files[0], feed, history).is_err());
    } else if file_additions(files[0], feed, history).is_ok() {
        assert(files.drop_first()[f - 1] == files[f]);
        lemma_files_fail(
            files.drop_first(),
            feed,
            HistoryView {
                imported_ids: history.imported_ids,
                last_balance: history.last_balance,
                last_transaction: file_additions(files[0], feed, history).unwrap().1,
            },
            f - 1,
            j,
        );
    }
}

/// Reconciliation fails as a whole where an account that is set up for
/// import has a booked record without a booking date, whichever account and
/// file it is. A failed reconciliation leaves the ledger as it was.
pub proof fn lemma_missing_booking_date_fails(
    ledger: Seq<Seq<DirectiveView>>,
    feed: Seq<AccountFeedView>,
    f: int,
    j: int,
)
    requires
        0 <= f < ledger.len(),
        0 <= j < import_targets(ledger[f]).len(),
        lacks_booking_date(import_targets(ledger[f])[j], feed),
    ensures
        reconciled(ledger, feed).is_err(),
{
    lemma_files_fail(ledger, feed, history_of(ledger), f, j);
}

/// Where the first account of the first file has a first booked record
/// without a booking date, reconciliation fails for want of a field.
pub proof fn lemma_first_record_without_date(ledger: Seq<Seq<DirectiveView>>, feed: Seq<AccountFeedView>)
    requires
        ledger.len() > 0,
        import_targets(ledger[0]).len() > 0,
        fetched_transactions(feed, import_targets(ledger[0])[0].account_id).is_some(),
        fetched_transactions(feed, import_targets(ledger[0])[0].account_id).unwrap().booked.len() > 0,
        fetched_transactions(feed, import_targets(ledger[0])[0].account_id).unwrap().booked[0].booking_date.is_none(),
    ensures
        reconciled(ledger, feed) == Err::<Seq<Seq<DirectiveView>>, ReconcileError>(ReconcileError::MissingField),
{
    let history = history_of(ledger);
    let target = import_targets(ledger[0])[0];
    let t = fetched_transactions(feed, target.account_id).unwrap();
    let start = ImportState {
        additions: Seq::empty(),
        last_transaction: history.last_transaction,
        pending: Map::empty(),
    };
    assert(new_transactions(Seq::empty(), t.booked, target.account, history.imported_ids) == Err::<
        Seq<DirectiveView>,
        ReconcileError,
    >(ReconcileError::MissingField));
    assert(import_account(start, target, feed, history.imported_ids) == Err::<ImportState, ReconcileError>(
        ReconcileError::MissingField,
    ));
    assert(import_accounts(start, import_targets(ledger[0]), feed, history.imported_ids) == Err::<
        ImportState,
        ReconcileError,
    >(ReconcileError::MissingField));
    assert(file_additions(ledger[0], feed, history) == Err::<
        (Seq<DirectiveView>, Map<Seq<char>, crate::date::Date>),
        ReconcileError,
    >(ReconcileError::MissingField));
}

} // verus!
