use vstd::prelude::*;
use vstd::string::*;
use crate::balance::{balance_outcome, reconcile_balance};
use crate::bag::Bag;
use crate::date::Date;
use crate::decimal::{Decimal, DecimalValue};
use crate::dedup::{duplicate, is_duplicate};
use crate::error::ReconcileError;
use crate::feed::{
    AccountFeedView, BankFeed, TransactionRecord, TransactionRecordView, fetched_balances,
    fetched_transactions, records_view,
};
use crate::index::{DatedAmountView, HistoryIndex, HistoryView, IdSet, entry_of, history_of, with_transaction};
use crate::model::{
    Account, Amount, AmountView, Directive, DirectiveContent, DirectiveContentView, DirectiveView, Ledger,
    LedgerFile, MetadataEntry, MetadataValue, directives_view, metadata_lookup, metadata_text,
    metadata_view,
};
use crate::normalize::{normalized, transaction_to_directive};
use crate::order::{chronological, order_for_append};
use crate::pending::{PendingBags, bag_of, pending_with};

verus! {

/// A ledger account that is set up for import, with the bank's identifier of it.
#[derive(Debug)]
pub struct ImportTarget {
    pub account_id: String,
    pub account: Account,
}

/// An account set up for import, as a view.
pub struct ImportTargetView {
    pub account_id: Seq<char>,
    pub account: Seq<char>,
}

impl View for ImportTarget {
    type V = ImportTargetView;

    open spec fn view(&self) -> ImportTargetView {
        ImportTargetView { account_id: self.account_id@, account: self.account@ }
    }
}

/// The views of import targets, in their order.
pub open spec fn targets_view(targets: Seq<ImportTarget>) -> Seq<ImportTargetView> {
    targets.map_values(|t: ImportTarget| t@)
}

/// The import set up by a directive: it opens an account, and its metadata
/// name the importer `gocardless` and, as a text, the bank's identifier of
/// the account.
pub open spec fn import_target(d: DirectiveView) -> Option<ImportTargetView> {
    match d.content {
        DirectiveContentView::Open(account) => if metadata_text(d.metadata, "importer"@) == Some("gocardless"@) {
            match metadata_text(d.metadata, "account_id"@) {
                Some(id) => Some(ImportTargetView { account_id: id, account: account }),
                None => None,
            }
        } else {
            None
        },
        _ => None,
    }
}

/// The imports set up in a file, in the order of its directives.
pub open spec fn import_targets(file: Seq<DirectiveView>) -> Seq<ImportTargetView>
    decreases file.len(),
{
    if file.len() == 0 {
        Seq::empty()
    } else {
        match import_target(file.last()) {
            Some(t) => import_targets(file.drop_last()).push(t),
            None => import_targets(file.drop_last()),
        }
    }
}

/// The directives for the booked records that were not imported before, in
/// the order of the records, behind those found so far. The first record
/// that cannot be turned into a directive ends it.
pub open spec fn new_transactions(
    found: Seq<DirectiveView>,
    booked: Seq<TransactionRecordView>,
    account: Seq<char>,
    ids: Set<Seq<char>>,
) -> Result<Seq<DirectiveView>, ReconcileError>
    decreases booked.len(),
{
    if booked.len() == 0 {
        Ok(found)
    } else {
        match normalized(booked[0], account) {
            Err(e) => Err(e),
            Ok(d) => new_transactions(
                if duplicate(d, ids) {
                    found
                } else {
                    found.push(d)
                },
                booked.drop_first(),
                account,
                ids,
            ),
        }
    }
}

/// The amount of a pending record.
pub open spec fn pending_amount(record: TransactionRecordView) -> Option<AmountView> {
    match DecimalValue::read(record.amount) {
        Some(value) => Some(AmountView { value: value, currency: record.currency }),
        None => None,
    }
}

/// The pending amounts after those of the records were added on the
/// account. A record without a readable amount lacks a field.
pub open spec fn pending_total(
    pending: Map<Seq<char>, Map<Seq<char>, DecimalValue>>,
    records: Seq<TransactionRecordView>,
    account: Seq<char>,
) -> Result<Map<Seq<char>, Map<Seq<char>, DecimalValue>>, ReconcileError>
    decreases records.len(),
{
    if records.len() == 0 {
        Ok(pending)
    } else {
        match pending_amount(records[0]) {
            None => Err(ReconcileError::MissingField),
            Some(amount) => match pending_with(pending, account, amount) {
                None => Err(ReconcileError::Overflow),
                Some(next) => pending_total(next, records.drop_first(), account),
            },
        }
    }
}

/// The pending amounts that are reached with the records: those of all of
/// them, or of those before the first whose amount cannot be read or added.
pub open spec fn pending_reached(
    pending: Map<Seq<char>, Map<Seq<char>, DecimalValue>>,
    records: Seq<TransactionRecordView>,
    account: Seq<char>,
) -> Map<Seq<char>, Map<Seq<char>, DecimalValue>>
    decreases records.len(),
{
    if records.len() == 0 {
        pending
    } else {
        match pending_amount(records[0]) {
            None => pending,
            Some(amount) => match pending_with(pending, account, amount) {
                None => pending,
                Some(next) => pending_reached(next, records.drop_first(), account),
            },
        }
    }
}

/// What has been gathered for one file while its accounts are imported.
pub struct ImportState {
    pub additions: Seq<DirectiveView>,
    pub last_transaction: Map<Seq<char>, Date>,
    pub pending: Map<Seq<char>, Map<Seq<char>, DecimalValue>>,
}

/// The table of last transaction dates after directives were appended for an account.
pub open spec fn latest_with(table: Map<Seq<char>, Date>, account: Seq<char>, appended: Seq<DirectiveView>) -> Map<Seq<char>, Date> {
    if appended.len() == 0 {
        table
    } else {
        with_transaction(table, account, appended.last().date)
    }
}

/// The import of one account's transactions: the new ones are appended in
/// date order and the pending ones are summed up.
pub open spec fn import_account(
    state: ImportState,
    target: ImportTargetView,
    feed: Seq<AccountFeedView>,
    ids: Set<Seq<char>>,
) -> Result<ImportState, ReconcileError> {
    match fetched_transactions(feed, target.account_id) {
        None => Err(ReconcileError::NetworkFailure),
        Some(t) => match new_transactions(Seq::empty(), t.booked, target.account, ids) {
            Err(e) => Err(e),
            Ok(found) => match pending_total(state.pending, t.pending, target.account) {
                Err(e) => Err(e),
                Ok(pending) => Ok(
                    ImportState {
                        additions: state.additions + chronological(found),
                        last_transaction: latest_with(state.last_transaction, target.account, chronological(found)),
                        pending: pending,
                    },
                ),
            },
        },
    }
}

/// The import of the transactions of several accounts, one after the other.
pub open spec fn import_accounts(
    state: ImportState,
    targets: Seq<ImportTargetView>,
    feed: Seq<AccountFeedView>,
    ids: Set<Seq<char>>,
) -> Result<ImportState, ReconcileError>
    decreases targets.len(),
{
    if targets.len() == 0 {
        Ok(state)
    } else {
        match import_account(state, targets[0], feed, ids) {
            Err(e) => Err(e),
            Ok(next) => import_accounts(next, targets.drop_first(), feed, ids),
        }
    }
}

/// The additions after the balance of one account was reconciled. Only the
/// first balance that the bank reports counts; where it reports none,
/// nothing is added.
pub open spec fn balance_account(
    additions: Seq<DirectiveView>,
    target: ImportTargetView,
    feed: Seq<AccountFeedView>,
    pending: Map<Seq<char>, Map<Seq<char>, DecimalValue>>,
    last_balance: Map<Seq<char>, DatedAmountView>,
    last_transaction: Map<Seq<char>, Date>,
) -> Result<Seq<DirectiveView>, ReconcileError> {
    match fetched_balances(feed, target.account_id) {
        None => Err(ReconcileError::NetworkFailure),
        Some(balances) => if balances.len() == 0 {
            Ok(additions)
        } else {
            match balance_outcome(
                target.account,
                balances[0],
                bag_of(pending, target.account),
                entry_of(last_balance, target.account),
                entry_of(last_transaction, target.account),
            ) {
                Err(e) => Err(e),
                Ok(None) => Ok(additions),
                Ok(Some(d)) => Ok(additions.push(d)),
            }
        },
    }
}

/// The additions after the balances of several accounts were reconciled, one after the other.
pub open spec fn balance_accounts(
    additions: Seq<DirectiveView>,
    targets: Seq<ImportTargetView>,
    feed: Seq<AccountFeedView>,
    pending: Map<Seq<char>, Map<Seq<char>, DecimalValue>>,
    last_balance: Map<Seq<char>, DatedAmountView>,
    last_transaction: Map<Seq<char>, Date>,
) -> Result<Seq<DirectiveView>, ReconcileError>
    decreases targets.len(),
{
    if targets.len() == 0 {
        Ok(additions)
    } else {
        match balance_account(additions, targets[0], feed, pending, last_balance, last_transaction) {
            Err(e) => Err(e),
            Ok(next) => balance_accounts(next, targets.drop_first(), feed, pending, last_balance, last_transaction),
        }
    }
}

/// What is appended to one file, and the table of last transaction dates
/// afterwards: first the new transactions of each account set up in the
/// file, then the assertions of their balances.
pub open spec fn file_additions(
    file: Seq<DirectiveView>,
    feed: Seq<AccountFeedView>,
    history: HistoryView,
) -> Result<(Seq<DirectiveView>, Map<Seq<char>, Date>), ReconcileError> {
    match import_accounts(
        ImportState { additions: Seq::empty(), last_transaction: history.last_transaction, pending: Map::empty() },
        import_targets(file),
        feed,
        history.imported_ids,
    ) {
        Err(e) => Err(e),
        Ok(state) => match balance_accounts(
            state.additions,
            import_targets(file),
            feed,
            state.pending,
            history.last_balance,
            state.last_transaction,
        ) {
            Err(e) => Err(e),
            Ok(additions) => Ok((additions, state.last_transaction)),
        },
    }
}

/// What is appended to each file of a ledger, file after file. The index of
/// the past stays as it was built, but for the dates of the last transactions,
/// which take up what was appended.
pub open spec fn ledger_additions(
    files: Seq<Seq<DirectiveView>>,
    feed: Seq<AccountFeedView>,
    history: HistoryView,
) -> Result<Seq<Seq<DirectiveView>>, ReconcileError>
    decreases files.len(),
{
    if files.len() == 0 {
        Ok(Seq::empty())
    } else {
        match file_additions(files[0], feed, history) {
            Err(e) => Err(e),
            Ok(first) => match ledger_additions(
                files.drop_first(),
                feed,
                HistoryView {
                    imported_ids: history.imported_ids,
                    last_balance: history.last_balance,
                    last_transaction: first.1,
                },
            ) {
                Err(e) => Err(e),
                Ok(rest) => Ok(seq![first.0] + rest),
            },
        }
    }
}

/// The ledger with additions behind each file's own directives.
pub open spec fn appended(ledger: Seq<Seq<DirectiveView>>, additions: Seq<Seq<DirectiveView>>) -> Seq<Seq<DirectiveView>> {
    Seq::new(
        ledger.len(),
        |f: int| if f < additions.len() {
            ledger[f] + additions[f]
        } else {
            ledger[f]
        },
    )
}

/// The ledger after the bank's feed was reconciled with it, or the first failure.
pub open spec fn reconciled(ledger: Seq<Seq<DirectiveView>>, feed: Seq<AccountFeedView>) -> Result<Seq<Seq<DirectiveView>>, ReconcileError> {
    match ledger_additions(ledger, feed, history_of(ledger)) {
        Err(e) => Err(e),
        Ok(additions) => Ok(appended(ledger, additions)),
    }
}

/// The text that the first metadata entry under a key holds.
pub fn find_text<'a>(entries: &'a Vec<MetadataEntry>, key: &str) -> (r: Option<&'a String>)
    ensures
        match r {
            Some(text) => metadata_text(metadata_view(entries@), key@) == Some(text@),
            None => metadata_text(metadata_view(entries@), key@).is_none(),
        },
{
    let wanted = String::from_str(key);
    let ghost all = metadata_view(entries@);
    let mut i: usize = 0;
    assert(all.skip(0) =~= all);
    while i < entries.len()
        invariant
            i <= entries@.len(),
            wanted@ == key@,
            all == metadata_view(entries@),
            metadata_lookup(all, key@) == metadata_lookup(all.skip(i as int), key@),
        decreases entries@.len() - i,
    {
        assert(all.skip(i as int)[0] == entries@[i as int]@);
        assert(all.skip(i as int).drop_first() =~= all.skip(i as int + 1));
        if entries[i].key == wanted {
            return match &entries[i].value {
                MetadataValue::Text(text) => Some(text),
                _ => None,
            };
        }
        i += 1;
    }
    assert(all.skip(i as int).len() == 0);
    None
}

/// The import that a directive sets up, if it sets one up.
pub fn import_target_of(d: &Directive) -> (r: Option<ImportTarget>)
    ensures
        match r {
            Some(t) => import_target(d@) == Some(t@),
            None => import_target(d@).is_none(),
        },
{
    match &d.content {
        DirectiveContent::Open(open) => {
            let importer = match find_text(&d.metadata, "importer") {
                Some(text) => text,
                None => {
                    return None;
                },
            };
            if *importer != String::from_str("gocardless") {
                return None;
            }
            match find_text(&d.metadata, "account_id") {
                Some(id) => Some(ImportTarget { account_id: id.clone(), account: open.account.clone() }),
                None => None,
            }
        },
        _ => None,
    }
}

/// The accounts of a file that are set up for import, in the file's order.
pub fn configured_accounts(file: &LedgerFile) -> (r: Vec<ImportTarget>)
    ensures
        targets_view(r@) == import_targets(file@),
{
    let mut targets: Vec<ImportTarget> = Vec::new();
    let mut i: usize = 0;
    assert(targets_view(targets@) =~= import_targets(file@.take(0)));
    while i < file.directives.len()
        invariant
            i <= file.directives@.len(),
            targets_view(targets@) == import_targets(file@.take(i as int)),
        decreases file.directives@.len() - i,
    {
        let ghost before = targets_view(targets@);
        proof {
            let next = file@.take(i as int + 1);
            assert(next.drop_last() =~= file@.take(i as int));
            assert(next.last() == file.directives@[i as int]@);
        }
        match import_target_of(&file.directives[i]) {
            Some(t) => {
                targets.push(t);
                assert(targets_view(targets@) =~= before.push(t@));
            },
            None => {},
        }
        i += 1;
    }
    assert(file@.take(file.directives@.len() as int) =~= file@);
    targets
}

/// Turns the booked records of an account into directives and keeps those
/// that were not imported before, in the order of the records.
pub fn import_booked(booked: &Vec<TransactionRecord>, account: &Account, ids: &IdSet) -> (r: Result<Vec<Directive>, ReconcileError>)
    ensures
        match new_transactions(Seq::empty(), records_view(booked@), account@, ids@) {
            Ok(found) => r.is_ok() && directives_view(r.unwrap()@) == found,
            Err(e) => r.is_err() && r.unwrap_err() == e,
        },
{
    let ghost all = records_view(booked@);
    let mut found: Vec<Directive> = Vec::new();
    let mut i: usize = 0;
    assert(all.skip(0) =~= all);
    assert(directives_view(found@) =~= Seq::<DirectiveView>::empty());
    while i < booked.len()
        invariant
            i <= booked@.len(),
            all == records_view(booked@),
            new_transactions(Seq::empty(), all, account@, ids@) == new_transactions(
                directives_view(found@),
                all.skip(i as int),
                account@,
                ids@,
            ),
        decreases booked@.len() - i,
    {
        let ghost before = directives_view(found@);
        assert(all.skip(i as int)[0] == booked@[i as int]@);
        assert(all.skip(i as int).drop_first() =~= all.skip(i as int + 1));
        let d = match transaction_to_directive(&booked[i], account) {
            Err(e) => {
                return Err(e);
            },
            Ok(d) => d,
        };
        if !is_duplicate(&d, ids) {
            found.push(d);
            assert(directives_view(found@) =~= before.push(d@));
        }
        i += 1;
    }
    assert(all.skip(i as int).len() == 0);
    Ok(found)
}

/// Adds the amounts of an account's pending records to what is pending on
/// it, up to the first record whose amount cannot be read or added.
pub fn collect_pending(pending: &mut PendingBags, records: &Vec<TransactionRecord>, account: &Account) -> (r: Result<(), ReconcileError>)
    requires
        old(pending).well_formed(),
    ensures
        final(pending).well_formed(),
        final(pending)@ == pending_reached(old(pending)@, records_view(records@), account@),
        match pending_total(old(pending)@, records_view(records@), account@) {
            Ok(total) => r.is_ok() && final(pending)@ == total,
            Err(e) => r == Err::<(), ReconcileError>(e),
        },
{
    let ghost all = records_view(records@);
    let mut i: usize = 0;
    assert(all.skip(0) =~= all);
    while i < records.len()
        invariant
            i <= records@.len(),
            all == records_view(records@),
            pending.well_formed(),
            pending_total(old(pending)@, all, account@) == pending_total(pending@, all.skip(i as int), account@),
            pending_reached(old(pending)@, all, account@) == pending_reached(pending@, all.skip(i as int), account@),
        decreases records@.len() - i,
    {
        assert(all.skip(i as int)[0] == records@[i as int]@);
        assert(all.skip(i as int).drop_first() =~= all.skip(i as int + 1));
        let value = match Decimal::parse(records[i].amount.as_str()) {
            None => {
                return Err(ReconcileError::MissingField);
            },
            Some(value) => value,
        };
        let amount = Amount { value, currency: records[i].currency.clone() };
        match pending.add(account, &amount) {
            Err(e) => {
                return Err(e);
            },
            Ok(()) => {},
        }
        i += 1;
    }
    assert(all.skip(i as int).len() == 0);
    Ok(())
}

/// Imports the transactions of one account: appends the new ones in date
/// order, takes note of the latest of them, and sums up the pending ones.
pub fn import_transactions(
    target: &ImportTarget,
    feed: &BankFeed,
    index: &mut HistoryIndex,
    pending: &mut PendingBags,
    additions: &mut Vec<Directive>,
) -> (r: Result<(), ReconcileError>)
    requires
        old(pending).well_formed(),
    ensures
        final(pending).well_formed(),
        final(index)@.imported_ids == old(index)@.imported_ids,
        final(index)@.last_balance == old(index)@.last_balance,
        match import_account(
            ImportState {
                additions: directives_view(old(additions)@),
                last_transaction: old(index)@.last_transaction,
                pending: old(pending)@,
            },
            target@,
            feed@,
            old(index)@.imported_ids,
        ) {
            Ok(state) => r.is_ok() && directives_view(final(additions)@) == state.additions
                && final(index)@.last_transaction == state.last_transaction && final(pending)@ == state.pending,
            Err(e) => r == Err::<(), ReconcileError>(e) && final(additions)@ == old(additions)@ && final(index)@
                == old(index)@ && final(pending)@ == (if fetched_transactions(feed@, target@.account_id).is_some()
                && new_transactions(
                Seq::empty(),
                fetched_transactions(feed@, target@.account_id).unwrap().booked,
                target@.account,
                old(index)@.imported_ids,
            ).is_ok() {
                pending_reached(
                    old(pending)@,
                    fetched_transactions(feed@, target@.account_id).unwrap().pending,
                    target@.account,
                )
            } else {
                old(pending)@
            }),
        },
{
    let transactions = match feed.entry(&target.account_id) {
        None => {
            return Err(ReconcileError::NetworkFailure);
        },
        Some(entry) => match &entry.transactions {
            None => {
                return Err(ReconcileError::NetworkFailure);
            },
            Some(t) => t,
        },
    };
    let found = match import_booked(&transactions.booked, &target.account, index.imported_ids()) {
        Err(e) => {
            return Err(e);
        },
        Ok(found) => found,
    };
    match collect_pending(pending, &transactions.pending, &target.account) {
        Err(e) => {
            return Err(e);
        },
        Ok(()) => {},
    }
    let mut ordered = order_for_append(found);
    if ordered.len() > 0 {
        index.note_transaction(&target.account, ordered[ordered.len() - 1].date);
    }
    let ghost before = directives_view(additions@);
    let ghost tail = directives_view(ordered@);
    additions.append(&mut ordered);
    assert(directives_view(additions@) =~= before + tail);
    Ok(())
}

/// Reconciles the balance of one account and appends the assertion, if one is due.
pub fn import_balance(
    target: &ImportTarget,
    feed: &BankFeed,
    index: &HistoryIndex,
    pending: &PendingBags,
    additions: &mut Vec<Directive>,
) -> (r: Result<(), ReconcileError>)
    requires
        pending.well_formed(),
    ensures
        match balance_account(
            directives_view(old(additions)@),
            target@,
            feed@,
            pending@,
            index@.last_balance,
            index@.last_transaction,
        ) {
            Ok(next) => r.is_ok() && directives_view(final(additions)@) == next,
            Err(e) => r == Err::<(), ReconcileError>(e) && final(additions)@ == old(additions)@,
        },
{
    let balances = match feed.entry(&target.account_id) {
        None => {
            return Err(ReconcileError::NetworkFailure);
        },
        Some(entry) => match &entry.balances {
            None => {
                return Err(ReconcileError::NetworkFailure);
            },
            Some(b) => b,
        },
    };
    if balances.len() == 0 {
        return Ok(());
    }
    let nothing = Bag::new();
    let bag = match pending.bag(&target.account) {
        Some(bag) => bag,
        None => &nothing,
    };
    assert(bag@ == bag_of(pending@, target@.account));
    let outcome = reconcile_balance(
        &target.account,
        &balances[0],
        bag,
        index.last_balance(&target.account),
        index.last_transaction_date(&target.account),
    );
    match outcome {
        Err(e) => Err(e),
        Ok(None) => Ok(()),
        Ok(Some(d)) => {
            let ghost before = directives_view(additions@);
            additions.push(d);
            assert(directives_view(additions@) =~= before.push(d@));
            Ok(())
        },
    }
}

/// Works out what is appended to one file: the new transactions of each
/// account set up in it, then the assertions of their balances.
pub fn reconcile_file(file: &LedgerFile, feed: &BankFeed, index: &mut HistoryIndex) -> (r: Result<Vec<Directive>, ReconcileError>)
    ensures
        final(index)@.imported_ids == old(index)@.imported_ids,
        final(index)@.last_balance == old(index)@.last_balance,
        match file_additions(file@, feed@, old(index)@) {
            Ok(outcome) => r.is_ok() && directives_view(r.unwrap()@) == outcome.0
                && final(index)@.last_transaction == outcome.1,
            Err(e) => r.is_err() && r.unwrap_err() == e,
        },
{
    let targets = configured_accounts(file);
    let ghost all = targets_view(targets@);
    let mut additions: Vec<Directive> = Vec::new();
    let mut pending = PendingBags::new();
    let ghost start = ImportState {
        additions: Seq::empty(),
        last_transaction: index@.last_transaction,
        pending: Map::empty(),
    };
    let mut i: usize = 0;
    assert(all.skip(0) =~= all);
    assert(directives_view(additions@) =~= Seq::<DirectiveView>::empty());
    while i < targets.len()
        invariant
            i <= targets@.len(),
            all == targets_view(targets@),
            all == import_targets(file@),
            start.additions == Seq::<DirectiveView>::empty(),
            start.last_transaction == old(index)@.last_transaction,
            start.pending == Map::<Seq<char>, Map<Seq<char>, DecimalValue>>::empty(),
            pending.well_formed(),
            index@.imported_ids == old(index)@.imported_ids,
            index@.last_balance == old(index)@.last_balance,
            import_accounts(start, all, feed@, old(index)@.imported_ids) == import_accounts(
                ImportState {
                    additions: directives_view(additions@),
                    last_transaction: index@.last_transaction,
                    pending: pending@,
                },
                all.skip(i as int),
                feed@,
                old(index)@.imported_ids,
            ),
        decreases targets@.len() - i,
    {
        assert(all.skip(i as int)[0] == targets@[i as int]@);
        assert(all.skip(i as int).drop_first() =~= all.skip(i as int + 1));
        let ghost current = ImportState {
            additions: directives_view(additions@),
            last_transaction: index@.last_transaction,
            pending: pending@,
        };
        match import_transactions(&targets[i], feed, index, &mut pending, &mut additions) {
            Err(e) => {
                assert(import_account(current, all.skip(i as int)[0], feed@, old(index)@.imported_ids) == Err::<
                    ImportState,
                    ReconcileError,
                >(e));
                assert(import_accounts(current, all.skip(i as int), feed@, old(index)@.imported_ids) == Err::<
                    ImportState,
                    ReconcileError,
                >(e));
                return Err(e);
            },
            Ok(()) => {},
        }
        i += 1;
    }
    assert(all.skip(i as int).len() == 0);
    let ghost imported = ImportState {
        additions: directives_view(additions@),
        last_transaction: index@.last_transaction,
        pending: pending@,
    };
    let mut k: usize = 0;
    assert(import_accounts(start, all, feed@, old(index)@.imported_ids) == Ok::<ImportState, ReconcileError>(
        imported,
    ));
    while k < targets.len()
        invariant
            k <= targets@.len(),
            all == targets_view(targets@),
            all == import_targets(file@),
            start.additions == Seq::<DirectiveView>::empty(),
            start.last_transaction == old(index)@.last_transaction,
            start.pending == Map::<Seq<char>, Map<Seq<char>, DecimalValue>>::empty(),
            import_accounts(start, all, feed@, old(index)@.imported_ids) == Ok::<ImportState, ReconcileError>(
                imported,
            ),
            pending.well_formed(),
            pending@ == imported.pending,
            index@.imported_ids == old(index)@.imported_ids,
            index@.last_balance == old(index)@.last_balance,
            index@.last_transaction == imported.last_transaction,
            balance_accounts(
                imported.additions,
                all,
                feed@,
                imported.pending,
                index@.last_balance,
                index@.last_transaction,
            ) == balance_accounts(
                directives_view(additions@),
                all.skip(k as int),
                feed@,
                imported.pending,
                index@.last_balance,
                index@.last_transaction,
            ),
        decreases targets@.len() - k,
    {
        assert(all.skip(k as int)[0] == targets@[k as int]@);
        assert(all.skip(k as int).drop_first() =~= all.skip(k as int + 1));
        let ghost current = directives_view(additions@);
        match import_balance(&targets[k], feed, index, &pending, &mut additions) {
            Err(e) => {
                assert(balance_accounts(
                    current,
                    all.skip(k as int),
                    feed@,
                    imported.pending,
                    index@.last_balance,
                    index@.last_transaction,
                ) == Err::<Seq<DirectiveView>, ReconcileError>(e));
                return Err(e);
            },
            Ok(()) => {},
        }
        k += 1;
    }
    assert(all.skip(k as int).len() == 0);
    Ok(additions)
}

/// The additions of each file, the finished ones first.
pub open spec fn additions_view(additions: Seq<Vec<Directive>>) -> Seq<Seq<DirectiveView>> {
    additions.map_values(|a: Vec<Directive>| directives_view(a@))
}

/// The additions worked out for the first files, before those still to be worked out.
pub open spec fn behind(done: Seq<Seq<DirectiveView>>, rest: Result<Seq<Seq<DirectiveView>>, ReconcileError>) -> Result<Seq<Seq<DirectiveView>>, ReconcileError> {
    match rest {
        Ok(more) => Ok(done + more),
        Err(e) => Err(e),
    }
}

/// Reconciles the bank's feed with the ledger: for each file and each
/// account set up in it, the booked transactions that were not imported
/// before are appended in date order, and then an assertion of each account's
/// balance where the ledger does not already state it. On a failure the
/// ledger is left as it was.
pub fn reconcile(ledger: &mut Ledger, feed: &BankFeed) -> (r: Result<(), ReconcileError>)
    ensures
        match reconciled(old(ledger)@, feed@) {
            Ok(after) => r.is_ok() && final(ledger)@ == after,
            Err(e) => r == Err::<(), ReconcileError>(e) && final(ledger)@ == old(ledger)@,
        },
{
    let mut index = HistoryIndex::build(ledger);
    let ghost history = index@;
    let ghost given = ledger@;
    let mut additions: Vec<Vec<Directive>> = Vec::new();
    let mut f: usize = 0;
    assert(given.skip(0) =~= given);
    assert(additions_view(additions@) =~= Seq::<Seq<DirectiveView>>::empty());
    while f < ledger.files.len()
        invariant
            f <= ledger.files@.len(),
            *ledger == *old(ledger),
            given == ledger@,
            additions@.len() == f,
            history == history_of(given),
            index@.imported_ids == history.imported_ids,
            index@.last_balance == history.last_balance,
            ledger_additions(given, feed@, history) == behind(
                additions_view(additions@),
                ledger_additions(given.skip(f as int), feed@, index@),
            ),
        decreases ledger.files@.len() - f,
    {
        let ghost before = additions_view(additions@);
        let ghost at = index@;
        assert(given.skip(f as int)[0] == ledger.files@[f as int]@);
        assert(given.skip(f as int).drop_first() =~= given.skip(f as int + 1));
        let more = match reconcile_file(&ledger.files[f], feed, &mut index) {
            Err(e) => {
                assert(file_additions(given.skip(f as int)[0], feed@, at).is_err());
                assert(ledger_additions(given.skip(f as int), feed@, at) == Err::<
                    Seq<Seq<DirectiveView>>,
                    ReconcileError,
                >(e));
                return Err(e);
            },
            Ok(more) => more,
        };
        proof {
            let next = HistoryView {
                imported_ids: at.imported_ids,
                last_balance: at.last_balance,
                last_transaction: index@.last_transaction,
            };
            assert(index@ == next);
            let rest = ledger_additions(given.skip(f as int + 1), feed@, index@);
            match rest {
                Ok(tail) => {
                    assert(before + (seq![directives_view(more@)] + tail) =~= before.push(directives_view(more@)) + tail);
                },
                Err(_) => {},
            }
        }
        additions.push(more);
        assert(additions_view(additions@) =~= before.push(directives_view(more@)));
        f += 1;
    }
    assert(given.skip(f as int).len() == 0);
    let ghost planned = additions_view(additions@);
    assert(planned + Seq::<Seq<DirectiveView>>::empty() =~= planned);
    assert(ledger_additions(given, feed@, history) == Ok::<Seq<Seq<DirectiveView>>, ReconcileError>(planned));
    let mut g: usize = 0;
    while g < ledger.files.len()
        invariant
            g <= ledger.files@.len(),
            ledger.files@.len() == given.len(),
            additions@.len() == given.len(),
            planned.len() == given.len(),
            forall|j: int| 0 <= j < g ==> #[trigger] ledger@[j] == given[j] + planned[j],
            forall|j: int| g <= j < given.len() ==> #[trigger] ledger@[j] == given[j],
            forall|j: int| g <= j < given.len() ==> directives_view(#[trigger] additions@[j]@) == planned[j],
        decreases ledger.files@.len() - g,
    {
        let ghost file_before = ledger.files@[g as int].directives@;
        let ghost more = additions@[g as int]@;
        let ghost ledger_before = ledger@;
        let ghost additions_before = additions@;
        ledger.files[g].directives.append(&mut additions[g]);
        proof {
            assert(ledger.files@[g as int].directives@ == file_before + more);
            assert(directives_view(file_before + more) =~= directives_view(file_before) + directives_view(more));
            assert(ledger_before[g as int] == given[g as int]);
            assert(directives_view(additions_before[g as int]@) == planned[g as int]);
            assert(ledger@[g as int] == directives_view(ledger.files@[g as int].directives@));
            assert(ledger@[g as int] == given[g as int] + planned[g as int]);
            assert forall|j: int| 0 <= j < given.len() && j != g implies #[trigger] ledger@[j] == ledger_before[j] by {}
            assert forall|j: int| 0 <= j < given.len() && j != g implies #[trigger] additions@[j] == additions_before[j] by {}
        }
        g += 1;
    }
    assert(ledger@ =~= appended(given, planned));
    Ok(())
}

} // verus!
