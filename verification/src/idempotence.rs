use vstd::prelude::*;
use crate::balance::{adjusted, already_asserted, balance_outcome};
use crate::date::Date;
use crate::decimal::DecimalValue;
use crate::dedup::duplicate;
use crate::error::ReconcileError;
use crate::feed::{AccountFeedView, TransactionRecordView, fetched_balances, fetched_transactions};
use crate::index::{
    DatedAmountView, HistoryView, balance_of, entry_of, file_last_balance, history_of, id_links, last_balance,
};
use crate::laws::{last_in_ledger, lemma_imported_ids, lemma_last_balance};
use crate::model::{AmountView, BalanceView, DirectiveContentView, DirectiveView};
use crate::normalize::normalized;
use crate::order::{chronological, lemma_sorted_by_date};
use crate::pending::bag_of;
use crate::reconcile::{
    ImportState, ImportTargetView, appended, balance_account, balance_accounts, file_additions,
    import_account, import_accounts, import_target, import_targets, ledger_additions, new_transactions,
    reconciled,
};

verus! {

/// Whether every identifier of the first set is in the second.
pub open spec fn ids_within(ids: Set<Seq<char>>, more: Set<Seq<char>>) -> bool {
    forall|link: Seq<char>| ids.contains(link) ==> more.contains(link)
}

/// What was found before stays in front of what the booked records add, and
/// what they add are transactions.
pub proof fn lemma_new_transactions_extend(
    found: Seq<DirectiveView>,
    booked: Seq<TransactionRecordView>,
    account: Seq<char>,
    ids: Set<Seq<char>>,
)
    requires
        new_transactions(found, booked, account, ids).is_ok(),
    ensures
        found.len() <= new_transactions(found, booked, account, ids).unwrap().len(),
        forall|i: int|
            0 <= i < found.len() ==> #[trigger] new_transactions(found, booked, account, ids).unwrap()[i]
                == found[i],
        forall|i: int|
            found.len() <= i < new_transactions(found, booked, account, ids).unwrap().len() ==> (
            #[trigger] new_transactions(found, booked, account, ids).unwrap()[i]).content is Transaction,
    decreases booked.len(),
{
    if booked.len() > 0 {
        let d = normalized(booked[0], account).unwrap();
        let next = if duplicate(d, ids) {
            found
        } else {
            found.push(d)
        };
        lemma_new_transactions_extend(next, booked.drop_first(), account, ids);
        let out = new_transactions(found, booked, account, ids).unwrap();
        assert(out == new_transactions(next, booked.drop_first(), account, ids).unwrap());
        assert forall|i: int| 0 <= i < found.len() implies out[i] == found[i] by {
            assert(out[i] == next[i]);
        }
        assert forall|i: int| found.len() <= i < out.len() implies (#[trigger] out[i]).content is Transaction by {
            if i < next.len() {
                assert(out[i] == next[i]);
                assert(next[i] == d);
            }
        }
    }
}

/// Where every transaction that the booked records added is known as a
/// duplicate to a larger set of identifiers, the same records add nothing
/// under that set.
pub proof fn lemma_new_transactions_again(
    found: Seq<DirectiveView>,
    again: Seq<DirectiveView>,
    booked: Seq<TransactionRecordView>,
    account: Seq<char>,
    ids: Set<Seq<char>>,
    more: Set<Seq<char>>,
)
    requires
        new_transactions(found, booked, account, ids).is_ok(),
        ids_within(ids, more),
        forall|i: int|
            found.len() <= i < new_transactions(found, booked, account, ids).unwrap().len() ==> duplicate(
                #[trigger] new_transactions(found, booked, account, ids).unwrap()[i],
                more,
            ),
    ensures
        new_transactions(again, booked, account, more) == Ok::<Seq<DirectiveView>, ReconcileError>(again),
    decreases booked.len(),
{
    if booked.len() > 0 {
        let d = normalized(booked[0], account).unwrap();
        let out = new_transactions(found, booked, account, ids).unwrap();
        if duplicate(d, ids) {
            let k = choose|k: int|
                0 <= k < d.content->Transaction_0.links.len() && ids.contains(
                    #[trigger] d.content->Transaction_0.links[k],
                );
            assert(more.contains(d.content->Transaction_0.links[k]));
            lemma_new_transactions_again(found, again, booked.drop_first(), account, ids, more);
        } else {
            lemma_new_transactions_extend(found.push(d), booked.drop_first(), account, ids);
            assert(out[found.len() as int] == found.push(d)[found.len() as int]);
            assert(duplicate(out[found.len() as int], more));
            lemma_new_transactions_again(found.push(d), again, booked.drop_first(), account, ids, more);
        }
    }
}

/// Putting directives into the order of appending neither drops nor adds one.
pub proof fn lemma_chronological_members(found: Seq<DirectiveView>)
    ensures
        chronological(found).len() == found.len(),
        forall|i: int| 0 <= i < found.len() ==> chronological(found).contains(#[trigger] found[i]),
        forall|i: int| 0 <= i < found.len() ==> found.contains(#[trigger] chronological(found)[i]),
{
    broadcast use vstd::seq_lib::group_to_multiset_ensures;

    let turned = found.reverse();
    lemma_sorted_by_date(turned);
    let out = chronological(found);
    assert forall|i: int| 0 <= i < found.len() implies out.contains(#[trigger] found[i]) by {
        assert(turned[found.len() - 1 - i] == found[i]);
        assert(turned.contains(found[i]));
        assert(turned.to_multiset().contains(found[i]));
        assert(out.to_multiset().contains(found[i]));
    }
    assert forall|i: int| 0 <= i < found.len() implies found.contains(#[trigger] out[i]) by {
        assert(out.contains(out[i]));
        assert(out.to_multiset().contains(out[i]));
        assert(turned.to_multiset().contains(out[i]));
        assert(turned.contains(out[i]));
        let j = choose|j: int| 0 <= j < turned.len() && turned[j] == out[i];
        assert(found[found.len() - 1 - j] == out[i]);
    }
}

/// The import of one account leaves what was gathered in front and adds transactions only.
pub proof fn lemma_import_account_extends(
    state: ImportState,
    target: ImportTargetView,
    feed: Seq<AccountFeedView>,
    ids: Set<Seq<char>>,
)
    requires
        import_account(state, target, feed, ids).is_ok(),
    ensures
        state.additions.len() <= import_account(state, target, feed, ids).unwrap().additions.len(),
        forall|i: int|
            0 <= i < state.additions.len() ==> #[trigger] import_account(
                state,
                target,
                feed,
                ids,
            ).unwrap().additions[i] == state.additions[i],
        forall|i: int|
            state.additions.len() <= i < import_account(state, target, feed, ids).unwrap().additions.len() ==> (
            #[trigger] import_account(state, target, feed, ids).unwrap().additions[i]).content is Transaction,
{
    let t = fetched_transactions(feed, target.account_id).unwrap();
    let found = new_transactions(Seq::empty(), t.booked, target.account, ids).unwrap();
    let next = import_account(state, target, feed, ids).unwrap();
    lemma_new_transactions_extend(Seq::empty(), t.booked, target.account, ids);
    lemma_chronological_members(found);
    assert(next.additions == state.additions + chronological(found));
    assert forall|i: int| state.additions.len() <= i < next.additions.len() implies (
    #[trigger] next.additions[i]).content is Transaction by {
        let d = chronological(found)[i - state.additions.len()];
        assert(next.additions[i] == d);
        assert(found.contains(d));
        let j = choose|j: int| 0 <= j < found.len() && found[j] == d;
        assert(found[j].content is Transaction);
    }
}

/// The import of several accounts leaves what was gathered in front and adds transactions only.
pub proof fn lemma_import_accounts_extend(
    state: ImportState,
    targets: Seq<ImportTargetView>,
    feed: Seq<AccountFeedView>,
    ids: Set<Seq<char>>,
)
    requires
        import_accounts(state, targets, feed, ids).is_ok(),
    ensures
        state.additions.len() <= import_accounts(state, targets, feed, ids).unwrap().additions.len(),
        forall|i: int|
            0 <= i < state.additions.len() ==> #[trigger] import_accounts(
                state,
                targets,
                feed,
                ids,
            ).unwrap().additions[i] == state.additions[i],
        forall|i: int|
            state.additions.len() <= i < import_accounts(state, targets, feed, ids).unwrap().additions.len() ==> (
            #[trigger] import_accounts(state, targets, feed, ids).unwrap().additions[i]).content is Transaction,
    decreases targets.len(),
{
    if targets.len() > 0 {
        let next = import_account(state, targets[0], feed, ids).unwrap();
        let out = import_accounts(state, targets, feed, ids).unwrap();
        assert(out == import_accounts(next, targets.drop_first(), feed, ids).unwrap());
        lemma_import_account_extends(state, targets[0], feed, ids);
        lemma_import_accounts_extend(next, targets.drop_first(), feed, ids);
        assert forall|i: int| 0 <= i < state.additions.len() implies #[trigger] out.additions[i]
            == state.additions[i] by {
            assert(out.additions[i] == next.additions[i]);
        }
        assert forall|i: int| state.additions.len() <= i < out.additions.len() implies (
        #[trigger] out.additions[i]).content is Transaction by {
            if i < next.additions.len() {
                assert(out.additions[i] == next.additions[i]);
            }
        }
    }
}

/// Where every transaction that an import added is known as a duplicate to
/// a larger set of identifiers, the same import under that set adds no
/// transaction, leaves the dates of the last transactions alone, and sums up
/// the same pending amounts.
pub proof fn lemma_import_accounts_again(
    state: ImportState,
    again: ImportState,
    targets: Seq<ImportTargetView>,
    feed: Seq<AccountFeedView>,
    ids: Set<Seq<char>>,
    more: Set<Seq<char>>,
)
    requires
        import_accounts(state, targets, feed, ids).is_ok(),
        again.pending == state.pending,
        again.additions == Seq::<DirectiveView>::empty(),
        ids_within(ids, more),
        forall|i: int|
            state.additions.len() <= i < import_accounts(state, targets, feed, ids).unwrap().additions.len()
                ==> duplicate(#[trigger] import_accounts(state, targets, feed, ids).unwrap().additions[i], more),
    ensures
        import_accounts(again, targets, feed, more) == Ok::<ImportState, ReconcileError>(
            ImportState {
                additions: Seq::empty(),
                last_transaction: again.last_transaction,
                pending: import_accounts(state, targets, feed, ids).unwrap().pending,
            },
        ),
    decreases targets.len(),
{
    if targets.len() > 0 {
        let target = targets[0];
        let t = fetched_transactions(feed, target.account_id).unwrap();
        let found = new_transactions(Seq::empty(), t.booked, target.account, ids).unwrap();
        let next = import_account(state, target, feed, ids).unwrap();
        let out = import_accounts(state, targets, feed, ids).unwrap();
        assert(out == import_accounts(next, targets.drop_first(), feed, ids).unwrap());
        lemma_import_account_extends(state, target, feed, ids);
        lemma_import_accounts_extend(next, targets.drop_first(), feed, ids);
        lemma_new_transactions_extend(Seq::empty(), t.booked, target.account, ids);
        lemma_chronological_members(found);
        assert(next.additions == state.additions + chronological(found));
        assert forall|i: int| 0 <= i < found.len() implies duplicate(#[trigger] found[i], more) by {
            assert(chronological(found).contains(found[i]));
            let j = choose|j: int| 0 <= j < chronological(found).len() && chronological(found)[j] == found[i];
            assert(next.additions[state.additions.len() + j] == found[i]);
            assert(out.additions[state.additions.len() + j] == next.additions[state.additions.len() + j]);
        }
        lemma_new_transactions_again(Seq::empty(), Seq::empty(), t.booked, target.account, ids, more);
        assert(chronological(Seq::<DirectiveView>::empty()) =~= Seq::<DirectiveView>::empty());
        let again_next = import_account(again, target, feed, more).unwrap();
        assert(again_next.additions =~= Seq::<DirectiveView>::empty());
        assert(again_next.last_transaction == again.last_transaction);
        assert(again_next.pending == next.pending);
        lemma_import_accounts_again(next, again_next, targets.drop_first(), feed, ids, more);
    }
}

/// The amount that the bank reports for an account, without what is pending
/// on it; none where the bank reports no balance or the amount cannot be read
/// or adjusted.
pub open spec fn reported_amount(
    target: ImportTargetView,
    feed: Seq<AccountFeedView>,
    pending: Map<Seq<char>, Map<Seq<char>, DecimalValue>>,
) -> Option<AmountView> {
    match fetched_balances(feed, target.account_id) {
        Some(balances) => if balances.len() > 0 {
            match DecimalValue::read_exact(balances[0].amount) {
                Some(value) => adjusted(
                    AmountView { value: value, currency: balances[0].currency },
                    bag_of(pending, target.account),
                ),
                None => None,
            }
        } else {
            None
        },
        None => None,
    }
}

/// The directive's content where it asserts the amount of the account.
pub open spec fn asserts(d: DirectiveView, account: Seq<char>, amount: AmountView) -> bool {
    d.content == DirectiveContentView::Balance(BalanceView { account: account, amount: amount })
}

/// Whether a directive asserts the reported amount of one of the accounts.
pub open spec fn asserts_reported(
    d: DirectiveView,
    targets: Seq<ImportTargetView>,
    feed: Seq<AccountFeedView>,
    pending: Map<Seq<char>, Map<Seq<char>, DecimalValue>>,
) -> bool {
    exists|j: int|
        0 <= j < targets.len() && reported_amount(#[trigger] targets[j], feed, pending).is_some() && asserts(
            d,
            targets[j].account,
            reported_amount(targets[j], feed, pending).unwrap(),
        )
}

/// Whether one of the directives from a position on asserts the amount of the account.
pub open spec fn asserted_since(out: Seq<DirectiveView>, from: int, account: Seq<char>, amount: AmountView) -> bool {
    exists|i: int| from <= i < out.len() && asserts(#[trigger] out[i], account, amount)
}

/// Reconciling one account's balance adds nothing where the ledger's last
/// assertion states the reported amount, and else one assertion of it.
pub proof fn lemma_balance_account_outcome(
    additions: Seq<DirectiveView>,
    target: ImportTargetView,
    feed: Seq<AccountFeedView>,
    pending: Map<Seq<char>, Map<Seq<char>, DecimalValue>>,
    last_balance: Map<Seq<char>, DatedAmountView>,
    last_transaction: Map<Seq<char>, Date>,
)
    requires
        balance_account(additions, target, feed, pending, last_balance, last_transaction).is_ok(),
    ensures
        fetched_balances(feed, target.account_id).is_some(),
        fetched_balances(feed, target.account_id).unwrap().len() > 0 ==> reported_amount(
            target,
            feed,
            pending,
        ).is_some(),
        match reported_amount(target, feed, pending) {
            Some(amount) => if already_asserted(entry_of(last_balance, target.account), amount) {
                balance_account(additions, target, feed, pending, last_balance, last_transaction).unwrap()
                    == additions
            } else {
                let out = balance_account(
                    additions,
                    target,
                    feed,
                    pending,
                    last_balance,
                    last_transaction,
                ).unwrap();
                out.len() == additions.len() + 1 && out == additions.push(out.last()) && asserts(
                    out.last(),
                    target.account,
                    amount,
                )
            },
            None => balance_account(additions, target, feed, pending, last_balance, last_transaction).unwrap()
                == additions,
        },
{
    let balances = fetched_balances(feed, target.account_id).unwrap();
    if balances.len() > 0 {
        let outcome = balance_outcome(
            target.account,
            balances[0],
            bag_of(pending, target.account),
            entry_of(last_balance, target.account),
            entry_of(last_transaction, target.account),
        );
        assert(outcome.is_ok());
    }
}

/// Reconciling the balances of several accounts leaves what was gathered in
/// front and adds assertions only. Each of them states the reported amount of
/// one of the accounts, and each account whose reported amount the ledger did
/// not already state has got one.
pub proof fn lemma_balance_accounts_outcome(
    additions: Seq<DirectiveView>,
    targets: Seq<ImportTargetView>,
    feed: Seq<AccountFeedView>,
    pending: Map<Seq<char>, Map<Seq<char>, DecimalValue>>,
    last_balance: Map<Seq<char>, DatedAmountView>,
    last_transaction: Map<Seq<char>, Date>,
)
    requires
        balance_accounts(additions, targets, feed, pending, last_balance, last_transaction).is_ok(),
    ensures
        additions.len() <= balance_accounts(
            additions,
            targets,
            feed,
            pending,
            last_balance,
            last_transaction,
        ).unwrap().len(),
        forall|i: int|
            0 <= i < additions.len() ==> #[trigger] balance_accounts(
                additions,
                targets,
                feed,
                pending,
                last_balance,
                last_transaction,
            ).unwrap()[i] == additions[i],
        forall|i: int|
            additions.len() <= i < balance_accounts(
                additions,
                targets,
                feed,
                pending,
                last_balance,
                last_transaction,
            ).unwrap().len() ==> asserts_reported(
                #[trigger] balance_accounts(
                    additions,
                    targets,
                    feed,
                    pending,
                    last_balance,
                    last_transaction,
                ).unwrap()[i],
                targets,
                feed,
                pending,
            ),
        forall|j: int|
            0 <= j < targets.len() && reported_amount(#[trigger] targets[j], feed, pending).is_some()
                ==> already_asserted(
                entry_of(last_balance, targets[j].account),
                reported_amount(targets[j], feed, pending).unwrap(),
            ) || asserted_since(
                balance_accounts(additions, targets, feed, pending, last_balance, last_transaction).unwrap(),
                additions.len() as int,
                targets[j].account,
                reported_amount(targets[j], feed, pending).unwrap(),
            ),
    decreases targets.len(),
{
    let out = balance_accounts(additions, targets, feed, pending, last_balance, last_transaction).unwrap();
    if targets.len() > 0 {
        let rest = targets.drop_first();
        let next = balance_account(additions, targets[0], feed, pending, last_balance, last_transaction).unwrap();
        assert(out == balance_accounts(next, rest, feed, pending, last_balance, last_transaction).unwrap());
        lemma_balance_account_outcome(additions, targets[0], feed, pending, last_balance, last_transaction);
        lemma_balance_accounts_outcome(next, rest, feed, pending, last_balance, last_transaction);
        assert forall|i: int| 0 <= i < additions.len() implies #[trigger] out[i] == additions[i] by {
            assert(out[i] == next[i]);
        }
        assert forall|i: int| additions.len() <= i < out.len() implies asserts_reported(
            #[trigger] out[i],
            targets,
            feed,
            pending,
        ) by {
            if i < next.len() {
                assert(out[i] == next[i]);
                assert(next[i] == next.last());
                assert(reported_amount(targets[0], feed, pending).is_some() && asserts(
                    out[i],
                    targets[0].account,
                    reported_amount(targets[0], feed, pending).unwrap(),
                ));
            } else {
                assert(asserts_reported(out[i], rest, feed, pending));
                let j = choose|j: int|
                    0 <= j < rest.len() && reported_amount(#[trigger] rest[j], feed, pending).is_some()
                        && asserts(out[i], rest[j].account, reported_amount(rest[j], feed, pending).unwrap());
                assert(rest[j] == targets[j + 1]);
                assert(reported_amount(targets[j + 1], feed, pending).is_some() && asserts(
                    out[i],
                    targets[j + 1].account,
                    reported_amount(targets[j + 1], feed, pending).unwrap(),
                ));
            }
        }
        assert forall|j: int|
            0 <= j < targets.len() && reported_amount(#[trigger] targets[j], feed, pending).is_some() implies
            already_asserted(
                entry_of(last_balance, targets[j].account),
                reported_amount(targets[j], feed, pending).unwrap(),
            ) || asserted_since(
                out,
                additions.len() as int,
                targets[j].account,
                reported_amount(targets[j], feed, pending).unwrap(),
            ) by {
            let amount = reported_amount(targets[j], feed, pending).unwrap();
            if j == 0 {
                if !already_asserted(entry_of(last_balance, targets[0].account), amount) {
                    assert(out[additions.len() as int] == next[additions.len() as int]);
                    assert(next[additions.len() as int] == next.last());
                    assert(asserts(out[additions.len() as int], targets[0].account, amount));
                }
            } else {
                assert(rest[j - 1] == targets[j]);
                assert(reported_amount(rest[j - 1], feed, pending).is_some());
                if !already_asserted(entry_of(last_balance, targets[j].account), amount) {
                    assert(asserted_since(out, next.len() as int, rest[j - 1].account, amount));
                    let i = choose|i: int|
                        next.len() <= i < out.len() && asserts(#[trigger] out[i], rest[j - 1].account, amount);
                    assert(additions.len() <= i < out.len() && asserts(out[i], targets[j].account, amount));
                }
            }
        }
    }
}

/// Where another index of the past already states the reported amount of
/// every account, reconciling the balances against it adds nothing.
pub proof fn lemma_balance_accounts_again(
    additions: Seq<DirectiveView>,
    again: Seq<DirectiveView>,
    targets: Seq<ImportTargetView>,
    feed: Seq<AccountFeedView>,
    pending: Map<Seq<char>, Map<Seq<char>, DecimalValue>>,
    last_balance: Map<Seq<char>, DatedAmountView>,
    last_transaction: Map<Seq<char>, Date>,
    later_balance: Map<Seq<char>, DatedAmountView>,
    later_transaction: Map<Seq<char>, Date>,
)
    requires
        balance_accounts(additions, targets, feed, pending, last_balance, last_transaction).is_ok(),
        forall|j: int|
            0 <= j < targets.len() && reported_amount(#[trigger] targets[j], feed, pending).is_some()
                ==> already_asserted(
                entry_of(later_balance, targets[j].account),
                reported_amount(targets[j], feed, pending).unwrap(),
            ),
    ensures
        balance_accounts(again, targets, feed, pending, later_balance, later_transaction) == Ok::<
            Seq<DirectiveView>,
            ReconcileError,
        >(again),
    decreases targets.len(),
{
    if targets.len() > 0 {
        let rest = targets.drop_first();
        let next = balance_account(additions, targets[0], feed, pending, last_balance, last_transaction).unwrap();
        lemma_balance_account_outcome(additions, targets[0], feed, pending, last_balance, last_transaction);
        assert(reported_amount(targets[0], feed, pending).is_some() ==> already_asserted(
            entry_of(later_balance, targets[0].account),
            reported_amount(targets[0], feed, pending).unwrap(),
        ));
        assert(balance_account(again, targets[0], feed, pending, later_balance, later_transaction) == Ok::<
            Seq<DirectiveView>,
            ReconcileError,
        >(again));
        assert forall|j: int|
            0 <= j < rest.len() && reported_amount(#[trigger] rest[j], feed, pending).is_some() implies
            already_asserted(
                entry_of(later_balance, rest[j].account),
                reported_amount(rest[j], feed, pending).unwrap(),
            ) by {
            assert(rest[j] == targets[j + 1]);
        }
        lemma_balance_accounts_again(
            next,
            again,
            rest,
            feed,
            pending,
            last_balance,
            last_transaction,
            later_balance,
            later_transaction,
        );
    }
}

/// Whether no two of the targets are of one account.
pub open spec fn accounts_differ(targets: Seq<ImportTargetView>) -> bool {
    forall|j: int, k: int|
        0 <= j < targets.len() && 0 <= k < targets.len() && j != k ==> (#[trigger] targets[j]).account != (
        #[trigger] targets[k]).account
}

/// Directives that open no account set up no import.
pub proof fn lemma_import_targets_unchanged(file: Seq<DirectiveView>, more: Seq<DirectiveView>)
    requires
        forall|i: int| 0 <= i < more.len() ==> !((#[trigger] more[i]).content is Open),
    ensures
        import_targets(file + more) == import_targets(file),
    decreases more.len(),
{
    if more.len() == 0 {
        assert(file + more =~= file);
    } else {
        assert((file + more).drop_last() =~= file + more.drop_last());
        assert((file + more).last() == more[more.len() - 1]);
        assert(import_target((file + more).last()).is_none());
        assert forall|i: int| 0 <= i < more.drop_last().len() implies !((#[trigger] more.drop_last()[i]).content is Open) by {
            assert(more.drop_last()[i] == more[i]);
        }
        lemma_import_targets_unchanged(file, more.drop_last());
    }
}

/// The state in which the import of a file's accounts begins.
pub open spec fn import_start(history: HistoryView) -> ImportState {
    ImportState { additions: Seq::empty(), last_transaction: history.last_transaction, pending: Map::empty() }
}

/// What is appended to a file are transactions and, behind them, assertions
/// of accounts that are set up in the file.
pub proof fn lemma_file_additions_outcome(file: Seq<DirectiveView>, feed: Seq<AccountFeedView>, history: HistoryView)
    requires
        file_additions(file, feed, history).is_ok(),
    ensures
        forall|i: int|
            0 <= i < file_additions(file, feed, history).unwrap().0.len() ==> (#[trigger] file_additions(
                file,
                feed,
                history,
            ).unwrap().0[i]).content is Transaction || exists|j: int|
                0 <= j < import_targets(file).len() && balance_of(
                    file_additions(file, feed, history).unwrap().0[i],
                    (#[trigger] import_targets(file)[j]).account,
                ).is_some(),
{
    let targets = import_targets(file);
    let state = import_accounts(import_start(history), targets, feed, history.imported_ids).unwrap();
    let add = file_additions(file, feed, history).unwrap().0;
    lemma_import_accounts_extend(import_start(history), targets, feed, history.imported_ids);
    lemma_balance_accounts_outcome(
        state.additions,
        targets,
        feed,
        state.pending,
        history.last_balance,
        state.last_transaction,
    );
    assert forall|i: int| 0 <= i < add.len() implies (#[trigger] add[i]).content is Transaction || exists|j: int|
        0 <= j < targets.len() && balance_of(add[i], (#[trigger] targets[j]).account).is_some() by {
        if i < state.additions.len() {
            assert(add[i] == state.additions[i]);
        } else {
            assert(asserts_reported(add[i], targets, feed, state.pending));
            let j = choose|j: int|
                0 <= j < targets.len() && reported_amount(#[trigger] targets[j], feed, state.pending).is_some()
                    && asserts(add[i], targets[j].account, reported_amount(targets[j], feed, state.pending).unwrap());
            assert(balance_of(add[i], targets[j].account).is_some());
        }
    }
}

/// A file with what was appended to it takes nothing more from the same
/// feed, given an index of the past that knows every appended transaction as
/// a duplicate, holds every appended assertion as the last of its account,
/// and holds what the first index held for the accounts that got no assertion.
pub proof fn lemma_file_again(
    file: Seq<DirectiveView>,
    feed: Seq<AccountFeedView>,
    history: HistoryView,
    later: HistoryView,
)
    requires
        file_additions(file, feed, history).is_ok(),
        ids_within(history.imported_ids, later.imported_ids),
        accounts_differ(import_targets(file)),
        forall|i: int|
            0 <= i < file_additions(file, feed, history).unwrap().0.len() && (#[trigger] file_additions(
                file,
                feed,
                history,
            ).unwrap().0[i]).content is Transaction ==> duplicate(
                file_additions(file, feed, history).unwrap().0[i],
                later.imported_ids,
            ),
        forall|i: int|
            0 <= i < file_additions(file, feed, history).unwrap().0.len() && (#[trigger] file_additions(
                file,
                feed,
                history,
            ).unwrap().0[i]).content is Balance ==> entry_of(
                later.last_balance,
                file_additions(file, feed, history).unwrap().0[i].content->Balance_0.account,
            ) == Some(
                DatedAmountView {
                    date: file_additions(file, feed, history).unwrap().0[i].date,
                    amount: file_additions(file, feed, history).unwrap().0[i].content->Balance_0.amount,
                },
            ),
        forall|j: int|
            0 <= j < import_targets(file).len() && (forall|i: int|
                0 <= i < file_additions(file, feed, history).unwrap().0.len() ==> balance_of(
                    #[trigger] file_additions(file, feed, history).unwrap().0[i],
                    import_targets(file)[j].account,
                ).is_none()) ==> entry_of(later.last_balance, (#[trigger] import_targets(file)[j]).account)
                == entry_of(history.last_balance, import_targets(file)[j].account),
    ensures
        file_additions(file + file_additions(file, feed, history).unwrap().0, feed, later) == Ok::<
            (Seq<DirectiveView>, Map<Seq<char>, Date>),
            ReconcileError,
        >((Seq::empty(), later.last_transaction)),
{
    let targets = import_targets(file);
    let state = import_accounts(import_start(history), targets, feed, history.imported_ids).unwrap();
    let add = file_additions(file, feed, history).unwrap().0;
    lemma_file_additions_outcome(file, feed, history);
    assert forall|i: int| 0 <= i < add.len() implies !((#[trigger] add[i]).content is Open) by {
        if !(add[i].content is Transaction) {
            let j = choose|j: int|
                0 <= j < targets.len() && balance_of(add[i], (#[trigger] targets[j]).account).is_some();
        }
    }
    lemma_import_targets_unchanged(file, add);
    lemma_import_accounts_extend(import_start(history), targets, feed, history.imported_ids);
    lemma_balance_accounts_outcome(
        state.additions,
        targets,
        feed,
        state.pending,
        history.last_balance,
        state.last_transaction,
    );
    assert forall|i: int| 0 <= i < state.additions.len() implies duplicate(
        #[trigger] state.additions[i],
        later.imported_ids,
    ) by {
        assert(add[i] == state.additions[i]);
        assert(add[i].content is Transaction);
    }
    lemma_import_accounts_again(
        import_start(history),
        import_start(later),
        targets,
        feed,
        history.imported_ids,
        later.imported_ids,
    );
    assert forall|j: int|
        0 <= j < targets.len() && reported_amount(#[trigger] targets[j], feed, state.pending).is_some() implies
        already_asserted(
            entry_of(later.last_balance, targets[j].account),
            reported_amount(targets[j], feed, state.pending).unwrap(),
        ) by {
        let account = targets[j].account;
        let amount = reported_amount(targets[j], feed, state.pending).unwrap();
        if asserted_since(add, state.additions.len() as int, account, amount) {
            let i = choose|i: int| state.additions.len() <= i < add.len() && asserts(#[trigger] add[i], account, amount);
            assert(add[i].content is Balance);
            assert(entry_of(later.last_balance, account) == Some(
                DatedAmountView { date: add[i].date, amount: amount },
            ));
            assert(amount.equals(amount));
        } else {
            assert(already_asserted(entry_of(history.last_balance, account), amount));
            assert forall|i: int| 0 <= i < add.len() implies balance_of(#[trigger] add[i], account).is_none() by {
                if balance_of(add[i], account).is_some() {
                    if i < state.additions.len() {
                        assert(add[i] == state.additions[i]);
                        assert(state.additions[i].content is Transaction);
                    } else {
                        assert(asserts_reported(add[i], targets, feed, state.pending));
                        let k = choose|k: int|
                            0 <= k < targets.len() && reported_amount(#[trigger] targets[k], feed, state.pending).is_some()
                                && asserts(
                                add[i],
                                targets[k].account,
                                reported_amount(targets[k], feed, state.pending).unwrap(),
                            );
                        assert(targets[k].account == account);
                        assert(k == j);
                        assert(asserts(add[i], account, amount));
                    }
                }
            }
            assert(entry_of(later.last_balance, account) == entry_of(history.last_balance, account));
        }
    }
    lemma_balance_accounts_again(
        state.additions,
        Seq::empty(),
        targets,
        feed,
        state.pending,
        history.last_balance,
        state.last_transaction,
        later.last_balance,
        later.last_transaction,
    );
}

/// Whether none of the directives asserts a balance of the account.
pub open spec fn no_assertion_of(directives: Seq<DirectiveView>, account: Seq<char>) -> bool {
    forall|i: int| 0 <= i < directives.len() ==> balance_of(#[trigger] directives[i], account).is_none()
}

/// Whether a set of identifiers knows every appended transaction as a duplicate.
pub open spec fn transactions_known(additions: Seq<Seq<DirectiveView>>, ids: Set<Seq<char>>) -> bool {
    forall|f: int, i: int|
        0 <= f < additions.len() && 0 <= i < additions[f].len() && (#[trigger] additions[f][i]).content is Transaction
            ==> duplicate(additions[f][i], ids)
}

/// Whether a table of last assertions holds every appended assertion as the last of its account.
pub open spec fn assertions_last(additions: Seq<Seq<DirectiveView>>, table: Map<Seq<char>, DatedAmountView>) -> bool {
    forall|f: int, i: int|
        0 <= f < additions.len() && 0 <= i < additions[f].len() && (#[trigger] additions[f][i]).content is Balance
            ==> entry_of(table, additions[f][i].content->Balance_0.account) == Some(
            DatedAmountView { date: additions[f][i].date, amount: additions[f][i].content->Balance_0.amount },
        )
}

/// Whether a later table of last assertions holds what an earlier one held
/// for each account that is set up in a file and got no assertion there.
pub open spec fn others_kept(
    files: Seq<Seq<DirectiveView>>,
    additions: Seq<Seq<DirectiveView>>,
    table: Map<Seq<char>, DatedAmountView>,
    later: Map<Seq<char>, DatedAmountView>,
) -> bool {
    forall|f: int, j: int|
        0 <= f < files.len() && f < additions.len() && 0 <= j < import_targets(files[f]).len() && no_assertion_of(
            additions[f],
            (#[trigger] import_targets(files[f])[j]).account,
        ) ==> entry_of(later, import_targets(files[f])[j].account) == entry_of(
            table,
            import_targets(files[f])[j].account,
        )
}

/// Whether within each file no two imports are set up for one account.
pub open spec fn accounts_differ_in_each(files: Seq<Seq<DirectiveView>>) -> bool {
    forall|f: int| 0 <= f < files.len() ==> accounts_differ(import_targets(#[trigger] files[f]))
}

/// An index of the past with other dates of last transactions.
pub open spec fn with_dates(history: HistoryView, dates: Map<Seq<char>, Date>) -> HistoryView {
    HistoryView {
        imported_ids: history.imported_ids,
        last_balance: history.last_balance,
        last_transaction: dates,
    }
}

/// There are additions for each file, and they are transactions and
/// assertions of accounts that are set up in that file.
pub proof fn lemma_ledger_additions_outcome(
    files: Seq<Seq<DirectiveView>>,
    feed: Seq<AccountFeedView>,
    history: HistoryView,
)
    requires
        ledger_additions(files, feed, history).is_ok(),
    ensures
        ledger_additions(files, feed, history).unwrap().len() == files.len(),
        forall|f: int, i: int|
            0 <= f < files.len() && 0 <= i < ledger_additions(files, feed, history).unwrap()[f].len() ==> (
            #[trigger] ledger_additions(files, feed, history).unwrap()[f][i]).content is Transaction || exists|
                j: int,
            |
                0 <= j < import_targets(files[f]).len() && balance_of(
                    ledger_additions(files, feed, history).unwrap()[f][i],
                    (#[trigger] import_targets(files[f])[j]).account,
                ).is_some(),
    decreases files.len(),
{
    if files.len() > 0 {
        let first = file_additions(files[0], feed, history).unwrap();
        let next = with_dates(history, first.1);
        let rest = ledger_additions(files.drop_first(), feed, next).unwrap();
        let all = ledger_additions(files, feed, history).unwrap();
        assert(all == seq![first.0] + rest);
        lemma_file_additions_outcome(files[0], feed, history);
        lemma_ledger_additions_outcome(files.drop_first(), feed, next);
        assert forall|f: int, i: int| 0 <= f < files.len() && 0 <= i < all[f].len() implies (
        #[trigger] all[f][i]).content is Transaction || exists|j: int|
            0 <= j < import_targets(files[f]).len() && balance_of(
                all[f][i],
                (#[trigger] import_targets(files[f])[j]).account,
            ).is_some() by {
            if f == 0 {
                assert(all[0] == first.0);
            } else {
                assert(all[f] == rest[f - 1]);
                assert(files[f] == files.drop_first()[f - 1]);
                assert(rest[f - 1][i].content is Transaction || exists|j: int|
                    0 <= j < import_targets(files.drop_first()[f - 1]).len() && balance_of(
                        rest[f - 1][i],
                        (#[trigger] import_targets(files.drop_first()[f - 1])[j]).account,
                    ).is_some());
            }
        }
    }
}

/// The files with what was appended to them take nothing more from the
/// same feed, given an index of the past that knows every appended
/// transaction as a duplicate, holds every appended assertion as the last of
/// its account, and holds what the first index held for the other accounts.
pub proof fn lemma_ledger_again(
    files: Seq<Seq<DirectiveView>>,
    feed: Seq<AccountFeedView>,
    history: HistoryView,
    later: HistoryView,
)
    requires
        ledger_additions(files, feed, history).is_ok(),
        ids_within(history.imported_ids, later.imported_ids),
        accounts_differ_in_each(files),
        transactions_known(ledger_additions(files, feed, history).unwrap(), later.imported_ids),
        assertions_last(ledger_additions(files, feed, history).unwrap(), later.last_balance),
        others_kept(
            files,
            ledger_additions(files, feed, history).unwrap(),
            history.last_balance,
            later.last_balance,
        ),
    ensures
        ledger_additions(files, feed, history).unwrap().len() == files.len(),
        ledger_additions(appended(files, ledger_additions(files, feed, history).unwrap()), feed, later) == Ok::<
            Seq<Seq<DirectiveView>>,
            ReconcileError,
        >(Seq::new(files.len(), |f: int| Seq::<DirectiveView>::empty())),
    decreases files.len(),
{
    let all = ledger_additions(files, feed, history).unwrap();
    lemma_ledger_additions_outcome(files, feed, history);
    let after = appended(files, all);
    if files.len() == 0 {
        assert(after =~= Seq::<Seq<DirectiveView>>::empty());
        assert(Seq::new(files.len(), |f: int| Seq::<DirectiveView>::empty()) =~= Seq::<
            Seq<DirectiveView>,
        >::empty());
    } else {
        let first = file_additions(files[0], feed, history).unwrap();
        let next = with_dates(history, first.1);
        let tail = files.drop_first();
        let rest = ledger_additions(tail, feed, next).unwrap();
        assert(all == seq![first.0] + rest);
        assert(all[0] == first.0);
        assert(accounts_differ(import_targets(files[0])));
        assert forall|i: int| 0 <= i < first.0.len() && (#[trigger] first.0[i]).content is Transaction implies duplicate(
            first.0[i],
            later.imported_ids,
        ) by {
            assert(all[0][i] == first.0[i]);
        }
        assert forall|i: int| 0 <= i < first.0.len() && (#[trigger] first.0[i]).content is Balance implies entry_of(
            later.last_balance,
            first.0[i].content->Balance_0.account,
        ) == Some(DatedAmountView { date: first.0[i].date, amount: first.0[i].content->Balance_0.amount }) by {
            assert(all[0][i] == first.0[i]);
        }
        assert forall|j: int|
            0 <= j < import_targets(files[0]).len() && (forall|i: int|
                0 <= i < first.0.len() ==> balance_of(#[trigger] first.0[i], import_targets(files[0])[j].account).is_none())
            implies entry_of(later.last_balance, (#[trigger] import_targets(files[0])[j]).account) == entry_of(
            history.last_balance,
            import_targets(files[0])[j].account,
        ) by {
            assert(no_assertion_of(all[0], import_targets(files[0])[j].account));
        }
        lemma_file_again(files[0], feed, history, later);
        assert(after[0] == files[0] + first.0);
        assert(after.drop_first() =~= appended(tail, rest));
        assert(with_dates(later, later.last_transaction) == later);
        lemma_ledger_additions_outcome(tail, feed, next);
        assert(accounts_differ_in_each(tail)) by {
            assert forall|f: int| 0 <= f < tail.len() implies accounts_differ(import_targets(#[trigger] tail[f])) by {
                assert(tail[f] == files[f + 1]);
            }
        }
        assert(transactions_known(rest, later.imported_ids)) by {
            assert forall|f: int, i: int|
                0 <= f < rest.len() && 0 <= i < rest[f].len() && (#[trigger] rest[f][i]).content is Transaction implies
                duplicate(rest[f][i], later.imported_ids) by {
                assert(all[f + 1][i] == rest[f][i]);
            }
        }
        assert(assertions_last(rest, later.last_balance)) by {
            assert forall|f: int, i: int|
                0 <= f < rest.len() && 0 <= i < rest[f].len() && (#[trigger] rest[f][i]).content is Balance implies
                entry_of(later.last_balance, rest[f][i].content->Balance_0.account) == Some(
                    DatedAmountView { date: rest[f][i].date, amount: rest[f][i].content->Balance_0.amount },
                ) by {
                assert(all[f + 1][i] == rest[f][i]);
            }
        }
        assert(others_kept(tail, rest, next.last_balance, later.last_balance)) by {
            assert forall|f: int, j: int|
                0 <= f < tail.len() && f < rest.len() && 0 <= j < import_targets(tail[f]).len() && no_assertion_of(
                    rest[f],
                    (#[trigger] import_targets(tail[f])[j]).account,
                ) implies entry_of(later.last_balance, import_targets(tail[f])[j].account) == entry_of(
                next.last_balance,
                import_targets(tail[f])[j].account,
            ) by {
                assert(tail[f] == files[f + 1]);
                assert(all[f + 1] == rest[f]);
                assert(no_assertion_of(all[f + 1], import_targets(files[f + 1])[j].account));
            }
        }
        lemma_ledger_again(tail, feed, next, later);
        let nothing = Seq::new(files.len(), |f: int| Seq::<DirectiveView>::empty());
        let nothing_more = Seq::new(tail.len(), |f: int| Seq::<DirectiveView>::empty());
        assert(seq![Seq::<DirectiveView>::empty()] + nothing_more =~= nothing);
        assert(after[0] == after.first());
    }
}

/// Directives that assert nothing of an account leave its last assertion in a file as it was.
pub proof fn lemma_file_last_balance_unchanged(file: Seq<DirectiveView>, more: Seq<DirectiveView>, account: Seq<char>)
    requires
        no_assertion_of(more, account),
    ensures
        file_last_balance(file + more, account) == file_last_balance(file, account),
    decreases more.len(),
{
    if more.len() == 0 {
        assert(file + more =~= file);
    } else {
        assert((file + more).drop_last() =~= file + more.drop_last());
        assert((file + more).last() == more[more.len() - 1]);
        assert(balance_of(more[more.len() - 1], account).is_none());
        assert(no_assertion_of(more.drop_last(), account)) by {
            assert forall|i: int| 0 <= i < more.drop_last().len() implies balance_of(
                #[trigger] more.drop_last()[i],
                account,
            ).is_none() by {
                assert(more.drop_last()[i] == more[i]);
            }
        }
        lemma_file_last_balance_unchanged(file, more.drop_last(), account);
    }
}

/// Additions that assert nothing of an account leave its last assertion in the ledger as it was.
pub proof fn lemma_last_balance_unchanged(
    ledger: Seq<Seq<DirectiveView>>,
    additions: Seq<Seq<DirectiveView>>,
    account: Seq<char>,
)
    requires
        additions.len() == ledger.len(),
        forall|f: int| 0 <= f < additions.len() ==> no_assertion_of(#[trigger] additions[f], account),
    ensures
        last_balance(appended(ledger, additions), account) == last_balance(ledger, account),
    decreases ledger.len(),
{
    let after = appended(ledger, additions);
    if ledger.len() > 0 {
        assert(after.drop_last() =~= appended(ledger.drop_last(), additions.drop_last()));
        assert(after.last() == ledger.last() + additions.last());
        assert(no_assertion_of(additions[additions.len() - 1], account));
        lemma_file_last_balance_unchanged(ledger.last(), additions.last(), account);
        assert forall|f: int| 0 <= f < additions.drop_last().len() implies no_assertion_of(
            #[trigger] additions.drop_last()[f],
            account,
        ) by {
            assert(additions.drop_last()[f] == additions[f]);
        }
        lemma_last_balance_unchanged(ledger.drop_last(), additions.drop_last(), account);
    }
}

/// Whether no account is set up for import twice, in one file or in two.
pub open spec fn set_up_once(ledger: Seq<Seq<DirectiveView>>) -> bool {
    forall|f: int, j: int, g: int, k: int|
        0 <= f < ledger.len() && 0 <= j < import_targets(ledger[f]).len() && 0 <= g < ledger.len() && 0 <= k
            < import_targets(ledger[g]).len() && !(f == g && j == k) ==> (#[trigger] import_targets(
            ledger[f],
        )[j]).account != (#[trigger] import_targets(ledger[g])[k]).account
}

/// Whether a directive, where it is a transaction, carries a link that
/// stands for a bank's transaction identifier.
pub open spec fn carries_identifier(d: DirectiveView) -> bool {
    d.content is Transaction ==> exists|k: int|
        0 <= k < d.content->Transaction_0.links.len() && crate::text::has_id_prefix(
            #[trigger] d.content->Transaction_0.links[k],
        )
}

/// Whether a directive, where it asserts a balance, is the last assertion of
/// its account in the ledger.
pub open spec fn is_last_assertion(d: DirectiveView, ledger: Seq<Seq<DirectiveView>>) -> bool {
    d.content is Balance ==> last_balance(ledger, d.content->Balance_0.account) == Some(
        DatedAmountView { date: d.date, amount: d.content->Balance_0.amount },
    )
}

/// Reconciling the same feed a second time, with the ledger that the first
/// time gave, succeeds and adds nothing. It is stated for the runs in which
/// no account is set up for import twice, every transaction that was appended
/// carries an identifier link, and every assertion that was appended is the
/// last of its account in the ledger that results.
pub proof fn lemma_reconcile_is_idempotent(ledger: Seq<Seq<DirectiveView>>, feed: Seq<AccountFeedView>)
    requires
        reconciled(ledger, feed).is_ok(),
        set_up_once(ledger),
        forall|f: int, i: int|
            0 <= f < ledger.len() && ledger[f].len() <= i < reconciled(ledger, feed).unwrap()[f].len()
                ==> carries_identifier(#[trigger] reconciled(ledger, feed).unwrap()[f][i]),
        forall|f: int, i: int|
            0 <= f < ledger.len() && ledger[f].len() <= i < reconciled(ledger, feed).unwrap()[f].len()
                ==> is_last_assertion(
                #[trigger] reconciled(ledger, feed).unwrap()[f][i],
                reconciled(ledger, feed).unwrap(),
            ),
    ensures
        reconciled(reconciled(ledger, feed).unwrap(), feed) == Ok::<Seq<Seq<DirectiveView>>, ReconcileError>(
            reconciled(ledger, feed).unwrap(),
        ),
{
    let history = history_of(ledger);
    let additions = ledger_additions(ledger, feed, history).unwrap();
    let after = reconciled(ledger, feed).unwrap();
    let later = history_of(after);
    assert(after == appended(ledger, additions));
    lemma_ledger_additions_outcome(ledger, feed, history);
    assert forall|f: int, i: int| 0 <= f < ledger.len() && 0 <= i < additions[f].len() implies #[trigger] after[f][ledger[f].len()
        + i] == additions[f][i] by {
        assert(after[f] == ledger[f] + additions[f]);
    }
    assert forall|f: int, i: int| 0 <= f < ledger.len() && 0 <= i < ledger[f].len() implies #[trigger] after[f][i]
        == ledger[f][i] by {
        assert(after[f] == ledger[f] + additions[f]);
    }
    assert(ids_within(history.imported_ids, later.imported_ids)) by {
        assert forall|link: Seq<char>| history.imported_ids.contains(link) implies later.imported_ids.contains(
            link,
        ) by {
            lemma_imported_ids(ledger, link);
            lemma_imported_ids(after, link);
            let (f, i) = choose|f: int, i: int|
                0 <= f < ledger.len() && 0 <= i < ledger[f].len() && id_links(#[trigger] ledger[f][i]).contains(link);
            assert(after[f][i] == ledger[f][i]);
            assert(after[f].len() == ledger[f].len() + additions[f].len());
            assert(0 <= f < after.len() && 0 <= i < after[f].len() && id_links(after[f][i]).contains(link));
        }
    }
    assert(transactions_known(additions, later.imported_ids)) by {
        assert forall|f: int, i: int|
            0 <= f < additions.len() && 0 <= i < additions[f].len() && (#[trigger] additions[f][i]).content is Transaction implies
            duplicate(additions[f][i], later.imported_ids) by {
            let d = additions[f][i];
            let at = ledger[f].len() + i;
            assert(after[f][at] == d);
            assert(after[f].len() == ledger[f].len() + additions[f].len());
            assert(carries_identifier(after[f][at]));
            let k = choose|k: int|
                0 <= k < d.content->Transaction_0.links.len() && crate::text::has_id_prefix(
                    #[trigger] d.content->Transaction_0.links[k],
                );
            let link = d.content->Transaction_0.links[k];
            assert(id_links(after[f][at]).contains(link));
            lemma_imported_ids(after, link);
            assert(0 <= f < after.len() && 0 <= at < after[f].len() && id_links(after[f][at]).contains(link));
        }
    }
    assert(assertions_last(additions, later.last_balance)) by {
        assert forall|f: int, i: int|
            0 <= f < additions.len() && 0 <= i < additions[f].len() && (#[trigger] additions[f][i]).content is Balance implies
            entry_of(later.last_balance, additions[f][i].content->Balance_0.account) == Some(
                DatedAmountView { date: additions[f][i].date, amount: additions[f][i].content->Balance_0.amount },
            ) by {
            let at = ledger[f].len() + i;
            assert(after[f][at] == additions[f][i]);
            assert(after[f].len() == ledger[f].len() + additions[f].len());
            assert(is_last_assertion(after[f][at], after));
        }
    }
    assert(accounts_differ_in_each(ledger)) by {
        assert forall|f: int| 0 <= f < ledger.len() implies accounts_differ(import_targets(#[trigger] ledger[f])) by {
            let targets = import_targets(ledger[f]);
            assert forall|j: int, k: int|
                0 <= j < targets.len() && 0 <= k < targets.len() && j != k implies (#[trigger] targets[j]).account != (
            #[trigger] targets[k]).account by {
                assert(import_targets(ledger[f])[j].account != import_targets(ledger[f])[k].account);
            }
        }
    }
    assert(others_kept(ledger, additions, history.last_balance, later.last_balance)) by {
        assert forall|f: int, j: int|
            0 <= f < ledger.len() && f < additions.len() && 0 <= j < import_targets(ledger[f]).len()
                && no_assertion_of(additions[f], (#[trigger] import_targets(ledger[f])[j]).account) implies entry_of(
            later.last_balance,
            import_targets(ledger[f])[j].account,
        ) == entry_of(history.last_balance, import_targets(ledger[f])[j].account) by {
            let account = import_targets(ledger[f])[j].account;
            assert forall|g: int| 0 <= g < additions.len() implies no_assertion_of(#[trigger] additions[g], account) by {
                if g != f {
                    assert forall|i: int| 0 <= i < additions[g].len() implies balance_of(
                        #[trigger] additions[g][i],
                        account,
                    ).is_none() by {
                        if balance_of(additions[g][i], account).is_some() {
                            assert(!(additions[g][i].content is Transaction));
                            let k = choose|k: int|
                                0 <= k < import_targets(ledger[g]).len() && balance_of(
                                    additions[g][i],
                                    (#[trigger] import_targets(ledger[g])[k]).account,
                                ).is_some();
                            assert(import_targets(ledger[g])[k].account == account);
                            assert(import_targets(ledger[f])[j].account != import_targets(ledger[g])[k].account);
                        }
                    }
                }
            }
            lemma_last_balance_unchanged(ledger, additions, account);
        }
    }
    lemma_ledger_again(ledger, feed, history, later);
    let nothing = Seq::new(ledger.len(), |f: int| Seq::<DirectiveView>::empty());
    assert(appended(after, nothing) =~= after) by {
        assert forall|f: int| 0 <= f < after.len() implies #[trigger] appended(after, nothing)[f] == after[f] by {
            assert(after[f] + nothing[f] =~= after[f]);
        }
    }
}

/// An appended assertion is the last of its account in the ledger that
/// results where no other appended directive asserts anything of the
/// account, no assertion of the account in its own file or in a file before
/// it is of a later date, and every assertion of the account in a file after
/// it is of an earlier date.
pub proof fn lemma_later_assertion_is_last(
    ledger: Seq<Seq<DirectiveView>>,
    additions: Seq<Seq<DirectiveView>>,
    file: int,
    at: int,
)
    requires
        additions.len() == ledger.len(),
        0 <= file < ledger.len(),
        0 <= at < additions[file].len(),
        additions[file][at].content is Balance,
        forall|f: int, i: int|
            0 <= f < additions.len() && 0 <= i < additions[f].len() && !(f == file && i == at) ==> balance_of(
                #[trigger] additions[f][i],
                additions[file][at].content->Balance_0.account,
            ).is_none(),
        forall|f: int, i: int|
            0 <= f <= file && 0 <= i < ledger[f].len() && balance_of(
                #[trigger] ledger[f][i],
                additions[file][at].content->Balance_0.account,
            ).is_some() ==> ledger[f][i].date.days <= additions[file][at].date.days,
        forall|f: int, i: int|
            file < f < ledger.len() && 0 <= i < ledger[f].len() && balance_of(
                #[trigger] ledger[f][i],
                additions[file][at].content->Balance_0.account,
            ).is_some() ==> ledger[f][i].date.days < additions[file][at].date.days,
    ensures
        is_last_assertion(additions[file][at], appended(ledger, additions)),
{
    let d = additions[file][at];
    let account = d.content->Balance_0.account;
    let after = appended(ledger, additions);
    let place = ledger[file].len() + at;
    assert(after[file] == ledger[file] + additions[file]);
    assert(after[file][place] == d);
    assert(balance_of(after[file][place], account).is_some());
    lemma_last_balance(after, account);
    assert(last_balance(after, account).is_some());
    let found = last_balance(after, account).unwrap();
    let (g, k) = choose|g: int, k: int| last_in_ledger(after, account, found, g, k);
    assert(after[g] == ledger[g] + additions[g]);
    if k < ledger[g].len() {
        assert(after[g][k] == ledger[g][k]);
        assert(balance_of(ledger[g][k], account).is_some());
        assert(found.date == ledger[g][k].date);
    } else {
        assert(after[g][k] == additions[g][k - ledger[g].len()]);
        assert(g == file && k - ledger[g].len() == at);
    }
}

} // verus!
