use vstd::prelude::*;
use crate::dedup::duplicate;
use crate::error::ReconcileError;
use crate::feed::TransactionRecordView;
use crate::date::Date;
use crate::index::{
    DatedAmountView, balance_of, file_ids, file_last_balance, file_last_transaction, id_links, imported_ids,
    last_balance, last_transaction, posts_to,
};
use crate::model::DirectiveView;
use crate::normalize::{normalized, record_links};
use crate::reconcile::new_transactions;
use crate::text::{has_id_prefix, id_prefix, link_of};

verus! {

/// A link is among the identifiers of a file exactly if a transaction of
/// the file carries it and it begins with the identifier mark.
pub proof fn lemma_file_ids(directives: Seq<DirectiveView>, link: Seq<char>)
    ensures
        file_ids(directives).contains(link) <==> exists|i: int|
            0 <= i < directives.len() && id_links(#[trigger] directives[i]).contains(link),
    decreases directives.len(),
{
    if directives.len() > 0 {
        let front = directives.drop_last();
        lemma_file_ids(front, link);
        if file_ids(directives).contains(link) {
            if id_links(directives.last()).contains(link) {
                assert(id_links(directives[directives.len() - 1]).contains(link));
            } else {
                let i = choose|i: int| 0 <= i < front.len() && id_links(#[trigger] front[i]).contains(link);
                assert(id_links(directives[i]).contains(link));
            }
        }
        if exists|i: int| 0 <= i < directives.len() && id_links(#[trigger] directives[i]).contains(link) {
            let i = choose|i: int| 0 <= i < directives.len() && id_links(#[trigger] directives[i]).contains(link);
            if i < front.len() {
                assert(id_links(front[i]).contains(link));
            }
        }
    }
}

/// A link is among the imported identifiers of a ledger exactly if a
/// transaction of one of its files carries it and it begins with the
/// identifier mark.
pub proof fn lemma_imported_ids(ledger: Seq<Seq<DirectiveView>>, link: Seq<char>)
    ensures
        imported_ids(ledger).contains(link) <==> exists|f: int, i: int|
            0 <= f < ledger.len() && 0 <= i < ledger[f].len() && id_links(#[trigger] ledger[f][i]).contains(link),
    decreases ledger.len(),
{
    if ledger.len() > 0 {
        let front = ledger.drop_last();
        lemma_imported_ids(front, link);
        lemma_file_ids(ledger.last(), link);
        if imported_ids(ledger).contains(link) {
            if file_ids(ledger.last()).contains(link) {
                let i = choose|i: int|
                    0 <= i < ledger.last().len() && id_links(#[trigger] ledger.last()[i]).contains(link);
                assert(id_links(ledger[ledger.len() - 1][i]).contains(link));
            } else {
                let (f, i) = choose|f: int, i: int|
                    0 <= f < front.len() && 0 <= i < front[f].len() && id_links(#[trigger] front[f][i]).contains(link);
                assert(id_links(ledger[f][i]).contains(link));
            }
        }
        if exists|f: int, i: int|
            0 <= f < ledger.len() && 0 <= i < ledger[f].len() && id_links(#[trigger] ledger[f][i]).contains(link) {
            let (f, i) = choose|f: int, i: int|
                0 <= f < ledger.len() && 0 <= i < ledger[f].len() && id_links(#[trigger] ledger[f][i]).contains(link);
            if f < front.len() {
                assert(id_links(front[f][i]).contains(link));
            } else {
                assert(id_links(ledger.last()[i]).contains(link));
            }
        }
    }
}

/// The directive made from a record with an identifier is a duplicate
/// wherever the identifier's link is among the imported ones, whatever the
/// record's date, amount and narration are.
pub proof fn lemma_known_identifier_is_duplicate(
    record: TransactionRecordView,
    account: Seq<char>,
    ids: Set<Seq<char>>,
)
    requires
        record.internal_transaction_id.is_some(),
        ids.contains(link_of(record.internal_transaction_id.unwrap())),
        normalized(record, account).is_ok(),
    ensures
        duplicate(normalized(record, account).unwrap(), ids),
{
    let d = normalized(record, account).unwrap();
    assert(d.content->Transaction_0.links == record_links(record));
    assert(ids.contains(d.content->Transaction_0.links[0]));
}

/// Booked records whose identifiers the ledger holds as links add nothing:
/// each of them is filtered out, so what was found before them stays as it
/// is, unless one of them cannot be turned into a directive at all.
pub proof fn lemma_known_records_are_filtered(
    found: Seq<DirectiveView>,
    booked: Seq<TransactionRecordView>,
    account: Seq<char>,
    ledger: Seq<Seq<DirectiveView>>,
)
    requires
        forall|j: int|
            0 <= j < booked.len() ==> (#[trigger] booked[j]).internal_transaction_id.is_some()
                && imported_ids(ledger).contains(link_of(booked[j].internal_transaction_id.unwrap())),
    ensures
        new_transactions(found, booked, account, imported_ids(ledger)).is_ok() ==> new_transactions(
            found,
            booked,
            account,
            imported_ids(ledger),
        ) == Ok::<Seq<DirectiveView>, ReconcileError>(found),
    decreases booked.len(),
{
    if booked.len() > 0 {
        assert(booked[0].internal_transaction_id.is_some());
        if normalized(booked[0], account).is_ok() {
            lemma_known_identifier_is_duplicate(booked[0], account, imported_ids(ledger));
            assert forall|j: int| 0 <= j < booked.drop_first().len() implies (#[trigger] booked.drop_first()[j]).internal_transaction_id.is_some()
                && imported_ids(ledger).contains(link_of(booked.drop_first()[j].internal_transaction_id.unwrap())) by {
                assert(booked.drop_first()[j] == booked[j + 1]);
            }
            lemma_known_records_are_filtered(found, booked.drop_first(), account, ledger);
        }
    }
}

/// The link made for an identifier begins with the identifier mark, so a
/// transaction that carries it is found again by the index.
pub proof fn lemma_link_is_indexed(identifier: Seq<char>)
    ensures
        has_id_prefix(link_of(identifier)),
{
    assert(link_of(identifier).subrange(0, id_prefix().len() as int) =~= id_prefix());
}

/// Whether a date is that of a transaction on the account in the file, and
/// no transaction on the account in the file is of a later date.
pub open spec fn latest_in_file(directives: Seq<DirectiveView>, account: Seq<char>, date: Date) -> bool {
    &&& exists|i: int| 0 <= i < directives.len() && posts_to(#[trigger] directives[i], account) && directives[i].date == date
    &&& forall|i: int|
        0 <= i < directives.len() && posts_to(#[trigger] directives[i], account) ==> directives[i].date.days
            <= date.days
}

/// The index's date of the last transaction on an account in a file is the
/// latest date of such a transaction, and there is none exactly where the
/// file holds no transaction on the account.
pub proof fn lemma_file_last_transaction(directives: Seq<DirectiveView>, account: Seq<char>)
    ensures
        match file_last_transaction(directives, account) {
            Some(date) => latest_in_file(directives, account, date),
            None => forall|i: int| 0 <= i < directives.len() ==> !posts_to(#[trigger] directives[i], account),
        },
    decreases directives.len(),
{
    if directives.len() > 0 {
        let front = directives.drop_last();
        let last = directives.last();
        lemma_file_last_transaction(front, account);
        assert forall|i: int| 0 <= i < front.len() implies front[i] == directives[i] by {}
        match file_last_transaction(directives, account) {
            Some(date) => {
                match file_last_transaction(front, account) {
                    Some(known) => {
                        let i = choose|i: int|
                            0 <= i < front.len() && posts_to(#[trigger] front[i], account) && front[i].date == known;
                        assert(posts_to(directives[i], account) && directives[i].date == known);
                        if posts_to(last, account) && known.days < last.date.days {
                            assert(posts_to(directives[directives.len() - 1], account));
                        }
                    },
                    None => {
                        assert(posts_to(directives[directives.len() - 1], account));
                    },
                }
                assert forall|i: int| 0 <= i < directives.len() && posts_to(#[trigger] directives[i], account) implies
                    directives[i].date.days <= date.days by {
                    if i < front.len() {
                        assert(posts_to(front[i], account));
                    }
                }
            },
            None => {
                assert forall|i: int| 0 <= i < directives.len() implies !posts_to(#[trigger] directives[i], account) by {
                    if i < front.len() {
                        assert(!posts_to(front[i], account));
                    }
                }
            },
        }
    }
}

/// Whether a date is that of a transaction on the account in the ledger, and
/// no transaction on the account in the ledger is of a later date.
pub open spec fn latest_in_ledger(ledger: Seq<Seq<DirectiveView>>, account: Seq<char>, date: Date) -> bool {
    &&& exists|f: int, i: int|
        0 <= f < ledger.len() && 0 <= i < ledger[f].len() && posts_to(#[trigger] ledger[f][i], account)
            && ledger[f][i].date == date
    &&& forall|f: int, i: int|
        0 <= f < ledger.len() && 0 <= i < ledger[f].len() && posts_to(#[trigger] ledger[f][i], account)
            ==> ledger[f][i].date.days <= date.days
}

/// The index's date of the last transaction on an account is the latest
/// date of a transaction with a posting on the account, and there is none
/// exactly where the ledger holds no such transaction.
pub proof fn lemma_last_transaction(ledger: Seq<Seq<DirectiveView>>, account: Seq<char>)
    ensures
        match last_transaction(ledger, account) {
            Some(date) => latest_in_ledger(ledger, account, date),
            None => forall|f: int, i: int|
                0 <= f < ledger.len() && 0 <= i < ledger[f].len() ==> !posts_to(#[trigger] ledger[f][i], account),
        },
    decreases ledger.len(),
{
    if ledger.len() > 0 {
        let front = ledger.drop_last();
        let last = ledger.last();
        let n = ledger.len() - 1;
        lemma_last_transaction(front, account);
        lemma_file_last_transaction(last, account);
        assert forall|f: int| 0 <= f < front.len() implies front[f] == ledger[f] by {}
        match last_transaction(ledger, account) {
            Some(date) => {
                let in_front = last_transaction(front, account);
                let in_last = file_last_transaction(last, account);
                if in_front == Some(date) {
                    let (f, i) = choose|f: int, i: int|
                        0 <= f < front.len() && 0 <= i < front[f].len() && posts_to(#[trigger] front[f][i], account)
                            && front[f][i].date == date;
                    assert(posts_to(ledger[f][i], account) && ledger[f][i].date == date);
                } else {
                    assert(in_last == Some(date));
                    let i = choose|i: int| 0 <= i < last.len() && posts_to(#[trigger] last[i], account) && last[i].date == date;
                    assert(posts_to(ledger[n][i], account) && ledger[n][i].date == date);
                }
                assert forall|f: int, i: int|
                    0 <= f < ledger.len() && 0 <= i < ledger[f].len() && posts_to(#[trigger] ledger[f][i], account) implies
                    ledger[f][i].date.days <= date.days by {
                    if f < front.len() {
                        assert(posts_to(front[f][i], account));
                    } else {
                        assert(posts_to(last[i], account));
                    }
                }
            },
            None => {
                assert forall|f: int, i: int| 0 <= f < ledger.len() && 0 <= i < ledger[f].len() implies !posts_to(
                    #[trigger] ledger[f][i],
                    account,
                ) by {
                    if f < front.len() {
                        assert(!posts_to(front[f][i], account));
                    } else {
                        assert(!posts_to(last[i], account));
                    }
                }
            },
        }
    }
}

/// Whether the directive at a position of a file asserts this of the
/// account, and every other assertion of the account in the file is of an
/// earlier date, or of the same date and stands before it.
pub open spec fn last_in_file(directives: Seq<DirectiveView>, account: Seq<char>, found: DatedAmountView, at: int) -> bool {
    &&& 0 <= at < directives.len()
    &&& balance_of(directives[at], account) == Some(found)
    &&& forall|i: int|
        0 <= i < directives.len() && balance_of(#[trigger] directives[i], account).is_some() ==> balance_of(
            directives[i],
            account,
        ).unwrap().date.days < found.date.days || (balance_of(directives[i], account).unwrap().date
            == found.date && i <= at)
}

/// The index's last assertion of an account in a file is its latest-dated
/// assertion there, the last in the file among those of that date, and there
/// is none exactly where the file asserts nothing of the account.
pub proof fn lemma_file_last_balance(directives: Seq<DirectiveView>, account: Seq<char>)
    ensures
        match file_last_balance(directives, account) {
            Some(found) => exists|at: int| last_in_file(directives, account, found, at),
            None => forall|i: int| 0 <= i < directives.len() ==> balance_of(#[trigger] directives[i], account).is_none(),
        },
    decreases directives.len(),
{
    if directives.len() > 0 {
        let front = directives.drop_last();
        let last = directives.last();
        let n = directives.len() - 1;
        lemma_file_last_balance(front, account);
        assert forall|i: int| 0 <= i < front.len() implies front[i] == directives[i] by {}
        match file_last_balance(directives, account) {
            Some(found) => {
                if balance_of(last, account) == Some(found) && file_last_balance(directives, account) == balance_of(
                    last,
                    account,
                ) && (file_last_balance(front, account).is_none() || !(found.date.days < file_last_balance(
                    front,
                    account,
                ).unwrap().date.days)) {
                    assert forall|i: int|
                        0 <= i < directives.len() && balance_of(#[trigger] directives[i], account).is_some() implies
                        balance_of(directives[i], account).unwrap().date.days < found.date.days || (balance_of(
                        directives[i],
                        account,
                    ).unwrap().date == found.date && i <= n) by {
                        if i < front.len() {
                            assert(balance_of(front[i], account).is_some());
                            let known = file_last_balance(front, account).unwrap();
                            let at = choose|at: int| last_in_file(front, account, known, at);
                        }
                    }
                    assert(last_in_file(directives, account, found, n));
                } else {
                    assert(file_last_balance(front, account) == Some(found));
                    let at = choose|at: int| last_in_file(front, account, found, at);
                    assert forall|i: int|
                        0 <= i < directives.len() && balance_of(#[trigger] directives[i], account).is_some() implies
                        balance_of(directives[i], account).unwrap().date.days < found.date.days || (balance_of(
                        directives[i],
                        account,
                    ).unwrap().date == found.date && i <= at) by {
                        if i < front.len() {
                            assert(balance_of(front[i], account).is_some());
                        }
                    }
                    assert(last_in_file(directives, account, found, at));
                }
            },
            None => {
                assert forall|i: int| 0 <= i < directives.len() implies balance_of(
                    #[trigger] directives[i],
                    account,
                ).is_none() by {
                    if i < front.len() {
                        assert(balance_of(front[i], account).is_none());
                    }
                }
            },
        }
    }
}

/// Whether the directive at a position of a file of the ledger asserts this
/// of the account, and every other assertion of the account in the ledger is
/// of an earlier date, or of the same date and met before it: in an earlier
/// file, or before it in the same file.
pub open spec fn last_in_ledger(
    ledger: Seq<Seq<DirectiveView>>,
    account: Seq<char>,
    found: DatedAmountView,
    file: int,
    at: int,
) -> bool {
    &&& 0 <= file < ledger.len()
    &&& 0 <= at < ledger[file].len()
    &&& balance_of(ledger[file][at], account) == Some(found)
    &&& forall|f: int, i: int|
        0 <= f < ledger.len() && 0 <= i < ledger[f].len() && balance_of(#[trigger] ledger[f][i], account).is_some()
            ==> balance_of(ledger[f][i], account).unwrap().date.days < found.date.days || (balance_of(
            ledger[f][i],
            account,
        ).unwrap().date == found.date && (f < file || (f == file && i <= at)))
}

/// The index's last assertion of an account is the latest-dated assertion
/// of it in the ledger, the last that is met among those of that date, and
/// there is none exactly where the ledger asserts nothing of the account.
pub proof fn lemma_last_balance(ledger: Seq<Seq<DirectiveView>>, account: Seq<char>)
    ensures
        match last_balance(ledger, account) {
            Some(found) => exists|file: int, at: int| last_in_ledger(ledger, account, found, file, at),
            None => forall|f: int, i: int|
                0 <= f < ledger.len() && 0 <= i < ledger[f].len() ==> balance_of(#[trigger] ledger[f][i], account).is_none(),
        },
    decreases ledger.len(),
{
    if ledger.len() > 0 {
        let front = ledger.drop_last();
        let last = ledger.last();
        let n = ledger.len() - 1;
        lemma_last_balance(front, account);
        lemma_file_last_balance(last, account);
        assert forall|f: int| 0 <= f < front.len() implies front[f] == ledger[f] by {}
        let in_front = last_balance(front, account);
        let in_last = file_last_balance(last, account);
        match last_balance(ledger, account) {
            Some(found) => {
                if in_last.is_some() && (in_front.is_none() || !(in_last.unwrap().date.days
                    < in_front.unwrap().date.days)) {
                    assert(in_last == Some(found));
                    let at = choose|at: int| last_in_file(last, account, found, at);
                    assert forall|f: int, i: int|
                        0 <= f < ledger.len() && 0 <= i < ledger[f].len() && balance_of(
                            #[trigger] ledger[f][i],
                            account,
                        ).is_some() implies balance_of(ledger[f][i], account).unwrap().date.days < found.date.days || (
                    balance_of(ledger[f][i], account).unwrap().date == found.date && (f < n || (f == n && i
                        <= at))) by {
                        if f < front.len() {
                            assert(balance_of(front[f][i], account).is_some());
                            let known = in_front.unwrap();
                            let (g, k) = choose|g: int, k: int| last_in_ledger(front, account, known, g, k);
                        } else {
                            assert(balance_of(last[i], account).is_some());
                        }
                    }
                    assert(last_in_ledger(ledger, account, found, n, at));
                } else {
                    assert(in_front == Some(found));
                    let (g, k) = choose|g: int, k: int| last_in_ledger(front, account, found, g, k);
                    assert forall|f: int, i: int|
                        0 <= f < ledger.len() && 0 <= i < ledger[f].len() && balance_of(
                            #[trigger] ledger[f][i],
                            account,
                        ).is_some() implies balance_of(ledger[f][i], account).unwrap().date.days < found.date.days || (
                    balance_of(ledger[f][i], account).unwrap().date == found.date && (f < g || (f == g && i
                        <= k))) by {
                        if f < front.len() {
                            assert(balance_of(front[f][i], account).is_some());
                        } else {
                            assert(balance_of(last[i], account).is_some());
                            let known = in_last.unwrap();
                            let at = choose|at: int| last_in_file(last, account, known, at);
                        }
                    }
                    assert(last_in_ledger(ledger, account, found, g, k));
                }
            },
            None => {
                assert forall|f: int, i: int| 0 <= f < ledger.len() && 0 <= i < ledger[f].len() implies balance_of(
                    #[trigger] ledger[f][i],
                    account,
                ).is_none() by {
                    if f < front.len() {
                        assert(balance_of(front[f][i], account).is_none());
                    } else {
                        assert(balance_of(last[i], account).is_none());
                    }
                }
            },
        }
    }
}

} // verus!
