use vstd::prelude::*;
use crate::bag::Bag;
use crate::date::Date;
use crate::decimal::{Decimal, DecimalValue};
use crate::error::ReconcileError;
use crate::feed::{BalanceRecord, BalanceRecordView};
use crate::index::{DatedAmount, DatedAmountView};
use crate::model::{
    Account, Amount, AmountView, Balance, BalanceView, Directive, DirectiveContent, DirectiveContentView,
    DirectiveView, MetadataEntry, MetadataEntryView, metadata_view,
};

verus! {

/// The reported amount without what is still pending in its currency. Where
/// the bag holds nothing of the currency the amount stays as reported; there
/// is none where the difference cannot be held.
pub open spec fn adjusted(reported: AmountView, pending: Map<Seq<char>, DecimalValue>) -> Option<AmountView> {
    if pending.contains_key(reported.currency) {
        match reported.value.minus(pending[reported.currency]) {
            Some(value) => Some(AmountView { value: value, currency: reported.currency }),
            None => None,
        }
    } else {
        Some(reported)
    }
}

/// Whether the ledger's last assertion of an account already states an amount.
pub open spec fn already_asserted(last: Option<DatedAmountView>, amount: AmountView) -> bool {
    last.is_some() && amount.equals(last.unwrap().amount)
}

/// The date of a new assertion: the bank's reference date where it gives
/// one, else the day after the account's latest transaction.
pub open spec fn assertion_date(reference_date: Option<Seq<char>>, latest: Option<Date>) -> Result<Date, ReconcileError> {
    match reference_date {
        Some(text) => Date::parsed(text),
        None => match latest {
            None => Err(ReconcileError::NoReferenceDate),
            Some(d) => match d.successor() {
                Some(next) => Ok(next),
                None => Err(ReconcileError::Overflow),
            },
        },
    }
}

/// The directive that asserts an amount of an account on a date. It carries no metadata.
pub open spec fn assertion(account: Seq<char>, date: Date, amount: AmountView) -> DirectiveView {
    DirectiveView {
        date: date,
        content: DirectiveContentView::Balance(BalanceView { account: account, amount: amount }),
        metadata: Seq::empty(),
    }
}

/// What follows from an amount that the bank reports for an account: no
/// directive where the ledger's last assertion already states the adjusted
/// amount, else a new assertion of it.
pub open spec fn decided(
    account: Seq<char>,
    reported: AmountView,
    reference_date: Option<Seq<char>>,
    pending: Map<Seq<char>, DecimalValue>,
    last: Option<DatedAmountView>,
    latest: Option<Date>,
) -> Result<Option<DirectiveView>, ReconcileError> {
    match adjusted(reported, pending) {
        None => Err(ReconcileError::Overflow),
        Some(amount) => if already_asserted(last, amount) {
            Ok(None)
        } else {
            match assertion_date(reference_date, latest) {
                Err(e) => Err(e),
                Ok(date) => Ok(Some(assertion(account, date, amount))),
            }
        },
    }
}

/// What follows from a balance record of the bank: its amount is read
/// without loss, then decided as above.
pub open spec fn balance_outcome(
    account: Seq<char>,
    record: BalanceRecordView,
    pending: Map<Seq<char>, DecimalValue>,
    last: Option<DatedAmountView>,
    latest: Option<Date>,
) -> Result<Option<DirectiveView>, ReconcileError> {
    match DecimalValue::read_exact(record.amount) {
        None => Err(ReconcileError::ParseFailure),
        Some(value) => decided(
            account,
            AmountView { value: value, currency: record.currency },
            record.reference_date,
            pending,
            last,
            latest,
        ),
    }
}

/// The view of a directive that may have been made, or the reason for a failure.
pub open spec fn optional_directive_outcome(r: Result<Option<Directive>, ReconcileError>) -> Result<Option<DirectiveView>, ReconcileError> {
    match r {
        Ok(Some(d)) => Ok(Some(d@)),
        Ok(None) => Ok(None),
        Err(e) => Err(e),
    }
}

/// The view of a last assertion, where there is one.
pub open spec fn optional_dated_amount(last: Option<&DatedAmount>) -> Option<DatedAmountView> {
    match last {
        Some(b) => Some(b@),
        None => None,
    }
}

/// The view of an amount, where there is one.
pub open spec fn optional_amount_outcome(r: Option<Amount>) -> Option<AmountView> {
    match r {
        Some(a) => Some(a@),
        None => None,
    }
}

/// Takes what is pending in the amount's currency out of a reported amount.
pub fn adjusted_amount(reported: Amount, pending: &Bag) -> (r: Option<Amount>)
    ensures
        optional_amount_outcome(r) == adjusted(reported@, pending@),
{
    match pending.lookup(&reported.currency) {
        Some(held) => match reported.value.checked_sub(&held) {
            Some(value) => Some(Amount { value, currency: reported.currency }),
            None => None,
        },
        None => Some(reported),
    }
}

/// Picks the date of a new assertion.
pub fn pick_assertion_date(reference_date: &Option<String>, latest: Option<Date>) -> (r: Result<Date, ReconcileError>)
    ensures
        r == assertion_date(crate::text::optional_text(*reference_date), latest),
{
    match reference_date {
        Some(text) => Date::parse(text.as_str()),
        None => match latest {
            None => Err(ReconcileError::NoReferenceDate),
            Some(d) => match d.next_day() {
                Some(next) => Ok(next),
                None => Err(ReconcileError::Overflow),
            },
        },
    }
}

/// Decides what follows from an amount that the bank reports for an account.
pub fn decide_balance(
    account: &Account,
    reported: Amount,
    reference_date: &Option<String>,
    pending: &Bag,
    last: Option<&DatedAmount>,
    latest: Option<Date>,
) -> (r: Result<Option<Directive>, ReconcileError>)
    ensures
        optional_directive_outcome(r) == decided(
            account@,
            reported@,
            crate::text::optional_text(*reference_date),
            pending@,
            optional_dated_amount(last),
            latest,
        ),
{
    let amount = match adjusted_amount(reported, pending) {
        None => {
            return Err(ReconcileError::Overflow);
        },
        Some(amount) => amount,
    };
    match last {
        Some(known) => {
            if amount.equals(&known.amount) {
                return Ok(None);
            }
        },
        None => {},
    }
    let date = match pick_assertion_date(reference_date, latest) {
        Err(e) => {
            return Err(e);
        },
        Ok(date) => date,
    };
    let metadata: Vec<MetadataEntry> = Vec::new();
    assert(metadata_view(metadata@) =~= Seq::<MetadataEntryView>::empty());
    Ok(
        Some(
            Directive {
                date,
                content: DirectiveContent::Balance(Balance { account: account.clone(), amount }),
                metadata,
            },
        ),
    )
}

/// Reconciles a balance record of the bank with what the ledger last
/// asserted of the account.
pub fn reconcile_balance(
    account: &Account,
    record: &BalanceRecord,
    pending: &Bag,
    last: Option<&DatedAmount>,
    latest: Option<Date>,
) -> (r: Result<Option<Directive>, ReconcileError>)
    ensures
        optional_directive_outcome(r) == balance_outcome(
            account@,
            record@,
            pending@,
            optional_dated_amount(last),
            latest,
        ),
{
    match Decimal::parse_exact(record.amount.as_str()) {
        None => Err(ReconcileError::ParseFailure),
        Some(value) => decide_balance(
            account,
            Amount { value, currency: record.currency.clone() },
            &record.reference_date,
            pending,
            last,
            latest,
        ),
    }
}

} // verus!
