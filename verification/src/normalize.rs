use vstd::prelude::*;
use vstd::string::*;
use crate::date::Date;
use crate::decimal::{Decimal, DecimalValue};
use crate::error::ReconcileError;
use crate::feed::{CurrencyExchange, CurrencyExchangeView, TransactionRecord, TransactionRecordView, optional_exchange};
use crate::model::{
    Account, Amount, AmountView, Directive, DirectiveContent, DirectiveContentView, DirectiveView,
    MetadataEntry, MetadataEntryView, MetadataValue, MetadataValueView, Posting, PostingView,
    Transaction, TransactionView, metadata_view,
};
use crate::text::{joined, link_of, optional_text, text_list, join, make_link, copy_optional_text};

verus! {

/// What a transaction is about: the structured remittance lines joined by a
/// comma and a space where there are any; else the unstructured remittance
/// text; else the creditor's name; else nothing.
pub open spec fn narration_of(record: TransactionRecordView) -> Option<Seq<char>> {
    if record.remittance_information_unstructured_array.is_some()
        && record.remittance_information_unstructured_array.unwrap().len() > 0 {
        Some(joined(record.remittance_information_unstructured_array.unwrap()))
    } else if record.remittance_information_unstructured.is_some() {
        record.remittance_information_unstructured
    } else {
        record.creditor_name
    }
}

/// The entry for a key that the record holds; nothing where it does not.
pub open spec fn text_entry(key: Seq<char>, value: Option<Seq<char>>) -> Seq<MetadataEntryView> {
    match value {
        Some(v) => seq![MetadataEntryView { key: key, value: MetadataValueView::Text(v) }],
        None => Seq::empty(),
    }
}

/// The entries for an exchange of currencies.
pub open spec fn exchange_metadata(exchange: Option<CurrencyExchangeView>) -> Seq<MetadataEntryView> {
    match exchange {
        Some(e) => text_entry("source_currency"@, e.source_currency) + text_entry(
            "exchange_rate"@,
            e.exchange_rate,
        ) + text_entry("target_currency"@, e.target_currency),
        None => Seq::empty(),
    }
}

/// The metadata of the directive for a record: one entry for each of these
/// fields that the record holds, and none for a field that it lacks.
pub open spec fn record_metadata(record: TransactionRecordView) -> Seq<MetadataEntryView> {
    text_entry("booking_date_time"@, record.booking_date_time) + text_entry(
        "value_date_time"@,
        record.value_date_time,
    ) + text_entry("from_name"@, record.debtor_name) + text_entry("from_iban"@, record.debtor_iban)
        + text_entry("to_name"@, record.creditor_name) + text_entry("to_iban"@, record.creditor_iban)
        + exchange_metadata(record.currency_exchange) + text_entry(
        "transaction_code"@,
        record.proprietary_bank_transaction_code,
    )
}

/// The links of the directive for a record: the one for the bank's
/// identifier, where the record has one.
pub open spec fn record_links(record: TransactionRecordView) -> Seq<Seq<char>> {
    match record.internal_transaction_id {
        Some(id) => seq![link_of(id)],
        None => Seq::empty(),
    }
}

/// The directive for a record, given the date and the number that were read
/// from it: a transaction, not yet balanced, with one posting on the account.
pub open spec fn transaction_directive(
    record: TransactionRecordView,
    account: Seq<char>,
    date: Date,
    value: DecimalValue,
) -> DirectiveView {
    DirectiveView {
        date: date,
        content: DirectiveContentView::Transaction(
            TransactionView {
                narration: narration_of(record),
                links: record_links(record),
                postings: seq![
                    PostingView {
                        account: account,
                        amount: Some(AmountView { value: value, currency: record.currency }),
                        autocomputed: false,
                    },
                ],
                balanced: false,
            },
        ),
        metadata: record_metadata(record),
    }
}

/// The directive for a record, or why there is none: a record without a
/// booking date or without a readable amount lacks a field, and a booking
/// date that is no date is malformed.
pub open spec fn normalized(record: TransactionRecordView, account: Seq<char>) -> Result<DirectiveView, ReconcileError> {
    match record.booking_date {
        None => Err(ReconcileError::MissingField),
        Some(text) => match Date::parsed(text) {
            Err(e) => Err(e),
            Ok(date) => match DecimalValue::read(record.amount) {
                None => Err(ReconcileError::MissingField),
                Some(value) => Ok(transaction_directive(record, account, date, value)),
            },
        },
    }
}

/// The view of a directive that was made, or the reason why none was.
pub open spec fn directive_outcome(r: Result<Directive, ReconcileError>) -> Result<DirectiveView, ReconcileError> {
    match r {
        Ok(d) => Ok(d@),
        Err(e) => Err(e),
    }
}

/// What a transaction is about, by the first of these that the record
/// holds: its structured remittance lines, its unstructured remittance text,
/// the creditor's name.
pub fn narration(record: &TransactionRecord) -> (r: Option<String>)
    ensures
        optional_text(r) == narration_of(record@),
{
    match &record.remittance_information_unstructured_array {
        Some(lines) => {
            if lines.len() > 0 {
                return Some(join(lines));
            }
        },
        None => {},
    }
    match &record.remittance_information_unstructured {
        Some(text) => {
            return Some(text.clone());
        },
        None => {},
    }
    copy_optional_text(&record.creditor_name)
}

fn push_text(entries: &mut Vec<MetadataEntry>, key: &str, value: &Option<String>)
    ensures
        metadata_view(final(entries)@) == metadata_view(old(entries)@) + text_entry(key@, optional_text(*value)),
{
    match value {
        Some(v) => {
            entries.push(MetadataEntry { key: String::from_str(key), value: MetadataValue::Text(v.clone()) });
        },
        None => {},
    }
    assert(metadata_view(entries@) =~= metadata_view(old(entries)@) + text_entry(key@, optional_text(*value)));
}

fn push_exchange(entries: &mut Vec<MetadataEntry>, exchange: &Option<CurrencyExchange>)
    ensures
        metadata_view(final(entries)@) == metadata_view(old(entries)@) + exchange_metadata(optional_exchange(*exchange)),
{
    match exchange {
        Some(e) => {
            push_text(entries, "source_currency", &e.source_currency);
            push_text(entries, "exchange_rate", &e.exchange_rate);
            push_text(entries, "target_currency", &e.target_currency);
        },
        None => {},
    }
    assert(metadata_view(entries@) =~= metadata_view(old(entries)@) + exchange_metadata(optional_exchange(*exchange)));
}

/// The metadata for a record: an entry for each field that it holds.
pub fn transaction_metadata(record: &TransactionRecord) -> (r: Vec<MetadataEntry>)
    ensures
        metadata_view(r@) == record_metadata(record@),
{
    let mut entries: Vec<MetadataEntry> = Vec::new();
    push_text(&mut entries, "booking_date_time", &record.booking_date_time);
    push_text(&mut entries, "value_date_time", &record.value_date_time);
    push_text(&mut entries, "from_name", &record.debtor_name);
    push_text(&mut entries, "from_iban", &record.debtor_iban);
    push_text(&mut entries, "to_name", &record.creditor_name);
    push_text(&mut entries, "to_iban", &record.creditor_iban);
    push_exchange(&mut entries, &record.currency_exchange);
    push_text(&mut entries, "transaction_code", &record.proprietary_bank_transaction_code);
    assert(metadata_view(entries@) =~= record_metadata(record@));
    entries
}

/// The directive for a record whose date and amount have been read.
pub fn build_transaction(record: &TransactionRecord, account: &Account, date: Date, value: Decimal) -> (r: Directive)
    ensures
        r@ == transaction_directive(record@, account@, date, value@),
{
    let mut links: Vec<String> = Vec::new();
    match &record.internal_transaction_id {
        Some(id) => {
            links.push(make_link(id.as_str()));
        },
        None => {},
    }
    assert(text_list(links@) =~= record_links(record@));
    let mut postings: Vec<Posting> = Vec::new();
    postings.push(
        Posting {
            account: account.clone(),
            amount: Some(Amount { value, currency: record.currency.clone() }),
            autocomputed: false,
        },
    );
    let transaction = Transaction { narration: narration(record), links, postings, balanced: false };
    let r = Directive {
        date,
        content: DirectiveContent::Transaction(transaction),
        metadata: transaction_metadata(record),
    };
    assert(transaction@.postings =~= transaction_directive(record@, account@, date, value@).content->Transaction_0.postings);
    r
}

/// Turns a bank's transaction record into a ledger directive: a transaction
/// on the booking date with one posting of the record's amount on the account.
pub fn transaction_to_directive(record: &TransactionRecord, account: &Account) -> (r: Result<Directive, ReconcileError>)
    ensures
        directive_outcome(r) == normalized(record@, account@),
{
    let date = match &record.booking_date {
        None => {
            return Err(ReconcileError::MissingField);
        },
        Some(text) => match Date::parse(text.as_str()) {
            Err(e) => {
                return Err(e);
            },
            Ok(date) => date,
        },
    };
    match Decimal::parse(record.amount.as_str()) {
        None => Err(ReconcileError::MissingField),
        Some(value) => Ok(build_transaction(record, account, date, value)),
    }
}

} // verus!
