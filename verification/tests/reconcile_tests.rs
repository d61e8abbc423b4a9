use ledger_reconcile::balance::{adjusted_amount, decide_balance, pick_assertion_date, reconcile_balance};
use ledger_reconcile::bag::Bag;
use ledger_reconcile::date::Date;
use ledger_reconcile::decimal::Decimal;
use ledger_reconcile::dedup::is_duplicate;
use ledger_reconcile::error::ReconcileError;
use ledger_reconcile::feed::{AccountFeed, BalanceRecord, BankFeed, CurrencyExchange, TransactionFeed, TransactionRecord};
use ledger_reconcile::index::{DatedAmount, HistoryIndex, IdSet};
use ledger_reconcile::model::{
    Account, Amount, Balance, Directive, DirectiveContent, Ledger, LedgerFile, MetadataEntry, MetadataValue, Open,
    Posting, Transaction,
};
use ledger_reconcile::normalize::{narration, transaction_to_directive};
use ledger_reconcile::order::order_for_append;
use ledger_reconcile::reconcile::{configured_accounts, reconcile};

fn date(text: &str) -> Date {
    Date::parse(text).unwrap()
}

fn dec(text: &str) -> Decimal {
    Decimal::parse(text).unwrap()
}

fn account(name: &str) -> Account {
    Account { name: name.to_string() }
}

fn amount(value: &str, currency: &str) -> Amount {
    Amount { value: dec(value), currency: currency.to_string() }
}

fn record(id: Option<&str>, booking_date: Option<&str>, value: &str, currency: &str) -> TransactionRecord {
    TransactionRecord {
        booking_date: booking_date.map(|s| s.to_string()),
        booking_date_time: None,
        value_date_time: None,
        debtor_name: None,
        debtor_iban: None,
        creditor_name: None,
        creditor_iban: None,
        currency_exchange: None,
        proprietary_bank_transaction_code: None,
        internal_transaction_id: id.map(|s| s.to_string()),
        remittance_information_unstructured_array: None,
        remittance_information_unstructured: None,
        amount: value.to_string(),
        currency: currency.to_string(),
    }
}

fn open_directive(name: &str, account_id: &str) -> Directive {
    Directive {
        date: date("2024-01-01"),
        content: DirectiveContent::Open(Open { account: account(name) }),
        metadata: vec![
            MetadataEntry { key: "importer".to_string(), value: MetadataValue::Text("gocardless".to_string()) },
            MetadataEntry { key: "account_id".to_string(), value: MetadataValue::Text(account_id.to_string()) },
        ],
    }
}

fn balance_directive(day: &str, name: &str, value: &str, currency: &str) -> Directive {
    Directive {
        date: date(day),
        content: DirectiveContent::Balance(Balance { account: account(name), amount: amount(value, currency) }),
        metadata: vec![],
    }
}

fn transaction_directive(day: &str, name: &str, links: &[&str]) -> Directive {
    Directive {
        date: date(day),
        content: DirectiveContent::Transaction(Transaction {
            narration: None,
            links: links.iter().map(|s| s.to_string()).collect(),
            postings: vec![Posting { account: account(name), amount: None, autocomputed: false }],
            balanced: true,
        }),
        metadata: vec![],
    }
}

fn feed_for(account_id: &str, booked: Vec<TransactionRecord>, pending: Vec<TransactionRecord>, balances: Vec<BalanceRecord>) -> AccountFeed {
    AccountFeed {
        account_id: account_id.to_string(),
        transactions: Some(TransactionFeed { booked, pending }),
        balances: Some(balances),
    }
}

fn dates_of(directives: &[Directive]) -> Vec<Date> {
    directives.iter().map(|d| d.date).collect()
}

fn balance_of(d: &Directive) -> (&str, &Amount) {
    match &d.content {
        DirectiveContent::Balance(b) => (b.account.name.as_str(), &b.amount),
        _ => panic!("not a balance assertion"),
    }
}

#[test]
fn date_parses_and_orders() {
    let a = date("2024-03-05");
    let b = date("2024-03-06");
    assert!(a.is_before(&b));
    assert!(!b.is_before(&a));
    assert!(!a.is_before(&a));
    assert_eq!(a.next_day(), Some(b));
    assert_eq!(date("1970-01-01").days, 719_163);
    assert_eq!(date("0001-01-01").days, 1);
}

#[test]
fn date_rejects_malformed_text() {
    assert_eq!(Date::parse("05.03.2024"), Err(ReconcileError::ParseFailure));
    assert_eq!(Date::parse(""), Err(ReconcileError::ParseFailure));
    assert_eq!(Date::parse("2024-02-30"), Err(ReconcileError::ParseFailure));
}

#[test]
fn date_next_day_crosses_month_and_leap_day() {
    assert_eq!(date("2024-02-28").next_day(), Some(date("2024-02-29")));
    assert_eq!(date("2023-02-28").next_day(), Some(date("2023-03-01")));
    assert_eq!(date("2024-12-31").next_day(), Some(date("2025-01-01")));
}

#[test]
fn date_next_day_stops_at_the_last_day() {
    let last = Date { days: ledger_reconcile::date::LAST_DAY };
    assert_eq!(last.next_day(), None);
    let before_last = Date { days: ledger_reconcile::date::LAST_DAY - 1 };
    assert_eq!(before_last.next_day(), Some(last));
    let first = Date { days: ledger_reconcile::date::FIRST_DAY };
    assert_eq!(first.next_day(), Some(Date { days: ledger_reconcile::date::FIRST_DAY + 1 }));
    let before_first = Date { days: ledger_reconcile::date::FIRST_DAY - 1 };
    assert_eq!(before_first.next_day(), None);
    assert_eq!(date("+262142-12-31"), last);
    assert_eq!(date("-262143-01-01"), first);
}

#[test]
fn decimal_parts_and_equality() {
    let a = dec("85.00");
    assert_eq!(a.mantissa(), 8500);
    assert_eq!(a.scale(), 2);
    let b = dec("85");
    assert_eq!(b.mantissa(), 85);
    assert_eq!(b.scale(), 0);
    assert!(a.same_number(&b));
    assert!(!a.same_number(&dec("84.00")));
    assert!(dec("-0.5").same_number(&dec("-0.50")));
    assert!(!dec("0.5").same_number(&dec("-0.5")));
}

#[test]
fn decimal_new_checks_the_range() {
    assert!(Decimal::new(1, 29).is_none());
    assert!(Decimal::new(ledger_reconcile::decimal::MAX_MANTISSA + 1, 0).is_none());
    assert!(Decimal::new(-ledger_reconcile::decimal::MAX_MANTISSA - 1, 0).is_none());
    let d = Decimal::new(-12345, 3).unwrap();
    assert_eq!(d.mantissa(), -12345);
    assert_eq!(d.scale(), 3);
    assert!(d.same_number(&dec("-12.345")));
    assert!(Decimal::new(ledger_reconcile::decimal::MAX_MANTISSA, 28).is_some());
    assert_eq!(Decimal::zero().mantissa(), 0);
}

#[test]
fn decimal_sum_and_difference() {
    let sum = dec("100.00").checked_add(&dec("15.5")).unwrap();
    assert!(sum.same_number(&dec("115.5")));
    let difference = dec("100.00").checked_sub(&dec("15.00")).unwrap();
    assert_eq!(difference.mantissa(), 8500);
    assert_eq!(difference.scale(), 2);
    let largest = Decimal::new(ledger_reconcile::decimal::MAX_MANTISSA, 0).unwrap();
    assert!(largest.checked_add(&largest).is_none());
    assert!(largest.checked_sub(&Decimal::new(-1, 0).unwrap()).is_none());
}

#[test]
fn decimal_rejects_malformed_text() {
    assert!(Decimal::parse("abc").is_none());
    assert!(Decimal::parse("").is_none());
    assert!(Decimal::parse_exact("1.2.3").is_none());
    assert!(Decimal::parse_exact("0.00000000000000000000000000001").is_none());
    assert!(Decimal::parse("0.00000000000000000000000000001").is_some());
}

#[test]
fn bag_adds_by_currency() {
    let mut bag = Bag::new();
    assert!(bag.get(&"USD".to_string()).same_number(&Decimal::zero()));
    assert!(bag.lookup(&"USD".to_string()).is_none());
    bag.add(&amount("10.00", "USD")).unwrap();
    bag.add(&amount("5.00", "USD")).unwrap();
    bag.add(&amount("7", "EUR")).unwrap();
    assert!(bag.get(&"USD".to_string()).same_number(&dec("15")));
    assert!(bag.get(&"EUR".to_string()).same_number(&dec("7")));
    assert!(bag.get(&"CHF".to_string()).same_number(&dec("0")));
    assert!(bag.lookup(&"CHF".to_string()).is_none());
    assert!(bag.lookup(&"EUR".to_string()).unwrap().same_number(&dec("7")));
}

#[test]
fn bag_overflow_leaves_the_bag() {
    let mut bag = Bag::new();
    let largest = Decimal::new(ledger_reconcile::decimal::MAX_MANTISSA, 0).unwrap();
    bag.add(&Amount { value: largest, currency: "USD".to_string() }).unwrap();
    assert_eq!(bag.add(&Amount { value: largest, currency: "USD".to_string() }), Err(ReconcileError::Overflow));
    assert!(bag.get(&"USD".to_string()).same_number(&largest));
}

#[test]
fn narration_prefers_structured_lines() {
    let mut r = record(None, Some("2024-03-01"), "1", "USD");
    r.remittance_information_unstructured_array = Some(vec!["rent".to_string(), "march".to_string()]);
    r.remittance_information_unstructured = Some("free text".to_string());
    r.creditor_name = Some("Landlord".to_string());
    assert_eq!(narration(&r), Some("rent, march".to_string()));
    r.remittance_information_unstructured_array = Some(vec![]);
    assert_eq!(narration(&r), Some("free text".to_string()));
    r.remittance_information_unstructured_array = None;
    assert_eq!(narration(&r), Some("free text".to_string()));
    r.remittance_information_unstructured = None;
    assert_eq!(narration(&r), Some("Landlord".to_string()));
    r.creditor_name = None;
    assert_eq!(narration(&r), None);
}

#[test]
fn narration_of_one_line_has_no_separator() {
    let mut r = record(None, Some("2024-03-01"), "1", "USD");
    r.remittance_information_unstructured_array = Some(vec!["only".to_string()]);
    assert_eq!(narration(&r), Some("only".to_string()));
}

#[test]
fn record_becomes_single_posting_transaction() {
    let mut r = record(Some("abc123"), Some("2024-03-05"), "-12.50", "EUR");
    r.booking_date_time = Some("2024-03-05T10:00:00Z".to_string());
    r.value_date_time = Some("2024-03-06T00:00:00Z".to_string());
    r.debtor_name = Some("Me".to_string());
    r.debtor_iban = Some("DE00".to_string());
    r.creditor_name = Some("Shop".to_string());
    r.creditor_iban = Some("FR00".to_string());
    r.currency_exchange = Some(CurrencyExchange {
        source_currency: Some("USD".to_string()),
        exchange_rate: Some("1.1".to_string()),
        target_currency: Some("EUR".to_string()),
    });
    r.proprietary_bank_transaction_code = Some("CARD".to_string());
    let d = transaction_to_directive(&r, &account("Assets:Bank")).unwrap();
    assert_eq!(d.date, date("2024-03-05"));
    let keys: Vec<(&str, &str)> = d
        .metadata
        .iter()
        .map(|e| match &e.value {
            MetadataValue::Text(t) => (e.key.as_str(), t.as_str()),
            _ => panic!("metadata value is no text"),
        })
        .collect();
    assert_eq!(
        keys,
        vec![
            ("booking_date_time", "2024-03-05T10:00:00Z"),
            ("value_date_time", "2024-03-06T00:00:00Z"),
            ("from_name", "Me"),
            ("from_iban", "DE00"),
            ("to_name", "Shop"),
            ("to_iban", "FR00"),
            ("source_currency", "USD"),
            ("exchange_rate", "1.1"),
            ("target_currency", "EUR"),
            ("transaction_code", "CARD"),
        ]
    );
    match &d.content {
        DirectiveContent::Transaction(t) => {
            assert_eq!(t.narration, Some("Shop".to_string()));
            assert_eq!(t.links, vec!["id-abc123".to_string()]);
            assert!(!t.balanced);
            assert_eq!(t.postings.len(), 1);
            assert_eq!(t.postings[0].account.name, "Assets:Bank");
            assert!(!t.postings[0].autocomputed);
            let a = t.postings[0].amount.as_ref().unwrap();
            assert_eq!(a.currency, "EUR");
            assert_eq!(a.value.mantissa(), -1250);
            assert_eq!(a.value.scale(), 2);
        }
        _ => panic!("not a transaction"),
    }
}

#[test]
fn record_without_fields_has_no_metadata_and_no_link() {
    let r = record(None, Some("2024-03-05"), "1", "USD");
    let d = transaction_to_directive(&r, &account("Assets:Bank")).unwrap();
    assert!(d.metadata.is_empty());
    match &d.content {
        DirectiveContent::Transaction(t) => {
            assert!(t.links.is_empty());
            assert_eq!(t.narration, None);
        }
        _ => panic!("not a transaction"),
    }
}

#[test]
fn record_without_booking_date_lacks_a_field() {
    let r = record(Some("x"), None, "1", "USD");
    assert_eq!(transaction_to_directive(&r, &account("A")).unwrap_err(), ReconcileError::MissingField);
}

#[test]
fn record_with_malformed_date_fails_to_parse() {
    let r = record(Some("x"), Some("yesterday"), "1", "USD");
    assert_eq!(transaction_to_directive(&r, &account("A")).unwrap_err(), ReconcileError::ParseFailure);
}

#[test]
fn record_without_readable_amount_lacks_a_field() {
    let r = record(Some("x"), Some("2024-03-05"), "lots", "USD");
    assert_eq!(transaction_to_directive(&r, &account("A")).unwrap_err(), ReconcileError::MissingField);
}

#[test]
fn duplicate_is_decided_by_link_alone() {
    let mut ids = IdSet::new();
    ids.insert("id-abc".to_string());
    let first = transaction_to_directive(&record(Some("abc"), Some("2024-03-05"), "1.00", "USD"), &account("A")).unwrap();
    let mut other = record(Some("abc"), Some("2023-01-01"), "999", "EUR");
    other.creditor_name = Some("Somebody else".to_string());
    let second = transaction_to_directive(&other, &account("B")).unwrap();
    assert!(is_duplicate(&first, &ids));
    assert!(is_duplicate(&second, &ids));
    let unknown = transaction_to_directive(&record(Some("abd"), Some("2024-03-05"), "1.00", "USD"), &account("A")).unwrap();
    assert!(!is_duplicate(&unknown, &ids));
    let without = transaction_to_directive(&record(None, Some("2024-03-05"), "1.00", "USD"), &account("A")).unwrap();
    assert!(!is_duplicate(&without, &ids));
}

#[test]
fn other_directives_are_never_duplicates() {
    let mut ids = IdSet::new();
    ids.insert("id-abc".to_string());
    assert!(!is_duplicate(&balance_directive("2024-03-05", "A", "1", "USD"), &ids));
    assert!(!is_duplicate(&open_directive("A", "id-abc"), &ids));
    assert!(is_duplicate(&transaction_directive("2024-03-05", "A", &["other", "id-abc"]), &ids));
}

#[test]
fn index_collects_identifier_links_only() {
    let ledger = Ledger {
        files: vec![
            LedgerFile { directives: vec![transaction_directive("2024-03-01", "A", &["id-1", "trip", "idx"])] },
            LedgerFile { directives: vec![transaction_directive("2024-03-02", "B", &["id-2"])] },
        ],
    };
    let index = HistoryIndex::build(&ledger);
    assert!(index.has_id(&"id-1".to_string()));
    assert!(index.has_id(&"id-2".to_string()));
    assert!(!index.has_id(&"trip".to_string()));
    assert!(!index.has_id(&"idx".to_string()));
    assert!(!index.has_id(&"id-3".to_string()));
    assert!(index.imported_ids().contains(&"id-1".to_string()));
}

#[test]
fn index_keeps_latest_transaction_date() {
    let ledger = Ledger {
        files: vec![
            LedgerFile {
                directives: vec![
                    transaction_directive("2024-03-05", "A", &[]),
                    transaction_directive("2024-03-01", "A", &[]),
                ],
            },
            LedgerFile { directives: vec![transaction_directive("2024-03-03", "A", &[]), transaction_directive("2024-02-01", "B", &[])] },
        ],
    };
    let index = HistoryIndex::build(&ledger);
    assert_eq!(index.last_transaction_date(&account("A")), Some(date("2024-03-05")));
    assert_eq!(index.last_transaction_date(&account("B")), Some(date("2024-02-01")));
    assert_eq!(index.last_transaction_date(&account("C")), None);
}

#[test]
fn index_keeps_latest_balance_and_last_seen_on_ties() {
    let ledger = Ledger {
        files: vec![
            LedgerFile {
                directives: vec![
                    balance_directive("2024-03-05", "A", "10", "USD"),
                    balance_directive("2024-03-01", "A", "20", "USD"),
                    balance_directive("2024-03-05", "A", "30", "USD"),
                ],
            },
            LedgerFile { directives: vec![balance_directive("2024-03-04", "A", "40", "USD")] },
        ],
    };
    let index = HistoryIndex::build(&ledger);
    let last = index.last_balance(&account("A")).unwrap();
    assert_eq!(last.date, date("2024-03-05"));
    assert!(last.amount.equals(&amount("30", "USD")));
    assert!(index.last_balance(&account("B")).is_none());
}

#[test]
fn booked_records_are_appended_in_date_order() {
    let mut ledger = Ledger { files: vec![LedgerFile { directives: vec![open_directive("Assets:Bank", "acc-1")] }] };
    let feed = BankFeed {
        accounts: vec![feed_for(
            "acc-1",
            vec![
                record(Some("a"), Some("2024-03-05"), "1", "USD"),
                record(Some("b"), Some("2024-03-01"), "2", "USD"),
                record(Some("c"), Some("2024-03-03"), "3", "USD"),
            ],
            vec![],
            vec![],
        )],
    };
    reconcile(&mut ledger, &feed).unwrap();
    let added = &ledger.files[0].directives[1..];
    assert_eq!(dates_of(added), vec![date("2024-03-01"), date("2024-03-03"), date("2024-03-05")]);
}

#[test]
fn records_of_one_day_come_out_in_reversed_feed_order() {
    let given: Vec<Directive> = vec![
        transaction_directive("2024-03-02", "A", &["n1"]),
        transaction_directive("2024-03-01", "A", &["n2"]),
        transaction_directive("2024-03-02", "A", &["n3"]),
        transaction_directive("2024-03-01", "A", &["n4"]),
    ];
    let ordered = order_for_append(given);
    let names: Vec<String> = ordered
        .iter()
        .map(|d| match &d.content {
            DirectiveContent::Transaction(t) => t.links[0].clone(),
            _ => panic!("not a transaction"),
        })
        .collect();
    assert_eq!(names, vec!["n4", "n2", "n3", "n1"]);
    assert!(order_for_append(vec![]).is_empty());
}

#[test]
fn pending_is_netted_out_of_the_reported_balance() {
    let mut bag = Bag::new();
    bag.add(&amount("15.00", "USD")).unwrap();
    let adjusted = adjusted_amount(amount("100.00", "USD"), &bag).unwrap();
    assert_eq!(adjusted.currency, "USD");
    assert_eq!(adjusted.value.mantissa(), 8500);
    assert_eq!(adjusted.value.scale(), 2);
    let other = adjusted_amount(amount("100.00", "EUR"), &bag).unwrap();
    assert_eq!(other.value.mantissa(), 10000);
    assert_eq!(other.currency, "EUR");
}

#[test]
fn matching_last_assertion_emits_nothing() {
    let mut bag = Bag::new();
    bag.add(&amount("15.00", "USD")).unwrap();
    let record = BalanceRecord { amount: "100.00".to_string(), currency: "USD".to_string(), reference_date: Some("2024-03-10".to_string()) };
    let last = DatedAmount { date: date("2024-03-01"), amount: amount("85.00", "USD") };
    let r = reconcile_balance(&account("A"), &record, &bag, Some(&last), None).unwrap();
    assert!(r.is_none());
}

#[test]
fn differing_or_absent_last_assertion_emits_the_adjusted_amount() {
    let mut bag = Bag::new();
    bag.add(&amount("15.00", "USD")).unwrap();
    let record = BalanceRecord { amount: "100.00".to_string(), currency: "USD".to_string(), reference_date: Some("2024-03-10".to_string()) };
    let last = DatedAmount { date: date("2024-03-01"), amount: amount("84.00", "USD") };
    let d = reconcile_balance(&account("A"), &record, &bag, Some(&last), None).unwrap().unwrap();
    assert_eq!(d.date, date("2024-03-10"));
    assert!(d.metadata.is_empty());
    let (name, a) = balance_of(&d);
    assert_eq!(name, "A");
    assert!(a.equals(&amount("85.00", "USD")));
    let d = reconcile_balance(&account("A"), &record, &bag, None, None).unwrap().unwrap();
    let (_, a) = balance_of(&d);
    assert!(a.equals(&amount("85.00", "USD")));
    let other_currency = DatedAmount { date: date("2024-03-01"), amount: amount("85.00", "EUR") };
    assert!(reconcile_balance(&account("A"), &record, &bag, Some(&other_currency), None).unwrap().is_some());
}

#[test]
fn balance_date_falls_back_to_the_day_after_the_latest_transaction() {
    let record = BalanceRecord { amount: "10".to_string(), currency: "USD".to_string(), reference_date: None };
    let d = reconcile_balance(&account("A"), &record, &Bag::new(), None, Some(date("2024-03-05"))).unwrap().unwrap();
    assert_eq!(d.date, date("2024-03-06"));
    assert_eq!(pick_assertion_date(&None, Some(date("2024-03-05"))), Ok(date("2024-03-06")));
    assert_eq!(pick_assertion_date(&Some("2024-01-02".to_string()), Some(date("2024-03-05"))), Ok(date("2024-01-02")));
}

#[test]
fn balance_without_any_date_fails() {
    let record = BalanceRecord { amount: "10".to_string(), currency: "USD".to_string(), reference_date: None };
    assert_eq!(
        reconcile_balance(&account("A"), &record, &Bag::new(), None, None).unwrap_err(),
        ReconcileError::NoReferenceDate
    );
    assert_eq!(pick_assertion_date(&None, None), Err(ReconcileError::NoReferenceDate));
}

#[test]
fn balance_with_malformed_texts_fails_to_parse() {
    let record = BalanceRecord { amount: "ten".to_string(), currency: "USD".to_string(), reference_date: Some("2024-03-10".to_string()) };
    assert_eq!(
        reconcile_balance(&account("A"), &record, &Bag::new(), None, None).unwrap_err(),
        ReconcileError::ParseFailure
    );
    let record = BalanceRecord { amount: "10".to_string(), currency: "USD".to_string(), reference_date: Some("soon".to_string()) };
    assert_eq!(
        reconcile_balance(&account("A"), &record, &Bag::new(), None, None).unwrap_err(),
        ReconcileError::ParseFailure
    );
}

#[test]
fn balance_date_beyond_the_calendar_overflows() {
    let last = Date { days: ledger_reconcile::date::LAST_DAY };
    assert_eq!(pick_assertion_date(&None, Some(last)), Err(ReconcileError::Overflow));
    let largest = Decimal::new(ledger_reconcile::decimal::MAX_MANTISSA, 0).unwrap();
    let mut bag = Bag::new();
    bag.add(&Amount { value: Decimal::new(-1, 0).unwrap(), currency: "USD".to_string() }).unwrap();
    assert!(adjusted_amount(Amount { value: largest, currency: "USD".to_string() }, &bag).is_none());
    assert_eq!(
        decide_balance(&account("A"), Amount { value: largest, currency: "USD".to_string() }, &None, &bag, None, None)
            .unwrap_err(),
        ReconcileError::Overflow
    );
}

#[test]
fn configured_accounts_need_importer_and_identifier() {
    let mut wrong_importer = open_directive("B", "acc-b");
    wrong_importer.metadata[0].value = MetadataValue::Text("other".to_string());
    let mut no_id = open_directive("C", "acc-c");
    no_id.metadata.pop();
    let mut id_is_number = open_directive("D", "acc-d");
    id_is_number.metadata[1].value = MetadataValue::Number(dec("4"));
    let mut not_open = open_directive("E", "acc-e");
    not_open.content = DirectiveContent::Other;
    let file = LedgerFile {
        directives: vec![open_directive("A", "acc-a"), wrong_importer, no_id, id_is_number, not_open, open_directive("F", "acc-f")],
    };
    let targets = configured_accounts(&file);
    let found: Vec<(&str, &str)> = targets.iter().map(|t| (t.account_id.as_str(), t.account.name.as_str())).collect();
    assert_eq!(found, vec![("acc-a", "A"), ("acc-f", "F")]);
}

#[test]
fn reconcile_appends_transactions_then_balance() {
    let mut ledger = Ledger {
        files: vec![LedgerFile {
            directives: vec![open_directive("Assets:Bank", "acc-1"), transaction_directive("2024-02-01", "Assets:Bank", &["id-old"])],
        }],
    };
    let feed = BankFeed {
        accounts: vec![feed_for(
            "acc-1",
            vec![record(Some("new"), Some("2024-03-05"), "-20.00", "USD"), record(Some("old"), Some("2024-02-01"), "5", "USD")],
            vec![record(None, None, "-15.00", "USD")],
            vec![BalanceRecord { amount: "100.00".to_string(), currency: "USD".to_string(), reference_date: None }],
        )],
    };
    reconcile(&mut ledger, &feed).unwrap();
    let all = &ledger.files[0].directives;
    assert_eq!(all.len(), 4);
    assert_eq!(all[2].date, date("2024-03-05"));
    assert!(matches!(all[2].content, DirectiveContent::Transaction(_)));
    assert_eq!(all[3].date, date("2024-03-06"));
    let (name, a) = balance_of(&all[3]);
    assert_eq!(name, "Assets:Bank");
    assert!(a.equals(&amount("115.00", "USD")));
}

#[test]
fn reconcile_twice_adds_nothing_more() {
    let mut ledger = Ledger { files: vec![LedgerFile { directives: vec![open_directive("Assets:Bank", "acc-1")] }] };
    let feed = BankFeed {
        accounts: vec![feed_for(
            "acc-1",
            vec![record(Some("b"), Some("2024-03-05"), "-20.00", "USD"), record(Some("a"), Some("2024-03-01"), "5", "USD")],
            vec![record(None, Some("2024-03-06"), "-15.00", "USD")],
            vec![BalanceRecord { amount: "100.00".to_string(), currency: "USD".to_string(), reference_date: Some("2024-03-07".to_string()) }],
        )],
    };
    reconcile(&mut ledger, &feed).unwrap();
    assert_eq!(ledger.files[0].directives.len(), 4);
    reconcile(&mut ledger, &feed).unwrap();
    assert_eq!(ledger.files[0].directives.len(), 4);
}

#[test]
fn record_without_identifier_is_imported_again() {
    let mut ledger = Ledger { files: vec![LedgerFile { directives: vec![open_directive("Assets:Bank", "acc-1")] }] };
    let feed = BankFeed {
        accounts: vec![feed_for("acc-1", vec![record(None, Some("2024-03-05"), "-20.00", "USD")], vec![], vec![])],
    };
    reconcile(&mut ledger, &feed).unwrap();
    reconcile(&mut ledger, &feed).unwrap();
    assert_eq!(ledger.files[0].directives.len(), 3);
}

#[test]
fn missing_booking_date_fails_and_appends_nothing() {
    let mut ledger = Ledger {
        files: vec![
            LedgerFile { directives: vec![open_directive("Assets:One", "acc-1")] },
            LedgerFile { directives: vec![open_directive("Assets:Two", "acc-2"), open_directive("Assets:Three", "acc-3")] },
        ],
    };
    let feed = BankFeed {
        accounts: vec![
            feed_for("acc-1", vec![record(Some("a"), Some("2024-03-05"), "1", "USD")], vec![], vec![]),
            feed_for("acc-2", vec![record(Some("b"), None, "2", "USD")], vec![], vec![]),
            feed_for("acc-3", vec![record(Some("c"), Some("2024-03-05"), "3", "USD")], vec![], vec![]),
        ],
    };
    assert_eq!(reconcile(&mut ledger, &feed), Err(ReconcileError::MissingField));
    assert_eq!(ledger.files[0].directives.len(), 1);
    assert_eq!(ledger.files[1].directives.len(), 2);
}

#[test]
fn unfetched_account_is_a_network_failure() {
    let mut ledger = Ledger { files: vec![LedgerFile { directives: vec![open_directive("Assets:One", "acc-1")] }] };
    assert_eq!(reconcile(&mut ledger, &BankFeed { accounts: vec![] }), Err(ReconcileError::NetworkFailure));
    let feed = BankFeed {
        accounts: vec![AccountFeed { account_id: "acc-1".to_string(), transactions: None, balances: Some(vec![]) }],
    };
    assert_eq!(reconcile(&mut ledger, &feed), Err(ReconcileError::NetworkFailure));
    let feed = BankFeed {
        accounts: vec![AccountFeed {
            account_id: "acc-1".to_string(),
            transactions: Some(TransactionFeed { booked: vec![], pending: vec![] }),
            balances: None,
        }],
    };
    assert_eq!(reconcile(&mut ledger, &feed), Err(ReconcileError::NetworkFailure));
    assert_eq!(ledger.files[0].directives.len(), 1);
}

#[test]
fn no_reported_balance_adds_no_assertion() {
    let mut ledger = Ledger { files: vec![LedgerFile { directives: vec![open_directive("Assets:One", "acc-1")] }] };
    let feed = BankFeed { accounts: vec![feed_for("acc-1", vec![], vec![], vec![])] };
    assert_eq!(reconcile(&mut ledger, &feed), Ok(()));
    assert_eq!(ledger.files[0].directives.len(), 1);
}

#[test]
fn only_the_first_reported_balance_counts() {
    let mut ledger = Ledger { files: vec![LedgerFile { directives: vec![open_directive("Assets:One", "acc-1")] }] };
    let feed = BankFeed {
        accounts: vec![feed_for(
            "acc-1",
            vec![],
            vec![],
            vec![
                BalanceRecord { amount: "1".to_string(), currency: "USD".to_string(), reference_date: Some("2024-03-07".to_string()) },
                BalanceRecord { amount: "2".to_string(), currency: "USD".to_string(), reference_date: Some("2024-03-08".to_string()) },
            ],
        )],
    };
    reconcile(&mut ledger, &feed).unwrap();
    assert_eq!(ledger.files[0].directives.len(), 2);
    let (_, a) = balance_of(&ledger.files[0].directives[1]);
    assert!(a.equals(&amount("1", "USD")));
}

#[test]
fn pending_record_without_amount_lacks_a_field() {
    let mut ledger = Ledger { files: vec![LedgerFile { directives: vec![open_directive("Assets:One", "acc-1")] }] };
    let feed = BankFeed { accounts: vec![feed_for("acc-1", vec![], vec![record(None, None, "?", "USD")], vec![])] };
    assert_eq!(reconcile(&mut ledger, &feed), Err(ReconcileError::MissingField));
}

#[test]
fn error_messages_differ() {
    let all = [
        ReconcileError::MissingField,
        ReconcileError::NoReferenceDate,
        ReconcileError::NetworkFailure,
        ReconcileError::ParseFailure,
        ReconcileError::Overflow,
    ];
    for (i, a) in all.iter().enumerate() {
        assert!(!a.message().is_empty());
        for b in all.iter().skip(i + 1) {
            assert_ne!(a.message(), b.message());
        }
    }
}
