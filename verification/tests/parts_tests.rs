use ledger_reconcile::bag::Bag;
use ledger_reconcile::date::Date;
use ledger_reconcile::decimal::Decimal;
use ledger_reconcile::error::ReconcileError;
use ledger_reconcile::feed::{AccountFeed, BalanceRecord, BankFeed, TransactionFeed, TransactionRecord};
use ledger_reconcile::index::{HistoryIndex, IdSet};
use ledger_reconcile::model::{
    Account, Amount, Balance, Directive, DirectiveContent, Ledger, LedgerFile, MetadataEntry, MetadataValue, Open,
    Posting, Transaction,
};
use ledger_reconcile::normalize::{build_transaction, transaction_metadata};
use ledger_reconcile::pending::PendingBags;
use ledger_reconcile::reconcile::{
    collect_pending, find_text, import_balance, import_booked, import_target_of, import_transactions, reconcile,
    reconcile_file, ImportTarget,
};
use ledger_reconcile::text::{copy_optional_text, is_id_link, join, make_link};
use ledger_reconcile::token::{choose_token, read_grant, Moment, TokenError, TokenUse};

fn day(text: &str) -> Date {
    Date::parse(text).unwrap()
}

fn number(text: &str) -> Decimal {
    Decimal::parse(text).unwrap()
}

fn named(name: &str) -> Account {
    Account { name: name.to_string() }
}

fn money(value: &str, currency: &str) -> Amount {
    Amount { value: number(value), currency: currency.to_string() }
}

fn booked(id: Option<&str>, booking_date: Option<&str>, value: &str, currency: &str) -> TransactionRecord {
    TransactionRecord {
        booking_date: booking_date.map(|s| s.to_string()),
        booking_date_time: None,
        value_date_time: None,
        debtor_name: None,
        debtor_iban: None,
        creditor_name: None,
        creditor_iban: None,
        currency_exchange: None,
        proprietary_bank_transaction_code: None,
        internal_transaction_id: id.map(|s| s.to_string()),
        remittance_information_unstructured_array: None,
        remittance_information_unstructured: None,
        amount: value.to_string(),
        currency: currency.to_string(),
    }
}

fn opening(name: &str, account_id: &str) -> Directive {
    Directive {
        date: day("2024-01-01"),
        content: DirectiveContent::Open(Open { account: named(name) }),
        metadata: vec![
            MetadataEntry { key: "importer".to_string(), value: MetadataValue::Text("gocardless".to_string()) },
            MetadataEntry { key: "account_id".to_string(), value: MetadataValue::Text(account_id.to_string()) },
        ],
    }
}

fn asserted(on: &str, name: &str, value: &str, currency: &str) -> Directive {
    Directive {
        date: day(on),
        content: DirectiveContent::Balance(Balance { account: named(name), amount: money(value, currency) }),
        metadata: vec![],
    }
}

fn posted(on: &str, names: &[&str], links: &[&str]) -> Directive {
    Directive {
        date: day(on),
        content: DirectiveContent::Transaction(Transaction {
            narration: None,
            links: links.iter().map(|s| s.to_string()).collect(),
            postings: names.iter().map(|n| Posting { account: named(n), amount: None, autocomputed: false }).collect(),
            balanced: true,
        }),
        metadata: vec![],
    }
}

fn fetched(account_id: &str, records: Vec<TransactionRecord>, pending: Vec<TransactionRecord>, balances: Vec<BalanceRecord>) -> AccountFeed {
    AccountFeed {
        account_id: account_id.to_string(),
        transactions: Some(TransactionFeed { booked: records, pending }),
        balances: Some(balances),
    }
}

fn reported(value: &str, currency: &str, reference_date: Option<&str>) -> BalanceRecord {
    BalanceRecord {
        amount: value.to_string(),
        currency: currency.to_string(),
        reference_date: reference_date.map(|s| s.to_string()),
    }
}

fn target(account_id: &str, name: &str) -> ImportTarget {
    ImportTarget { account_id: account_id.to_string(), account: named(name) }
}

fn summary(d: &Directive) -> String {
    match &d.content {
        DirectiveContent::Transaction(t) => format!("{} txn {}", d.date.days - day("2024-01-01").days, t.links.join("+")),
        DirectiveContent::Balance(b) => format!(
            "{} bal {} {}e-{} {}",
            d.date.days - day("2024-01-01").days,
            b.account.name,
            b.amount.value.mantissa(),
            b.amount.value.scale(),
            b.amount.currency
        ),
        DirectiveContent::Open(o) => format!("open {}", o.account.name),
        DirectiveContent::Other => "other".to_string(),
    }
}

#[test]
fn links_are_made_and_recognised() {
    assert_eq!(make_link("abc"), "id-abc");
    assert_eq!(make_link(""), "id-");
    assert!(is_id_link("id-abc"));
    assert!(is_id_link("id-"));
    assert!(!is_id_link("id"));
    assert!(!is_id_link(""));
    assert!(!is_id_link("ID-abc"));
    assert!(!is_id_link("xid-abc"));
    assert!(is_id_link("id-\u{e9}t\u{e9}"));
}

#[test]
fn join_puts_comma_and_space_between() {
    assert_eq!(join(&vec![]), "");
    assert_eq!(join(&vec!["a".to_string()]), "a");
    assert_eq!(join(&vec!["a".to_string(), "".to_string(), "c d".to_string()]), "a, , c d");
}

#[test]
fn optional_text_is_copied() {
    assert_eq!(copy_optional_text(&Some("x".to_string())), Some("x".to_string()));
    assert_eq!(copy_optional_text(&None), None);
}

#[test]
fn accounts_and_amounts_compare_by_content() {
    assert!(named("Assets:A").same_as(&named("Assets:A")));
    assert!(!named("Assets:A").same_as(&named("Assets:B")));
    assert!(money("1.0", "USD").equals(&money("1.00", "USD")));
    assert!(!money("1.0", "USD").equals(&money("1.0", "EUR")));
    assert!(!money("1.0", "USD").equals(&money("1.1", "USD")));
    let copy = money("2.50", "CHF").clone();
    assert_eq!(copy.currency, "CHF");
    assert_eq!(copy.value.mantissa(), 250);
    assert_eq!(named("Assets:A").clone().name, "Assets:A");
}

#[test]
fn metadata_text_is_the_first_entry_of_the_key() {
    let entries = vec![
        MetadataEntry { key: "a".to_string(), value: MetadataValue::Number(number("1")) },
        MetadataEntry { key: "b".to_string(), value: MetadataValue::Text("first".to_string()) },
        MetadataEntry { key: "b".to_string(), value: MetadataValue::Text("second".to_string()) },
        MetadataEntry { key: "c".to_string(), value: MetadataValue::Currency("USD".to_string()) },
    ];
    assert_eq!(find_text(&entries, "b"), Some(&"first".to_string()));
    assert_eq!(find_text(&entries, "a"), None);
    assert_eq!(find_text(&entries, "c"), None);
    assert_eq!(find_text(&entries, "d"), None);
    assert_eq!(find_text(&vec![], "a"), None);
}

#[test]
fn import_target_reads_the_open_directive() {
    let t = import_target_of(&opening("Assets:A", "acc-a")).unwrap();
    assert_eq!(t.account_id, "acc-a");
    assert_eq!(t.account.name, "Assets:A");
    let mut d = opening("Assets:A", "acc-a");
    d.metadata[0].value = MetadataValue::Text("Gocardless".to_string());
    assert!(import_target_of(&d).is_none());
    let mut d = opening("Assets:A", "acc-a");
    d.metadata[0].value = MetadataValue::Currency("gocardless".to_string());
    assert!(import_target_of(&d).is_none());
    let mut d = opening("Assets:A", "acc-a");
    d.metadata.remove(0);
    assert!(import_target_of(&d).is_none());
    assert!(import_target_of(&asserted("2024-01-01", "Assets:A", "1", "USD")).is_none());
}

#[test]
fn metadata_of_a_record_skips_missing_fields() {
    let mut r = booked(None, Some("2024-03-05"), "1", "USD");
    r.debtor_iban = Some("DE00".to_string());
    r.proprietary_bank_transaction_code = Some("X".to_string());
    let keys: Vec<String> = transaction_metadata(&r).into_iter().map(|e| e.key).collect();
    assert_eq!(keys, vec!["from_iban", "transaction_code"]);
}

#[test]
fn built_transaction_takes_date_and_amount_as_given() {
    let r = booked(Some("z"), Some("not used"), "not used", "EUR");
    let d = build_transaction(&r, &named("Assets:A"), day("2024-05-06"), number("7.5"));
    assert_eq!(d.date, day("2024-05-06"));
    match d.content {
        DirectiveContent::Transaction(t) => {
            assert_eq!(t.links, vec!["id-z"]);
            let a = t.postings[0].amount.as_ref().unwrap();
            assert_eq!((a.value.mantissa(), a.value.scale(), a.currency.as_str()), (75, 1, "EUR"));
        }
        _ => panic!("not a transaction"),
    }
}

#[test]
fn id_set_holds_what_was_inserted() {
    let mut ids = IdSet::new();
    assert!(!ids.contains(&"id-1".to_string()));
    ids.insert("id-1".to_string());
    ids.insert("id-1".to_string());
    assert!(ids.contains(&"id-1".to_string()));
    assert!(!ids.contains(&"id-2".to_string()));
}

#[test]
fn index_notes_directives_one_by_one() {
    let mut index = HistoryIndex::new();
    assert!(index.last_balance(&named("A")).is_none());
    assert_eq!(index.last_transaction_date(&named("A")), None);
    index.note_directive(&posted("2024-03-05", &["A", "B"], &["id-1", "x"]));
    index.note_directive(&posted("2024-03-01", &["A"], &[]));
    index.note_directive(&asserted("2024-03-02", "A", "5", "USD"));
    index.note_directive(&opening("C", "acc"));
    assert!(index.has_id(&"id-1".to_string()));
    assert!(!index.has_id(&"x".to_string()));
    assert_eq!(index.last_transaction_date(&named("A")), Some(day("2024-03-05")));
    assert_eq!(index.last_transaction_date(&named("B")), Some(day("2024-03-05")));
    assert_eq!(index.last_transaction_date(&named("C")), None);
    assert_eq!(index.last_balance(&named("A")).unwrap().date, day("2024-03-02"));
    index.note_transaction(&named("A"), day("2024-03-04"));
    assert_eq!(index.last_transaction_date(&named("A")), Some(day("2024-03-05")));
    index.note_transaction(&named("A"), day("2024-03-06"));
    assert_eq!(index.last_transaction_date(&named("A")), Some(day("2024-03-06")));
    index.note_balance(&named("A"), day("2024-03-01"), &money("6", "USD"));
    assert!(index.last_balance(&named("A")).unwrap().amount.equals(&money("5", "USD")));
    index.note_balance(&named("A"), day("2024-03-02"), &money("7", "USD"));
    assert!(index.last_balance(&named("A")).unwrap().amount.equals(&money("7", "USD")));
    index.note_link(&"id-2".to_string());
    index.note_link(&"tag".to_string());
    assert!(index.has_id(&"id-2".to_string()));
    assert!(!index.has_id(&"tag".to_string()));
    index.note_file(&LedgerFile { directives: vec![posted("2024-04-01", &["C"], &["id-3"])] });
    assert!(index.has_id(&"id-3".to_string()));
    assert_eq!(index.last_transaction_date(&named("C")), Some(day("2024-04-01")));
}

#[test]
fn feed_entry_is_the_first_of_the_account() {
    let feed = BankFeed {
        accounts: vec![
            fetched("a", vec![], vec![], vec![reported("1", "USD", None)]),
            fetched("b", vec![], vec![], vec![]),
            fetched("a", vec![], vec![], vec![reported("2", "USD", None)]),
        ],
    };
    assert_eq!(feed.entry(&"a".to_string()).unwrap().balances.as_ref().unwrap()[0].amount, "1");
    assert!(feed.entry(&"b".to_string()).is_some());
    assert!(feed.entry(&"c".to_string()).is_none());
}

#[test]
fn pending_bags_add_by_account_and_currency() {
    let mut pending = PendingBags::new();
    assert!(pending.bag(&named("A")).is_none());
    pending.add(&named("A"), &money("1.50", "USD")).unwrap();
    pending.add(&named("B"), &money("2", "USD")).unwrap();
    pending.add(&named("A"), &money("3", "EUR")).unwrap();
    pending.add(&named("A"), &money("0.50", "USD")).unwrap();
    let a = pending.bag(&named("A")).unwrap();
    assert!(a.get(&"USD".to_string()).same_number(&number("2")));
    assert!(a.get(&"EUR".to_string()).same_number(&number("3")));
    let b = pending.bag(&named("B")).unwrap();
    assert!(b.get(&"USD".to_string()).same_number(&number("2")));
    assert!(pending.bag(&named("C")).is_none());
    let largest = Decimal::new(ledger_reconcile::decimal::MAX_MANTISSA, 0).unwrap();
    pending.add(&named("C"), &Amount { value: largest, currency: "USD".to_string() }).unwrap();
    assert_eq!(
        pending.add(&named("C"), &Amount { value: largest, currency: "USD".to_string() }),
        Err(ReconcileError::Overflow)
    );
}

#[test]
fn booked_records_keep_feed_order_and_drop_duplicates() {
    let mut ids = IdSet::new();
    ids.insert("id-b".to_string());
    let records = vec![
        booked(Some("a"), Some("2024-03-05"), "1", "USD"),
        booked(Some("b"), Some("2024-03-04"), "2", "USD"),
        booked(None, Some("2024-03-03"), "3", "USD"),
        booked(Some("a"), Some("2024-03-02"), "4", "USD"),
    ];
    let found = import_booked(&records, &named("A"), &ids).unwrap();
    let got: Vec<String> = found.iter().map(summary).collect();
    assert_eq!(got, vec!["64 txn id-a", "62 txn ", "61 txn id-a"]);
    let failing = vec![
        booked(Some("a"), Some("2024-03-05"), "1", "USD"),
        booked(Some("b"), Some("bad"), "2", "USD"),
        booked(Some("c"), None, "3", "USD"),
    ];
    assert_eq!(import_booked(&failing, &named("A"), &ids).unwrap_err(), ReconcileError::ParseFailure);
    assert!(import_booked(&vec![], &named("A"), &ids).unwrap().is_empty());
}

#[test]
fn pending_records_are_summed_up() {
    let mut pending = PendingBags::new();
    let records = vec![booked(None, None, "-1.25", "USD"), booked(None, None, "-2.25", "USD"), booked(None, None, "4", "EUR")];
    collect_pending(&mut pending, &records, &named("A")).unwrap();
    let bag = pending.bag(&named("A")).unwrap();
    assert!(bag.get(&"USD".to_string()).same_number(&number("-3.5")));
    assert!(bag.get(&"EUR".to_string()).same_number(&number("4")));
    let bad = vec![booked(None, None, "1", "USD"), booked(None, None, "", "USD")];
    assert_eq!(collect_pending(&mut pending, &bad, &named("A")), Err(ReconcileError::MissingField));
}

#[test]
fn transactions_of_an_account_are_imported() {
    let feed = BankFeed {
        accounts: vec![fetched(
            "acc-a",
            vec![booked(Some("2"), Some("2024-01-03"), "1", "USD"), booked(Some("1"), Some("2024-01-02"), "1", "USD")],
            vec![booked(None, None, "9", "USD")],
            vec![],
        )],
    };
    let mut index = HistoryIndex::new();
    index.note_transaction(&named("A"), day("2024-01-10"));
    let mut pending = PendingBags::new();
    let mut additions = vec![opening("kept", "kept")];
    import_transactions(&target("acc-a", "A"), &feed, &mut index, &mut pending, &mut additions).unwrap();
    let got: Vec<String> = additions.iter().map(summary).collect();
    assert_eq!(got, vec!["open kept", "1 txn id-1", "2 txn id-2"]);
    assert_eq!(index.last_transaction_date(&named("A")), Some(day("2024-01-10")));
    assert!(pending.bag(&named("A")).unwrap().get(&"USD".to_string()).same_number(&number("9")));
    let mut index = HistoryIndex::new();
    let mut additions = vec![];
    import_transactions(&target("acc-a", "A"), &feed, &mut index, &mut pending, &mut additions).unwrap();
    assert_eq!(index.last_transaction_date(&named("A")), Some(day("2024-01-03")));
    assert_eq!(
        import_transactions(&target("acc-x", "A"), &feed, &mut index, &mut pending, &mut additions),
        Err(ReconcileError::NetworkFailure)
    );
}

#[test]
fn balance_of_an_account_is_imported() {
    let feed = BankFeed { accounts: vec![fetched("acc-a", vec![], vec![], vec![reported("10.00", "USD", None)])] };
    let mut index = HistoryIndex::new();
    index.note_transaction(&named("A"), day("2024-01-10"));
    let mut pending = PendingBags::new();
    pending.add(&named("A"), &money("-2.50", "USD")).unwrap();
    pending.add(&named("B"), &money("100", "USD")).unwrap();
    let mut additions = vec![];
    import_balance(&target("acc-a", "A"), &feed, &index, &pending, &mut additions).unwrap();
    let got: Vec<String> = additions.iter().map(summary).collect();
    assert_eq!(got, vec!["10 bal A 1250e-2 USD"]);
    index.note_balance(&named("A"), day("2024-01-05"), &money("12.5", "USD"));
    import_balance(&target("acc-a", "A"), &feed, &index, &pending, &mut additions).unwrap();
    assert_eq!(additions.len(), 1);
    assert_eq!(
        import_balance(&target("acc-a", "C"), &feed, &index, &pending, &mut additions),
        Err(ReconcileError::NoReferenceDate)
    );
    assert_eq!(
        import_balance(&target("acc-x", "A"), &feed, &index, &pending, &mut additions),
        Err(ReconcileError::NetworkFailure)
    );
}

#[test]
fn file_gets_transactions_of_all_accounts_before_balances() {
    let file = LedgerFile { directives: vec![opening("A", "acc-a"), posted("2024-01-01", &["B"], &[]), opening("B", "acc-b")] };
    let feed = BankFeed {
        accounts: vec![
            fetched("acc-b", vec![booked(Some("b1"), Some("2024-01-04"), "1", "USD")], vec![], vec![reported("5", "USD", None)]),
            fetched("acc-a", vec![booked(Some("a1"), Some("2024-01-09"), "1", "USD")], vec![], vec![reported("6", "EUR", Some("2024-01-02"))]),
        ],
    };
    let mut index = HistoryIndex::new();
    index.note_file(&file);
    let additions = reconcile_file(&file, &feed, &mut index).unwrap();
    let got: Vec<String> = additions.iter().map(summary).collect();
    assert_eq!(got, vec!["8 txn id-a1", "3 txn id-b1", "1 bal A 6e-0 EUR", "4 bal B 5e-0 USD"]);
    assert_eq!(index.last_transaction_date(&named("B")), Some(day("2024-01-04")));
}

#[test]
fn pending_of_one_account_set_up_twice_adds_up() {
    let mut ledger = Ledger { files: vec![LedgerFile { directives: vec![opening("A", "acc-1"), opening("A", "acc-2")] }] };
    let feed = BankFeed {
        accounts: vec![
            fetched("acc-1", vec![], vec![booked(None, None, "1", "USD")], vec![reported("10", "USD", Some("2024-02-01"))]),
            fetched("acc-2", vec![], vec![booked(None, None, "2", "USD")], vec![]),
        ],
    };
    reconcile(&mut ledger, &feed).unwrap();
    let got: Vec<String> = ledger.files[0].directives.iter().map(summary).collect();
    assert_eq!(got, vec!["open A", "open A", "31 bal A 7e-0 USD"]);
}

#[test]
fn pending_does_not_carry_over_to_the_next_file() {
    let mut ledger = Ledger {
        files: vec![
            LedgerFile { directives: vec![opening("A", "acc-1")] },
            LedgerFile { directives: vec![opening("A", "acc-2")] },
        ],
    };
    let feed = BankFeed {
        accounts: vec![
            fetched("acc-1", vec![booked(Some("t"), Some("2024-01-20"), "1", "USD")], vec![booked(None, None, "1", "USD")], vec![]),
            fetched("acc-2", vec![], vec![], vec![reported("10", "USD", None)]),
        ],
    };
    reconcile(&mut ledger, &feed).unwrap();
    let first: Vec<String> = ledger.files[0].directives.iter().map(summary).collect();
    let second: Vec<String> = ledger.files[1].directives.iter().map(summary).collect();
    assert_eq!(first, vec!["open A", "19 txn id-t"]);
    assert_eq!(second, vec!["open A", "20 bal A 10e-0 USD"]);
}

#[test]
fn second_run_adds_nothing_when_the_assertion_becomes_the_last() {
    let mut ledger = Ledger {
        files: vec![
            LedgerFile { directives: vec![opening("A", "acc-1"), asserted("2024-02-01", "A", "50", "USD")] },
            LedgerFile { directives: vec![opening("B", "acc-2"), posted("2024-01-15", &["B"], &["id-k"])] },
        ],
    };
    let feed = BankFeed {
        accounts: vec![
            fetched(
                "acc-1",
                vec![booked(Some("n"), Some("2024-02-03"), "1", "USD")],
                vec![booked(None, None, "-5", "USD")],
                vec![reported("80", "USD", Some("2024-02-01"))],
            ),
            fetched("acc-2", vec![booked(Some("k"), Some("2024-01-15"), "1", "USD")], vec![], vec![reported("3", "EUR", None)]),
        ],
    };
    reconcile(&mut ledger, &feed).unwrap();
    let first: Vec<String> = ledger.files[0].directives.iter().map(summary).collect();
    let second: Vec<String> = ledger.files[1].directives.iter().map(summary).collect();
    assert_eq!(first[2..], ["33 txn id-n", "31 bal A 85e-0 USD"]);
    assert_eq!(second[2..], ["15 bal B 3e-0 EUR"]);
    reconcile(&mut ledger, &feed).unwrap();
    let first_again: Vec<String> = ledger.files[0].directives.iter().map(summary).collect();
    let second_again: Vec<String> = ledger.files[1].directives.iter().map(summary).collect();
    assert_eq!(first_again, first);
    assert_eq!(second_again, second);
}

#[test]
fn second_run_asserts_again_when_a_later_assertion_stands() {
    let mut ledger = Ledger {
        files: vec![LedgerFile { directives: vec![opening("A", "acc-1"), asserted("2024-03-10", "A", "50", "USD")] }],
    };
    let feed = BankFeed { accounts: vec![fetched("acc-1", vec![], vec![], vec![reported("85", "USD", Some("2024-03-05"))])] };
    reconcile(&mut ledger, &feed).unwrap();
    assert_eq!(ledger.files[0].directives.len(), 3);
    reconcile(&mut ledger, &feed).unwrap();
    assert_eq!(ledger.files[0].directives.len(), 4);
}

#[test]
fn grant_is_read_field_by_field() {
    let g = read_grant(Some("a".to_string()), Some(60), Some("r".to_string()), Some(0)).unwrap();
    assert_eq!((g.access_token.as_str(), g.access_lifetime, g.refresh_token.as_str(), g.refresh_lifetime), ("a", 60, "r", 0));
    assert_eq!(read_grant(None, None, None, None).unwrap_err(), TokenError::AccessTokenMissing);
    assert_eq!(read_grant(Some("a".to_string()), None, None, None).unwrap_err(), TokenError::AccessExpiryMissing);
    assert_eq!(read_grant(Some("a".to_string()), Some(-1), None, None).unwrap_err(), TokenError::NegativeLifetime);
    assert_eq!(read_grant(Some("a".to_string()), Some(1), None, None).unwrap_err(), TokenError::RefreshTokenMissing);
    assert_eq!(
        read_grant(Some("a".to_string()), Some(1), Some("r".to_string()), None).unwrap_err(),
        TokenError::RefreshExpiryMissing
    );
    assert_eq!(
        read_grant(Some("a".to_string()), Some(1), Some("r".to_string()), Some(i32::MIN)).unwrap_err(),
        TokenError::NegativeLifetime
    );
    let g = read_grant(Some("a".to_string()), Some(i32::MAX), Some("r".to_string()), Some(1)).unwrap();
    assert_eq!(g.access_lifetime, 2_147_483_647);
}

#[test]
fn token_is_chosen_by_the_time() {
    let at = |seconds: u64, nanoseconds: u32| Moment { seconds, nanoseconds };
    assert_eq!(choose_token(at(10, 0), at(10, 1), at(5, 0)), TokenUse::Access);
    assert_eq!(choose_token(at(10, 0), at(11, 0), at(20, 0)), TokenUse::Access);
    assert_eq!(choose_token(at(10, 0), at(10, 0), at(20, 0)), TokenUse::Refresh);
    assert_eq!(choose_token(at(10, 5), at(10, 0), at(10, 5)), TokenUse::Refresh);
    assert_eq!(choose_token(at(10, 5), at(10, 0), at(10, 4)), TokenUse::Expired);
    assert_eq!(choose_token(at(11, 0), at(10, 9), at(10, 9)), TokenUse::Expired);
    assert!(at(1, 5).is_before(&at(2, 0)));
    assert!(!at(2, 0).is_before(&at(2, 0)));
}

#[test]
fn bag_of_many_currencies_keeps_each() {
    let mut bag = Bag::new();
    for (i, c) in ["USD", "EUR", "CHF", "GBP"].iter().enumerate() {
        bag.add(&Amount { value: Decimal::new(i as i128 + 1, 0).unwrap(), currency: c.to_string() }).unwrap();
    }
    assert_eq!(bag.get(&"CHF".to_string()).mantissa(), 3);
    assert_eq!(bag.get(&"USD".to_string()).mantissa(), 1);
    assert_eq!(bag.get(&"JPY".to_string()).mantissa(), 0);
}
