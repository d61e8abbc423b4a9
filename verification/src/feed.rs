use vstd::prelude::*;
use crate::text::{optional_text, optional_text_list};

verus! {

/// The currencies and the rate of an exchange that a bank reports with a transaction.
#[derive(Debug)]
pub struct CurrencyExchange {
    pub source_currency: Option<String>,
    pub exchange_rate: Option<String>,
    pub target_currency: Option<String>,
}

/// An exchange of currencies, its texts as sequences of characters.
pub struct CurrencyExchangeView {
    pub source_currency: Option<Seq<char>>,
    pub exchange_rate: Option<Seq<char>>,
    pub target_currency: Option<Seq<char>>,
}

impl View for CurrencyExchange {
    type V = CurrencyExchangeView;

    open spec fn view(&self) -> CurrencyExchangeView {
        CurrencyExchangeView {
            source_currency: optional_text(self.source_currency),
            exchange_rate: optional_text(self.exchange_rate),
            target_currency: optional_text(self.target_currency),
        }
    }
}

/// The view of an exchange of currencies, where there is one.
pub open spec fn optional_exchange(exchange: Option<CurrencyExchange>) -> Option<CurrencyExchangeView> {
    match exchange {
        Some(e) => Some(e@),
        None => None,
    }
}

/// One transaction as the bank reports it. Every field is text as it came;
/// a field that the bank left out is `None`.
#[derive(Debug)]
pub struct TransactionRecord {
    pub booking_date: Option<String>,
    pub booking_date_time: Option<String>,
    pub value_date_time: Option<String>,
    pub debtor_name: Option<String>,
    pub debtor_iban: Option<String>,
    pub creditor_name: Option<String>,
    pub creditor_iban: Option<String>,
    pub currency_exchange: Option<CurrencyExchange>,
    pub proprietary_bank_transaction_code: Option<String>,
    pub internal_transaction_id: Option<String>,
    pub remittance_information_unstructured_array: Option<Vec<String>>,
    pub remittance_information_unstructured: Option<String>,
    pub amount: String,
    pub currency: String,
}

/// A transaction record, its texts as sequences of characters.
pub struct TransactionRecordView {
    pub booking_date: Option<Seq<char>>,
    pub booking_date_time: Option<Seq<char>>,
    pub value_date_time: Option<Seq<char>>,
    pub debtor_name: Option<Seq<char>>,
    pub debtor_iban: Option<Seq<char>>,
    pub creditor_name: Option<Seq<char>>,
    pub creditor_iban: Option<Seq<char>>,
    pub currency_exchange: Option<CurrencyExchangeView>,
    pub proprietary_bank_transaction_code: Option<Seq<char>>,
    pub internal_transaction_id: Option<Seq<char>>,
    pub remittance_information_unstructured_array: Option<Seq<Seq<char>>>,
    pub remittance_information_unstructured: Option<Seq<char>>,
    pub amount: Seq<char>,
    pub currency: Seq<char>,
}

impl View for TransactionRecord {
    type V = TransactionRecordView;

    open spec fn view(&self) -> TransactionRecordView {
        TransactionRecordView {
            booking_date: optional_text(self.booking_date),
            booking_date_time: optional_text(self.booking_date_time),
            value_date_time: optional_text(self.value_date_time),
            debtor_name: optional_text(self.debtor_name),
            debtor_iban: optional_text(self.debtor_iban),
            creditor_name: optional_text(self.creditor_name),
            creditor_iban: optional_text(self.creditor_iban),
            currency_exchange: optional_exchange(self.currency_exchange),
            proprietary_bank_transaction_code: optional_text(self.proprietary_bank_transaction_code),
            internal_transaction_id: optional_text(self.internal_transaction_id),
            remittance_information_unstructured_array: optional_text_list(
                self.remittance_information_unstructured_array,
            ),
            remittance_information_unstructured: optional_text(self.remittance_information_unstructured),
            amount: self.amount@,
            currency: self.currency@,
        }
    }
}

/// The views of transaction records, in their order.
pub open spec fn records_view(records: Seq<TransactionRecord>) -> Seq<TransactionRecordView> {
    records.map_values(|r: TransactionRecord| r@)
}

/// A balance as the bank reports it.
#[derive(Debug)]
pub struct BalanceRecord {
    pub amount: String,
    pub currency: String,
    pub reference_date: Option<String>,
}

/// A balance record, its texts as sequences of characters.
pub struct BalanceRecordView {
    pub amount: Seq<char>,
    pub currency: Seq<char>,
    pub reference_date: Option<Seq<char>>,
}

impl View for BalanceRecord {
    type V = BalanceRecordView;

    open spec fn view(&self) -> BalanceRecordView {
        BalanceRecordView {
            amount: self.amount@,
            currency: self.currency@,
            reference_date: optional_text(self.reference_date),
        }
    }
}

/// The views of balance records, in their order.
pub open spec fn balance_records_view(records: Seq<BalanceRecord>) -> Seq<BalanceRecordView> {
    records.map_values(|r: BalanceRecord| r@)
}

/// The transactions of one bank account: those the bank has booked, newest
/// first, and those still pending.
#[derive(Debug)]
pub struct TransactionFeed {
    pub booked: Vec<TransactionRecord>,
    pub pending: Vec<TransactionRecord>,
}

/// The transactions of one bank account, as views.
pub struct TransactionFeedView {
    pub booked: Seq<TransactionRecordView>,
    pub pending: Seq<TransactionRecordView>,
}

impl View for TransactionFeed {
    type V = TransactionFeedView;

    open spec fn view(&self) -> TransactionFeedView {
        TransactionFeedView { booked: records_view(self.booked@), pending: records_view(self.pending@) }
    }
}

/// What was fetched for one bank account. A part that could not be fetched is `None`.
#[derive(Debug)]
pub struct AccountFeed {
    pub account_id: String,
    pub transactions: Option<TransactionFeed>,
    pub balances: Option<Vec<BalanceRecord>>,
}

/// What was fetched for one bank account, as views.
pub struct AccountFeedView {
    pub account_id: Seq<char>,
    pub transactions: Option<TransactionFeedView>,
    pub balances: Option<Seq<BalanceRecordView>>,
}

impl View for AccountFeed {
    type V = AccountFeedView;

    open spec fn view(&self) -> AccountFeedView {
        AccountFeedView {
            account_id: self.account_id@,
            transactions: match self.transactions {
                Some(t) => Some(t@),
                None => None,
            },
            balances: match self.balances {
                Some(b) => Some(balance_records_view(b@)),
                None => None,
            },
        }
    }
}

/// What was fetched from the bank, account by account.
#[derive(Debug)]
pub struct BankFeed {
    pub accounts: Vec<AccountFeed>,
}

impl View for BankFeed {
    type V = Seq<AccountFeedView>;

    open spec fn view(&self) -> Seq<AccountFeedView> {
        self.accounts@.map_values(|a: AccountFeed| a@)
    }
}

/// The first entry of the feed for a bank account, if there is one.
pub open spec fn feed_entry(feed: Seq<AccountFeedView>, account_id: Seq<char>) -> Option<AccountFeedView>
    decreases feed.len(),
{
    if feed.len() == 0 {
        None
    } else if feed[0].account_id == account_id {
        Some(feed[0])
    } else {
        feed_entry(feed.drop_first(), account_id)
    }
}

/// The transactions fetched for a bank account; none where the feed has no
/// entry for it or they could not be fetched.
pub open spec fn fetched_transactions(feed: Seq<AccountFeedView>, account_id: Seq<char>) -> Option<TransactionFeedView> {
    match feed_entry(feed, account_id) {
        Some(entry) => entry.transactions,
        None => None,
    }
}

/// The balances fetched for a bank account; none where the feed has no entry
/// for it or they could not be fetched.
pub open spec fn fetched_balances(feed: Seq<AccountFeedView>, account_id: Seq<char>) -> Option<Seq<BalanceRecordView>> {
    match feed_entry(feed, account_id) {
        Some(entry) => entry.balances,
        None => None,
    }
}

impl BankFeed {
    /// The first entry for a bank account.
    pub fn entry(&self, account_id: &String) -> (r: Option<&AccountFeed>)
        ensures
            match r {
                Some(e) => feed_entry(self@, account_id@) == Some(e@),
                None => feed_entry(self@, account_id@).is_none(),
            },
    {
        let mut i: usize = 0;
        assert(self@.skip(0) =~= self@);
        while i < self.accounts.len()
            invariant
                i <= self.accounts@.len(),
                feed_entry(self@, account_id@) == feed_entry(self@.skip(i as int), account_id@),
            decreases self.accounts@.len() - i,
        {
            assert(self@.skip(i as int)[0] == self.accounts@[i as int]@);
            assert(self@.skip(i as int).drop_first() =~= self@.skip(i as int + 1));
            if self.accounts[i].account_id == *account_id {
                return Some(&self.accounts[i]);
            }
            i += 1;
        }
        assert(self@.skip(i as int).len() == 0);
        None
    }
}

} // verus!
