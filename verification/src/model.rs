use vstd::prelude::*;
use crate::date::Date;
use crate::decimal::{Decimal, DecimalValue};
use crate::text::{optional_text, text_list};

verus! {

/// The name of a ledger account, such as `Assets:Bank:Checking`.
#[derive(Debug)]
pub struct Account {
    pub name: String,
}

impl View for Account {
    type V = Seq<char>;

    open spec fn view(&self) -> Seq<char> {
        self.name@
    }
}

impl Clone for Account {
    fn clone(&self) -> (r: Account)
        ensures
            r@ == self@,
    {
        Account { name: self.name.clone() }
    }
}

impl Account {
    /// Whether the two name the same account.
    pub fn same_as(&self, other: &Account) -> (r: bool)
        ensures
            r == (self@ == other@),
    {
        self.name == other.name
    }
}

/// A number of units of a currency.
#[derive(Debug)]
pub struct Amount {
    pub value: Decimal,
    pub currency: String,
}

/// A number of units of a currency, as mathematics sees it.
pub struct AmountView {
    pub value: DecimalValue,
    pub currency: Seq<char>,
}

impl AmountView {
    /// Whether the two are the same number of the same currency.
    pub open spec fn equals(self, other: AmountView) -> bool {
        self.currency == other.currency && self.value.same_number(other.value)
    }
}

impl View for Amount {
    type V = AmountView;

    open spec fn view(&self) -> AmountView {
        AmountView { value: self.value@, currency: self.currency@ }
    }
}

impl Clone for Amount {
    fn clone(&self) -> (r: Amount)
        ensures
            r@ == self@,
    {
        Amount { value: self.value, currency: self.currency.clone() }
    }
}

impl Amount {
    /// Whether the two are the same number of the same currency.
    pub fn equals(&self, other: &Amount) -> (r: bool)
        ensures
            r == self@.equals(other@),
    {
        self.currency == other.currency && self.value.same_number(&other.value)
    }
}

/// What a metadata key of a directive can hold.
#[derive(Debug)]
pub enum MetadataValue {
    Text(String),
    Number(Decimal),
    Currency(String),
}

/// What a metadata key can hold, its texts as sequences of characters.
pub enum MetadataValueView {
    Text(Seq<char>),
    Number(DecimalValue),
    Currency(Seq<char>),
}

impl View for MetadataValue {
    type V = MetadataValueView;

    open spec fn view(&self) -> MetadataValueView {
        match self {
            MetadataValue::Text(s) => MetadataValueView::Text(s@),
            MetadataValue::Number(d) => MetadataValueView::Number(d@),
            MetadataValue::Currency(s) => MetadataValueView::Currency(s@),
        }
    }
}

impl Clone for MetadataValue {
    fn clone(&self) -> (r: MetadataValue)
        ensures
            r@ == self@,
    {
        match self {
            MetadataValue::Text(s) => MetadataValue::Text(s.clone()),
            MetadataValue::Number(d) => MetadataValue::Number(*d),
            MetadataValue::Currency(s) => MetadataValue::Currency(s.clone()),
        }
    }
}

/// One key of a directive's metadata, with what it holds.
#[derive(Debug)]
pub struct MetadataEntry {
    pub key: String,
    pub value: MetadataValue,
}

/// One key of a directive's metadata with what it holds, as a view.
pub struct MetadataEntryView {
    pub key: Seq<char>,
    pub value: MetadataValueView,
}

impl View for MetadataEntry {
    type V = MetadataEntryView;

    open spec fn view(&self) -> MetadataEntryView {
        MetadataEntryView { key: self.key@, value: self.value@ }
    }
}

impl Clone for MetadataEntry {
    fn clone(&self) -> (r: MetadataEntry)
        ensures
            r@ == self@,
    {
        MetadataEntry { key: self.key.clone(), value: self.value.clone() }
    }
}

/// The views of metadata entries, in their order.
pub open spec fn metadata_view(entries: Seq<MetadataEntry>) -> Seq<MetadataEntryView> {
    entries.map_values(|e: MetadataEntry| e@)
}

/// What the first entry under a key holds, if there is one.
pub open spec fn metadata_lookup(entries: Seq<MetadataEntryView>, key: Seq<char>) -> Option<MetadataValueView>
    decreases entries.len(),
{
    if entries.len() == 0 {
        None
    } else if entries[0].key == key {
        Some(entries[0].value)
    } else {
        metadata_lookup(entries.drop_first(), key)
    }
}

/// The text that the first entry under a key holds; none where the key is
/// absent or holds something else.
pub open spec fn metadata_text(entries: Seq<MetadataEntryView>, key: Seq<char>) -> Option<Seq<char>> {
    match metadata_lookup(entries, key) {
        Some(MetadataValueView::Text(s)) => Some(s),
        _ => None,
    }
}

/// One leg of a transaction.
#[derive(Debug)]
pub struct Posting {
    pub account: Account,
    pub amount: Option<Amount>,
    pub autocomputed: bool,
}

/// One leg of a transaction, as a view.
pub struct PostingView {
    pub account: Seq<char>,
    pub amount: Option<AmountView>,
    pub autocomputed: bool,
}

/// The view of an amount, where there is one.
pub open spec fn optional_amount(amount: Option<Amount>) -> Option<AmountView> {
    match amount {
        Some(a) => Some(a@),
        None => None,
    }
}

impl View for Posting {
    type V = PostingView;

    open spec fn view(&self) -> PostingView {
        PostingView {
            account: self.account@,
            amount: optional_amount(self.amount),
            autocomputed: self.autocomputed,
        }
    }
}

/// The views of postings, in their order.
pub open spec fn postings_view(postings: Seq<Posting>) -> Seq<PostingView> {
    postings.map_values(|p: Posting| p@)
}

/// A transaction: what it is about, the links it carries and its legs.
#[derive(Debug)]
pub struct Transaction {
    pub narration: Option<String>,
    pub links: Vec<String>,
    pub postings: Vec<Posting>,
    pub balanced: bool,
}

/// A transaction, as a view.
pub struct TransactionView {
    pub narration: Option<Seq<char>>,
    pub links: Seq<Seq<char>>,
    pub postings: Seq<PostingView>,
    pub balanced: bool,
}

impl View for Transaction {
    type V = TransactionView;

    open spec fn view(&self) -> TransactionView {
        TransactionView {
            narration: optional_text(self.narration),
            links: text_list(self.links@),
            postings: postings_view(self.postings@),
            balanced: self.balanced,
        }
    }
}

/// The statement that an account holds an amount on the directive's date.
#[derive(Debug)]
pub struct Balance {
    pub account: Account,
    pub amount: Amount,
}

/// An assertion of an account's amount, as a view.
pub struct BalanceView {
    pub account: Seq<char>,
    pub amount: AmountView,
}

impl View for Balance {
    type V = BalanceView;

    open spec fn view(&self) -> BalanceView {
        BalanceView { account: self.account@, amount: self.amount@ }
    }
}

/// The opening of an account.
#[derive(Debug)]
pub struct Open {
    pub account: Account,
}

/// What a directive says. Kinds that reconciliation neither reads nor writes are `Other`.
#[derive(Debug)]
pub enum DirectiveContent {
    Transaction(Transaction),
    Balance(Balance),
    Open(Open),
    Other,
}

/// What a directive says, as a view. Of the opening of an account it keeps the account's name.
pub enum DirectiveContentView {
    Transaction(TransactionView),
    Balance(BalanceView),
    Open(Seq<char>),
    Other,
}

impl View for DirectiveContent {
    type V = DirectiveContentView;

    open spec fn view(&self) -> DirectiveContentView {
        match self {
            DirectiveContent::Transaction(t) => DirectiveContentView::Transaction(t@),
            DirectiveContent::Balance(b) => DirectiveContentView::Balance(b@),
            DirectiveContent::Open(o) => DirectiveContentView::Open(o.account@),
            DirectiveContent::Other => DirectiveContentView::Other,
        }
    }
}

/// One dated entry of the ledger.
#[derive(Debug)]
pub struct Directive {
    pub date: Date,
    pub content: DirectiveContent,
    pub metadata: Vec<MetadataEntry>,
}

/// One dated entry of the ledger, as a view.
pub struct DirectiveView {
    pub date: Date,
    pub content: DirectiveContentView,
    pub metadata: Seq<MetadataEntryView>,
}

impl View for Directive {
    type V = DirectiveView;

    open spec fn view(&self) -> DirectiveView {
        DirectiveView {
            date: self.date,
            content: self.content@,
            metadata: metadata_view(self.metadata@),
        }
    }
}

/// The views of directives, in their order.
pub open spec fn directives_view(directives: Seq<Directive>) -> Seq<DirectiveView> {
    directives.map_values(|d: Directive| d@)
}

/// The directives of one file of the ledger, in the file's order.
#[derive(Debug)]
pub struct LedgerFile {
    pub directives: Vec<Directive>,
}

impl View for LedgerFile {
    type V = Seq<DirectiveView>;

    open spec fn view(&self) -> Seq<DirectiveView> {
        directives_view(self.directives@)
    }
}

/// The files of a ledger, in the order in which they are read.
#[derive(Debug)]
pub struct Ledger {
    pub files: Vec<LedgerFile>,
}

impl View for Ledger {
    type V = Seq<Seq<DirectiveView>>;

    open spec fn view(&self) -> Seq<Seq<DirectiveView>> {
        self.files@.map_values(|f: LedgerFile| f@)
    }
}

} // verus!
