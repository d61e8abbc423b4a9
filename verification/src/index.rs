use vstd::prelude::*;
use vstd::hash_map::StringHashMap;
use vstd::hash_set::StringHashSet;
use crate::date::Date;
use crate::model::{
    Account, Amount, AmountView, Directive, DirectiveContent, DirectiveContentView, DirectiveView,
    Ledger, LedgerFile,
};
use crate::text::{has_id_prefix, is_id_link, text_list};

verus! {

/// An amount asserted on a date.
#[derive(Debug)]
pub struct DatedAmount {
    pub date: Date,
    pub amount: Amount,
}

/// An amount asserted on a date, as a view.
pub struct DatedAmountView {
    pub date: Date,
    pub amount: AmountView,
}

impl View for DatedAmount {
    type V = DatedAmountView;

    open spec fn view(&self) -> DatedAmountView {
        DatedAmountView { date: self.date, amount: self.amount@ }
    }
}

/// The links of a directive that stand for a bank's transaction identifier.
pub open spec fn id_links(d: DirectiveView) -> Set<Seq<char>> {
    Set::new(
        |link: Seq<char>|
            d.content is Transaction && d.content->Transaction_0.links.contains(link) && has_id_prefix(link),
    )
}

/// The identifier links of the directives of one file.
pub open spec fn file_ids(directives: Seq<DirectiveView>) -> Set<Seq<char>>
    decreases directives.len(),
{
    if directives.len() == 0 {
        Set::empty()
    } else {
        file_ids(directives.drop_last()).union(id_links(directives.last()))
    }
}

/// Every identifier link that a transaction of the ledger carries.
pub open spec fn imported_ids(ledger: Seq<Seq<DirectiveView>>) -> Set<Seq<char>>
    decreases ledger.len(),
{
    if ledger.len() == 0 {
        Set::empty()
    } else {
        imported_ids(ledger.drop_last()).union(file_ids(ledger.last()))
    }
}

/// Whether a directive is a transaction with a posting on the account.
pub open spec fn posts_to(d: DirectiveView, account: Seq<char>) -> bool {
    d.content is Transaction && exists|k: int|
        0 <= k < d.content->Transaction_0.postings.len()
            && #[trigger] d.content->Transaction_0.postings[k].account == account
}

/// The later of two dates, where `None` stands for no date at all.
pub open spec fn later_date(a: Option<Date>, b: Option<Date>) -> Option<Date> {
    match (a, b) {
        (None, _) => b,
        (_, None) => a,
        (Some(x), Some(y)) => if x.days < y.days {
            b
        } else {
            a
        },
    }
}

/// The date of a directive where it is a transaction on the account.
pub open spec fn transaction_date(d: DirectiveView, account: Seq<char>) -> Option<Date> {
    if posts_to(d, account) {
        Some(d.date)
    } else {
        None
    }
}

/// The latest date of a transaction on the account among the directives of one file.
pub open spec fn file_last_transaction(directives: Seq<DirectiveView>, account: Seq<char>) -> Option<Date>
    decreases directives.len(),
{
    if directives.len() == 0 {
        None
    } else {
        later_date(
            file_last_transaction(directives.drop_last(), account),
            transaction_date(directives.last(), account),
        )
    }
}

/// The latest date of a transaction on the account in the whole ledger.
pub open spec fn last_transaction(ledger: Seq<Seq<DirectiveView>>, account: Seq<char>) -> Option<Date>
    decreases ledger.len(),
{
    if ledger.len() == 0 {
        None
    } else {
        later_date(last_transaction(ledger.drop_last(), account), file_last_transaction(ledger.last(), account))
    }
}

/// The assertion that a directive makes of the account, if it makes one.
pub open spec fn balance_of(d: DirectiveView, account: Seq<char>) -> Option<DatedAmountView> {
    match d.content {
        DirectiveContentView::Balance(b) => if b.account == account {
            Some(DatedAmountView { date: d.date, amount: b.amount })
        } else {
            None
        },
        _ => None,
    }
}

/// Of an assertion met earlier and one met later, the one with the later
/// date; on the same date, the one met later.
pub open spec fn newer_balance(earlier: Option<DatedAmountView>, later: Option<DatedAmountView>) -> Option<DatedAmountView> {
    match (earlier, later) {
        (None, _) => later,
        (_, None) => earlier,
        (Some(x), Some(y)) => if y.date.days < x.date.days {
            earlier
        } else {
            later
        },
    }
}

/// The latest-dated assertion of the account among the directives of one
/// file; of several on that date, the last in the file.
pub open spec fn file_last_balance(directives: Seq<DirectiveView>, account: Seq<char>) -> Option<DatedAmountView>
    decreases directives.len(),
{
    if directives.len() == 0 {
        None
    } else {
        newer_balance(file_last_balance(directives.drop_last(), account), balance_of(directives.last(), account))
    }
}

/// The latest-dated assertion of the account in the whole ledger; of several
/// on that date, the last in the order of files and of directives in a file.
pub open spec fn last_balance(ledger: Seq<Seq<DirectiveView>>, account: Seq<char>) -> Option<DatedAmountView>
    decreases ledger.len(),
{
    if ledger.len() == 0 {
        None
    } else {
        newer_balance(last_balance(ledger.drop_last(), account), file_last_balance(ledger.last(), account))
    }
}

/// What the entry of a table under a key is, if the key is there.
pub open spec fn entry_of<V>(table: Map<Seq<char>, V>, key: Seq<char>) -> Option<V> {
    if table.contains_key(key) {
        Some(table[key])
    } else {
        None
    }
}

/// What is known of a ledger's past: which identifiers were imported, and
/// for each account its last assertion and the date of its last transaction.
pub struct HistoryView {
    pub imported_ids: Set<Seq<char>>,
    pub last_balance: Map<Seq<char>, DatedAmountView>,
    pub last_transaction: Map<Seq<char>, Date>,
}

/// What is known of the past of a given ledger.
pub open spec fn history_of(ledger: Seq<Seq<DirectiveView>>) -> HistoryView {
    HistoryView {
        imported_ids: imported_ids(ledger),
        last_balance: Map::new(
            |a: Seq<char>| last_balance(ledger, a).is_some(),
            |a: Seq<char>| last_balance(ledger, a).unwrap(),
        ),
        last_transaction: Map::new(
            |a: Seq<char>| last_transaction(ledger, a).is_some(),
            |a: Seq<char>| last_transaction(ledger, a).unwrap(),
        ),
    }
}

/// The identifier links that were imported.
pub struct IdSet {
    links: StringHashSet,
}

impl View for IdSet {
    type V = Set<Seq<char>>;

    closed spec fn view(&self) -> Set<Seq<char>> {
        self.links@
    }
}

impl IdSet {
    /// The set without links.
    pub fn new() -> (r: IdSet)
        ensures
            r@ == Set::<Seq<char>>::empty(),
    {
        IdSet { links: StringHashSet::new() }
    }

    /// Adds a link.
    pub fn insert(&mut self, link: String)
        ensures
            final(self)@ == old(self)@.insert(link@),
    {
        self.links.insert(link);
    }

    /// Whether the link is in the set.
    pub fn contains(&self, link: &String) -> (r: bool)
        ensures
            r == self@.contains(link@),
    {
        self.links.contains(link.as_str())
    }
}

/// The index of a ledger's past, built once before anything is added.
pub struct HistoryIndex {
    ids: IdSet,
    balances: StringHashMap<DatedAmount>,
    transactions: StringHashMap<Date>,
}

impl View for HistoryIndex {
    type V = HistoryView;

    closed spec fn view(&self) -> HistoryView {
        HistoryView {
            imported_ids: self.ids@,
            last_balance: self.balances@.map_values(|b: DatedAmount| b@),
            last_transaction: self.transactions@,
        }
    }
}

/// The table of last transaction dates after a transaction of that date on the account.
pub open spec fn with_transaction(table: Map<Seq<char>, Date>, account: Seq<char>, date: Date) -> Map<Seq<char>, Date> {
    table.insert(account, later_date(entry_of(table, account), Some(date)).unwrap())
}

/// The table of last assertions after a later-met assertion of the account.
pub open spec fn with_balance(table: Map<Seq<char>, DatedAmountView>, account: Seq<char>, found: DatedAmountView) -> Map<Seq<char>, DatedAmountView> {
    table.insert(account, newer_balance(entry_of(table, account), Some(found)).unwrap())
}

impl HistoryIndex {
    /// The index of an empty ledger.
    pub fn new() -> (r: HistoryIndex)
        ensures
            r@.imported_ids == Set::<Seq<char>>::empty(),
            r@.last_balance == Map::<Seq<char>, DatedAmountView>::empty(),
            r@.last_transaction == Map::<Seq<char>, Date>::empty(),
    {
        let r = HistoryIndex { ids: IdSet::new(), balances: StringHashMap::new(), transactions: StringHashMap::new() };
        assert(r@.last_balance =~= Map::<Seq<char>, DatedAmountView>::empty());
        r
    }

    /// Whether a link was imported.
    pub fn has_id(&self, link: &String) -> (r: bool)
        ensures
            r == self@.imported_ids.contains(link@),
    {
        self.ids.contains(link)
    }

    /// The identifier links that were imported.
    pub fn imported_ids(&self) -> (r: &IdSet)
        ensures
            r@ == self@.imported_ids,
    {
        &self.ids
    }

    /// The last assertion of the account.
    pub fn last_balance(&self, account: &Account) -> (r: Option<&DatedAmount>)
        ensures
            match r {
                Some(b) => entry_of(self@.last_balance, account@) == Some(b@),
                None => entry_of(self@.last_balance, account@).is_none(),
            },
    {
        self.balances.get(account.name.as_str())
    }

    /// The date of the last transaction on the account.
    pub fn last_transaction_date(&self, account: &Account) -> (r: Option<Date>)
        ensures
            r == entry_of(self@.last_transaction, account@),
    {
        match self.transactions.get(account.name.as_str()) {
            Some(d) => Some(*d),
            None => None,
        }
    }

    /// Takes note of a transaction on the account.
    pub fn note_transaction(&mut self, account: &Account, date: Date)
        ensures
            final(self)@.imported_ids == old(self)@.imported_ids,
            final(self)@.last_balance == old(self)@.last_balance,
            final(self)@.last_transaction == with_transaction(old(self)@.last_transaction, account@, date),
    {
        let newer = match self.transactions.get(account.name.as_str()) {
            Some(known) => known.days < date.days,
            None => true,
        };
        if newer {
            self.transactions.insert(account.name.clone(), date);
        }
        assert(self@.last_transaction =~= with_transaction(old(self)@.last_transaction, account@, date));
    }

    /// Takes note of an assertion of the account that stands after those noted before.
    pub fn note_balance(&mut self, account: &Account, date: Date, amount: &Amount)
        ensures
            final(self)@.imported_ids == old(self)@.imported_ids,
            final(self)@.last_transaction == old(self)@.last_transaction,
            final(self)@.last_balance == with_balance(
                old(self)@.last_balance,
                account@,
                DatedAmountView { date: date, amount: amount@ },
            ),
    {
        let newer = match self.balances.get(account.name.as_str()) {
            Some(known) => !(date.days < known.date.days),
            None => true,
        };
        if newer {
            self.balances.insert(account.name.clone(), DatedAmount { date, amount: amount.clone() });
        }
        assert(self@.last_balance =~= with_balance(
            old(self)@.last_balance,
            account@,
            DatedAmountView { date: date, amount: amount@ },
        ));
    }

    /// Takes note of a link where it stands for a bank's transaction identifier.
    pub fn note_link(&mut self, link: &String)
        ensures
            final(self)@.last_balance == old(self)@.last_balance,
            final(self)@.last_transaction == old(self)@.last_transaction,
            final(self)@.imported_ids == (if has_id_prefix(link@) {
                old(self)@.imported_ids.insert(link@)
            } else {
                old(self)@.imported_ids
            }),
    {
        if is_id_link(link.as_str()) {
            self.ids.insert(link.clone());
        }
    }

    /// Takes note of one directive that stands after those noted before.
    pub fn note_directive(&mut self, d: &Directive)
        ensures
            final(self)@.imported_ids == old(self)@.imported_ids.union(id_links(d@)),
            forall|a: Seq<char>|
                #[trigger] entry_of(final(self)@.last_transaction, a) == later_date(
                    entry_of(old(self)@.last_transaction, a),
                    transaction_date(d@, a),
                ),
            forall|a: Seq<char>|
                #[trigger] entry_of(final(self)@.last_balance, a) == newer_balance(
                    entry_of(old(self)@.last_balance, a),
                    balance_of(d@, a),
                ),
    {
        match &d.content {
            DirectiveContent::Transaction(t) => {
                let mut k: usize = 0;
                while k < t.links.len()
                    invariant
                        k <= t.links@.len(),
                        self@.last_balance == old(self)@.last_balance,
                        self@.last_transaction == old(self)@.last_transaction,
                        self@.imported_ids == old(self)@.imported_ids.union(
                            Set::new(
                                |link: Seq<char>|
                                    text_list(t.links@).take(k as int).contains(link) && has_id_prefix(link),
                            ),
                        ),
                    decreases t.links@.len() - k,
                {
                    self.note_link(&t.links[k]);
                    proof {
                        let all = text_list(t.links@);
                        let seen = all.take(k as int);
                        let next = all.take(k as int + 1);
                        assert(next =~= seen.push(all[k as int]));
                        assert forall|link: Seq<char>| next.contains(link) == (seen.contains(link) || link == all[k as int]) by {
                            if seen.contains(link) {
                                let j = choose|j: int| 0 <= j < seen.len() && seen[j] == link;
                                assert(next[j] == link);
                            }
                            if link == all[k as int] {
                                assert(next[k as int] == link);
                            }
                        }
                        assert(self@.imported_ids =~= old(self)@.imported_ids.union(
                            Set::new(|link: Seq<char>| next.contains(link) && has_id_prefix(link)),
                        ));
                    }
                    k += 1;
                }
                proof {
                    assert(text_list(t.links@).take(t.links@.len() as int) =~= text_list(t.links@));
                    assert(self@.imported_ids =~= old(self)@.imported_ids.union(id_links(d@)));
                }
                let mut p: usize = 0;
                while p < t.postings.len()
                    invariant
                        p <= t.postings@.len(),
                        d.content == DirectiveContent::Transaction(*t),
                        self@.last_balance == old(self)@.last_balance,
                        self@.imported_ids == old(self)@.imported_ids.union(id_links(d@)),
                        forall|a: Seq<char>|
                            #[trigger] entry_of(self@.last_transaction, a) == later_date(
                                entry_of(old(self)@.last_transaction, a),
                                if exists|j: int| 0 <= j < p && t.postings@[j].account@ == a {
                                    Some(d.date)
                                } else {
                                    None
                                },
                            ),
                    decreases t.postings@.len() - p,
                {
                    let ghost before = self@.last_transaction;
                    self.note_transaction(&t.postings[p].account, d.date);
                    proof {
                        let account = t.postings@[p as int].account@;
                        assert forall|a: Seq<char>|
                            #[trigger] entry_of(self@.last_transaction, a) == later_date(
                                entry_of(old(self)@.last_transaction, a),
                                if exists|j: int| 0 <= j < p + 1 && t.postings@[j].account@ == a {
                                    Some(d.date)
                                } else {
                                    None
                                },
                            ) by {
                            let was = exists|j: int| 0 <= j < p && t.postings@[j].account@ == a;
                            let now = exists|j: int| 0 <= j < p + 1 && t.postings@[j].account@ == a;
                            assert(entry_of(before, a) == later_date(
                                entry_of(old(self)@.last_transaction, a),
                                if was {
                                    Some(d.date)
                                } else {
                                    None
                                },
                            ));
                            if a == account {
                                assert(t.postings@[p as int].account@ == a);
                                assert(now);
                            } else {
                                if was {
                                    let j = choose|j: int| 0 <= j < p && t.postings@[j].account@ == a;
                                    assert(0 <= j < p + 1 && t.postings@[j].account@ == a);
                                }
                                if now {
                                    let j = choose|j: int| 0 <= j < p + 1 && t.postings@[j].account@ == a;
                                    assert(j != p);
                                    assert(0 <= j < p && t.postings@[j].account@ == a);
                                }
                                assert(was == now);
                            }
                        }
                    }
                    p += 1;
                }
                proof {
                    assert forall|a: Seq<char>|
                        #[trigger] entry_of(self@.last_transaction, a) == later_date(
                            entry_of(old(self)@.last_transaction, a),
                            transaction_date(d@, a),
                        ) by {
                        let found = exists|j: int| 0 <= j < t.postings@.len() && t.postings@[j].account@ == a;
                        let view = d@.content->Transaction_0.postings;
                        assert(view.len() == t.postings@.len());
                        if found {
                            let j = choose|j: int| 0 <= j < t.postings@.len() && t.postings@[j].account@ == a;
                            assert(view[j].account == a);
                        }
                        if posts_to(d@, a) {
                            let j = choose|j: int| 0 <= j < view.len() && #[trigger] view[j].account == a;
                            assert(t.postings@[j].account@ == a);
                        }
                        assert(found == posts_to(d@, a));
                    }
                }
            },
            DirectiveContent::Balance(b) => {
                self.note_balance(&b.account, d.date, &b.amount);
                proof {
                    assert(id_links(d@) =~= Set::<Seq<char>>::empty());
                    assert(self@.imported_ids =~= old(self)@.imported_ids.union(id_links(d@)));
                }
            },
            _ => {
                proof {
                    assert(id_links(d@) =~= Set::<Seq<char>>::empty());
                    assert(self@.imported_ids =~= old(self)@.imported_ids.union(id_links(d@)));
                }
            },
        }
    }

    /// Takes note of the directives of one file that stands after those noted before.
    pub fn note_file(&mut self, file: &LedgerFile)
        ensures
            final(self)@.imported_ids == old(self)@.imported_ids.union(file_ids(file@)),
            forall|a: Seq<char>|
                #[trigger] entry_of(final(self)@.last_transaction, a) == later_date(
                    entry_of(old(self)@.last_transaction, a),
                    file_last_transaction(file@, a),
                ),
            forall|a: Seq<char>|
                #[trigger] entry_of(final(self)@.last_balance, a) == newer_balance(
                    entry_of(old(self)@.last_balance, a),
                    file_last_balance(file@, a),
                ),
    {
        let mut i: usize = 0;
        proof {
            assert(self@.imported_ids =~= old(self)@.imported_ids.union(file_ids(file@.take(0))));
        }
        while i < file.directives.len()
            invariant
                i <= file.directives@.len(),
                self@.imported_ids == old(self)@.imported_ids.union(file_ids(file@.take(i as int))),
                forall|a: Seq<char>|
                    #[trigger] entry_of(self@.last_transaction, a) == later_date(
                        entry_of(old(self)@.last_transaction, a),
                        file_last_transaction(file@.take(i as int), a),
                    ),
                forall|a: Seq<char>|
                    #[trigger] entry_of(self@.last_balance, a) == newer_balance(
                        entry_of(old(self)@.last_balance, a),
                        file_last_balance(file@.take(i as int), a),
                    ),
            decreases file.directives@.len() - i,
        {
            let ghost before = self@;
            self.note_directive(&file.directives[i]);
            proof {
                let next = file@.take(i as int + 1);
                assert(next.drop_last() =~= file@.take(i as int));
                assert(next.last() == file.directives@[i as int]@);
                assert(self@.imported_ids =~= old(self)@.imported_ids.union(file_ids(next)));
                assert forall|a: Seq<char>|
                    #[trigger] entry_of(self@.last_transaction, a) == later_date(
                        entry_of(old(self)@.last_transaction, a),
                        file_last_transaction(next, a),
                    ) by {
                    assert(entry_of(before.last_transaction, a) == later_date(
                        entry_of(old(self)@.last_transaction, a),
                        file_last_transaction(file@.take(i as int), a),
                    ));
                }
                assert forall|a: Seq<char>|
                    #[trigger] entry_of(self@.last_balance, a) == newer_balance(
                        entry_of(old(self)@.last_balance, a),
                        file_last_balance(next, a),
                    ) by {
                    assert(entry_of(before.last_balance, a) == newer_balance(
                        entry_of(old(self)@.last_balance, a),
                        file_last_balance(file@.take(i as int), a),
                    ));
                }
            }
            i += 1;
        }
        proof {
            assert(file@.take(file.directives@.len() as int) =~= file@);
        }
    }

    /// Builds the index of a ledger in one pass over its files and their directives.
    pub fn build(ledger: &Ledger) -> (r: HistoryIndex)
        ensures
            r@ == history_of(ledger@),
    {
        let mut index = HistoryIndex::new();
        let mut f: usize = 0;
        proof {
            assert(ledger@.take(0) =~= Seq::<Seq<DirectiveView>>::empty());
        }
        while f < ledger.files.len()
            invariant
                f <= ledger.files@.len(),
                index@.imported_ids == imported_ids(ledger@.take(f as int)),
                forall|a: Seq<char>|
                    #[trigger] entry_of(index@.last_transaction, a) == last_transaction(ledger@.take(f as int), a),
                forall|a: Seq<char>|
                    #[trigger] entry_of(index@.last_balance, a) == last_balance(ledger@.take(f as int), a),
            decreases ledger.files@.len() - f,
        {
            let ghost before = index@;
            index.note_file(&ledger.files[f]);
            proof {
                let next = ledger@.take(f as int + 1);
                assert(next.drop_last() =~= ledger@.take(f as int));
                assert(next.last() == ledger.files@[f as int]@);
                assert forall|a: Seq<char>|
                    #[trigger] entry_of(index@.last_transaction, a) == last_transaction(next, a) by {
                    assert(entry_of(before.last_transaction, a) == last_transaction(ledger@.take(f as int), a));
                }
                assert forall|a: Seq<char>|
                    #[trigger] entry_of(index@.last_balance, a) == last_balance(next, a) by {
                    assert(entry_of(before.last_balance, a) == last_balance(ledger@.take(f as int), a));
                }
            }
            f += 1;
        }
        proof {
            assert(ledger@.take(ledger.files@.len() as int) =~= ledger@);
            let want = history_of(ledger@);
            assert forall|a: Seq<char>| index@.last_transaction.contains_key(a) == want.last_transaction.contains_key(a) by {
                assert(entry_of(index@.last_transaction, a) == last_transaction(ledger@, a));
            }
            assert forall|a: Seq<char>| index@.last_transaction.contains_key(a) implies index@.last_transaction[a] == want.last_transaction[a] by {
                assert(entry_of(index@.last_transaction, a) == last_transaction(ledger@, a));
            }
            assert(index@.last_transaction =~= want.last_transaction);
            assert forall|a: Seq<char>| index@.last_balance.contains_key(a) == want.last_balance.contains_key(a) by {
                assert(entry_of(index@.last_balance, a) == last_balance(ledger@, a));
            }
            assert forall|a: Seq<char>| index@.last_balance.contains_key(a) implies index@.last_balance[a] == want.last_balance[a] by {
                assert(entry_of(index@.last_balance, a) == last_balance(ledger@, a));
            }
            assert(index@.last_balance =~= want.last_balance);
        }
        index
    }
}

} // verus!
