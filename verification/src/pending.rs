use vstd::prelude::*;
use crate::bag::{Bag, bag_with};
use crate::decimal::DecimalValue;
use crate::error::ReconcileError;
use crate::model::{Account, Amount, AmountView};

verus! {

/// What is pending on an account; nothing where the account was never met.
pub open spec fn bag_of(
    pending: Map<Seq<char>, Map<Seq<char>, DecimalValue>>,
    account: Seq<char>,
) -> Map<Seq<char>, DecimalValue> {
    if pending.contains_key(account) {
        pending[account]
    } else {
        Map::empty()
    }
}

/// The pending amounts after one more amount is pending on the account;
/// none where the sum cannot be held.
pub open spec fn pending_with(
    pending: Map<Seq<char>, Map<Seq<char>, DecimalValue>>,
    account: Seq<char>,
    amount: AmountView,
) -> Option<Map<Seq<char>, Map<Seq<char>, DecimalValue>>> {
    match bag_with(bag_of(pending, account), amount) {
        Some(bag) => Some(pending.insert(account, bag)),
        None => None,
    }
}

/// The bag of one account.
pub struct AccountBag {
    pub account: Account,
    pub bag: Bag,
}

/// The amounts that are pending, account by account. No account stands in it twice.
pub struct PendingBags {
    entries: Vec<AccountBag>,
}

/// Whether no two of the entries are of one account.
pub closed spec fn distinct_accounts(entries: Seq<AccountBag>) -> bool {
    forall|i: int, j: int|
        0 <= i < entries.len() && 0 <= j < entries.len() && i != j ==> entries[i].account@ != entries[j].account@
}

/// A position at which the account stands among the entries.
pub closed spec fn position_of(entries: Seq<AccountBag>, account: Seq<char>) -> int {
    choose|i: int| 0 <= i < entries.len() && entries[i].account@ == account
}

/// The bag of each account that stands among the entries.
pub closed spec fn bags_of(entries: Seq<AccountBag>) -> Map<Seq<char>, Map<Seq<char>, DecimalValue>> {
    Map::new(
        |a: Seq<char>| exists|i: int| 0 <= i < entries.len() && entries[i].account@ == a,
        |a: Seq<char>| entries[position_of(entries, a)].bag@,
    )
}

proof fn lemma_bag_at(entries: Seq<AccountBag>, i: int)
    requires
        distinct_accounts(entries),
        0 <= i < entries.len(),
    ensures
        bags_of(entries).contains_key(entries[i].account@),
        bags_of(entries)[entries[i].account@] == entries[i].bag@,
{
    let p = position_of(entries, entries[i].account@);
    assert(0 <= p < entries.len() && entries[p].account@ == entries[i].account@);
    assert(p == i);
}

proof fn lemma_bag_changed(before: Seq<AccountBag>, after: Seq<AccountBag>, i: int)
    requires
        distinct_accounts(before),
        0 <= i < before.len(),
        after.len() == before.len(),
        after[i].account@ == before[i].account@,
        forall|j: int| 0 <= j < before.len() && j != i ==> after[j] == before[j],
    ensures
        distinct_accounts(after),
        bags_of(after) == bags_of(before).insert(before[i].account@, after[i].bag@),
{
    assert forall|j: int| 0 <= j < before.len() implies #[trigger] after[j].account@ == before[j].account@ by {}
    let want = bags_of(before).insert(before[i].account@, after[i].bag@);
    assert forall|a: Seq<char>| bags_of(after).contains_key(a) == want.contains_key(a) by {
        if bags_of(after).contains_key(a) {
            let p = choose|p: int| 0 <= p < after.len() && after[p].account@ == a;
            assert(before[p].account@ == a);
        }
        if bags_of(before).contains_key(a) {
            let p = choose|p: int| 0 <= p < before.len() && before[p].account@ == a;
            assert(after[p].account@ == a);
        }
        if a == before[i].account@ {
            assert(after[i].account@ == a);
        }
    }
    assert forall|a: Seq<char>| bags_of(after).contains_key(a) implies bags_of(after)[a] == want[a] by {
        let p = position_of(after, a);
        assert(0 <= p < after.len() && after[p].account@ == a);
        lemma_bag_at(after, p);
        if p != i {
            assert(before[p].account@ == a);
            lemma_bag_at(before, p);
        }
    }
    assert(bags_of(after) =~= want);
}

proof fn lemma_bag_pushed(before: Seq<AccountBag>, entry: AccountBag)
    requires
        distinct_accounts(before),
        forall|j: int| 0 <= j < before.len() ==> before[j].account@ != entry.account@,
    ensures
        distinct_accounts(before.push(entry)),
        bags_of(before.push(entry)) == bags_of(before).insert(entry.account@, entry.bag@),
        !bags_of(before).contains_key(entry.account@),
{
    let after = before.push(entry);
    let want = bags_of(before).insert(entry.account@, entry.bag@);
    assert forall|a: Seq<char>| bags_of(after).contains_key(a) == want.contains_key(a) by {
        if bags_of(after).contains_key(a) {
            let p = choose|p: int| 0 <= p < after.len() && after[p].account@ == a;
            if p < before.len() {
                assert(before[p].account@ == a);
            }
        }
        if bags_of(before).contains_key(a) {
            let p = choose|p: int| 0 <= p < before.len() && before[p].account@ == a;
            assert(after[p].account@ == a);
        }
        if a == entry.account@ {
            assert(after[before.len() as int].account@ == a);
        }
    }
    assert forall|a: Seq<char>| bags_of(after).contains_key(a) implies bags_of(after)[a] == want[a] by {
        let p = position_of(after, a);
        assert(0 <= p < after.len() && after[p].account@ == a);
        lemma_bag_at(after, p);
        if p < before.len() {
            assert(before[p].account@ == a);
            lemma_bag_at(before, p);
        }
    }
    assert(bags_of(after) =~= want);
}

impl View for PendingBags {
    type V = Map<Seq<char>, Map<Seq<char>, DecimalValue>>;

    closed spec fn view(&self) -> Map<Seq<char>, Map<Seq<char>, DecimalValue>> {
        bags_of(self.entries@)
    }
}

impl PendingBags {
    /// Whether no account stands in it twice.
    pub closed spec fn well_formed(&self) -> bool {
        distinct_accounts(self.entries@)
    }

    /// Nothing pending on any account.
    pub fn new() -> (r: PendingBags)
        ensures
            r.well_formed(),
            r@ == Map::<Seq<char>, Map<Seq<char>, DecimalValue>>::empty(),
    {
        let r = PendingBags { entries: Vec::new() };
        assert(r@ =~= Map::<Seq<char>, Map<Seq<char>, DecimalValue>>::empty());
        r
    }

    fn find(&self, account: &Account) -> (r: Option<usize>)
        ensures
            match r {
                Some(i) => i < self.entries@.len() && self.entries@[i as int].account@ == account@,
                None => forall|j: int| 0 <= j < self.entries@.len() ==> self.entries@[j].account@ != account@,
            },
    {
        let mut i: usize = 0;
        while i < self.entries.len()
            invariant
                i <= self.entries@.len(),
                forall|j: int| 0 <= j < i ==> self.entries@[j].account@ != account@,
            decreases self.entries@.len() - i,
        {
            if self.entries[i].account.same_as(account) {
                return Some(i);
            }
            i += 1;
        }
        None
    }

    /// The bag of an account, if anything was ever pending on it.
    pub fn bag(&self, account: &Account) -> (r: Option<&Bag>)
        requires
            self.well_formed(),
        ensures
            match r {
                Some(b) => self@.contains_key(account@) && self@[account@] == b@,
                None => !self@.contains_key(account@),
            },
    {
        match self.find(account) {
            Some(i) => {
                proof {
                    lemma_bag_at(self.entries@, i as int);
                }
                Some(&self.entries[i].bag)
            },
            None => None,
        }
    }

    /// Adds an amount to what is pending on an account. Where the sum
    /// cannot be held, everything is left as it was.
    pub fn add(&mut self, account: &Account, amount: &Amount) -> (r: Result<(), ReconcileError>)
        requires
            old(self).well_formed(),
        ensures
            final(self).well_formed(),
            match pending_with(old(self)@, account@, amount@) {
                Some(pending) => r.is_ok() && final(self)@ == pending,
                None => r == Err::<(), ReconcileError>(ReconcileError::Overflow) && final(self)@ == old(self)@,
            },
    {
        match self.find(account) {
            Some(i) => {
                let ghost before = self.entries@;
                proof {
                    lemma_bag_at(before, i as int);
                }
                let r = self.entries[i].bag.add(amount);
                proof {
                    lemma_bag_changed(before, self.entries@, i as int);
                    assert(self@ =~= old(self)@.insert(account@, self.entries@[i as int].bag@));
                    if r.is_err() {
                        assert(self@ =~= old(self)@);
                    }
                }
                r
            },
            None => {
                let mut bag = Bag::new();
                match bag.add(amount) {
                    Err(e) => Err(e),
                    Ok(()) => {
                        let entry = AccountBag { account: account.clone(), bag };
                        proof {
                            lemma_bag_pushed(self.entries@, entry);
                        }
                        self.entries.push(entry);
                        Ok(())
                    },
                }
            },
        }
    }
}

} // verus!
