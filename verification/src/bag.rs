use vstd::prelude::*;
use crate::decimal::{Decimal, DecimalValue};
use crate::error::ReconcileError;
use crate::model::{Amount, AmountView};
use vstd::hash_map::StringHashMap;

verus! {

/// What a bag holds of a currency: zero where the currency was never added.
pub open spec fn bag_value(bag: Map<Seq<char>, DecimalValue>, currency: Seq<char>) -> DecimalValue {
    if bag.contains_key(currency) {
        bag[currency]
    } else {
        DecimalValue::zero()
    }
}

/// The bag after an amount was added to what it held of the amount's
/// currency; none where that sum cannot be held.
pub open spec fn bag_with(bag: Map<Seq<char>, DecimalValue>, amount: AmountView) -> Option<Map<Seq<char>, DecimalValue>> {
    match bag_value(bag, amount.currency).plus(amount.value) {
        Some(sum) => Some(bag.insert(amount.currency, sum)),
        None => None,
    }
}

/// Amounts accumulated by currency.
pub struct Bag {
    amounts: StringHashMap<Decimal>,
}

impl View for Bag {
    type V = Map<Seq<char>, DecimalValue>;

    closed spec fn view(&self) -> Map<Seq<char>, DecimalValue> {
        self.amounts@.map_values(|d: Decimal| d@)
    }
}

impl Bag {
    /// A bag that holds nothing.
    pub fn new() -> (r: Bag)
        ensures
            r@ == Map::<Seq<char>, DecimalValue>::empty(),
    {
        let r = Bag { amounts: StringHashMap::new() };
        assert(r@ =~= Map::<Seq<char>, DecimalValue>::empty());
        r
    }

    /// Adds an amount to what the bag holds of its currency, starting from
    /// zero where the currency is new. The bag is left as it was where the
    /// sum cannot be held.
    pub fn add(&mut self, amount: &Amount) -> (r: Result<(), ReconcileError>)
        ensures
            match bag_with(old(self)@, amount@) {
                Some(bag) => r.is_ok() && final(self)@ == bag,
                None => r == Err::<(), ReconcileError>(ReconcileError::Overflow) && final(self)@ == old(self)@,
            },
    {
        let held = self.get(&amount.currency);
        match held.checked_add(&amount.value) {
            Some(sum) => {
                self.amounts.insert(amount.currency.clone(), sum);
                assert(self@ =~= old(self)@.insert(amount@.currency, sum@));
                Ok(())
            },
            None => Err(ReconcileError::Overflow),
        }
    }

    /// What the bag holds of a currency, zero where it holds none.
    pub fn get(&self, currency: &String) -> (r: Decimal)
        ensures
            r@ == bag_value(self@, currency@),
    {
        match self.amounts.get(currency.as_str()) {
            Some(value) => *value,
            None => Decimal::zero(),
        }
    }

    /// What the bag holds of a currency, or `None` where the currency was never added.
    pub fn lookup(&self, currency: &String) -> (r: Option<Decimal>)
        ensures
            r.is_some() == self@.contains_key(currency@),
            r matches Some(value) ==> value@ == self@[currency@],
    {
        match self.amounts.get(currency.as_str()) {
            Some(value) => Some(*value),
            None => None,
        }
    }
}

} // verus!
