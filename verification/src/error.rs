use vstd::prelude::*;

verus! {

/// Why a reconciliation pass stopped.
#[derive(Clone, Copy, Debug, PartialEq, Eq, Structural)]
pub enum ReconcileError {
    /// A transaction record has no booking date or no amount that can be read.
    MissingField,
    /// A balance assertion is due but neither the bank nor the ledger gives a date for it.
    NoReferenceDate,
    /// The bank's data for an account could not be fetched.
    NetworkFailure,
    /// A date or a decimal number is malformed.
    ParseFailure,
    /// A sum, a difference or a date lies outside what can be represented.
    Overflow,
}

impl ReconcileError {
    /// A short description for messages.
    pub fn message(&self) -> (r: &'static str)
        ensures
            r@ == Self::message_text(*self),
    {
        match self {
            ReconcileError::MissingField => "a transaction record lacks a booking date or a readable amount",
            ReconcileError::NoReferenceDate => "no date is available for the balance assertion",
            ReconcileError::NetworkFailure => "the bank's data could not be fetched",
            ReconcileError::ParseFailure => "a date or a decimal number is malformed",
            ReconcileError::Overflow => "a value lies outside the representable range",
        }
    }

    /// The description of each failure.
    pub open spec fn message_text(e: ReconcileError) -> Seq<char> {
        match e {
            ReconcileError::MissingField => "a transaction record lacks a booking date or a readable amount"@,
            ReconcileError::NoReferenceDate => "no date is available for the balance assertion"@,
            ReconcileError::NetworkFailure => "the bank's data could not be fetched"@,
            ReconcileError::ParseFailure => "a date or a decimal number is malformed"@,
            ReconcileError::Overflow => "a value lies outside the representable range"@,
        }
    }
}

} // verus!
