//! Reconciliation of a bank's transaction and balance feed with a plain-text
//! accounting ledger: what has been imported is indexed, bank records become
//! ledger directives, duplicates are dropped, pending amounts are netted out
//! of the reported balance, and balance assertions are added where they differ.
//!
//! The data: [`date`], [`decimal`], [`model`] (the ledger), [`feed`] (what the
//! bank reports). The steps: [`index`], [`normalize`], [`dedup`], [`bag`] and
//! [`pending`], [`balance`], [`order`], and [`reconcile`], which runs them.
//! What holds of them together is proved in [`laws`], [`idempotence`] and
//! [`failure`]. [`token`] decides on the use of the bank's access tokens.

pub mod error;
pub mod text;
pub mod date;
pub mod decimal;
pub mod model;
pub mod feed;
pub mod index;
pub mod normalize;
pub mod dedup;
pub mod bag;
pub mod pending;
pub mod balance;
pub mod order;
pub mod reconcile;
pub mod laws;
pub mod idempotence;
pub mod failure;
pub mod token;
