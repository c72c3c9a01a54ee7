//! Reconciliation of bill line items against issued VAT invoice items.
//!
//! The library holds the matching logic: exact decimal amounts
//! ([`decimal`]), the demand model ([`requirements`]), the scoring context
//! with its lazy max-heap ([`scoring`]), the invoice-centric greedy matcher
//! ([`invoice_centric`]), the decisions of the SKU-centric matcher
//! ([`sku_centric`]), match records and statistics ([`record`]) and the
//! text of their numeric fields ([`fields`]). Reading and writing the store,
//! HTTP and the CSV file itself are left to the caller.
pub mod decimal;
pub mod text;
pub mod bill;
pub mod requirements;
pub mod invoice;
pub mod scoring;
pub mod record;
pub mod invoice_centric;
pub mod id_set;
pub mod sku_centric;
mod clock;
pub mod config;
pub mod api;
pub mod fields;
