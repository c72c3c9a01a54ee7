//! Bills, their line items and the per-SKU scarcity summary.
use vstd::prelude::*;
use crate::decimal::Decimal;

verus! {

/// A bill: its id and the buyer/seller tax-id pair that its items must be
/// backed from.
#[derive(Clone, Debug)]
pub struct MatchBill1201 {
    pub fid: i64,
    pub fbuyertaxno: String,
    pub fsalertaxno: String,
}

/// One line of a bill. The amount may be negative (a red-flush line); the
/// demand it places is its absolute value.
#[derive(Clone, Debug)]
pub struct MatchBillItem1201 {
    pub fid: i64,
    pub fentryid: i64,
    pub fspbm: String,
    pub famount: Decimal,
    pub fnum: Option<Decimal>,
    pub funitprice: Option<Decimal>,
}

/// Candidate statistics of one bill line's SKU: how many candidate invoice
/// items carry it and their total amount.
#[derive(Clone, Debug)]
pub struct TempSummary {
    pub fspbm: String,
    pub item_count: i64,
    pub total_amount: Decimal,
}

} // verus!
