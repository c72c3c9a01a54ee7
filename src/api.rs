//! Request and response bodies of the HTTP surface.
use vstd::prelude::*;
use crate::record::MatchStats;

verus! {

/// The bills to match.
#[derive(Clone, Debug)]
pub struct BatchMatchRequest {
    pub bill_ids: Vec<i64>,
}

/// Outcome of a SKU-centric batch.
#[derive(Clone, Debug)]
pub struct BatchMatchResponse {
    pub success: bool,
    pub message: String,
}

/// Outcome of an invoice-centric batch, with each bill's statistics on
/// success.
#[derive(Clone, Debug)]
pub struct InvoiceCentricResponse {
    pub success: bool,
    pub message: String,
    pub stats: Option<Vec<MatchStats>>,
}

} // verus!
