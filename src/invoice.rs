//! Candidate invoice items as the store hands them out.
use vstd::prelude::*;
use crate::decimal::Decimal;

verus! {

/// A candidate invoice item for the SKU-centric matcher.
#[derive(Clone, Debug)]
pub struct MatchedInvoiceItem {
    pub invoice_id: i64,
    pub item_id: i64,
    pub product_code: String,
    pub quantity: Decimal,
    pub amount: Decimal,
    pub unit_price: Option<Decimal>,
}

impl MatchedInvoiceItem {
    /// A field-by-field copy.
    pub fn duplicate(&self) -> (r: MatchedInvoiceItem)
        ensures
            r == *self,
    {
        MatchedInvoiceItem {
            invoice_id: self.invoice_id,
            item_id: self.item_id,
            product_code: self.product_code.clone(),
            quantity: self.quantity,
            amount: self.amount,
            unit_price: self.unit_price,
        }
    }
}

/// Count and total amount of the candidate items of one SKU.
#[derive(Clone, Debug)]
pub struct CandidateStat {
    pub cnt: i64,
    pub sum_amount: Decimal,
}

/// A candidate invoice item for the invoice-centric matcher.
#[derive(Clone, Debug)]
pub struct InvoiceItemDetail {
    pub invoice_id: i64,
    pub item_id: i64,
    pub product_code: String,
    pub quantity: Decimal,
    pub amount: Decimal,
    pub unit_price: Option<Decimal>,
}

/// Coverage statistics of one invoice: how many required SKUs it covers and
/// the amount it can match.
#[derive(Clone, Debug)]
pub struct InvoiceCoverage {
    pub invoice_id: i64,
    pub sku_coverage_count: i64,
    pub total_coverage_amount: Decimal,
}

} // verus!
