//! Match records and per-bill statistics.
use vstd::prelude::*;
use crate::decimal::Decimal;

verus! {

/// One assignment of an invoice item amount to a bill SKU. `fmatchtime` is
/// the match time in microseconds since the Unix epoch (UTC).
#[derive(Clone, Debug)]
pub struct MatchResult1201 {
    pub fbillid: i64,
    pub fbuyertaxno: String,
    pub fsalertaxno: String,
    pub fspbm: String,
    pub finvoiceid: i64,
    pub finvoiceitemid: i64,
    pub fnum: Decimal,
    pub fbillamount: Decimal,
    pub finvoiceamount: Decimal,
    pub fmatchamount: Decimal,
    pub fbillunitprice: Option<Decimal>,
    pub fbillqty: Option<Decimal>,
    pub finvoiceunitprice: Option<Decimal>,
    pub finvoiceqty: Option<Decimal>,
    pub fmatchtime: i64,
}

/// Statistics of one bill's match.
#[derive(Clone, Debug)]
pub struct MatchStats {
    pub bill_id: i64,
    pub total_skus: usize,
    pub matched_skus: usize,
    pub invoices_used: usize,
    pub total_matched_amount: Decimal,
    pub total_candidate_invoices: usize,
    pub output_file: Option<String>,
}

/// Sum of the matched amounts of the records for `sku`.
pub open spec fn matched_for(records: Seq<MatchResult1201>, sku: Seq<char>) -> int
    decreases records.len(),
{
    if records.len() == 0 {
        0
    } else {
        matched_for(records.drop_last(), sku) + if records.last().fspbm@ == sku {
            records.last().fmatchamount@
        } else {
            0
        }
    }
}

/// Sum of the matched amounts of all records.
pub open spec fn matched_total(records: Seq<MatchResult1201>) -> int
    decreases records.len(),
{
    if records.len() == 0 {
        0
    } else {
        matched_total(records.drop_last()) + records.last().fmatchamount@
    }
}

/// The distinct invoices that the records draw on.
pub open spec fn invoice_ids_of(records: Seq<MatchResult1201>) -> Set<i64>
    decreases records.len(),
{
    if records.len() == 0 {
        Set::empty()
    } else {
        invoice_ids_of(records.drop_last()).insert(records.last().finvoiceid)
    }
}

impl MatchStats {
    /// Statistics of a bill without lines: all zero.
    pub fn empty(bill_id: i64) -> (r: MatchStats)
        ensures
            r.bill_id == bill_id,
            r.total_skus == 0,
            r.matched_skus == 0,
            r.invoices_used == 0,
            r.total_matched_amount@ == 0,
            r.total_candidate_invoices == 0,
            r.output_file is None,
    {
        MatchStats {
            bill_id,
            total_skus: 0,
            matched_skus: 0,
            invoices_used: 0,
            total_matched_amount: Decimal::zero(),
            total_candidate_invoices: 0,
            output_file: None,
        }
    }
}

} // verus!
