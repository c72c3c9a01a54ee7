//! The invoice-centric matcher: repeatedly takes the invoice that covers
//! the most remaining demand and matches all it can from it.
use vstd::prelude::*;
use crate::bill::{MatchBill1201, MatchBillItem1201};
use crate::decimal::{abs_int, cents_of, min_int, Decimal, UNITS_PER_CENT};
use crate::invoice::InvoiceItemDetail;
use crate::record::{invoice_ids_of, matched_for, matched_total, MatchResult1201, MatchStats};
use crate::requirements::{
    abs_total, demand, demand_map, kept_total, lemma_totals_bound, outstanding, reduced,
    MatchingRequirements,
};
use crate::scoring::{
    consumed, consumed_from, contributes, demand_le, first_live_at, has_invoice, invoice_score,
    item_ids_distinct, pairs_distinct, comes_from, fresh, group_matches, item_term, kept, kept_of,
    lemma_item_term_mono, lemma_kept_of_contains, raw_score, state_from, bonus, freq_in,
    lemma_heap_covers_mono, lemma_raw_score_mono, lemma_raw_score_zero, lemma_reduced_le,
    record_use, InvoiceItemState, InvoiceScoringContext,
};
use crate::text::{same_text, trim_code, trimmed};

verus! {

/// Number of invoices with a positive score.
pub open spec fn positive_count(
    invs: Seq<(i64, Seq<InvoiceItemState>)>,
    reqs: Map<Seq<char>, int>,
    index: Seq<(Seq<char>, Seq<i64>)>,
) -> int
    decreases invs.len(),
{
    if invs.len() == 0 {
        0
    } else {
        positive_count(invs.drop_last(), reqs, index) + if invoice_score(invs.last().1, reqs, index)
            > 0 {
            1int
        } else {
            0
        }
    }
}

proof fn lemma_positive_count_mono(
    now: Seq<(i64, Seq<InvoiceItemState>)>,
    before: Seq<(i64, Seq<InvoiceItemState>)>,
    rn: Map<Seq<char>, int>,
    rb: Map<Seq<char>, int>,
    index: Seq<(Seq<char>, Seq<i64>)>,
    p0: int,
)
    requires
        consumed_from(now, before),
        demand_le(rn, rb),
    ensures
        0 <= positive_count(now, rn, index) <= positive_count(before, rb, index),
        (0 <= p0 < now.len() && invoice_score(before[p0].1, rb, index) > 0 && invoice_score(
            now[p0].1,
            rn,
            index,
        ) <= 0) ==> positive_count(now, rn, index) < positive_count(before, rb, index),
    decreases now.len(),
{
    if now.len() > 0 {
        let n = now.len() - 1;
        assert(consumed_from(now.drop_last(), before.drop_last())) by {
            assert forall|p: int| 0 <= p < now.drop_last().len() implies {
                &&& (#[trigger] now.drop_last()[p]).0 == before.drop_last()[p].0
                &&& now.drop_last()[p].1.len() == before.drop_last()[p].1.len()
                &&& forall|k: int|
                    0 <= k < now.drop_last()[p].1.len() ==> {
                        &&& (#[trigger] now.drop_last()[p].1[k]).product_code@
                            == before.drop_last()[p].1[k].product_code@
                        &&& now.drop_last()[p].1[k].remaining_amount@
                            <= before.drop_last()[p].1[k].remaining_amount@
                        &&& now.drop_last()[p].1[k].item_id == before.drop_last()[p].1[k].item_id
                    }
            } by {
                assert(now.drop_last()[p] == now[p]);
                assert(before.drop_last()[p] == before[p]);
            }
        }
        lemma_positive_count_mono(now.drop_last(), before.drop_last(), rn, rb, index, p0);
        let a = now[n].1;
        let b = before[n].1;
        assert forall|k: int| 0 <= k < a.len() implies (#[trigger] a[k]).product_code@
            == b[k].product_code@ && a[k].remaining_amount@ <= b[k].remaining_amount@ by {
            assert(now[n].1[k] == a[k]);
        }
        lemma_raw_score_mono(a, b, rn, rb, index);
    }
}

proof fn lemma_consumed_from_refl(invs: Seq<(i64, Seq<InvoiceItemState>)>)
    ensures
        consumed_from(invs, invs),
{
}

proof fn lemma_consumed_from_trans(
    a: Seq<(i64, Seq<InvoiceItemState>)>,
    b: Seq<(i64, Seq<InvoiceItemState>)>,
    c: Seq<(i64, Seq<InvoiceItemState>)>,
)
    requires
        consumed_from(a, b),
        consumed_from(b, c),
    ensures
        consumed_from(a, c),
{
    assert forall|p: int| 0 <= p < a.len() implies {
        &&& (#[trigger] a[p]).0 == c[p].0
        &&& a[p].1.len() == c[p].1.len()
        &&& forall|k: int|
            0 <= k < a[p].1.len() ==> {
                &&& (#[trigger] a[p].1[k]).product_code@ == c[p].1[k].product_code@
                &&& a[p].1[k].remaining_amount@ <= c[p].1[k].remaining_amount@
                &&& a[p].1[k].item_id == c[p].1[k].item_id
            }
    } by {
        assert(b[p].0 == c[p].0);
        assert forall|k: int| 0 <= k < a[p].1.len() implies {
            &&& (#[trigger] a[p].1[k]).product_code@ == c[p].1[k].product_code@
            &&& a[p].1[k].remaining_amount@ <= c[p].1[k].remaining_amount@
            &&& a[p].1[k].item_id == c[p].1[k].item_id
        } by {
            assert(b[p].1[k].product_code@ == c[p].1[k].product_code@);
        }
    }
}

proof fn lemma_term_le_raw(
    items: Seq<InvoiceItemState>,
    k: int,
    reqs: Map<Seq<char>, int>,
    index: Seq<(Seq<char>, Seq<i64>)>,
)
    requires
        0 <= k < items.len(),
    ensures
        item_term(items[k], reqs, index) <= raw_score(items, reqs, index),
    decreases items.len(),
{
    let d = items.drop_last();
    lemma_item_term_mono(items.last(), items.last(), reqs, reqs, index);
    if k == items.len() - 1 {
        lemma_raw_score_mono(d, d, reqs, reqs, index);
    } else {
        lemma_term_le_raw(d, k, reqs, index);
        assert(d[k] == items[k]);
    }
}

/// Amount of the last bill line whose trimmed code is `sku`, zero if none.
pub open spec fn bill_amount_for(items: Seq<MatchBillItem1201>, sku: Seq<char>) -> int
    decreases items.len(),
{
    if items.len() == 0 {
        0
    } else if trimmed(items.last().fspbm@) == sku {
        items.last().famount@
    } else {
        bill_amount_for(items.drop_last(), sku)
    }
}

/// Position of the last bill line whose trimmed code is `sku`.
fn bill_item_for(items: &[MatchBillItem1201], sku: &str) -> (r: Option<usize>)
    ensures
        match r {
            Some(i) => i < items@.len() && items@[i as int].famount@ == bill_amount_for(items@, sku@),
            None => bill_amount_for(items@, sku@) == 0,
        },
{
    let mut j: usize = items.len();
    assert(items@.subrange(0, j as int) =~= items@);
    while j > 0
        invariant
            j <= items@.len(),
            bill_amount_for(items@, sku@) == bill_amount_for(items@.subrange(0, j as int), sku@),
        decreases j,
    {
        let ghost pre = items@.subrange(0, j as int);
        assert(pre.drop_last() =~= items@.subrange(0, j - 1));
        let code = trim_code(items[j - 1].fspbm.as_str());
        if same_text(code.as_str(), sku) {
            return Some(j - 1);
        }
        j = j - 1;
    }
    None
}

/// The outcome of one bill's invoice-centric match: statistics, the match
/// records in emission order, and each product code whose demand is not
/// fully met with what is left of it.
pub struct InvoiceCentricOutcome {
    pub stats: MatchStats,
    pub records: Vec<MatchResult1201>,
    pub unmatched: Vec<(String, Decimal)>,
}

/// What every record of a bill's match satisfies: it belongs to the bill,
/// takes a positive amount no larger than the invoice item's original amount
/// nor than the demand of its SKU, and carries the bill line's amount.
pub open spec fn record_ok(
    r: MatchResult1201,
    bill: MatchBill1201,
    items: Seq<MatchBillItem1201>,
    match_time: i64,
) -> bool {
    &&& r.fbillid == bill.fid
    &&& r.fbuyertaxno@ == bill.fbuyertaxno@
    &&& r.fsalertaxno@ == bill.fsalertaxno@
    &&& 0 < r.fmatchamount@ <= r.finvoiceamount@
    &&& r.fmatchamount@ <= demand(items, r.fspbm@)
    &&& r.fbillamount@ == bill_amount_for(items, r.fspbm@)
    &&& r.finvoiceqty == Some(r.fnum)
    &&& r.fmatchtime == match_time
}

/// Whether record `r` carries the data of candidate item `c`.
pub open spec fn record_from(r: MatchResult1201, c: InvoiceItemDetail) -> bool {
    &&& r.finvoiceid == c.invoice_id
    &&& r.finvoiceitemid == c.item_id
    &&& r.fspbm@ == trimmed(c.product_code@)
    &&& r.finvoiceamount == c.amount
    &&& r.fnum == c.quantity
    &&& r.finvoiceunitprice == c.unit_price
}

/// Whether record `r` carries the data of some kept candidate item.
pub open spec fn record_comes_from(r: MatchResult1201, candidates: Seq<InvoiceItemDetail>) -> bool {
    exists|t: int| #![trigger candidates[t]] 0 <= t < candidates.len() && kept(candidates[t]) && record_from(r, candidates[t])
}

/// Whether some record draws on candidate item `c`.
pub open spec fn draws_on(records: Seq<MatchResult1201>, c: InvoiceItemDetail) -> bool {
    exists|j: int| #![trigger records[j]] 0 <= j < records.len() && records[j].finvoiceid == c.invoice_id
        && records[j].finvoiceitemid == c.item_id
}

/// What a bill's invoice-centric outcome satisfies, for bill lines `items`,
/// candidate items `candidates` and match time `match_time`. When candidate
/// items are identified by their (invoice id, item id) pairs, no two records
/// draw on the same item. A SKU is left unmatched only when everything that
/// could still serve it is spent: each of its records took its item whole,
/// and each of its candidate items that no record draws on could give less
/// than one cent.
pub open spec fn outcome_ok(
    r: InvoiceCentricOutcome,
    bill: MatchBill1201,
    items: Seq<MatchBillItem1201>,
    candidates: Seq<InvoiceItemDetail>,
    total_candidate_invoices: usize,
    match_time: i64,
) -> bool {
    &&& r.stats.bill_id == bill.fid
    &&& r.stats.total_skus == demand_map(items).dom().len()
    &&& r.stats.matched_skus + r.unmatched@.len() == r.stats.total_skus
    &&& r.stats.matched_skus == r.stats.total_skus <==> r.unmatched@.len() == 0
    &&& r.stats.invoices_used == invoice_ids_of(r.records@).len()
    &&& r.stats.total_matched_amount@ == matched_total(r.records@)
    &&& r.stats.total_candidate_invoices == total_candidate_invoices
    &&& r.stats.output_file is None
    &&& forall|i: int|
        0 <= i < r.records@.len() ==> record_ok(#[trigger] r.records@[i], bill, items, match_time)
    &&& forall|sku: Seq<char>|
        #[trigger] matched_for(r.records@, sku) <= outstanding(demand_map(items), sku)
    &&& forall|i: int|
        0 <= i < r.unmatched@.len() ==> (#[trigger] r.unmatched@[i]).1@ > 0 && matched_for(
            r.records@,
            r.unmatched@[i].0@,
        ) + r.unmatched@[i].1@ == outstanding(demand_map(items), r.unmatched@[i].0@)
    &&& forall|sku: Seq<char>|
        #[trigger] demand_map(items).contains_key(sku) && (forall|i: int|
            0 <= i < r.unmatched@.len() ==> r.unmatched@[i].0@ != sku) ==> matched_for(r.records@, sku)
            == demand(items, sku)
    &&& items.len() == 0 ==> r.stats.total_skus == 0 && r.records@.len() == 0
    &&& forall|i: int| 0 <= i < r.records@.len() ==> record_comes_from(#[trigger] r.records@[i], candidates)
    &&& forall|i: int, j: int|
        0 <= i < r.unmatched@.len() && 0 <= j < r.records@.len() && (#[trigger] r.records@[j]).fspbm@ == (
        #[trigger] r.unmatched@[i]).0@ ==> r.records@[j].fmatchamount == r.records@[j].finvoiceamount
    &&& forall|i: int, t: int|
        0 <= i < r.unmatched@.len() && 0 <= t < candidates.len() && kept(#[trigger] candidates[t])
            && trimmed(candidates[t].product_code@) == (#[trigger] r.unmatched@[i]).0@ && candidates[t].amount@ > 0
            && !draws_on(r.records@, candidates[t]) ==> min_int(candidates[t].amount@, r.unmatched@[i].1@)
            < UNITS_PER_CENT
    &&& candidates.len() == 0 ==> r.records@.len() == 0 && r.stats.matched_skus == 0 && r.unmatched@.len()
        == r.stats.total_skus
    &&& pairs_distinct(candidates) ==> forall|i: int, j: int|
        0 <= i < j < r.records@.len() ==> (#[trigger] r.records@[i]).finvoiceid != (
        #[trigger] r.records@[j]).finvoiceid || r.records@[i].finvoiceitemid != r.records@[j].finvoiceitemid
}

/// Sum of the matched amounts of the records that draw on invoice item
/// `item_id` of invoice `invoice_id`.
pub open spec fn matched_item(records: Seq<MatchResult1201>, invoice_id: i64, item_id: i64) -> int
    decreases records.len(),
{
    if records.len() == 0 {
        0
    } else {
        matched_item(records.drop_last(), invoice_id, item_id) + if records.last().finvoiceid == invoice_id
            && records.last().finvoiceitemid == item_id {
            records.last().fmatchamount@
        } else {
            0
        }
    }
}

proof fn lemma_matched_item_absent(records: Seq<MatchResult1201>, invoice_id: i64, item_id: i64)
    requires
        forall|i: int|
            0 <= i < records.len() ==> (#[trigger] records[i]).finvoiceid != invoice_id || records[i].finvoiceitemid
                != item_id,
    ensures
        matched_item(records, invoice_id, item_id) == 0,
    decreases records.len(),
{
    if records.len() > 0 {
        assert forall|i: int| 0 <= i < records.drop_last().len() implies (#[trigger] records.drop_last()[i]).finvoiceid
            != invoice_id || records.drop_last()[i].finvoiceitemid != item_id by {
            assert(records.drop_last()[i] == records[i]);
        }
        lemma_matched_item_absent(records.drop_last(), invoice_id, item_id);
    }
}

proof fn lemma_matched_item_single(records: Seq<MatchResult1201>, i: int)
    requires
        0 <= i < records.len(),
        forall|a: int, b: int|
            0 <= a < b < records.len() ==> (#[trigger] records[a]).finvoiceid != (#[trigger] records[b]).finvoiceid
                || records[a].finvoiceitemid != records[b].finvoiceitemid,
    ensures
        matched_item(records, records[i].finvoiceid, records[i].finvoiceitemid) == records[i].fmatchamount@,
    decreases records.len(),
{
    let d = records.drop_last();
    assert forall|a: int, b: int|
        0 <= a < b < d.len() implies (#[trigger] d[a]).finvoiceid != (#[trigger] d[b]).finvoiceid
            || d[a].finvoiceitemid != d[b].finvoiceitemid by {
        assert(d[a] == records[a] && d[b] == records[b]);
    }
    if i == records.len() - 1 {
        assert forall|a: int| 0 <= a < d.len() implies (#[trigger] d[a]).finvoiceid != records[i].finvoiceid
            || d[a].finvoiceitemid != records[i].finvoiceitemid by {
            assert(d[a] == records[a]);
        }
        lemma_matched_item_absent(d, records[i].finvoiceid, records[i].finvoiceitemid);
    } else {
        lemma_matched_item_single(d, i);
        assert(d[i] == records[i]);
    }
}

/// Never double-spends: when candidate items are identified by their
/// (invoice id, item id) pairs, the records that draw on one item take in
/// all no more than that item's original amount.
pub proof fn lemma_no_double_spend(
    r: InvoiceCentricOutcome,
    bill: MatchBill1201,
    items: Seq<MatchBillItem1201>,
    candidates: Seq<InvoiceItemDetail>,
    total_candidate_invoices: usize,
    match_time: i64,
)
    requires
        outcome_ok(r, bill, items, candidates, total_candidate_invoices, match_time),
        pairs_distinct(candidates),
    ensures
        forall|i: int|
            0 <= i < r.records@.len() ==> matched_item(
                r.records@,
                (#[trigger] r.records@[i]).finvoiceid,
                r.records@[i].finvoiceitemid,
            ) <= r.records@[i].finvoiceamount@,
{
    assert forall|i: int| 0 <= i < r.records@.len() implies matched_item(
        r.records@,
        (#[trigger] r.records@[i]).finvoiceid,
        r.records@[i].finvoiceitemid,
    ) <= r.records@[i].finvoiceamount@ by {
        lemma_matched_item_single(r.records@, i);
        assert(record_ok(r.records@[i], bill, items, match_time));
    }
}

/// Never over-fills: per SKU, the records match in all no more than the
/// total absolute amount of the bill lines with that SKU.
pub proof fn lemma_no_overfill(
    r: InvoiceCentricOutcome,
    bill: MatchBill1201,
    items: Seq<MatchBillItem1201>,
    candidates: Seq<InvoiceItemDetail>,
    total_candidate_invoices: usize,
    match_time: i64,
)
    requires
        outcome_ok(r, bill, items, candidates, total_candidate_invoices, match_time),
    ensures
        forall|sku: Seq<char>| #[trigger] matched_for(r.records@, sku) <= demand(items, sku),
{
    assert forall|sku: Seq<char>| #[trigger] matched_for(r.records@, sku) <= demand(items, sku) by {
        lemma_totals_bound(items, items.len() as int, sku);
    }
}

proof fn lemma_single_line(items: Seq<MatchBillItem1201>, k: int, sku: Seq<char>)
    requires
        0 <= k < items.len(),
        trimmed(items[k].fspbm@) == sku,
        forall|j: int| 0 <= j < items.len() && j != k ==> trimmed(#[trigger] items[j].fspbm@) != sku,
    ensures
        demand(items, sku) == abs_int(items[k].famount@),
        bill_amount_for(items, sku) == items[k].famount@,
    decreases items.len(),
{
    let d = items.drop_last();
    if k == items.len() - 1 {
        assert forall|j: int| 0 <= j < d.len() implies trimmed(#[trigger] d[j].fspbm@) != sku by {
            assert(d[j] == items[j]);
        }
        lemma_no_line(d, sku);
    } else {
        assert forall|j: int| 0 <= j < d.len() && j != k implies trimmed(#[trigger] d[j].fspbm@) != sku by {
            assert(d[j] == items[j]);
        }
        assert(d[k] == items[k]);
        lemma_single_line(d, k, sku);
        assert(trimmed(items.last().fspbm@) != sku);
    }
}

proof fn lemma_no_line(items: Seq<MatchBillItem1201>, sku: Seq<char>)
    requires
        forall|j: int| 0 <= j < items.len() ==> trimmed(#[trigger] items[j].fspbm@) != sku,
    ensures
        demand(items, sku) == 0,
        bill_amount_for(items, sku) == 0,
    decreases items.len(),
{
    if items.len() > 0 {
        let d = items.drop_last();
        assert forall|j: int| 0 <= j < d.len() implies trimmed(#[trigger] d[j].fspbm@) != sku by {
            assert(d[j] == items[j]);
        }
        lemma_no_line(d, sku);
        assert(trimmed(items.last().fspbm@) != sku);
    }
}

/// Each record takes a positive amount no larger than the invoice item's
/// original amount; when its SKU is carried by a single bill line, also no
/// larger than that line's absolute amount, which the record carries.
pub proof fn lemma_match_within_bounds(
    r: InvoiceCentricOutcome,
    bill: MatchBill1201,
    items: Seq<MatchBillItem1201>,
    candidates: Seq<InvoiceItemDetail>,
    total_candidate_invoices: usize,
    match_time: i64,
    i: int,
    k: int,
)
    requires
        outcome_ok(r, bill, items, candidates, total_candidate_invoices, match_time),
        0 <= i < r.records@.len(),
    ensures
        0 < r.records@[i].fmatchamount@ <= r.records@[i].finvoiceamount@,
        (0 <= k < items.len() && trimmed(items[k].fspbm@) == r.records@[i].fspbm@ && forall|j: int|
            0 <= j < items.len() && j != k ==> trimmed(#[trigger] items[j].fspbm@) != r.records@[i].fspbm@)
            ==> r.records@[i].fmatchamount@ <= abs_int(r.records@[i].fbillamount@),
{
    assert(record_ok(r.records@[i], bill, items, match_time));
    let sku = r.records@[i].fspbm@;
    if 0 <= k < items.len() && trimmed(items[k].fspbm@) == sku && forall|j: int|
        0 <= j < items.len() && j != k ==> trimmed(#[trigger] items[j].fspbm@) != sku {
        lemma_single_line(items, k, sku);
    }
}

/// Matches one bill against its candidate invoice items at time
/// `match_time`. Demand is built from the bill lines; while some demand is
/// left, the invoice with the highest current score is taken and each of its
/// items with something left is matched against what its SKU still needs.
/// The loop ends when all demand is met or no invoice scores any more.
#[verifier::spinoff_prover]
#[verifier::rlimit(60)]
pub fn match_bill_at(
    bill: &MatchBill1201,
    bill_items: &[MatchBillItem1201],
    candidates: Vec<InvoiceItemDetail>,
    total_candidate_invoices: usize,
    match_time: i64,
) -> (r: InvoiceCentricOutcome)
    requires
        abs_total(bill_items@) <= i128::MAX,
    ensures
        outcome_ok(r, *bill, bill_items@, candidates@, total_candidate_invoices, match_time),
{
    let mut reqs = MatchingRequirements::from_bill_items(bill_items);
    let ghost r0 = reqs@;
    let ghost t0 = reqs.total();
    proof {
        lemma_totals_bound(bill_items@, bill_items@.len() as int, Seq::empty());
        assert(bill_items@.subrange(0, bill_items@.len() as int) =~= bill_items@);
        reqs.lemma_wf_facts(Seq::empty());
    }
    let total_skus = reqs.remaining_sku_count();
    let no_candidates = candidates.len() == 0;
    let ghost cands = candidates@;
    let mut ctx = InvoiceScoringContext::from_items(candidates);
    let ghost invs_init = ctx.invoices_view();
    let ghost mut rec_pos: Seq<(int, int)> = Seq::empty();
    ctx.init_heap(&reqs);
    let ghost index = ctx.index_view();
    let mut records: Vec<MatchResult1201> = Vec::new();
    let mut total_matched = Decimal::zero();
    proof {
        lemma_consumed_from_refl(invs_init);
        assert(ctx.used_view().to_set() =~= Set::empty());
        assert(bill_items@.len() == 0 ==> r0 =~= Map::empty());
    }
    while !reqs.is_satisfied()
        invariant
            ctx.wf(),
            reqs.wf(),
            ctx.heap_ready(reqs@, None),
            crate::scoring::heap_ids_distinct(ctx.heap_view()),
            ctx.index_view() == index,
            demand_le(reqs@, r0),
            r0 == demand_map(bill_items@),
            t0 <= i128::MAX,
            total_skus == r0.dom().len(),
            forall|sku: Seq<char>| #[trigger] matched_for(records@, sku) + outstanding(reqs@, sku) == outstanding(r0, sku),
            forall|i: int| 0 <= i < records@.len() ==> record_ok(#[trigger] records@[i], *bill, bill_items@, match_time),
            ctx.used_view().to_set() == invoice_ids_of(records@),
            total_matched@ == matched_total(records@),
            total_matched@ >= 0,
            total_matched@ + reqs.total() == t0,
            no_candidates ==> ctx.invoices_view().len() == 0 && records@.len() == 0,
            bill_items@.len() == 0 ==> r0 == Map::<Seq<char>, int>::empty(),
            rec_pos.len() == records@.len(),
            forall|i: int|
                0 <= i < rec_pos.len() ==> {
                    &&& 0 <= (#[trigger] rec_pos[i]).0 < ctx.invoices_view().len()
                    &&& 0 <= rec_pos[i].1 < ctx.invoices_view()[rec_pos[i].0].1.len()
                    &&& records@[i].finvoiceid == ctx.invoices_view()[rec_pos[i].0].0
                    &&& records@[i].finvoiceitemid == ctx.invoices_view()[rec_pos[i].0].1[rec_pos[i].1].item_id
                    &&& !contributes(ctx.invoices_view()[rec_pos[i].0].1[rec_pos[i].1], reqs@)
                },
            forall|i: int, j: int| 0 <= i < j < rec_pos.len() ==> #[trigger] rec_pos[i] != #[trigger] rec_pos[j],
            consumed_from(ctx.invoices_view(), invs_init),
            pairs_distinct(cands) ==> item_ids_distinct(invs_init),
            forall|a: int, b: int|
                0 <= a < ctx.invoices_view().len() && 0 <= b < ctx.invoices_view()[a].1.len() ==> comes_from(
                    #[trigger] ctx.invoices_view()[a].1[b],
                    cands,
                ),
            forall|a: int, b: int|
                0 <= a < ctx.invoices_view().len() && 0 <= b < ctx.invoices_view()[a].1.len() ==> (
                #[trigger] ctx.invoices_view()[a].1[b]) == invs_init[a].1[b] || rec_pos.contains((a, b)),
            forall|a: int, b: int|
                0 <= a < invs_init.len() && 0 <= b < invs_init[a].1.len() ==> fresh(#[trigger] invs_init[a].1[b]),
            forall|i: int| 0 <= i < records@.len() ==> record_comes_from(#[trigger] records@[i], cands),
            forall|i: int|
                0 <= i < records@.len() ==> (#[trigger] records@[i]).fmatchamount == records@[i].finvoiceamount
                    || outstanding(reqs@, records@[i].fspbm@) == 0,
        ensures
            reqs@ == Map::<Seq<char>, int>::empty() || forall|q: int|
                0 <= q < ctx.invoices_view().len() ==> #[trigger] ctx.score_at(q, reqs@) <= 0,
        decreases positive_count(ctx.invoices_view(), reqs@, index),
    {
        let ghost invs_head = ctx.invoices_view();
        let ghost reqs_head = reqs@;
        let best = ctx.find_best_invoice_lazy(&reqs);
        let invoice_id = match best {
            Some(id) => id,
            None => break,
        };
        let p = match ctx.position(invoice_id) {
            Some(p) => p,
            None => {
                assert(false);
                break;
            },
        };
        proof {
            let q = choose|q: int|
                0 <= q < ctx.invoices_view().len() && ctx.invoices_view()[q].0 == invoice_id
                    && ctx.score_at(q, reqs@) > 0 && forall|t: int|
                    0 <= t < ctx.invoices_view().len() ==> #[trigger] ctx.score_at(t, reqs@) <= ctx.score_at(q, reqs@);
            if q < p {
                assert(ctx.invoices_view()[q].0 != ctx.invoices_view()[p as int].0);
            } else if q > p {
                assert(ctx.invoices_view()[p as int].0 != ctx.invoices_view()[q].0);
            }
            assert(invoice_score(invs_head[p as int].1, reqs_head, index) > 0);
        }
        let n = ctx.item_count(p);
        let mut k: usize = 0;
        while k < n
            invariant
                ctx.wf(),
                reqs.wf(),
                ctx.heap_ready(reqs@, Some(invoice_id)),
                crate::scoring::heap_ids_distinct(ctx.heap_view()),
                ctx.index_view() == index,
                demand_le(reqs@, r0),
                demand_le(reqs@, reqs_head),
                consumed_from(ctx.invoices_view(), invs_head),
                r0 == demand_map(bill_items@),
                t0 <= i128::MAX,
                total_skus == r0.dom().len(),
                p < ctx.invoices_view().len(),
                ctx.invoices_view()[p as int].0 == invoice_id,
                ctx.invoices_view()[p as int].1.len() == n,
                invoice_score(invs_head[p as int].1, reqs_head, index) > 0,
                k <= n,
                forall|t: int| 0 <= t < k ==> !contributes(#[trigger] ctx.invoices_view()[p as int].1[t], reqs@),
                forall|sku: Seq<char>| #[trigger] matched_for(records@, sku) + outstanding(reqs@, sku) == outstanding(r0, sku),
                forall|i: int| 0 <= i < records@.len() ==> record_ok(#[trigger] records@[i], *bill, bill_items@, match_time),
                ctx.used_view().to_set() == invoice_ids_of(records@),
                total_matched@ == matched_total(records@),
                total_matched@ >= 0,
                total_matched@ + reqs.total() == t0,
                no_candidates ==> ctx.invoices_view().len() == 0 && records@.len() == 0,
                bill_items@.len() == 0 ==> r0 == Map::<Seq<char>, int>::empty(),
                rec_pos.len() == records@.len(),
                forall|i: int|
                    0 <= i < rec_pos.len() ==> {
                        &&& 0 <= (#[trigger] rec_pos[i]).0 < ctx.invoices_view().len()
                        &&& 0 <= rec_pos[i].1 < ctx.invoices_view()[rec_pos[i].0].1.len()
                        &&& records@[i].finvoiceid == ctx.invoices_view()[rec_pos[i].0].0
                        &&& records@[i].finvoiceitemid == ctx.invoices_view()[rec_pos[i].0].1[rec_pos[i].1].item_id
                        &&& !contributes(ctx.invoices_view()[rec_pos[i].0].1[rec_pos[i].1], reqs@)
                    },
                forall|i: int, j: int| 0 <= i < j < rec_pos.len() ==> #[trigger] rec_pos[i] != #[trigger] rec_pos[j],
                consumed_from(ctx.invoices_view(), invs_init),
                pairs_distinct(cands) ==> item_ids_distinct(invs_init),
                forall|a: int, b: int|
                    0 <= a < ctx.invoices_view().len() && 0 <= b < ctx.invoices_view()[a].1.len() ==> comes_from(
                        #[trigger] ctx.invoices_view()[a].1[b],
                        cands,
                    ),
                forall|a: int, b: int|
                    0 <= a < ctx.invoices_view().len() && 0 <= b < ctx.invoices_view()[a].1.len() ==> (
                    #[trigger] ctx.invoices_view()[a].1[b]) == invs_init[a].1[b] || rec_pos.contains((a, b)),
                forall|a: int, b: int|
                    0 <= a < invs_init.len() && 0 <= b < invs_init[a].1.len() ==> fresh(#[trigger] invs_init[a].1[b]),
                forall|i: int| 0 <= i < records@.len() ==> record_comes_from(#[trigger] records@[i], cands),
                forall|i: int|
                    0 <= i < records@.len() ==> (#[trigger] records@[i]).fmatchamount == records@[i].finvoiceamount
                        || outstanding(reqs@, records@[i].fspbm@) == 0,
            decreases n - k,
        {
            let ghost invs0 = ctx.invoices_view();
            let ghost reqs0 = reqs@;
            let ghost items0 = invs0[p as int].1;
            let it = ctx.item_at(p, k);
            let code = it.product_code.clone();
            let left = it.remaining_amount;
            let item_id = it.item_id;
            let quantity = it.quantity;
            let original = it.original_amount;
            let unit_price = it.unit_price;
            if left.is_positive() {
                match reqs.get_remaining(code.as_str()) {
                    Some(required) => {
                        let amount = left.min(required);
                        proof {
                            reqs.lemma_wf_facts(code@);
                            assert(first_live_at(items0, code@, k as int)) by {
                                assert forall|t: int| 0 <= t < k implies !crate::scoring::live(
                                    #[trigger] items0[t],
                                    code@,
                                ) by {
                                    assert(!contributes(items0[t], reqs0));
                                }
                            }
                            assert(crate::scoring::state_ok(items0[k as int]));
                        }
                        let ghost used0 = ctx.used_view();
                        ctx.consume_item(invoice_id, code.as_str(), amount);
                        proof {
                            assert(first_live_at(invs0[p as int].1, code@, k as int));
                        }
                        let ghost invs1 = ctx.invoices_view();
                        let line = bill_item_for(bill_items, code.as_str());
                        let (bill_amount, bill_price, bill_qty) = match line {
                            Some(i) => (bill_items[i].famount, bill_items[i].funitprice, bill_items[i].fnum),
                            None => (Decimal::zero(), None, None),
                        };
                        let rec = MatchResult1201 {
                            fbillid: bill.fid,
                            fbuyertaxno: bill.fbuyertaxno.clone(),
                            fsalertaxno: bill.fsalertaxno.clone(),
                            fspbm: code.clone(),
                            finvoiceid: invoice_id,
                            finvoiceitemid: item_id,
                            fnum: quantity,
                            fbillamount: bill_amount,
                            finvoiceamount: original,
                            fmatchamount: amount,
                            fbillunitprice: bill_price,
                            fbillqty: bill_qty,
                            finvoiceunitprice: unit_price,
                            finvoiceqty: Some(quantity),
                            fmatchtime: match_time,
                        };
                        let ghost recs0 = records@;
                        records.push(rec);
                        proof {
                            assert(records@.drop_last() =~= recs0);
                            assert(outstanding(reqs0, code@) <= outstanding(r0, code@));
                        }
                        total_matched = total_matched.add(amount);
                        reqs.reduce(code.as_str(), amount);
                        proof {
                            let reqs1 = reqs@;
                            lemma_reduced_le(reqs0, code@, amount@);
                            lemma_consumed_from_refl(invs1);
                            lemma_heap_covers_mono(invs1, invs0, index, ctx.heap_view(), reqs0, reqs0, Some(invoice_id));
                            lemma_heap_covers_mono(invs1, invs1, index, ctx.heap_view(), reqs1, reqs0, Some(invoice_id));
                            lemma_consumed_from_trans(invs1, invs0, invs_head);
                            lemma_consumed_from_trans(invs1, invs0, invs_init);
                            let old_pos = rec_pos;
                            rec_pos = old_pos.push((p as int, k as int));
                            assert forall|i: int| 0 <= i < old_pos.len() implies (#[trigger] old_pos[i]) != (p as int, k as int)
                                && invs1[old_pos[i].0].1[old_pos[i].1] == invs0[old_pos[i].0].1[old_pos[i].1] by {
                                assert(!contributes(invs0[old_pos[i].0].1[old_pos[i].1], reqs0));
                                assert(contributes(items0[k as int], reqs0));
                            }
                            assert forall|i: int|
                                0 <= i < rec_pos.len() implies {
                                    &&& 0 <= (#[trigger] rec_pos[i]).0 < invs1.len()
                                    &&& 0 <= rec_pos[i].1 < invs1[rec_pos[i].0].1.len()
                                    &&& records@[i].finvoiceid == invs1[rec_pos[i].0].0
                                    &&& records@[i].finvoiceitemid == invs1[rec_pos[i].0].1[rec_pos[i].1].item_id
                                    &&& !contributes(invs1[rec_pos[i].0].1[rec_pos[i].1], reqs1)
                                } by {
                                if i < old_pos.len() {
                                    assert(rec_pos[i] == old_pos[i]);
                                    assert(records@[i] == recs0[i]);
                                    let st = invs0[old_pos[i].0].1[old_pos[i].1];
                                    assert(outstanding(reqs1, st.product_code@) <= outstanding(reqs0, st.product_code@));
                                } else {
                                    assert(rec_pos[i] == (p as int, k as int));
                                    assert(invs1[p as int].1[k as int] == consumed(items0[k as int], amount@));
                                }
                            }
                            assert forall|i: int, j: int| 0 <= i < j < rec_pos.len() implies #[trigger] rec_pos[i]
                                != #[trigger] rec_pos[j] by {
                                if j == old_pos.len() {
                                    assert(rec_pos[i] == old_pos[i]);
                                } else {
                                    assert(rec_pos[i] == old_pos[i] && rec_pos[j] == old_pos[j]);
                                }
                            }
                            assert forall|sku: Seq<char>| #[trigger] matched_for(records@, sku) + outstanding(reqs1, sku)
                                == outstanding(r0, sku) by {
                                assert(matched_for(recs0, sku) + outstanding(reqs0, sku) == outstanding(r0, sku));
                            }
                            assert forall|t: int| 0 <= t < k + 1 implies !contributes(
                                #[trigger] invs1[p as int].1[t],
                                reqs1,
                            ) by {
                                if t < k {
                                    assert(invs1[p as int].1[t] == items0[t]);
                                    assert(!contributes(items0[t], reqs0));
                                    assert(outstanding(reqs1, items0[t].product_code@) <= outstanding(
                                        reqs0,
                                        items0[t].product_code@,
                                    ));
                                } else {
                                    assert(invs1[p as int].1[t] == consumed(items0[t], amount@));
                                }
                            }
                            // provenance, untouched items, whole takes
                            assert(comes_from(invs0[p as int].1[k as int], cands));
                            let ct = choose|t: int| #![trigger cands[t]]
                                0 <= t < cands.len() && kept(cands[t]) && state_from(items0[k as int], cands[t]);
                            let rl = recs0.len() as int;
                            assert(records@[rl] == rec);
                            assert(record_from(records@[rl], cands[ct]));
                            assert forall|i: int| 0 <= i < records@.len() implies record_comes_from(
                                #[trigger] records@[i],
                                cands,
                            ) by {
                                if i < rl {
                                    assert(records@[i] == recs0[i]);
                                } else {
                                    assert(kept(cands[ct]) && record_from(records@[i], cands[ct]));
                                }
                            }
                            assert forall|a: int, b: int|
                                0 <= a < invs1.len() && 0 <= b < invs1[a].1.len() implies comes_from(
                                #[trigger] invs1[a].1[b],
                                cands,
                            ) by {
                                if a == p && b == k {
                                    assert(state_from(invs1[a].1[b], cands[ct]));
                                } else if a == p {
                                    assert(invs1[a].1[b] == items0[b]);
                                    assert(comes_from(invs0[a].1[b], cands));
                                } else {
                                    assert(invs1[a] == invs0[a]);
                                    assert(comes_from(invs0[a].1[b], cands));
                                }
                            }
                            assert(rec_pos[rl] == (p as int, k as int));
                            assert forall|a: int, b: int|
                                0 <= a < invs1.len() && 0 <= b < invs1[a].1.len() implies (#[trigger] invs1[a].1[b])
                                == invs_init[a].1[b] || rec_pos.contains((a, b)) by {
                                if a == p && b == k {
                                    assert(rec_pos[rl] == (a, b));
                                } else {
                                    if a == p {
                                        assert(invs1[a].1[b] == items0[b]);
                                    } else {
                                        assert(invs1[a] == invs0[a]);
                                    }
                                    assert(invs0[a].1[b] == invs_init[a].1[b] || old_pos.contains((a, b)));
                                    if old_pos.contains((a, b)) {
                                        let w = choose|w: int| 0 <= w < old_pos.len() && old_pos[w] == (a, b);
                                        assert(rec_pos[w] == (a, b));
                                    }
                                }
                            }
                            assert(!old_pos.contains((p as int, k as int))) by {
                                if old_pos.contains((p as int, k as int)) {
                                    let w = choose|w: int| 0 <= w < old_pos.len() && old_pos[w] == (p as int, k as int);
                                    assert(old_pos[w] != (p as int, k as int));
                                }
                            }
                            assert(invs0[p as int].1[k as int] == invs_init[p as int].1[k as int]);
                            assert(fresh(invs_init[p as int].1[k as int]));
                            assert forall|i: int| 0 <= i < records@.len() implies (#[trigger] records@[i]).fmatchamount
                                == records@[i].finvoiceamount || outstanding(reqs1, records@[i].fspbm@) == 0 by {
                                reqs.lemma_wf_facts(records@[i].fspbm@);
                                if i < rl {
                                    assert(records@[i] == recs0[i]);
                                    assert(outstanding(reqs1, recs0[i].fspbm@) <= outstanding(reqs0, recs0[i].fspbm@));
                                } else if left@ <= required@ {
                                    assert(amount@ == original@);
                                    assert(amount == original);
                                } else {
                                    assert(outstanding(reqs1, code@) == 0);
                                }
                            }
                            assert(ctx.used_view() == record_use(used0, invoice_id));
                            if used0.contains(invoice_id) {
                                assert(ctx.used_view().to_set() =~= invoice_ids_of(records@));
                            } else {
                                used0.lemma_push_to_set_commute(invoice_id);
                                assert(ctx.used_view().to_set() =~= invoice_ids_of(records@));
                            }
                        }
                    },
                    None => {
                        proof {
                            assert(!contributes(ctx.invoices_view()[p as int].1[k as int], reqs@));
                        }
                    },
                }
            }
            k = k + 1;
        }
        proof {
            let invs_now = ctx.invoices_view();
            lemma_raw_score_zero(invs_now[p as int].1, reqs@, index);
            assert forall|q: int|
                0 <= q < invs_now.len() && invoice_score(#[trigger] invs_now[q].1, reqs@, index) > 0
                    && None::<i64> != Some(invs_now[q].0) implies exists|j: int|
                0 <= j < ctx.heap_view().len() && ctx.heap_view()[j].invoice_id == invs_now[q].0
                    && #[trigger] ctx.heap_view()[j].score >= invoice_score(invs_now[q].1, reqs@, index) by {
                if invs_now[q].0 == invoice_id {
                    if q < p {
                        assert(invs_now[q].0 != invs_now[p as int].0);
                    } else if q > p {
                        assert(invs_now[p as int].0 != invs_now[q].0);
                    }
                }
            }
            lemma_positive_count_mono(invs_now, invs_head, reqs@, reqs_head, index, p as int);
        }
    }
    let unmatched = reqs.get_remaining_details();
    let remaining = reqs.remaining_sku_count();
    proof {
        reqs.lemma_wf_facts(Seq::empty());
        assert forall|sku: Seq<char>| #[trigger] matched_for(records@, sku) <= outstanding(r0, sku) by {
            reqs.lemma_wf_facts(sku);
        }
        assert forall|i: int| 0 <= i < unmatched@.len() implies (#[trigger] unmatched@[i]).1@ > 0 && matched_for(
            records@,
            unmatched@[i].0@,
        ) + unmatched@[i].1@ == outstanding(r0, unmatched@[i].0@) by {
            reqs.lemma_wf_facts(unmatched@[i].0@);
        }
        assert forall|sku: Seq<char>|
            #[trigger] r0.contains_key(sku) && (forall|i: int|
                0 <= i < unmatched@.len() ==> unmatched@[i].0@ != sku) implies matched_for(records@, sku)
                == demand(bill_items@, sku) by {
            if reqs@.contains_key(sku) {
                let i = choose|i: int| 0 <= i < unmatched@.len() && #[trigger] unmatched@[i].0@ == sku;
            }
        }
        assert(reqs@.dom().subset_of(r0.dom())) by {
            assert forall|s: Seq<char>| reqs@.contains_key(s) implies r0.contains_key(s) by {
                reqs.lemma_wf_facts(s);
                assert(outstanding(reqs@, s) <= outstanding(r0, s));
            }
        }
        vstd::set_lib::lemma_len_subset(reqs@.dom(), r0.dom());
        if no_candidates {
            assert forall|sku: Seq<char>| #[trigger] reqs@.contains_key(sku) == r0.contains_key(sku) by {
                reqs.lemma_wf_facts(sku);
                assert(matched_for(records@, sku) == 0);
            }
            assert(reqs@.dom() =~= r0.dom());
        }
        ctx.used_view().unique_seq_to_set();
        assert forall|i: int, j: int|
            0 <= i < unmatched@.len() && 0 <= j < records@.len() && (#[trigger] records@[j]).fspbm@ == (
            #[trigger] unmatched@[i]).0@ implies records@[j].fmatchamount == records@[j].finvoiceamount by {
            reqs.lemma_wf_facts(unmatched@[i].0@);
        }
        assert forall|i: int, t: int|
            0 <= i < unmatched@.len() && 0 <= t < cands.len() && kept(#[trigger] cands[t])
                && trimmed(cands[t].product_code@) == (#[trigger] unmatched@[i]).0@ && cands[t].amount@ > 0
                && !draws_on(records@, cands[t]) implies min_int(cands[t].amount@, unmatched@[i].1@)
            < UNITS_PER_CENT by {
            let c = cands[t];
            let sku = unmatched@[i].0@;
            reqs.lemma_wf_facts(sku);
            assert(!Map::<Seq<char>, int>::empty().contains_key(sku));
            lemma_kept_of_contains(cands, t);
            let kk = choose|kk: int|
                0 <= kk < kept_of(cands, c.invoice_id).len() && #[trigger] kept_of(cands, c.invoice_id)[kk] == c;
            assert(has_invoice(invs_init, c.invoice_id));
            let pp = choose|pp: int| 0 <= pp < invs_init.len() && #[trigger] invs_init[pp].0 == c.invoice_id;
            assert(group_matches(invs_init[pp].1, kept_of(cands, invs_init[pp].0)));
            let st0 = invs_init[pp].1[kk];
            assert(state_from(st0, c));
            let invs = ctx.invoices_view();
            assert(invs[pp].0 == invs_init[pp].0);
            assert(invs[pp].1.len() == invs_init[pp].1.len());
            if rec_pos.contains((pp, kk)) {
                let w = choose|w: int| 0 <= w < rec_pos.len() && rec_pos[w] == (pp, kk);
                assert(invs[pp].1[kk].item_id == invs_init[pp].1[kk].item_id);
                assert(records@[w].finvoiceid == c.invoice_id && records@[w].finvoiceitemid == c.item_id);
                assert(draws_on(records@, c));
            }
            assert(invs[pp].1[kk] == st0);
            assert(fresh(st0));
            assert(contributes(st0, reqs@));
            assert(ctx.score_at(pp, reqs@) <= 0);
            lemma_term_le_raw(invs[pp].1, kk, reqs@, index);
            let m = min_int(st0.remaining_amount@, outstanding(reqs@, sku));
            let f = freq_in(index, sku);
            if f > 0 {
                vstd::arithmetic::div_mod::lemma_div_pos_is_pos(1000, f);
            }
            assert(bonus(f) >= 0);
            if m >= 1_000_000 {
                vstd::arithmetic::div_mod::lemma_div_is_ordered(1_000_000, m, 1_000_000);
                assert(cents_of(m) >= 1);
            }
        }
        if pairs_distinct(cands) {
            let invs = ctx.invoices_view();
            assert forall|i: int, j: int|
                0 <= i < j < records@.len() implies (#[trigger] records@[i]).finvoiceid != (
                #[trigger] records@[j]).finvoiceid || records@[i].finvoiceitemid != records@[j].finvoiceitemid by {
                let (a, b) = rec_pos[i];
                let (c, d) = rec_pos[j];
                assert(rec_pos[i] != rec_pos[j]);
                if a != c {
                    if a < c {
                        assert(invs[a].0 != invs[c].0);
                    } else {
                        assert(invs[c].0 != invs[a].0);
                    }
                } else {
                    assert(invs[a].1[b].item_id == invs_init[a].1[b].item_id);
                    assert(invs[a].1[d].item_id == invs_init[a].1[d].item_id);
                    if b < d {
                        assert(invs_init[a].1[b].item_id != invs_init[a].1[d].item_id);
                    } else {
                        assert(invs_init[a].1[d].item_id != invs_init[a].1[b].item_id);
                    }
                }
            }
        }
    }
    let stats = MatchStats {
        bill_id: bill.fid,
        total_skus,
        matched_skus: total_skus - remaining,
        invoices_used: ctx.used_count(),
        total_matched_amount: total_matched,
        total_candidate_invoices,
        output_file: None,
    };
    let r = InvoiceCentricOutcome { stats, records, unmatched };
    assert(outcome_ok(r, *bill, bill_items@, cands, total_candidate_invoices, match_time));
    r
}

/// Matches one bill against its candidate invoice items, stamping the
/// records with the current time.
pub fn match_bill(
    bill: &MatchBill1201,
    bill_items: &[MatchBillItem1201],
    candidates: Vec<InvoiceItemDetail>,
    total_candidate_invoices: usize,
) -> (r: InvoiceCentricOutcome)
    requires
        abs_total(bill_items@) <= i128::MAX,
    ensures
        exists|t: i64|
            outcome_ok(r, *bill, bill_items@, candidates@, total_candidate_invoices, t),
{
    let now = crate::clock::now_micros();
    let ghost cands = candidates@;
    let r = match_bill_at(bill, bill_items, candidates, total_candidate_invoices, now);
    assert(outcome_ok(r, *bill, bill_items@, cands, total_candidate_invoices, now));
    r
}

} // verus!
