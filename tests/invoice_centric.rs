use tax_redflush::bill::{MatchBill1201, MatchBillItem1201};
use tax_redflush::decimal::Decimal;
use tax_redflush::invoice::InvoiceItemDetail;
use tax_redflush::invoice_centric::{match_bill, match_bill_at};

fn bill(id: i64) -> MatchBill1201 {
    MatchBill1201 { fid: id, fbuyertaxno: "B".to_string(), fsalertaxno: "S".to_string() }
}

fn line(bill_id: i64, entry: i64, sku: &str, amount: i64) -> MatchBillItem1201 {
    MatchBillItem1201 {
        fid: bill_id,
        fentryid: entry,
        fspbm: sku.to_string(),
        famount: Decimal::from_whole(amount),
        fnum: None,
        funitprice: None,
    }
}

fn candidate(invoice: i64, item: i64, sku: &str, amount: i64) -> InvoiceItemDetail {
    InvoiceItemDetail {
        invoice_id: invoice,
        item_id: item,
        product_code: sku.to_string(),
        quantity: Decimal::from_whole(1),
        amount: Decimal::from_whole(amount),
        unit_price: None,
    }
}

#[test]
fn exact_single_match() {
    let out = match_bill_at(&bill(1), &[line(1, 1, "X", 100)], vec![candidate(10, 1, "X", 100)], 1, 7);
    assert_eq!(out.records.len(), 1);
    assert_eq!(out.records[0].fmatchamount, Decimal::from_whole(100));
    assert_eq!(out.records[0].finvoiceid, 10);
    assert_eq!(out.records[0].fmatchtime, 7);
    assert_eq!(out.stats.total_skus, 1);
    assert_eq!(out.stats.matched_skus, 1);
    assert_eq!(out.stats.invoices_used, 1);
    assert_eq!(out.stats.total_matched_amount, Decimal::from_whole(100));
    assert!(out.unmatched.is_empty());
}

#[test]
fn split_across_invoices() {
    let out = match_bill_at(
        &bill(2),
        &[line(2, 1, "X", 100)],
        vec![candidate(10, 1, "X", 60), candidate(11, 2, "X", 50)],
        2,
        0,
    );
    assert_eq!(out.records.len(), 2);
    assert_eq!(out.records[0].finvoiceid, 10);
    assert_eq!(out.records[0].fmatchamount, Decimal::from_whole(60));
    assert_eq!(out.records[1].finvoiceid, 11);
    assert_eq!(out.records[1].fmatchamount, Decimal::from_whole(40));
    assert_eq!(out.stats.invoices_used, 2);
    assert_eq!(out.stats.total_matched_amount, Decimal::from_whole(100));
    assert_eq!(out.stats.matched_skus, 1);
}

#[test]
fn red_flush_line_is_absolute_demand() {
    let out = match_bill_at(&bill(3), &[line(3, 1, "X", -50)], vec![candidate(12, 1, "X", 80)], 1, 0);
    assert_eq!(out.records.len(), 1);
    assert_eq!(out.records[0].fmatchamount, Decimal::from_whole(50));
    assert_eq!(out.records[0].fbillamount, Decimal::from_whole(-50));
    assert_eq!(out.records[0].finvoiceamount, Decimal::from_whole(80));
}

#[test]
fn unsatisfied_demand_is_reported() {
    let out = match_bill_at(&bill(5), &[line(5, 1, "X", 100)], vec![candidate(30, 1, "X", 30)], 1, 0);
    assert_eq!(out.records.len(), 1);
    assert_eq!(out.records[0].fmatchamount, Decimal::from_whole(30));
    assert_eq!(out.stats.matched_skus, 0);
    assert_eq!(out.stats.invoices_used, 1);
    assert_eq!(out.unmatched.len(), 1);
    assert_eq!(out.unmatched[0].0, "X");
    assert_eq!(out.unmatched[0].1, Decimal::from_whole(70));
}

#[test]
fn duplicate_skus_collapse() {
    let out = match_bill_at(
        &bill(6),
        &[line(6, 1, "X", 40), line(6, 2, "X", 60)],
        vec![candidate(40, 1, "X", 100)],
        1,
        0,
    );
    assert_eq!(out.stats.total_skus, 1);
    assert_eq!(out.records.len(), 1);
    assert_eq!(out.records[0].fmatchamount, Decimal::from_whole(100));
    assert_eq!(out.stats.matched_skus, 1);
}

#[test]
fn empty_bill_gives_zero_stats() {
    let out = match_bill_at(&bill(7), &[], vec![candidate(1, 1, "X", 10)], 1, 0);
    assert_eq!(out.stats.total_skus, 0);
    assert_eq!(out.stats.matched_skus, 0);
    assert!(out.records.is_empty());
}

#[test]
fn no_candidates_leaves_every_sku_unmatched() {
    let out = match_bill_at(&bill(8), &[line(8, 1, "X", 10), line(8, 2, "Y", 5)], vec![], 0, 0);
    assert!(out.records.is_empty());
    assert_eq!(out.stats.matched_skus, 0);
    assert_eq!(out.stats.total_skus, 2);
    assert_eq!(out.unmatched.len(), 2);
}

#[test]
fn exact_item_removes_sku() {
    let out = match_bill_at(&bill(9), &[line(9, 1, "X", 25)], vec![candidate(1, 1, "X", 25)], 1, 0);
    assert_eq!(out.records.len(), 1);
    assert_eq!(out.records[0].fmatchamount, Decimal::from_whole(25));
    assert!(out.unmatched.is_empty());
    assert_eq!(out.stats.matched_skus, 1);
}

#[test]
fn larger_item_gives_outstanding_only() {
    let out = match_bill_at(&bill(10), &[line(10, 1, "X", 30)], vec![candidate(1, 1, "X", 100)], 1, 0);
    assert_eq!(out.records.len(), 1);
    assert_eq!(out.records[0].fmatchamount, Decimal::from_whole(30));
    assert_eq!(out.records[0].finvoiceamount, Decimal::from_whole(100));
}

#[test]
fn multi_sku_invoice_is_preferred() {
    // invoice 2 covers both SKUs and wins; invoice 1 is never touched
    let out = match_bill_at(
        &bill(11),
        &[line(11, 1, "X", 10), line(11, 2, "Y", 10)],
        vec![candidate(1, 1, "X", 10), candidate(2, 2, "X", 10), candidate(2, 3, "Y", 10)],
        2,
        0,
    );
    assert_eq!(out.records.len(), 2);
    assert!(out.records.iter().all(|r| r.finvoiceid == 2));
    assert_eq!(out.stats.invoices_used, 1);
    assert_eq!(out.stats.matched_skus, 2);
}

#[test]
fn rerun_gives_identical_records() {
    let lines = [line(12, 1, "X", 70), line(12, 2, "Y", 20)];
    let cands = vec![candidate(1, 1, "X", 50), candidate(2, 2, "X", 50), candidate(2, 3, "Y", 30)];
    let a = match_bill_at(&bill(12), &lines, cands.clone(), 2, 5);
    let b = match_bill_at(&bill(12), &lines, cands, 2, 5);
    assert_eq!(format!("{:?}", a.records), format!("{:?}", b.records));
}

#[test]
fn whitespace_codes_are_trimmed_and_skipped() {
    let out = match_bill_at(
        &bill(13),
        &[line(13, 1, "  X ", 10), line(13, 2, "   ", 99)],
        vec![candidate(1, 1, " X", 10)],
        1,
        0,
    );
    assert_eq!(out.stats.total_skus, 1);
    assert_eq!(out.records.len(), 1);
    assert_eq!(out.records[0].fspbm, "X");
}

#[test]
fn match_bill_stamps_records() {
    let out = match_bill(&bill(14), &[line(14, 1, "X", 10)], vec![candidate(1, 1, "X", 10)], 1);
    assert_eq!(out.records.len(), 1);
    assert!(out.records[0].fmatchtime > 0);
}

#[test]
fn records_never_share_an_item_and_count_invoices() {
    let lines = [line(20, 1, "X", 75), line(20, 2, "Y", 40), line(20, 3, "Z", 10)];
    let cands = vec![
        candidate(1, 1, "X", 30),
        candidate(1, 2, "Y", 15),
        candidate(2, 3, "X", 30),
        candidate(2, 4, "Z", 4),
        candidate(3, 5, "Y", 50),
        candidate(3, 6, "X", 20),
    ];
    let out = match_bill_at(&bill(20), &lines, cands, 3, 0);
    let mut pairs: Vec<(i64, i64)> = out.records.iter().map(|r| (r.finvoiceid, r.finvoiceitemid)).collect();
    let n = pairs.len();
    pairs.sort();
    pairs.dedup();
    assert_eq!(pairs.len(), n);
    let mut invoices: Vec<i64> = out.records.iter().map(|r| r.finvoiceid).collect();
    invoices.sort();
    invoices.dedup();
    assert_eq!(out.stats.invoices_used, invoices.len());
    for sku in ["X", "Y", "Z"] {
        let total: i128 = out.records.iter().filter(|r| r.fspbm == sku).map(|r| r.fmatchamount.units).sum();
        let demand = lines.iter().filter(|l| l.fspbm == sku).map(|l| l.famount.units.abs()).sum::<i128>();
        assert!(total <= demand);
    }
    // X: 75 of 80 available, Y: 40 of 65, Z: 4 of 10
    assert_eq!(out.stats.total_matched_amount, Decimal::from_whole(119));
    assert_eq!(out.stats.matched_skus, 2);
    assert_eq!(out.unmatched, vec![("Z".to_string(), Decimal::from_whole(6))]);
}

#[test]
fn trimmed_line_code_joins_bill_amount() {
    let out = match_bill_at(&bill(21), &[line(21, 1, " X ", 40)], vec![candidate(1, 1, "X", 40)], 1, 0);
    assert_eq!(out.records.len(), 1);
    assert_eq!(out.records[0].fbillamount, Decimal::from_whole(40));
}

#[test]
fn candidates_are_spent_before_reporting() {
    // every candidate can serve the SKU, so nothing is left unmatched that a candidate could give
    let out = match_bill_at(
        &bill(22),
        &[line(22, 1, "X", 100)],
        vec![candidate(1, 1, "X", 40), candidate(2, 2, "X", 40), candidate(3, 3, "X", 40)],
        3,
        0,
    );
    assert!(out.unmatched.is_empty());
    assert_eq!(out.stats.total_matched_amount, Decimal::from_whole(100));
    assert_eq!(out.stats.invoices_used, 3);
}
