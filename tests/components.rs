use tax_redflush::bill::{MatchBill1201, MatchBillItem1201, TempSummary};
use tax_redflush::config::{parse_port, AppConfig};
use tax_redflush::decimal::Decimal;
use tax_redflush::invoice::{InvoiceItemDetail, MatchedInvoiceItem};
use tax_redflush::requirements::{amounts_fit, limit_bill_items, MatchingRequirements};
use tax_redflush::scoring::{InvoiceScore, InvoiceScoringContext, InvoiceWithItems};
use tax_redflush::sku_centric::{dedup_by_item_id, scarcity_order, SkuMatchState};
use tax_redflush::text::trim_code;

fn line(sku: &str, amount: i64) -> MatchBillItem1201 {
    MatchBillItem1201 {
        fid: 1,
        fentryid: 1,
        fspbm: sku.to_string(),
        famount: Decimal::from_whole(amount),
        fnum: None,
        funitprice: None,
    }
}

fn candidate(invoice: i64, item: i64, sku: &str, amount: i64) -> InvoiceItemDetail {
    InvoiceItemDetail {
        invoice_id: invoice,
        item_id: item,
        product_code: sku.to_string(),
        quantity: Decimal::from_whole(2),
        amount: Decimal::from_whole(amount),
        unit_price: None,
    }
}

fn offer(invoice: i64, item: i64, amount: i64) -> MatchedInvoiceItem {
    MatchedInvoiceItem {
        invoice_id: invoice,
        item_id: item,
        product_code: "X".to_string(),
        quantity: Decimal::from_whole(1),
        amount: Decimal::from_whole(amount),
        unit_price: None,
    }
}

fn summary(sku: &str, count: i64, total: i64) -> TempSummary {
    TempSummary { fspbm: sku.to_string(), item_count: count, total_amount: Decimal::from_whole(total) }
}

#[test]
fn decimal_arithmetic() {
    let a = Decimal::from_units(150);
    let b = Decimal::from_units(-40);
    assert_eq!(a.add(b).units, 110);
    assert_eq!(a.sub(b).units, 190);
    assert_eq!(b.abs().units, 40);
    assert_eq!(a.min(b).units, -40);
    assert_eq!(Decimal::from_whole(3).mul_int(4), Decimal::from_whole(12));
    assert!(b.lt(a) && !a.le(b) && a.is_positive() && !b.is_positive());
}

#[test]
fn cents_truncate_toward_zero() {
    assert_eq!(Decimal::from_units(123_456_789).to_cents(), 123);
    assert_eq!(Decimal::from_units(-123_456_789).to_cents(), -123);
    assert_eq!(Decimal::from_units(999_999).to_cents(), 0);
    assert_eq!(Decimal::from_units(i128::MIN).to_cents(), i128::MIN / 1_000_000);
}

#[test]
fn trimming_codes() {
    assert_eq!(trim_code("  A1 \t"), "A1");
    assert_eq!(trim_code("\u{3000}B\u{a0}"), "B");
    assert_eq!(trim_code("   "), "");
    assert_eq!(trim_code("a b"), "a b");
}

#[test]
fn requirements_from_lines() {
    let r = MatchingRequirements::from_bill_items(&[line(" X", 40), line("X ", -60), line(" ", 5), line("Y", 0)]);
    assert_eq!(r.remaining_sku_count(), 1);
    assert_eq!(r.get_remaining("X"), Some(Decimal::from_whole(100)));
    assert_eq!(r.get_remaining("Y"), None);
    assert_eq!(r.get_required_skus(), vec!["X".to_string()]);
    assert!(!r.is_satisfied());
}

#[test]
fn requirements_reduce_to_empty() {
    let mut r = MatchingRequirements::from_bill_items(&[line("X", 30), line("X", 20), line("Y", 5)]);
    r.reduce("X", Decimal::from_whole(10));
    assert_eq!(r.get_remaining("X"), Some(Decimal::from_whole(40)));
    r.reduce("X", Decimal::from_whole(15));
    r.reduce("X", Decimal::from_whole(25));
    assert_eq!(r.get_remaining("X"), None);
    r.reduce("Z", Decimal::from_whole(1));
    assert_eq!(r.get_remaining_details(), vec![("Y".to_string(), Decimal::from_whole(5))]);
    r.reduce("Y", Decimal::from_whole(9));
    assert!(r.is_satisfied());
    assert_eq!(MatchingRequirements::default().remaining_sku_count(), 0);
}

#[test]
fn amounts_fit_detects_overflow() {
    assert!(amounts_fit(&[line("X", 5), line("Y", -7)]));
    let mut huge = line("X", 0);
    huge.famount = Decimal::from_units(i128::MAX);
    assert!(!amounts_fit(&[huge.clone(), line("Y", 1)]));
    let mut lowest = line("X", 0);
    lowest.famount = Decimal::from_units(i128::MIN);
    assert!(!amounts_fit(&[lowest]));
}

#[test]
fn limit_keeps_first_lines() {
    let mut v = vec![line("A", 1), line("B", 2), line("C", 3)];
    limit_bill_items(&mut v, Some(2));
    assert_eq!(v.len(), 2);
    assert_eq!(v[1].fspbm, "B");
    limit_bill_items(&mut v, None);
    assert_eq!(v.len(), 2);
}

#[test]
fn score_order() {
    let a = InvoiceScore { invoice_id: 1, score: 10, sku_count: 1 };
    let b = InvoiceScore { invoice_id: 2, score: 10, sku_count: 2 };
    let c = InvoiceScore { invoice_id: 3, score: 9, sku_count: 5 };
    assert_eq!(a.cmp(&b), std::cmp::Ordering::Less);
    assert_eq!(a.cmp(&c), std::cmp::Ordering::Greater);
    assert_eq!(a.partial_cmp(&InvoiceScore { invoice_id: 9, score: 10, sku_count: 1 }), Some(std::cmp::Ordering::Equal));
}

#[test]
fn context_counts_and_scarcity_pick() {
    let reqs = MatchingRequirements::from_bill_items(&[line("X", 100)]);
    let mut ctx = InvoiceScoringContext::from_items(vec![
        candidate(10, 1, "X", 60),
        candidate(11, 2, "X", 50),
        candidate(11, 3, "", 50),
    ]);
    assert_eq!(ctx.total_count(), 2);
    assert_eq!(ctx.used_count(), 0);
    ctx.init_heap(&reqs);
    assert_eq!(ctx.find_best_invoice_lazy(&reqs), Some(10));
    assert_eq!(ctx.get_available_items(11).len(), 1);
    assert!(ctx.get_available_items(99).is_empty());
}

#[test]
fn lazy_heap_reorders_after_consumption() {
    let mut reqs = MatchingRequirements::from_bill_items(&[line("X", 100), line("Y", 100)]);
    let mut ctx = InvoiceScoringContext::from_items(vec![
        candidate(1, 1, "X", 90),
        candidate(2, 2, "X", 80),
        candidate(3, 3, "Y", 70),
    ]);
    ctx.init_heap(&reqs);
    assert_eq!(ctx.find_best_invoice_lazy(&reqs), Some(1));
    let st = ctx.consume_item(1, "X", Decimal::from_whole(90)).unwrap();
    assert_eq!(st.remaining_amount, Decimal::zero());
    reqs.reduce("X", Decimal::from_whole(90));
    // invoice 2 now only covers 10 of X; invoice 3 covers 70 of Y
    assert_eq!(ctx.find_best_invoice_lazy(&reqs), Some(3));
    assert_eq!(ctx.used_count(), 1);
}

#[test]
fn consume_zero_and_empty_items() {
    let mut ctx = InvoiceScoringContext::from_items(vec![candidate(1, 1, "X", 10)]);
    let st = ctx.consume_item(1, "X", Decimal::zero()).unwrap();
    assert_eq!(st.remaining_amount, Decimal::from_whole(10));
    let again = ctx.consume_item(1, "X", Decimal::zero()).unwrap();
    assert_eq!(again.remaining_amount, Decimal::from_whole(10));
    assert_eq!(ctx.used_count(), 1);
    let taken = ctx.consume_item(1, "X", Decimal::from_whole(25)).unwrap();
    assert_eq!(taken.remaining_amount, Decimal::zero());
    assert!(ctx.consume_item(1, "X", Decimal::from_whole(1)).is_none());
    assert!(ctx.consume_item(2, "X", Decimal::from_whole(1)).is_none());
    assert!(ctx.get_available_items(1).is_empty());
    assert_eq!(ctx.used_count(), 1);
    assert_eq!(InvoiceScoringContext::default().total_count(), 0);
}

#[test]
fn coverage_of_an_invoice() {
    let reqs = MatchingRequirements::from_bill_items(&[line("X", 30), line("Y", 5)]);
    let mut inv = InvoiceWithItems::new(4);
    inv.add_item(candidate(4, 1, "X", 50));
    inv.add_item(candidate(4, 2, "Y", 3));
    inv.add_item(candidate(4, 3, "Z", 9));
    let (count, amount) = inv.calculate_coverage(&reqs);
    assert_eq!(count, 2);
    assert_eq!(amount, Decimal::from_whole(33));
}

#[test]
fn scarcest_sku_first() {
    let order = scarcity_order(&[summary("X", 5, 100), summary("Y", 2, 40), summary("Z", 2, 10), summary("W", 2, 10)]);
    assert_eq!(order, vec![2, 3, 1, 0]);
}

#[test]
fn layers_keep_first_item() {
    let merged = dedup_by_item_id(&[offer(20, 1, 5), offer(20, 2, 8), offer(21, 1, 9), offer(22, 3, 4)]);
    let ids: Vec<i64> = merged.iter().map(|m| m.item_id).collect();
    assert_eq!(ids, vec![1, 2, 3]);
    assert_eq!(merged[0].invoice_id, 20);
}

#[test]
fn fill_prefers_listed_order_and_stops() {
    let b = MatchBill1201 { fid: 4, fbuyertaxno: "B".to_string(), fsalertaxno: "S".to_string() };
    let mut state = SkuMatchState::new();
    let y = MatchBillItem1201 { fspbm: "Y".to_string(), ..line("Y", 40) };
    let recs = state.fill_line(&b, &y, &[MatchedInvoiceItem { product_code: "Y".to_string(), ..offer(20, 7, 40) }], 3);
    assert_eq!(recs.len(), 1);
    assert_eq!(state.preferred_ids(), vec![20]);
    let x = line("X", 100);
    assert_eq!(state.remaining_for(&x), Decimal::from_whole(100));
    let recs = state.fill_line(&b, &x, &[offer(20, 8, 30), offer(21, 9, 90), offer(22, 10, 50)], 3);
    assert_eq!(recs.len(), 2);
    assert_eq!(recs[0].finvoiceid, 20);
    assert_eq!(recs[1].fmatchamount, Decimal::from_whole(70));
    assert_eq!(state.preferred_ids(), vec![20, 21]);
    assert_eq!(state.remaining_for(&x), Decimal::zero());
    // a second line of the same SKU needs only what exceeds the first
    let x2 = line("X", 120);
    assert_eq!(state.remaining_for(&x2), Decimal::from_whole(20));
    let none = state.fill_line(&b, &line("X", 60), &[offer(23, 11, 5)], 3);
    assert!(none.is_empty());
}

#[test]
fn port_parsing() {
    assert_eq!(parse_port("8080"), Some(8080));
    assert_eq!(parse_port("+65535"), Some(65535));
    assert_eq!(parse_port("65536"), None);
    assert_eq!(parse_port(""), None);
    assert_eq!(parse_port("+"), None);
    assert_eq!(parse_port("80a"), None);
}

#[test]
fn config_defaults() {
    let c = AppConfig::default();
    assert_eq!(c.server.host, "127.0.0.1");
    assert_eq!(c.server.port, 8080);
    assert_eq!(c.database.url, "postgres://localhost/tax_redflush");
    let d = AppConfig::from_values(Some("0.0.0.0".to_string()), Some("bad".to_string()), None);
    assert_eq!(d.server.host, "0.0.0.0");
    assert_eq!(d.server.port, 8080);
    let e = AppConfig::from_values(None, Some("9000".to_string()), Some("postgres://db".to_string()));
    assert_eq!(e.server.port, 9000);
    assert_eq!(e.database.url, "postgres://db");
}

#[test]
fn consuming_part_of_an_item_leaves_the_rest() {
    let mut ctx = InvoiceScoringContext::from_items(vec![candidate(12, 1, "X", 80)]);
    let st = ctx.consume_item(12, "X", Decimal::from_whole(50)).unwrap();
    assert_eq!(st.original_amount, Decimal::from_whole(80));
    assert_eq!(st.remaining_amount, Decimal::from_whole(30));
    assert_eq!(ctx.get_available_items(12)[0].remaining_amount, Decimal::from_whole(30));
}

#[test]
fn context_groups_items_by_invoice_in_order() {
    let ctx = InvoiceScoringContext::from_items(vec![
        candidate(7, 1, "A", 5),
        candidate(8, 2, "B", 6),
        candidate(7, 3, " C ", 7),
        candidate(9, 4, "  ", 8),
    ]);
    assert_eq!(ctx.total_count(), 2);
    let seven: Vec<(i64, String)> = ctx.get_available_items(7).iter().map(|s| (s.item_id, s.product_code.clone())).collect();
    assert_eq!(seven, vec![(1, "A".to_string()), (3, "C".to_string())]);
    assert!(ctx.get_available_items(9).is_empty());
}

#[test]
fn fill_walks_source_in_order_and_counts_lines() {
    let b = MatchBill1201 { fid: 5, fbuyertaxno: "B".to_string(), fsalertaxno: "S".to_string() };
    let mut state = SkuMatchState::new();
    let recs = state.fill_line(&b, &line("X", 55), &[offer(1, 1, 20), offer(2, 2, 0), offer(3, 3, 30), offer(4, 4, 40)], 9);
    let taken: Vec<(i64, i128)> = recs.iter().map(|r| (r.finvoiceitemid, r.fmatchamount.units)).collect();
    assert_eq!(
        taken,
        vec![(1, Decimal::from_whole(20).units), (3, Decimal::from_whole(30).units), (4, Decimal::from_whole(5).units)]
    );
    assert_eq!(recs[2].finvoiceamount, Decimal::from_whole(40));
    assert_eq!(state.completed_lines(), 1);
    // already met: counted, no record
    assert!(state.fill_line(&b, &line("X", 55), &[], 9).is_empty());
    assert_eq!(state.completed_lines(), 2);
    // nothing to draw on: not counted
    assert!(state.fill_line(&b, &line("Y", 5), &[], 9).is_empty());
    assert_eq!(state.completed_lines(), 2);
}
