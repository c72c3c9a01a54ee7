//! Decisions of the SKU-centric matcher: SKUs are handled scarcest first,
//! and each is filled from candidate items, items of invoices already used
//! coming first.
use vstd::prelude::*;
use indexmap::IndexSet;
use crate::bill::{MatchBill1201, MatchBillItem1201, TempSummary};
use crate::decimal::{abs_int, in_range, min_int, Decimal};
use crate::id_set::{id_set_insert, id_set_new, id_set_to_vec, ordered_ids};
use crate::invoice::MatchedInvoiceItem;
use crate::record::{invoice_ids_of, matched_total, MatchResult1201};
use crate::requirements::{outstanding, MatchingRequirements};

verus! {

/// Whether summary `a` is at most as scarce as `b`: fewer candidate items,
/// or as many and no larger a total amount.
pub open spec fn scarcer_or_equal(a: TempSummary, b: TempSummary) -> bool {
    a.item_count < b.item_count || (a.item_count == b.item_count && a.total_amount@ <= b.total_amount@)
}

/// Whether `a` is at most as scarce as `b`.
pub fn ranks_no_later(a: &TempSummary, b: &TempSummary) -> (r: bool)
    ensures
        r == scarcer_or_equal(*a, *b),
{
    a.item_count < b.item_count || (a.item_count == b.item_count && a.total_amount.units
        <= b.total_amount.units)
}

/// Whether `order` lists every position of `s` once, scarcest first, with
/// positions of equal scarcity in their original order.
pub open spec fn scarcity_sorted(s: Seq<TempSummary>, order: Seq<usize>) -> bool {
    &&& order.len() == s.len()
    &&& order.no_duplicates()
    &&& forall|a: int| 0 <= a < order.len() ==> (#[trigger] order[a]) < s.len()
    &&& forall|a: int, b: int|
        0 <= a < b < order.len() ==> scarcer_or_equal(s[#[trigger] order[a] as int], s[#[trigger] order[b] as int])
            && (scarcer_or_equal(s[order[b] as int], s[order[a] as int]) ==> order[a] < order[b])
}

/// The order in which bill lines are matched: by candidate count, then by
/// candidate total, both ascending; lines of equal rank keep their order.
/// `summaries[i]` is the summary of line `i`.
pub fn scarcity_order(summaries: &[TempSummary]) -> (r: Vec<usize>)
    ensures
        scarcity_sorted(summaries@, r@),
{
    let ghost s = summaries@;
    let mut order: Vec<usize> = Vec::new();
    let mut i: usize = 0;
    while i < summaries.len()
        invariant
            s == summaries@,
            i <= s.len(),
            order@.len() == i,
            order@.no_duplicates(),
            forall|a: int| 0 <= a < order@.len() ==> (#[trigger] order@[a]) < i,
            forall|a: int, b: int|
                0 <= a < b < order@.len() ==> scarcer_or_equal(s[#[trigger] order@[a] as int], s[#[trigger] order@[b] as int])
                    && (scarcer_or_equal(s[order@[b] as int], s[order@[a] as int]) ==> order@[a] < order@[b]),
        decreases s.len() - i,
    {
        let key = &summaries[i];
        let mut pos: usize = 0;
        while pos < order.len() && ranks_no_later(&summaries[order[pos]], key)
            invariant
                s == summaries@,
                i < s.len(),
                *key == s[i as int],
                pos <= order@.len(),
                forall|a: int| 0 <= a < order@.len() ==> (#[trigger] order@[a]) < i,
                forall|a: int| 0 <= a < pos ==> scarcer_or_equal(s[#[trigger] order@[a] as int], s[i as int]),
            decreases order@.len() - pos,
        {
            pos = pos + 1;
        }
        proof {
            // every entry after `pos` ranks strictly after line `i`
            assert forall|a: int| pos <= a < order@.len() implies !scarcer_or_equal(
                s[#[trigger] order@[a] as int],
                s[i as int],
            ) by {
                if pos < order@.len() {
                    assert(!scarcer_or_equal(s[order@[pos as int] as int], s[i as int]));
                    if a > pos {
                        assert(scarcer_or_equal(s[order@[pos as int] as int], s[order@[a] as int]));
                    }
                }
            }
        }
        let ghost before = order@;
        order.insert(pos, i);
        proof {
            let now = order@;
            assert(now == before.insert(pos as int, i));
            assert forall|a: int| 0 <= a < now.len() implies (#[trigger] now[a]) < i + 1 by {
                if a < pos {
                    assert(now[a] == before[a]);
                } else if a > pos {
                    assert(now[a] == before[a - 1]);
                }
            }
            assert forall|a: int, b: int| 0 <= a < b < now.len() implies now[a] != now[b] by {
                if a != pos && b != pos {
                    let a0 = if a < pos { a } else { a - 1 };
                    let b0 = if b < pos { b } else { b - 1 };
                    assert(now[a] == before[a0] && now[b] == before[b0]);
                } else if a == pos {
                    assert(now[b] == before[b - 1]);
                } else {
                    assert(now[a] == before[a]);
                }
            }
            assert forall|a: int, b: int|
                0 <= a < b < now.len() implies scarcer_or_equal(s[#[trigger] now[a] as int], s[#[trigger] now[b] as int])
                    && (scarcer_or_equal(s[now[b] as int], s[now[a] as int]) ==> now[a] < now[b]) by {
                if a != pos && b != pos {
                    let a0 = if a < pos { a } else { a - 1 };
                    let b0 = if b < pos { b } else { b - 1 };
                    assert(now[a] == before[a0] && now[b] == before[b0]);
                } else if a == pos {
                    assert(now[b] == before[b - 1]);
                    assert(!scarcer_or_equal(s[before[b - 1] as int], s[i as int]));
                } else {
                    assert(now[a] == before[a]);
                    assert(scarcer_or_equal(s[before[a] as int], s[i as int]));
                }
            }
        }
        i = i + 1;
    }
    order
}

/// `s` with every item whose item id already came earlier left out.
pub open spec fn first_by_item_id(s: Seq<MatchedInvoiceItem>) -> Seq<MatchedInvoiceItem>
    decreases s.len(),
{
    if s.len() == 0 {
        Seq::empty()
    } else {
        let d = first_by_item_id(s.drop_last());
        if item_ids(d).contains(s.last().item_id) {
            d
        } else {
            d.push(s.last())
        }
    }
}

/// The item ids of `s`, in order.
pub open spec fn item_ids(s: Seq<MatchedInvoiceItem>) -> Seq<i64> {
    s.map_values(|m: MatchedInvoiceItem| m.item_id)
}

/// Merges candidate layers, given one after the other: an item whose item
/// id came earlier is dropped.
pub fn dedup_by_item_id(items: &[MatchedInvoiceItem]) -> (r: Vec<MatchedInvoiceItem>)
    ensures
        r@ == first_by_item_id(items@),
{
    let mut seen = id_set_new();
    let mut r: Vec<MatchedInvoiceItem> = Vec::new();
    let mut k: usize = 0;
    assert(item_ids(r@) =~= Seq::<i64>::empty());
    while k < items.len()
        invariant
            k <= items@.len(),
            r@ == first_by_item_id(items@.subrange(0, k as int)),
            ordered_ids(seen) == item_ids(r@),
        decreases items@.len() - k,
    {
        assert(items@.subrange(0, k + 1).drop_last() =~= items@.subrange(0, k as int));
        let ghost r0 = r@;
        if id_set_insert(&mut seen, items[k].item_id) {
            r.push(items[k].duplicate());
            assert(item_ids(r@) =~= item_ids(r0).push(items@[k as int].item_id));
        }
        k = k + 1;
    }
    assert(items@.subrange(0, items@.len() as int) =~= items@);
    r
}

/// Sum of the positive amounts of `s`.
pub open spec fn positive_sum(s: Seq<MatchedInvoiceItem>) -> int
    decreases s.len(),
{
    if s.len() == 0 {
        0
    } else {
        positive_sum(s.drop_last()) + if s.last().amount@ > 0 {
            s.last().amount@
        } else {
            0
        }
    }
}

proof fn lemma_positive_sum_prefix(s: Seq<MatchedInvoiceItem>, k: int)
    requires
        0 <= k <= s.len(),
    ensures
        0 <= positive_sum(s.subrange(0, k)) <= positive_sum(s),
    decreases s.len(),
{
    if s.len() > 0 {
        if k == s.len() {
            assert(s.subrange(0, k) =~= s);
            lemma_positive_sum_prefix(s.drop_last(), k - 1);
            assert(s.drop_last().subrange(0, k - 1) =~= s.drop_last());
        } else {
            lemma_positive_sum_prefix(s.drop_last(), k);
            assert(s.drop_last().subrange(0, k) =~= s.subrange(0, k));
        }
    }
}

/// The record that line `line` of `bill` takes from `item`, `amount` units.
pub open spec fn sku_record(
    bill: MatchBill1201,
    line: MatchBillItem1201,
    item: MatchedInvoiceItem,
    amount: int,
    match_time: i64,
) -> MatchResult1201 {
    MatchResult1201 {
        fbillid: bill.fid,
        fbuyertaxno: bill.fbuyertaxno,
        fsalertaxno: bill.fsalertaxno,
        fspbm: item.product_code,
        finvoiceid: item.invoice_id,
        finvoiceitemid: item.item_id,
        fnum: item.quantity,
        fbillamount: line.famount,
        finvoiceamount: item.amount,
        fmatchamount: Decimal { units: amount as i128 },
        fbillunitprice: line.funitprice,
        fbillqty: line.fnum,
        finvoiceunitprice: item.unit_price,
        finvoiceqty: Some(item.quantity),
        fmatchtime: match_time,
    }
}

/// The records of filling a need of `need` units from `source` in order:
/// each item gives the smaller of its amount and what is still needed, and
/// an item that gives nothing positive makes no record.
pub open spec fn fill_records(
    bill: MatchBill1201,
    line: MatchBillItem1201,
    source: Seq<MatchedInvoiceItem>,
    need: int,
    match_time: i64,
) -> Seq<MatchResult1201>
    decreases source.len(),
{
    if source.len() == 0 {
        Seq::empty()
    } else {
        let before = fill_records(bill, line, source.drop_last(), need, match_time);
        let take = min_int(source.last().amount@, need - min_int(need, positive_sum(source.drop_last())));
        if take > 0 {
            before.push(sku_record(bill, line, source.last(), take, match_time))
        } else {
            before
        }
    }
}

proof fn lemma_fill_stable(
    bill: MatchBill1201,
    line: MatchBillItem1201,
    s: Seq<MatchedInvoiceItem>,
    need: int,
    match_time: i64,
    k: int,
)
    requires
        0 <= k <= s.len(),
        positive_sum(s.subrange(0, k)) >= need,
    ensures
        fill_records(bill, line, s, need, match_time) == fill_records(bill, line, s.subrange(0, k), need, match_time),
    decreases s.len(),
{
    if s.len() == k {
        assert(s.subrange(0, k) =~= s);
    } else {
        let d = s.drop_last();
        assert(d.subrange(0, k) =~= s.subrange(0, k));
        lemma_fill_stable(bill, line, d, need, match_time, k);
        lemma_positive_sum_prefix(d, k);
    }
}

/// What a bill line of the SKU-centric matcher, with candidate list
/// `source`, emits: each record belongs to the bill and the line, and takes a
/// positive amount no larger than the invoice item's amount nor than the
/// line's absolute amount.
pub open spec fn sku_record_ok(
    r: MatchResult1201,
    bill: MatchBill1201,
    line: MatchBillItem1201,
    match_time: i64,
) -> bool {
    &&& r.fbillid == bill.fid
    &&& r.fbuyertaxno@ == bill.fbuyertaxno@
    &&& r.fsalertaxno@ == bill.fsalertaxno@
    &&& r.fbillamount == line.famount
    &&& r.fbillunitprice == line.funitprice
    &&& r.fbillqty == line.fnum
    &&& 0 < r.fmatchamount@ <= r.finvoiceamount@
    &&& r.fmatchamount@ <= abs_int(line.famount@)
    &&& r.finvoiceqty == Some(r.fnum)
    &&& r.fmatchtime == match_time
}

/// State of the SKU-centric matcher across the lines of one bill: the
/// invoices used so far, in order of first use, and the amount matched per
/// product code.
pub struct SkuMatchState {
    preferred_invoices: IndexSet<i64>,
    matched_by_product: MatchingRequirements,
    completed_lines: usize,
}

impl SkuMatchState {
    /// The invoices used so far, in order of first use.
    pub closed spec fn preferred_view(&self) -> Seq<i64> {
        ordered_ids(self.preferred_invoices)
    }

    /// Amount matched so far per product code.
    pub closed spec fn matched_view(&self) -> Map<Seq<char>, int> {
        self.matched_by_product@
    }

    /// Lines counted as completed so far.
    pub closed spec fn completed_view(&self) -> nat {
        self.completed_lines as nat
    }

    pub closed spec fn wf(&self) -> bool {
        &&& self.matched_by_product.wf()
        &&& self.preferred_view().no_duplicates()
    }

    pub fn new() -> (r: SkuMatchState)
        ensures
            r.wf(),
            r.preferred_view() == Seq::<i64>::empty(),
            r.matched_view() == Map::<Seq<char>, int>::empty(),
            r.completed_view() == 0,
    {
        SkuMatchState {
            preferred_invoices: id_set_new(),
            matched_by_product: MatchingRequirements::new(),
            completed_lines: 0,
        }
    }

    /// Number of lines that were already met when reached, or that produced
    /// records: a line whose demand found no candidate at all is not
    /// counted.
    pub fn completed_lines(&self) -> (r: usize)
        ensures
            r == self.completed_view(),
    {
        self.completed_lines
    }

    /// The invoices used so far, in order of first use; the first candidate
    /// layer of each line is drawn from these.
    pub fn preferred_ids(&self) -> (r: Vec<i64>)
        ensures
            r@ == self.preferred_view(),
    {
        id_set_to_vec(&self.preferred_invoices)
    }

    /// What is still to match of `line`: its absolute amount less what its
    /// product code has matched so far.
    pub fn remaining_for(&self, line: &MatchBillItem1201) -> (r: Decimal)
        requires
            self.wf(),
            line.famount.units != i128::MIN,
        ensures
            r@ == abs_int(line.famount@) - outstanding(self.matched_view(), line.fspbm@),
    {
        proof {
            self.matched_by_product.lemma_wf_facts(line.fspbm@);
        }
        let target = line.famount.abs();
        match self.matched_by_product.get_remaining(line.fspbm.as_str()) {
            Some(done) => target.sub(done),
            None => target,
        }
    }
    /// Fills `line` from `source` in order: each item gives the smaller of
    /// its amount and what the line still needs, items with nothing to give
    /// are passed over, and the walk stops once the line is met. Each
    /// record's invoice joins the used invoices and its amount is added to
    /// the line's product code. When the line needs nothing, no record is
    /// made. The line counts as completed when it needed nothing or made a
    /// record.
    pub fn fill_line(
        &mut self,
        bill: &MatchBill1201,
        line: &MatchBillItem1201,
        source: &[MatchedInvoiceItem],
        match_time: i64,
    ) -> (r: Vec<MatchResult1201>)
        requires
            old(self).wf(),
            line.famount.units != i128::MIN,
        ensures
            final(self).wf(),
            ({
                let need = abs_int(line.famount@) - outstanding(old(self).matched_view(), line.fspbm@);
                let counted = need <= 0 || r@.len() > 0;
                final(self).completed_view() == if counted && old(self).completed_view() < usize::MAX {
                    old(self).completed_view() + 1
                } else {
                    old(self).completed_view()
                }
            }),
            ({
                let need = abs_int(line.famount@) - outstanding(old(self).matched_view(), line.fspbm@);
                &&& need <= 0 ==> r@.len() == 0
                &&& need > 0 ==> matched_total(r@) == min_int(need, positive_sum(source@))
                &&& need > 0 ==> r@ == fill_records(*bill, *line, source@, need, match_time)
                &&& outstanding(final(self).matched_view(), line.fspbm@) == outstanding(
                    old(self).matched_view(),
                    line.fspbm@,
                ) + matched_total(r@)
                &&& outstanding(final(self).matched_view(), line.fspbm@) <= if need > 0 {
                    abs_int(line.famount@)
                } else {
                    outstanding(old(self).matched_view(), line.fspbm@)
                }
            }),
            forall|s: Seq<char>|
                s != line.fspbm@ ==> #[trigger] outstanding(final(self).matched_view(), s) == outstanding(
                    old(self).matched_view(),
                    s,
                ),
            final(self).preferred_view().to_set() == old(self).preferred_view().to_set().union(
                invoice_ids_of(r@),
            ),
            forall|i: int| 0 <= i < r@.len() ==> sku_record_ok(#[trigger] r@[i], *bill, *line, match_time),
    {
        let ghost m0 = outstanding(self.matched_view(), line.fspbm@);
        let ghost pref0 = self.preferred_view();
        let ghost matched0 = self.matched_view();
        proof {
            self.matched_by_product.lemma_wf_facts(line.fspbm@);
        }
        let need = self.remaining_for(line);
        let mut remaining = need;
        let mut out: Vec<MatchResult1201> = Vec::new();
        let mut k: usize = 0;
        assert(source@.subrange(0, 0) =~= Seq::<MatchedInvoiceItem>::empty());
        assert(self.preferred_view().to_set() =~= pref0.to_set().union(invoice_ids_of(out@)));
        if need.units <= 0 {
            if self.completed_lines < usize::MAX {
                self.completed_lines = self.completed_lines + 1;
            }
            return out;
        }
        while k < source.len() && remaining.units > 0
            invariant
                self.wf(),
                self.completed_lines == old(self).completed_lines,
                need@ > 0,
                line.famount.units != i128::MIN,
                need@ == abs_int(line.famount@) - m0,
                m0 >= 0,
                k <= source@.len(),
                remaining@ >= 0,
                matched_total(out@) + remaining@ == need@,
                matched_total(out@) == min_int(need@, positive_sum(source@.subrange(0, k as int))),
                outstanding(self.matched_view(), line.fspbm@) == m0 + matched_total(out@),
                forall|s: Seq<char>|
                    s != line.fspbm@ ==> #[trigger] outstanding(self.matched_view(), s) == outstanding(matched0, s),
                self.preferred_view().to_set() == pref0.to_set().union(invoice_ids_of(out@)),
                forall|i: int| 0 <= i < out@.len() ==> sku_record_ok(#[trigger] out@[i], *bill, *line, match_time),
                out@ == fill_records(*bill, *line, source@.subrange(0, k as int), need@, match_time),
            decreases source@.len() - k,
        {
            assert(source@.subrange(0, k + 1).drop_last() =~= source@.subrange(0, k as int));
            let item = &source[k];
            let use_amount = item.amount.min(remaining);
            if use_amount.is_positive() {
                let rec = MatchResult1201 {
                    fbillid: bill.fid,
                    fbuyertaxno: bill.fbuyertaxno.clone(),
                    fsalertaxno: bill.fsalertaxno.clone(),
                    fspbm: item.product_code.clone(),
                    finvoiceid: item.invoice_id,
                    finvoiceitemid: item.item_id,
                    fnum: item.quantity,
                    fbillamount: line.famount,
                    finvoiceamount: item.amount,
                    fmatchamount: use_amount,
                    fbillunitprice: line.funitprice,
                    fbillqty: line.fnum,
                    finvoiceunitprice: item.unit_price,
                    finvoiceqty: Some(item.quantity),
                    fmatchtime: match_time,
                };
                let ghost out0 = out@;
                let ghost pset = self.preferred_view();
                assert(rec == sku_record(*bill, *line, *item, use_amount@, match_time));
                out.push(rec);
                assert(out@.drop_last() =~= out0);
                id_set_insert(&mut self.preferred_invoices, item.invoice_id);
                proof {
                    if !pset.contains(item.invoice_id) {
                        pset.lemma_push_to_set_commute(item.invoice_id);
                        assert forall|a: int, b: int| 0 <= a < b < self.preferred_view().len() implies
                            self.preferred_view()[a] != self.preferred_view()[b] by {
                            if b == pset.len() {
                                assert(self.preferred_view()[a] == pset[a]);
                            }
                        }
                    }
                    assert(self.preferred_view().to_set() =~= pref0.to_set().union(invoice_ids_of(out@)));
                    self.matched_by_product.lemma_wf_facts(line.fspbm@);
                }
                let code = line.fspbm.clone();
                assert(abs_int(line.famount@) <= i128::MAX);
                let ghost mv = self.matched_view();
                self.matched_by_product.add_amount(code, use_amount);
                assert forall|t: Seq<char>| t != line.fspbm@ implies #[trigger] outstanding(self.matched_view(), t)
                    == outstanding(matched0, t) by {
                    assert(outstanding(mv, t) == outstanding(matched0, t));
                    assert(self.matched_view() == mv.insert(line.fspbm@, outstanding(mv, line.fspbm@) + use_amount@));
                }
                remaining = remaining.sub(use_amount);
            }
            k = k + 1;
        }
        proof {
            lemma_positive_sum_prefix(source@, k as int);
            if k < source@.len() {
                assert(remaining@ == 0);
                lemma_fill_stable(*bill, *line, source@, need@, match_time, k as int);
            } else {
                assert(source@.subrange(0, k as int) =~= source@);
            }
        }
        if out.len() > 0 && self.completed_lines < usize::MAX {
            self.completed_lines = self.completed_lines + 1;
        }
        out
    }
}

} // verus!
