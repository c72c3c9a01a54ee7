//! The scoring context: remaining amounts of candidate invoice items, the
//! SKU → invoice index with its frequencies, and a lazy max-heap of invoice
//! scores.
use vstd::prelude::*;
use crate::decimal::{cents_of, in_range, min_int, Decimal};
use crate::invoice::InvoiceItemDetail;
use crate::requirements::{outstanding, MatchingRequirements};
use crate::text::{same_text, trim_code, trimmed};

verus! {

/// Score of an invoice against the current demand; the heap orders by
/// `score`, then by `sku_count`.
#[derive(Clone, Copy, Debug, PartialEq, Eq, Structural)]
pub struct InvoiceScore {
    pub invoice_id: i64,
    pub score: i64,
    pub sku_count: i64,
}

/// Whether `a` ranks at least as high as `b`: a higher score, or an equal
/// score and at least as many SKUs.
pub open spec fn ranks_at_least(a: InvoiceScore, b: InvoiceScore) -> bool {
    a.score > b.score || (a.score == b.score && a.sku_count >= b.sku_count)
}

impl InvoiceScore {
    /// Order by score, then by SKU count; the invoice id takes no part.
    pub fn cmp(&self, other: &InvoiceScore) -> (r: core::cmp::Ordering)
        ensures
            r == core::cmp::Ordering::Less <==> !ranks_at_least(*self, *other),
            r == core::cmp::Ordering::Greater <==> !ranks_at_least(*other, *self),
            r == core::cmp::Ordering::Equal <==> (self.score == other.score && self.sku_count
                == other.sku_count),
    {
        if self.score < other.score {
            core::cmp::Ordering::Less
        } else if self.score > other.score {
            core::cmp::Ordering::Greater
        } else if self.sku_count < other.sku_count {
            core::cmp::Ordering::Less
        } else if self.sku_count > other.sku_count {
            core::cmp::Ordering::Greater
        } else {
            core::cmp::Ordering::Equal
        }
    }

    /// The same order as [`InvoiceScore::cmp`], always defined.
    pub fn partial_cmp(&self, other: &InvoiceScore) -> (r: Option<core::cmp::Ordering>)
        ensures
            r is Some,
            r == Some(core::cmp::Ordering::Less) <==> !ranks_at_least(*self, *other),
            r == Some(core::cmp::Ordering::Greater) <==> !ranks_at_least(*other, *self),
    {
        Some(self.cmp(other))
    }
}

/// Remaining amount of one candidate invoice item.
#[derive(Clone, Debug)]
pub struct InvoiceItemState {
    pub invoice_id: i64,
    pub item_id: i64,
    pub product_code: String,
    pub quantity: Decimal,
    pub original_amount: Decimal,
    pub remaining_amount: Decimal,
    pub unit_price: Option<Decimal>,
}

impl InvoiceItemState {
    /// A field-by-field copy.
    pub fn duplicate(&self) -> (r: InvoiceItemState)
        ensures
            r == *self,
    {
        InvoiceItemState {
            invoice_id: self.invoice_id,
            item_id: self.item_id,
            product_code: self.product_code.clone(),
            quantity: self.quantity,
            original_amount: self.original_amount,
            remaining_amount: self.remaining_amount,
            unit_price: self.unit_price,
        }
    }
}

/// Whether nothing has been consumed of `st` yet.
pub open spec fn fresh(st: InvoiceItemState) -> bool {
    st.remaining_amount == st.original_amount && st.product_code@.len() > 0
}

/// Number of distinct invoices that carry `sku`, read from the index.
pub open spec fn freq_in(index: Seq<(Seq<char>, Seq<i64>)>, sku: Seq<char>) -> int
    decreases index.len(),
{
    if index.len() == 0 {
        0
    } else if index[0].0 == sku {
        index[0].1.len() as int
    } else {
        freq_in(index.drop_first(), sku)
    }
}

/// Scarcity bonus of a SKU carried by `f` invoices.
pub open spec fn bonus(f: int) -> int {
    if f > 0 {
        1000int / f
    } else {
        0
    }
}

/// Whether item `it` contributes to its invoice's score: something is left
/// of it and of the demand for its SKU.
pub open spec fn contributes(it: InvoiceItemState, reqs: Map<Seq<char>, int>) -> bool {
    it.remaining_amount@ > 0 && outstanding(reqs, it.product_code@) > 0
}

/// Contribution of one item: the matchable amount in whole cents plus the
/// scarcity bonus of its SKU.
pub open spec fn item_term(
    it: InvoiceItemState,
    reqs: Map<Seq<char>, int>,
    index: Seq<(Seq<char>, Seq<i64>)>,
) -> int {
    if contributes(it, reqs) {
        cents_of(min_int(it.remaining_amount@, outstanding(reqs, it.product_code@))) + bonus(
            freq_in(index, it.product_code@),
        )
    } else {
        0
    }
}

/// Sum of the item contributions, without any cap.
pub open spec fn raw_score(
    items: Seq<InvoiceItemState>,
    reqs: Map<Seq<char>, int>,
    index: Seq<(Seq<char>, Seq<i64>)>,
) -> int
    decreases items.len(),
{
    if items.len() == 0 {
        0
    } else {
        raw_score(items.drop_last(), reqs, index) + item_term(items.last(), reqs, index)
    }
}

/// Number of contributing items, without any cap.
pub open spec fn raw_count(items: Seq<InvoiceItemState>, reqs: Map<Seq<char>, int>) -> int
    decreases items.len(),
{
    if items.len() == 0 {
        0
    } else {
        raw_count(items.drop_last(), reqs) + if contributes(items.last(), reqs) {
            1int
        } else {
            0
        }
    }
}

/// `v`, held at the largest `i64`.
pub open spec fn capped(v: int) -> int {
    min_int(v, i64::MAX as int)
}

/// Score of an invoice with items `items`: the sum of the contributions,
/// saturating at the largest `i64`.
pub open spec fn invoice_score(
    items: Seq<InvoiceItemState>,
    reqs: Map<Seq<char>, int>,
    index: Seq<(Seq<char>, Seq<i64>)>,
) -> int {
    capped(raw_score(items, reqs, index))
}

/// Whether every invoice with a positive score, but perhaps `skip`, has a
/// heap entry whose score is at least its current score, and every entry is
/// positive.
pub open spec fn heap_covers(
    invs: Seq<(i64, Seq<InvoiceItemState>)>,
    index: Seq<(Seq<char>, Seq<i64>)>,
    heap: Seq<InvoiceScore>,
    reqs: Map<Seq<char>, int>,
    skip: Option<i64>,
) -> bool {
    &&& forall|j: int| 0 <= j < heap.len() ==> #[trigger] heap[j].score > 0
    &&& forall|p: int|
        0 <= p < invs.len() && invoice_score(#[trigger] invs[p].1, reqs, index) > 0 && skip != Some(
            invs[p].0,
        ) ==> exists|j: int|
            0 <= j < heap.len() && heap[j].invoice_id == invs[p].0 && #[trigger] heap[j].score
                >= invoice_score(invs[p].1, reqs, index)
}

/// Every demand of `small` is present in `big` and no larger there.
pub open spec fn demand_le(small: Map<Seq<char>, int>, big: Map<Seq<char>, int>) -> bool {
    forall|s: Seq<char>| #[trigger] outstanding(small, s) <= outstanding(big, s)
}

/// `now` has the shape of `before`, with remaining amounts no larger.
pub open spec fn consumed_from(
    now: Seq<(i64, Seq<InvoiceItemState>)>,
    before: Seq<(i64, Seq<InvoiceItemState>)>,
) -> bool {
    &&& now.len() == before.len()
    &&& forall|p: int|
        0 <= p < now.len() ==> {
            &&& (#[trigger] now[p]).0 == before[p].0
            &&& now[p].1.len() == before[p].1.len()
            &&& forall|k: int|
                0 <= k < now[p].1.len() ==> {
                    &&& (#[trigger] now[p].1[k]).product_code@ == before[p].1[k].product_code@
                    &&& now[p].1[k].remaining_amount@ <= before[p].1[k].remaining_amount@
                    &&& now[p].1[k].item_id == before[p].1[k].item_id
                }
        }
}

/// Less remaining and less demand never raise an item's contribution.
pub proof fn lemma_item_term_mono(
    a: InvoiceItemState,
    b: InvoiceItemState,
    ra: Map<Seq<char>, int>,
    rb: Map<Seq<char>, int>,
    index: Seq<(Seq<char>, Seq<i64>)>,
)
    requires
        a.product_code@ == b.product_code@,
        a.remaining_amount@ <= b.remaining_amount@,
        demand_le(ra, rb),
    ensures
        0 <= item_term(a, ra, index) <= item_term(b, rb, index),
{
    let f = freq_in(index, a.product_code@);
    assert(bonus(f) >= 0) by {
        if f > 0 {
            vstd::arithmetic::div_mod::lemma_div_pos_is_pos(1000, f);
        }
    }
    assert(outstanding(ra, a.product_code@) <= outstanding(rb, a.product_code@));
    if contributes(a, ra) {
        let x = min_int(a.remaining_amount@, outstanding(ra, a.product_code@));
        let y = min_int(b.remaining_amount@, outstanding(rb, b.product_code@));
        assert(0 < x <= y);
        vstd::arithmetic::div_mod::lemma_div_is_ordered(x, y, 1_000_000);
        vstd::arithmetic::div_mod::lemma_div_pos_is_pos(x, 1_000_000);
    } else if contributes(b, rb) {
        let y = min_int(b.remaining_amount@, outstanding(rb, b.product_code@));
        vstd::arithmetic::div_mod::lemma_div_pos_is_pos(y, 1_000_000);
    }
}

/// Less remaining and less demand never raise an invoice's raw score.
pub proof fn lemma_raw_score_mono(
    a: Seq<InvoiceItemState>,
    b: Seq<InvoiceItemState>,
    ra: Map<Seq<char>, int>,
    rb: Map<Seq<char>, int>,
    index: Seq<(Seq<char>, Seq<i64>)>,
)
    requires
        a.len() == b.len(),
        forall|k: int|
            0 <= k < a.len() ==> (#[trigger] a[k]).product_code@ == b[k].product_code@
                && a[k].remaining_amount@ <= b[k].remaining_amount@,
        demand_le(ra, rb),
    ensures
        0 <= raw_score(a, ra, index) <= raw_score(b, rb, index),
    decreases a.len(),
{
    if a.len() > 0 {
        lemma_raw_score_mono(a.drop_last(), b.drop_last(), ra, rb, index);
        lemma_item_term_mono(a.last(), b.last(), ra, rb, index);
    }
}

/// The heap keeps covering every invoice when remaining amounts and demand
/// only shrink.
pub proof fn lemma_heap_covers_mono(
    now: Seq<(i64, Seq<InvoiceItemState>)>,
    before: Seq<(i64, Seq<InvoiceItemState>)>,
    index: Seq<(Seq<char>, Seq<i64>)>,
    heap: Seq<InvoiceScore>,
    r_now: Map<Seq<char>, int>,
    r_before: Map<Seq<char>, int>,
    skip: Option<i64>,
)
    requires
        heap_covers(before, index, heap, r_before, skip),
        consumed_from(now, before),
        demand_le(r_now, r_before),
    ensures
        heap_covers(now, index, heap, r_now, skip),
{
    assert forall|p: int|
        0 <= p < now.len() && invoice_score(#[trigger] now[p].1, r_now, index) > 0 && skip != Some(
            now[p].0,
        ) implies exists|j: int|
        0 <= j < heap.len() && heap[j].invoice_id == now[p].0 && #[trigger] heap[j].score
            >= invoice_score(now[p].1, r_now, index) by {
        let a = now[p].1;
        let b = before[p].1;
        assert forall|k: int| 0 <= k < a.len() implies (#[trigger] a[k]).product_code@
            == b[k].product_code@ && a[k].remaining_amount@ <= b[k].remaining_amount@ by {
            assert(now[p].1[k] == a[k]);
        }
        lemma_raw_score_mono(a, b, r_now, r_before, index);
        assert(invoice_score(b, r_before, index) > 0);
        let j = choose|j: int|
            0 <= j < heap.len() && heap[j].invoice_id == before[p].0 && #[trigger] heap[j].score
                >= invoice_score(before[p].1, r_before, index);
        assert(heap[j].score >= invoice_score(now[p].1, r_now, index));
    }
}

/// A reduction by a non-negative amount leaves no demand larger.
pub proof fn lemma_reduced_le(reqs: Map<Seq<char>, int>, sku: Seq<char>, amount: int)
    requires
        amount >= 0,
        outstanding(reqs, sku) >= 0,
    ensures
        demand_le(crate::requirements::reduced(reqs, sku, amount), reqs),
{
}

/// Whether a remaining amount sits where consumption can leave it: never
/// above the original amount, and below zero only if the original amount was.
pub open spec fn state_ok(st: InvoiceItemState) -> bool {
    &&& st.remaining_amount@ <= st.original_amount@
    &&& (st.remaining_amount@ >= 0 || st.remaining_amount@ == st.original_amount@)
}

/// Well-formedness of the context's contents: invoice ids are distinct,
/// each item belongs to its invoice, remaining amounts are in place, the
/// index has distinct codes and distinct invoices per code, and the used
/// invoices are distinct.
pub open spec fn context_wf(
    invs: Seq<(i64, Seq<InvoiceItemState>)>,
    index: Seq<(Seq<char>, Seq<i64>)>,
    used: Seq<i64>,
) -> bool {
    &&& forall|p: int, q: int| 0 <= p < q < invs.len() ==> #[trigger] invs[p].0 != #[trigger] invs[q].0
    &&& forall|p: int, k: int|
        0 <= p < invs.len() && 0 <= k < invs[p].1.len() ==> (#[trigger] invs[p].1[k]).invoice_id
            == invs[p].0 && state_ok(invs[p].1[k])
    &&& forall|i: int, j: int| 0 <= i < j < index.len() ==> #[trigger] index[i].0 != #[trigger] index[j].0
    &&& forall|j: int| 0 <= j < index.len() ==> (#[trigger] index[j]).1.no_duplicates()
    &&& used.no_duplicates()
}

/// Position of the invoice `id` in `invs`, when there is one.
pub open spec fn has_invoice(invs: Seq<(i64, Seq<InvoiceItemState>)>, id: i64) -> bool {
    exists|p: int| 0 <= p < invs.len() && #[trigger] invs[p].0 == id
}

/// Whether `st` carries the data of candidate item `d`.
pub open spec fn state_from(st: InvoiceItemState, d: InvoiceItemDetail) -> bool {
    &&& st.invoice_id == d.invoice_id
    &&& st.item_id == d.item_id
    &&& st.product_code@ == trimmed(d.product_code@)
    &&& st.quantity == d.quantity
    &&& st.original_amount == d.amount
    &&& st.unit_price == d.unit_price
}

/// The kept items of `items` that belong to invoice `id`, in their order.
pub open spec fn kept_of(items: Seq<InvoiceItemDetail>, id: i64) -> Seq<InvoiceItemDetail>
    decreases items.len(),
{
    if items.len() == 0 {
        Seq::empty()
    } else if kept(items.last()) && items.last().invoice_id == id {
        kept_of(items.drop_last(), id).push(items.last())
    } else {
        kept_of(items.drop_last(), id)
    }
}

/// Whether `states` carry, position by position, the data of `ds`.
pub open spec fn group_matches(states: Seq<InvoiceItemState>, ds: Seq<InvoiceItemDetail>) -> bool {
    &&& states.len() == ds.len()
    &&& forall|k: int| 0 <= k < states.len() ==> state_from(#[trigger] states[k], ds[k])
}

/// A kept item appears among the kept items of its invoice.
pub proof fn lemma_kept_of_contains(items: Seq<InvoiceItemDetail>, i: int)
    requires
        0 <= i < items.len(),
        kept(items[i]),
    ensures
        exists|k: int|
            0 <= k < kept_of(items, items[i].invoice_id).len() && #[trigger] kept_of(items, items[i].invoice_id)[k]
                == items[i],
    decreases items.len(),
{
    let id = items[i].invoice_id;
    if i == items.len() - 1 {
        let d = kept_of(items.drop_last(), id);
        assert(kept_of(items, id)[d.len() as int] == items[i]);
    } else {
        lemma_kept_of_contains(items.drop_last(), i);
        assert(items.drop_last()[i] == items[i]);
        let d = kept_of(items.drop_last(), id);
        let k = choose|k: int| 0 <= k < d.len() && #[trigger] d[k] == items[i];
        assert(kept_of(items, id)[k] == items[i]);
    }
}

/// Whether `st` carries the data of some kept item of `items`.
pub open spec fn comes_from(st: InvoiceItemState, items: Seq<InvoiceItemDetail>) -> bool {
    exists|i: int| #![trigger items[i]] 0 <= i < items.len() && kept(items[i]) && state_from(st, items[i])
}

/// Whether the kept candidate items have distinct (invoice id, item id) pairs.
pub open spec fn pairs_distinct(items: Seq<InvoiceItemDetail>) -> bool {
    forall|i: int, j: int|
        0 <= i < j < items.len() && kept(#[trigger] items[i]) && kept(#[trigger] items[j]) ==> (
        items[i].invoice_id != items[j].invoice_id || items[i].item_id != items[j].item_id)
}

/// Whether the items of each invoice have distinct item ids.
pub open spec fn item_ids_distinct(invs: Seq<(i64, Seq<InvoiceItemState>)>) -> bool {
    forall|p: int, k: int, t: int|
        0 <= p < invs.len() && 0 <= k < t < invs[p].1.len() ==> #[trigger] invs[p].1[k].item_id
            != #[trigger] invs[p].1[t].item_id
}

/// Whether `it` is an item of code `sku` with something left.
pub open spec fn live(it: InvoiceItemState, sku: Seq<char>) -> bool {
    it.product_code@ == sku && it.remaining_amount@ > 0
}

/// Whether `k` is the first position of a live item of code `sku`.
pub open spec fn first_live_at(items: Seq<InvoiceItemState>, sku: Seq<char>, k: int) -> bool {
    &&& 0 <= k < items.len()
    &&& live(items[k], sku)
    &&& forall|t: int| 0 <= t < k ==> !live(#[trigger] items[t], sku)
}

/// `it` after consuming `amount` of it: no more than what is left is taken.
pub open spec fn consumed(it: InvoiceItemState, amount: int) -> InvoiceItemState {
    InvoiceItemState {
        remaining_amount: Decimal {
            units: (it.remaining_amount@ - min_int(amount, it.remaining_amount@)) as i128,
        },
        ..it
    }
}

/// The items with something left, in their order.
pub open spec fn available(items: Seq<InvoiceItemState>) -> Seq<InvoiceItemState>
    decreases items.len(),
{
    if items.len() == 0 {
        Seq::empty()
    } else if items.last().remaining_amount@ > 0 {
        available(items.drop_last()).push(items.last())
    } else {
        available(items.drop_last())
    }
}

/// `used` after recording invoice `id`.
pub open spec fn record_use(used: Seq<i64>, id: i64) -> Seq<i64> {
    if used.contains(id) {
        used
    } else {
        used.push(id)
    }
}

/// Consuming nothing leaves an item as it was.
pub proof fn lemma_consume_zero(it: InvoiceItemState)
    requires
        it.remaining_amount@ > 0,
    ensures
        consumed(it, 0) == it,
{
}

/// The heap entry of invoice `inv` for the demand `reqs`.
pub open spec fn entry_for(
    inv: (i64, Seq<InvoiceItemState>),
    reqs: Map<Seq<char>, int>,
    index: Seq<(Seq<char>, Seq<i64>)>,
) -> InvoiceScore {
    InvoiceScore {
        invoice_id: inv.0,
        score: invoice_score(inv.1, reqs, index) as i64,
        sku_count: capped(raw_count(inv.1, reqs)) as i64,
    }
}

/// One entry per invoice with a positive score, in invoice order.
pub open spec fn heap_of(
    invs: Seq<(i64, Seq<InvoiceItemState>)>,
    reqs: Map<Seq<char>, int>,
    index: Seq<(Seq<char>, Seq<i64>)>,
) -> Seq<InvoiceScore>
    decreases invs.len(),
{
    if invs.len() == 0 {
        Seq::empty()
    } else if invoice_score(invs.last().1, reqs, index) > 0 {
        heap_of(invs.drop_last(), reqs, index).push(entry_for(invs.last(), reqs, index))
    } else {
        heap_of(invs.drop_last(), reqs, index)
    }
}

/// Whether no two heap entries are for the same invoice.
pub open spec fn heap_ids_distinct(h: Seq<InvoiceScore>) -> bool {
    forall|i: int, j: int| 0 <= i < j < h.len() ==> #[trigger] h[i].invoice_id != #[trigger] h[j].invoice_id
}

/// Whether `e` is the current entry of its invoice.
pub open spec fn is_current_entry(
    e: InvoiceScore,
    invs: Seq<(i64, Seq<InvoiceItemState>)>,
    reqs: Map<Seq<char>, int>,
    index: Seq<(Seq<char>, Seq<i64>)>,
) -> bool {
    exists|p: int| #![trigger invs[p]] 0 <= p < invs.len() && invs[p].0 == e.invoice_id && e == entry_for(invs[p], reqs, index)
}

/// Total of the heap entries' scores.
pub open spec fn score_total(h: Seq<InvoiceScore>) -> int
    decreases h.len(),
{
    if h.len() == 0 {
        0
    } else {
        score_total(h.drop_last()) + h.last().score
    }
}

proof fn lemma_total_nonneg(h: Seq<InvoiceScore>)
    requires
        forall|j: int| 0 <= j < h.len() ==> #[trigger] h[j].score > 0,
    ensures
        score_total(h) >= 0,
    decreases h.len(),
{
    if h.len() > 0 {
        assert forall|j: int| 0 <= j < h.drop_last().len() implies #[trigger] h.drop_last()[j].score > 0 by {
            assert(h.drop_last()[j] == h[j]);
        }
        lemma_total_nonneg(h.drop_last());
    }
}

proof fn lemma_total_remove(h: Seq<InvoiceScore>, j: int)
    requires
        0 <= j < h.len(),
    ensures
        score_total(h.remove(j)) == score_total(h) - h[j].score,
    decreases h.len(),
{
    if j == h.len() - 1 {
        assert(h.remove(j) =~= h.drop_last());
    } else {
        lemma_total_remove(h.drop_last(), j);
        assert(h.remove(j).drop_last() =~= h.drop_last().remove(j));
    }
}

/// An invoice none of whose items contributes scores zero.
pub proof fn lemma_raw_score_zero(
    items: Seq<InvoiceItemState>,
    reqs: Map<Seq<char>, int>,
    index: Seq<(Seq<char>, Seq<i64>)>,
)
    requires
        forall|k: int| 0 <= k < items.len() ==> !contributes(#[trigger] items[k], reqs),
    ensures
        raw_score(items, reqs, index) == 0,
    decreases items.len(),
{
    if items.len() > 0 {
        lemma_raw_score_zero(items.drop_last(), reqs, index);
    }
}

/// `a + b` for non-negative operands, held at the largest `i64`.
fn add_capped(a: i64, b: i64) -> (r: i64)
    requires
        a >= 0,
        b >= 0,
    ensures
        r == capped(a + b),
{
    if a > i64::MAX - b {
        i64::MAX
    } else {
        a + b
    }
}

struct InvoiceEntry {
    invoice_id: i64,
    items: Vec<InvoiceItemState>,
}

struct SkuInvoices {
    sku: String,
    invoice_ids: Vec<i64>,
}

spec fn inv_seq(v: Seq<InvoiceEntry>) -> Seq<(i64, Seq<InvoiceItemState>)> {
    v.map_values(|e: InvoiceEntry| (e.invoice_id, e.items@))
}

spec fn index_seq(v: Seq<SkuInvoices>) -> Seq<(Seq<char>, Seq<i64>)> {
    v.map_values(|e: SkuInvoices| (e.sku@, e.invoice_ids@))
}

/// Whether the index lists invoice `id` under `sku`.
pub open spec fn indexed(index: Seq<(Seq<char>, Seq<i64>)>, sku: Seq<char>, id: i64) -> bool {
    exists|j: int| 0 <= j < index.len() && #[trigger] index[j].0 == sku && index[j].1.contains(id)
}

/// Whether candidate item `d` is kept: its trimmed product code is not empty.
pub open spec fn kept(d: InvoiceItemDetail) -> bool {
    trimmed(d.product_code@).len() > 0
}

/// Whether `v` holds `id`.
fn contains_id(v: &Vec<i64>, id: i64) -> (r: bool)
    ensures
        r == v@.contains(id),
{
    let mut i: usize = 0;
    while i < v.len()
        invariant
            i <= v@.len(),
            forall|t: int| 0 <= t < i ==> v@[t] != id,
        decreases v@.len() - i,
    {
        if v[i] == id {
            return true;
        }
        i = i + 1;
    }
    false
}

/// Lists invoice `id` under `sku`.
fn add_to_index(index: &mut Vec<SkuInvoices>, sku: &String, id: i64)
    requires
        forall|i: int, j: int|
            0 <= i < j < index_seq(old(index)@).len() ==> #[trigger] index_seq(old(index)@)[i].0
                != #[trigger] index_seq(old(index)@)[j].0,
        forall|j: int| 0 <= j < index_seq(old(index)@).len() ==> (#[trigger] index_seq(old(index)@)[j]).1.no_duplicates(),
    ensures
        forall|i: int, j: int|
            0 <= i < j < index_seq(final(index)@).len() ==> #[trigger] index_seq(final(index)@)[i].0
                != #[trigger] index_seq(final(index)@)[j].0,
        forall|j: int| 0 <= j < index_seq(final(index)@).len() ==> (#[trigger] index_seq(final(index)@)[j]).1.no_duplicates(),
        forall|s: Seq<char>, x: i64|
            #[trigger] indexed(index_seq(final(index)@), s, x) <==> (indexed(index_seq(old(index)@), s, x) || (s
                == sku@ && x == id)),
{
    let ghost before = index_seq(index@);
    let mut j: usize = 0;
    while j < index.len()
        invariant
            before == index_seq(index@),
            before == index_seq(old(index)@),
            j <= index@.len(),
            forall|t: int| 0 <= t < j ==> index@[t].sku@ != sku@,
            forall|a: int, b: int| 0 <= a < b < before.len() ==> #[trigger] before[a].0 != #[trigger] before[b].0,
            forall|t: int| 0 <= t < before.len() ==> (#[trigger] before[t]).1.no_duplicates(),
        decreases index@.len() - j,
    {
        if same_text(index[j].sku.as_str(), sku.as_str()) {
            let mut e = index.remove(j);
            let ghost old_ids = e.invoice_ids@;
            assert(before[j as int].0 == sku@);
            assert(old_ids == before[j as int].1);
            if !contains_id(&e.invoice_ids, id) {
                e.invoice_ids.push(id);
                proof {
                    assert forall|a: int, b: int| 0 <= a < b < e.invoice_ids@.len() implies e.invoice_ids@[a]
                        != e.invoice_ids@[b] by {
                        if b == old_ids.len() {
                            assert(!old_ids.contains(id));
                            assert(old_ids[a] == e.invoice_ids@[a]);
                        } else {
                            assert(before[j as int].1.no_duplicates());
                        }
                    }
                }
            }
            assert(e.invoice_ids@.no_duplicates());
            index.insert(j, e);
            let ghost after = index_seq(index@);
            assert(after =~= before.update(j as int, (sku@, e.invoice_ids@)));
            assert forall|x: i64| e.invoice_ids@.contains(x) <==> (old_ids.contains(x) || x == id) by {
                if e.invoice_ids@.len() > old_ids.len() {
                    assert(e.invoice_ids@ == old_ids.push(id));
                    if old_ids.contains(x) {
                        let t = choose|t: int| 0 <= t < old_ids.len() && old_ids[t] == x;
                        assert(e.invoice_ids@[t] == x);
                    }
                    if x == id {
                        assert(e.invoice_ids@[old_ids.len() as int] == x);
                    }
                    if e.invoice_ids@.contains(x) {
                        let t = choose|t: int| 0 <= t < e.invoice_ids@.len() && e.invoice_ids@[t] == x;
                        if t < old_ids.len() {
                            assert(old_ids[t] == x);
                        }
                    }
                }
            }
            assert forall|s: Seq<char>, x: i64| #[trigger] indexed(after, s, x) <==> (indexed(before, s, x) || (s
                == sku@ && x == id)) by {
                if indexed(after, s, x) {
                    let t = choose|t: int| 0 <= t < after.len() && #[trigger] after[t].0 == s && after[t].1.contains(x);
                    if t != j {
                        assert(before[t].0 == s && before[t].1.contains(x));
                    } else if old_ids.contains(x) {
                        assert(before[j as int].0 == s && before[j as int].1.contains(x));
                    }
                }
                if indexed(before, s, x) {
                    let t = choose|t: int| 0 <= t < before.len() && #[trigger] before[t].0 == s && before[t].1.contains(x);
                    assert(after[t].0 == s && after[t].1.contains(x));
                }
                if s == sku@ && x == id {
                    assert(after[j as int].0 == s && after[j as int].1.contains(x));
                }
            }
            return;
        }
        j = j + 1;
    }
    let mut ids: Vec<i64> = Vec::new();
    ids.push(id);
    index.push(SkuInvoices { sku: sku.clone(), invoice_ids: ids });
    let ghost after = index_seq(index@);
    assert(after =~= before.push((sku@, seq![id])));
    assert forall|s: Seq<char>, x: i64| #[trigger] indexed(after, s, x) <==> (indexed(before, s, x) || (s
        == sku@ && x == id)) by {
        if indexed(after, s, x) {
            let t = choose|t: int| 0 <= t < after.len() && #[trigger] after[t].0 == s && after[t].1.contains(x);
            if t < before.len() {
                assert(before[t].0 == s && before[t].1.contains(x));
            } else {
                assert(after[t].1 == seq![id]);
                assert(after[t].1[0] == id);
            }
        }
        if indexed(before, s, x) {
            let t = choose|t: int| 0 <= t < before.len() && #[trigger] before[t].0 == s && before[t].1.contains(x);
            assert(after[t].0 == s && after[t].1.contains(x));
        }
        if s == sku@ && x == id {
            assert(after[before.len() as int].1[0] == id);
            assert(after[before.len() as int].0 == s && after[before.len() as int].1.contains(x));
        }
    }
}

/// Appends `st` to the items of its invoice, adding the invoice when new.
fn add_state(invoices: &mut Vec<InvoiceEntry>, st: InvoiceItemState)
    ensures
        has_invoice(inv_seq(old(invoices)@), st.invoice_id) ==> exists|p: int|
            0 <= p < inv_seq(old(invoices)@).len() && inv_seq(old(invoices)@)[p].0 == st.invoice_id
                && inv_seq(final(invoices)@) == inv_seq(old(invoices)@).update(
                p,
                (st.invoice_id, inv_seq(old(invoices)@)[p].1.push(st)),
            ),
        !has_invoice(inv_seq(old(invoices)@), st.invoice_id) ==> inv_seq(final(invoices)@) == inv_seq(
            old(invoices)@,
        ).push((st.invoice_id, seq![st])),
{
    let ghost before = inv_seq(invoices@);
    let ghost st0 = st;
    let id = st.invoice_id;
    let mut p: usize = 0;
    while p < invoices.len()
        invariant
            before == inv_seq(invoices@),
            before == inv_seq(old(invoices)@),
            st0 == st,
            id == st.invoice_id,
            p <= invoices@.len(),
            forall|t: int| 0 <= t < p ==> invoices@[t].invoice_id != id,
        decreases invoices@.len() - p,
    {
        if invoices[p].invoice_id == id {
            assert(before[p as int].0 == id);
            let mut e = invoices.remove(p);
            e.items.push(st);
            invoices.insert(p, e);
            assert(inv_seq(invoices@) =~= before.update(p as int, (id, before[p as int].1.push(st))));
            assert(has_invoice(before, id));
            assert(inv_seq(invoices@) == before.update(p as int, (st0.invoice_id, before[p as int].1.push(st0))));
            return;
        }
        p = p + 1;
    }
    assert(!has_invoice(before, id)) by {
        if has_invoice(before, id) {
            let t = choose|t: int| 0 <= t < before.len() && #[trigger] before[t].0 == id;
            assert(invoices@[t].invoice_id == id);
        }
    }
    let mut items: Vec<InvoiceItemState> = Vec::new();
    items.push(st);
    invoices.push(InvoiceEntry { invoice_id: id, items });
    assert(inv_seq(invoices@) =~= before.push((id, seq![st])));
    assert(items@ =~= seq![st]);
}

/// An invoice with its candidate items, as the store returns them.
#[derive(Clone, Debug)]
pub struct InvoiceWithItems {
    pub invoice_id: i64,
    pub items: Vec<InvoiceItemDetail>,
}

/// Whether candidate item `d` covers demand: it has a positive amount and
/// its product code has positive demand.
pub open spec fn covers(d: InvoiceItemDetail, reqs: Map<Seq<char>, int>) -> bool {
    d.amount@ > 0 && outstanding(reqs, d.product_code@) > 0
}

/// Number of covering items of `items`.
pub open spec fn coverage_count(items: Seq<InvoiceItemDetail>, reqs: Map<Seq<char>, int>) -> int
    decreases items.len(),
{
    if items.len() == 0 {
        0
    } else {
        coverage_count(items.drop_last(), reqs) + if covers(items.last(), reqs) {
            1int
        } else {
            0
        }
    }
}

/// Amount that the covering items of `items` can match, each up to the
/// demand of its code.
pub open spec fn coverage_amount(items: Seq<InvoiceItemDetail>, reqs: Map<Seq<char>, int>) -> int
    decreases items.len(),
{
    if items.len() == 0 {
        0
    } else {
        coverage_amount(items.drop_last(), reqs) + if covers(items.last(), reqs) {
            min_int(items.last().amount@, outstanding(reqs, items.last().product_code@))
        } else {
            0
        }
    }
}

proof fn lemma_coverage_amount_prefix(items: Seq<InvoiceItemDetail>, reqs: Map<Seq<char>, int>, k: int)
    requires
        0 <= k <= items.len(),
    ensures
        0 <= coverage_amount(items.subrange(0, k), reqs) <= coverage_amount(items, reqs),
    decreases items.len(),
{
    if items.len() > 0 {
        if k == items.len() {
            assert(items.subrange(0, k) =~= items);
            lemma_coverage_amount_prefix(items.drop_last(), reqs, k - 1);
            assert(items.drop_last().subrange(0, k - 1) =~= items.drop_last());
        } else {
            lemma_coverage_amount_prefix(items.drop_last(), reqs, k);
            assert(items.drop_last().subrange(0, k) =~= items.subrange(0, k));
        }
    } else {
        assert(items.subrange(0, k) =~= items);
    }
}

impl InvoiceWithItems {
    pub fn new(invoice_id: i64) -> (r: InvoiceWithItems)
        ensures
            r.invoice_id == invoice_id,
            r.items@.len() == 0,
    {
        InvoiceWithItems { invoice_id, items: Vec::new() }
    }

    pub fn add_item(&mut self, item: InvoiceItemDetail)
        ensures
            final(self).invoice_id == old(self).invoice_id,
            final(self).items@ == old(self).items@.push(item),
    {
        self.items.push(item);
    }

    /// How many of the invoice's items cover demand, held at the largest
    /// `i64`, and the amount they can match.
    pub fn calculate_coverage(&self, requirements: &MatchingRequirements) -> (r: (i64, Decimal))
        requires
            requirements.wf(),
            coverage_amount(self.items@, requirements@) <= i128::MAX,
        ensures
            r.0 == capped(coverage_count(self.items@, requirements@)),
            r.1@ == coverage_amount(self.items@, requirements@),
    {
        let ghost reqs = requirements@;
        let mut count: i64 = 0;
        let mut sum = Decimal::zero();
        let mut k: usize = 0;
        while k < self.items.len()
            invariant
                requirements.wf(),
                reqs == requirements@,
                coverage_amount(self.items@, reqs) <= i128::MAX,
                k <= self.items@.len(),
                0 <= coverage_count(self.items@.subrange(0, k as int), reqs),
                count == capped(coverage_count(self.items@.subrange(0, k as int), reqs)),
                sum@ == coverage_amount(self.items@.subrange(0, k as int), reqs),
            decreases self.items@.len() - k,
        {
            assert(self.items@.subrange(0, k + 1).drop_last() =~= self.items@.subrange(0, k as int));
            proof {
                lemma_coverage_amount_prefix(self.items@, reqs, k + 1);
            }
            let item = &self.items[k];
            if let Some(required) = requirements.get_remaining(item.product_code.as_str()) {
                if item.amount.is_positive() {
                    count = add_capped(count, 1);
                    sum = sum.add(item.amount.min(required));
                }
            }
            k = k + 1;
        }
        assert(self.items@.subrange(0, k as int) =~= self.items@);
        (count, sum)
    }
}

/// The candidate invoices of one bill with their remaining amounts, the
/// inverted index from product code to invoices, the invoices consumed from,
/// and the lazy heap of invoice scores.
pub struct InvoiceScoringContext {
    invoices: Vec<InvoiceEntry>,
    sku_invoice_index: Vec<SkuInvoices>,
    used_invoices: Vec<i64>,
    heap: Vec<InvoiceScore>,
}

impl InvoiceScoringContext {
    /// Invoices in order of first appearance, each with its item states.
    pub closed spec fn invoices_view(&self) -> Seq<(i64, Seq<InvoiceItemState>)> {
        inv_seq(self.invoices@)
    }

    /// Product codes with the distinct invoices that carry each.
    pub closed spec fn index_view(&self) -> Seq<(Seq<char>, Seq<i64>)> {
        index_seq(self.sku_invoice_index@)
    }

    /// The invoices consumed from, in order of first use.
    pub closed spec fn used_view(&self) -> Seq<i64> {
        self.used_invoices@
    }

    /// The heap entries.
    pub closed spec fn heap_view(&self) -> Seq<InvoiceScore> {
        self.heap@
    }

    pub open spec fn wf(&self) -> bool {
        context_wf(self.invoices_view(), self.index_view(), self.used_view())
    }

    /// Whether the heap covers every invoice for the demand `reqs`, but
    /// perhaps `skip`.
    pub open spec fn heap_ready(&self, reqs: Map<Seq<char>, int>, skip: Option<i64>) -> bool {
        heap_covers(self.invoices_view(), self.index_view(), self.heap_view(), reqs, skip)
    }

    /// Current score of invoice position `p`.
    pub open spec fn score_at(&self, p: int, reqs: Map<Seq<char>, int>) -> int {
        invoice_score(self.invoices_view()[p].1, reqs, self.index_view())
    }

    pub fn new() -> (r: InvoiceScoringContext)
        ensures
            r.wf(),
            r.invoices_view().len() == 0,
            r.index_view().len() == 0,
            r.used_view().len() == 0,
            r.heap_view().len() == 0,
    {
        let r = InvoiceScoringContext {
            invoices: Vec::new(),
            sku_invoice_index: Vec::new(),
            used_invoices: Vec::new(),
            heap: Vec::new(),
        };
        assert(r.invoices_view() =~= Seq::empty());
        assert(r.index_view() =~= Seq::empty());
        r
    }

    /// Position of invoice `id`.
    pub(crate) fn position(&self, id: i64) -> (r: Option<usize>)
        ensures
            match r {
                Some(p) => p < self.invoices_view().len() && self.invoices_view()[p as int].0 == id,
                None => !has_invoice(self.invoices_view(), id),
            },
    {
        let mut p: usize = 0;
        while p < self.invoices.len()
            invariant
                p <= self.invoices@.len(),
                forall|q: int| 0 <= q < p ==> self.invoices_view()[q].0 != id,
            decreases self.invoices@.len() - p,
        {
            if self.invoices[p].invoice_id == id {
                return Some(p);
            }
            p = p + 1;
        }
        None
    }

    /// Number of invoices in the index that carry `sku`.
    fn frequency(&self, sku: &str) -> (r: usize)
        ensures
            r == freq_in(self.index_view(), sku@),
    {
        let ghost index = self.index_view();
        let mut j: usize = 0;
        assert(index.subrange(0, index.len() as int) =~= index);
        while j < self.sku_invoice_index.len()
            invariant
                index == self.index_view(),
                j <= index.len(),
                freq_in(index, sku@) == freq_in(index.subrange(j as int, index.len() as int), sku@),
            decreases index.len() - j,
        {
            let ghost rest = index.subrange(j as int, index.len() as int);
            assert(rest.drop_first() =~= index.subrange(j + 1, index.len() as int));
            if same_text(self.sku_invoice_index[j].sku.as_str(), sku) {
                return self.sku_invoice_index[j].invoice_ids.len();
            }
            j = j + 1;
        }
        0
    }

    /// Score and SKU count of invoice `invoice_id` against `requirements`;
    /// `(0, 0)` for an unknown invoice.
    fn calculate_score_int(&self, invoice_id: i64, requirements: &MatchingRequirements) -> (r: (
        i64,
        i64,
    ))
        requires
            self.wf(),
            requirements.wf(),
        ensures
            match self.position_spec(invoice_id) {
                Some(p) => r.0 == invoice_score(self.invoices_view()[p].1, requirements@, self.index_view())
                    && r.1 == capped(raw_count(self.invoices_view()[p].1, requirements@)),
                None => r == (0i64, 0i64),
            },
            r.0 >= 0,
    {
        let p = match self.position(invoice_id) {
            Some(p) => p,
            None => return (0, 0),
        };
        let ghost index = self.index_view();
        let ghost reqs = requirements@;
        let items = &self.invoices[p].items;
        let mut score: i64 = 0;
        let mut count: i64 = 0;
        let mut k: usize = 0;
        while k < items.len()
            invariant
                p < self.invoices_view().len(),
                items@ == self.invoices_view()[p as int].1,
                index == self.index_view(),
                reqs == requirements@,
                requirements.wf(),
                k <= items@.len(),
                0 <= raw_score(items@.subrange(0, k as int), reqs, index),
                0 <= raw_count(items@.subrange(0, k as int), reqs),
                score == capped(raw_score(items@.subrange(0, k as int), reqs, index)),
                count == capped(raw_count(items@.subrange(0, k as int), reqs)),
            decreases items@.len() - k,
        {
            let ghost prev = items@.subrange(0, k as int);
            assert(items@.subrange(0, k + 1).drop_last() =~= prev);
            let it = &items[k];
            if it.remaining_amount.is_positive() {
                match requirements.get_remaining(it.product_code.as_str()) {
                    Some(required) => {
                        count = add_capped(count, 1);
                        let available = it.remaining_amount.min(required);
                        let cents = available.to_cents();
                        proof {
                            vstd::arithmetic::div_mod::lemma_div_pos_is_pos(available@, 1_000_000);
                        }
                        let whole: i64 = if cents > i64::MAX as i128 {
                            i64::MAX
                        } else {
                            cents as i64
                        };
                        score = add_capped(score, whole);
                        let freq = self.frequency(it.product_code.as_str());
                        if freq > 0 {
                            let extra: i64 = (1000 / freq) as i64;
                            score = add_capped(score, extra);
                        }
                    },
                    None => {},
                }
            }
            k = k + 1;
        }
        assert(items@.subrange(0, items@.len() as int) =~= items@);
        assert(has_invoice(self.invoices_view(), invoice_id));
        let ghost q = self.position_spec(invoice_id).unwrap();
        assert(q == p);
        (score, count)
    }

    /// Builds the context from candidate items: each item with a non-empty
    /// trimmed product code becomes a state whose remaining amount is its
    /// amount, appended to its invoice's list, and its invoice is listed
    /// under its code in the index.
    pub fn from_items(items: Vec<InvoiceItemDetail>) -> (r: InvoiceScoringContext)
        ensures
            r.wf(),
            r.heap_view().len() == 0,
            r.used_view().len() == 0,
            items@.len() == 0 ==> r.invoices_view().len() == 0,
            pairs_distinct(items@) ==> item_ids_distinct(r.invoices_view()),
            forall|p: int|
                0 <= p < r.invoices_view().len() ==> group_matches(
                    (#[trigger] r.invoices_view()[p]).1,
                    kept_of(items@, r.invoices_view()[p].0),
                ),
            forall|id: i64| #[trigger] has_invoice(r.invoices_view(), id) <==> kept_of(items@, id).len() > 0,
            forall|p: int, k: int|
                0 <= p < r.invoices_view().len() && 0 <= k < r.invoices_view()[p].1.len() ==> comes_from(
                    #[trigger] r.invoices_view()[p].1[k],
                    items@,
                ),
            forall|p: int, k: int|
                0 <= p < r.invoices_view().len() && 0 <= k < r.invoices_view()[p].1.len() ==> fresh(
                    #[trigger] r.invoices_view()[p].1[k],
                ),
            forall|i: int|
                0 <= i < items@.len() && kept(#[trigger] items@[i]) ==> has_invoice(
                    r.invoices_view(),
                    items@[i].invoice_id,
                ),
            forall|s: Seq<char>, x: i64|
                #[trigger] indexed(r.index_view(), s, x) <==> exists|i: int|
                    0 <= i < items@.len() && kept(#[trigger] items@[i]) && trimmed(items@[i].product_code@)
                        == s && items@[i].invoice_id == x,
    {
        let mut invoices: Vec<InvoiceEntry> = Vec::new();
        let mut index: Vec<SkuInvoices> = Vec::new();
        let mut k: usize = 0;
        let ghost mut origin: Seq<Seq<int>> = Seq::empty();
        assert(inv_seq(invoices@) =~= Seq::empty());
        assert(index_seq(index@) =~= Seq::empty());
        while k < items.len()
            invariant
                k <= items@.len(),
                inv_seq(invoices@).len() <= k,
                forall|p: int|
                    0 <= p < inv_seq(invoices@).len() ==> group_matches(
                        (#[trigger] inv_seq(invoices@)[p]).1,
                        kept_of(items@.subrange(0, k as int), inv_seq(invoices@)[p].0),
                    ),
                forall|id: i64|
                    #[trigger] has_invoice(inv_seq(invoices@), id) <==> kept_of(items@.subrange(0, k as int), id).len()
                        > 0,
                origin.len() == inv_seq(invoices@).len(),
                forall|p: int| 0 <= p < origin.len() ==> (#[trigger] origin[p]).len() == inv_seq(invoices@)[p].1.len(),
                forall|p: int, q: int|
                    0 <= p < origin.len() && 0 <= q < origin[p].len() ==> {
                        &&& 0 <= #[trigger] origin[p][q] < k
                        &&& kept(items@[origin[p][q]])
                        &&& state_from(inv_seq(invoices@)[p].1[q], items@[origin[p][q]])
                    },
                forall|p: int, q: int, t: int|
                    0 <= p < origin.len() && 0 <= q < t < origin[p].len() ==> #[trigger] origin[p][q]
                        != #[trigger] origin[p][t],
                context_wf(inv_seq(invoices@), index_seq(index@), Seq::empty()),
                forall|p: int, q: int|
                    0 <= p < inv_seq(invoices@).len() && 0 <= q < inv_seq(invoices@)[p].1.len() ==> fresh(
                        #[trigger] inv_seq(invoices@)[p].1[q],
                    ),
                forall|i: int|
                    0 <= i < k && kept(#[trigger] items@[i]) ==> has_invoice(
                        inv_seq(invoices@),
                        items@[i].invoice_id,
                    ),
                forall|s: Seq<char>, x: i64|
                    #[trigger] indexed(index_seq(index@), s, x) <==> exists|i: int|
                        0 <= i < k && kept(#[trigger] items@[i]) && trimmed(items@[i].product_code@) == s
                            && items@[i].invoice_id == x,
            decreases items@.len() - k,
        {
            let d = &items[k];
            let sku = trim_code(d.product_code.as_str());
            if sku.unicode_len() > 0 {
                let ghost inv_before = inv_seq(invoices@);
                let ghost idx_before = index_seq(index@);
                add_to_index(&mut index, &sku, d.invoice_id);
                let st = InvoiceItemState {
                    invoice_id: d.invoice_id,
                    item_id: d.item_id,
                    product_code: sku,
                    quantity: d.quantity,
                    original_amount: d.amount,
                    remaining_amount: d.amount,
                    unit_price: d.unit_price,
                };
                let ghost st0 = st;
                add_state(&mut invoices, st);
                let ghost inv_after = inv_seq(invoices@);
                proof {
                    let pre = items@.subrange(0, k as int);
                    let nxt = items@.subrange(0, k + 1);
                    assert(nxt.drop_last() =~= pre);
                    assert(nxt.last() == items@[k as int]);
                    assert(kept(items@[k as int]));
                    assert forall|id: i64| id != st0.invoice_id implies #[trigger] kept_of(nxt, id) == kept_of(pre, id) by {}
                    assert(kept_of(nxt, st0.invoice_id) == kept_of(pre, st0.invoice_id).push(items@[k as int]));
                    if has_invoice(inv_before, st0.invoice_id) {
                        let q0 = choose|p: int|
                            0 <= p < inv_before.len() && inv_before[p].0 == st0.invoice_id && inv_after
                                == inv_before.update(p, (st0.invoice_id, inv_before[p].1.push(st0)));
                        assert forall|p: int| 0 <= p < inv_after.len() implies group_matches(
                            (#[trigger] inv_after[p]).1,
                            kept_of(nxt, inv_after[p].0),
                        ) by {
                            if p == q0 {
                                let g = inv_before[p].1;
                                let ds = kept_of(pre, st0.invoice_id);
                                assert(group_matches(g, ds));
                                assert forall|t: int| 0 <= t < inv_after[p].1.len() implies state_from(
                                    #[trigger] inv_after[p].1[t],
                                    kept_of(nxt, inv_after[p].0)[t],
                                ) by {
                                    if t < g.len() {
                                        assert(inv_after[p].1[t] == g[t]);
                                    }
                                }
                            } else {
                                assert(inv_after[p] == inv_before[p]);
                                if inv_before[p].0 == st0.invoice_id {
                                    if p < q0 {
                                        assert(inv_before[p].0 != inv_before[q0].0);
                                    } else {
                                        assert(inv_before[q0].0 != inv_before[p].0);
                                    }
                                }
                            }
                        }
                        assert forall|id: i64| #[trigger] has_invoice(inv_after, id) <==> kept_of(nxt, id).len() > 0 by {
                            if has_invoice(inv_before, id) {
                                let t = choose|t: int| 0 <= t < inv_before.len() && #[trigger] inv_before[t].0 == id;
                                assert(inv_after[t].0 == id);
                            }
                            if has_invoice(inv_after, id) {
                                let t = choose|t: int| 0 <= t < inv_after.len() && #[trigger] inv_after[t].0 == id;
                                assert(inv_before[t].0 == id);
                            }
                        }
                    } else {
                        assert(kept_of(pre, st0.invoice_id).len() == 0);
                        assert forall|p: int| 0 <= p < inv_after.len() implies group_matches(
                            (#[trigger] inv_after[p]).1,
                            kept_of(nxt, inv_after[p].0),
                        ) by {
                            if p == inv_before.len() {
                                assert(inv_after[p].1 == seq![st0]);
                                assert(kept_of(nxt, st0.invoice_id) =~= seq![items@[k as int]]);
                            } else {
                                assert(inv_after[p] == inv_before[p]);
                                assert(inv_before[p].0 != st0.invoice_id);
                            }
                        }
                        assert forall|id: i64| #[trigger] has_invoice(inv_after, id) <==> kept_of(nxt, id).len() > 0 by {
                            if has_invoice(inv_before, id) {
                                let t = choose|t: int| 0 <= t < inv_before.len() && #[trigger] inv_before[t].0 == id;
                                assert(inv_after[t].0 == id);
                            }
                            if id == st0.invoice_id {
                                assert(inv_after[inv_before.len() as int].0 == id);
                            }
                            if has_invoice(inv_after, id) {
                                let t = choose|t: int| 0 <= t < inv_after.len() && #[trigger] inv_after[t].0 == id;
                                if t < inv_before.len() {
                                    assert(inv_before[t].0 == id);
                                }
                            }
                        }
                    }
                }
                proof {
                    if has_invoice(inv_before, st0.invoice_id) {
                        let p0 = choose|p: int|
                            0 <= p < inv_before.len() && inv_before[p].0 == st0.invoice_id && inv_after
                                == inv_before.update(p, (st0.invoice_id, inv_before[p].1.push(st0)));
                        let o0 = origin;
                        origin = o0.update(p0, o0[p0].push(k as int));
                        assert forall|p: int, q: int|
                            0 <= p < origin.len() && 0 <= q < origin[p].len() implies {
                                &&& 0 <= #[trigger] origin[p][q] < k + 1
                                &&& kept(items@[origin[p][q]])
                                &&& state_from(inv_after[p].1[q], items@[origin[p][q]])
                            } by {
                            if p == p0 && q == o0[p0].len() {
                                assert(inv_after[p].1[q] == st0);
                            } else {
                                assert(origin[p][q] == o0[p][q]);
                                assert(inv_after[p].1[q] == inv_before[p].1[q]);
                            }
                        }
                        assert forall|p: int, q: int, t: int|
                            0 <= p < origin.len() && 0 <= q < t < origin[p].len() implies #[trigger] origin[p][q]
                                != #[trigger] origin[p][t] by {
                            if p == p0 && t == o0[p0].len() {
                                assert(origin[p][q] == o0[p][q]);
                            } else {
                                assert(origin[p][q] == o0[p][q]);
                                assert(origin[p][t] == o0[p][t]);
                            }
                        }
                        assert forall|p: int, q: int|
                            0 <= p < inv_after.len() && 0 <= q < inv_after[p].1.len() implies fresh(
                            #[trigger] inv_after[p].1[q]) by {
                            if inv_after[p].1[q] != st0 {
                                assert(inv_after[p].1[q] == inv_before[p].1[q]);
                            }
                        }
                        assert forall|p: int, q: int|
                            0 <= p < inv_after.len() && 0 <= q < inv_after[p].1.len() implies (
                            #[trigger] inv_after[p].1[q]).invoice_id == inv_after[p].0 && state_ok(
                                inv_after[p].1[q]) by {
                            if p == p0 && q == inv_before[p].1.len() {
                                assert(inv_after[p].1[q] == st0);
                            } else {
                                assert(inv_after[p].1[q] == inv_before[p].1[q]);
                            }
                        }
                        assert forall|i: int|
                            0 <= i < k + 1 && kept(#[trigger] items@[i]) implies has_invoice(
                            inv_after,
                            items@[i].invoice_id,
                        ) by {
                            if i < k {
                                let t = choose|t: int| 0 <= t < inv_before.len() && #[trigger] inv_before[t].0 == items@[i].invoice_id;
                                assert(inv_after[t].0 == items@[i].invoice_id);
                            } else {
                                assert(inv_after[p0].0 == items@[i].invoice_id);
                            }
                        }
                    } else {
                        assert(inv_after == inv_before.push((st0.invoice_id, seq![st0])));
                        let o0 = origin;
                        origin = o0.push(seq![k as int]);
                        assert forall|p: int, q: int|
                            0 <= p < origin.len() && 0 <= q < origin[p].len() implies {
                                &&& 0 <= #[trigger] origin[p][q] < k + 1
                                &&& kept(items@[origin[p][q]])
                                &&& state_from(inv_after[p].1[q], items@[origin[p][q]])
                            } by {
                            if p == o0.len() {
                                assert(inv_after[p].1 == seq![st0]);
                                assert(inv_after[p].1[q] == st0);
                            } else {
                                assert(origin[p] == o0[p]);
                                assert(inv_after[p].1[q] == inv_before[p].1[q]);
                            }
                        }
                        assert forall|p: int, q: int, t: int|
                            0 <= p < origin.len() && 0 <= q < t < origin[p].len() implies #[trigger] origin[p][q]
                                != #[trigger] origin[p][t] by {
                            assert(origin[p] == o0[p]);
                        }
                        assert forall|p: int, q: int|
                            0 <= p < inv_after.len() && 0 <= q < inv_after[p].1.len() implies fresh(
                            #[trigger] inv_after[p].1[q]) by {
                            if inv_after[p].1[q] != st0 {
                                assert(inv_after[p].1[q] == inv_before[p].1[q]);
                            }
                        }
                        assert forall|p: int, q: int|
                            0 <= p < inv_after.len() && 0 <= q < inv_after[p].1.len() implies (
                            #[trigger] inv_after[p].1[q]).invoice_id == inv_after[p].0 && state_ok(
                                inv_after[p].1[q]) by {
                            if p == inv_before.len() {
                                assert(inv_after[p].1 == seq![st0]);
                                assert(inv_after[p].1[q] == st0);
                            } else {
                                assert(inv_after[p].1[q] == inv_before[p].1[q]);
                            }
                        }
                        assert forall|p: int, q: int| 0 <= p < q < inv_after.len() implies #[trigger] inv_after[p].0
                            != #[trigger] inv_after[q].0 by {
                            if q == inv_before.len() {
                                assert(inv_before[p].0 != st0.invoice_id);
                            }
                        }
                        assert forall|i: int|
                            0 <= i < k + 1 && kept(#[trigger] items@[i]) implies has_invoice(
                            inv_after,
                            items@[i].invoice_id,
                        ) by {
                            if i < k {
                                let t = choose|t: int| 0 <= t < inv_before.len() && #[trigger] inv_before[t].0 == items@[i].invoice_id;
                                assert(inv_after[t].0 == items@[i].invoice_id);
                            } else {
                                assert(inv_after[inv_before.len() as int].0 == items@[i].invoice_id);
                            }
                        }
                    }
                    assert forall|s: Seq<char>, x: i64|
                        #[trigger] indexed(index_seq(index@), s, x) <==> exists|i: int|
                            0 <= i < k + 1 && kept(#[trigger] items@[i]) && trimmed(items@[i].product_code@) == s
                                && items@[i].invoice_id == x by {
                        if indexed(idx_before, s, x) {
                            let i = choose|i: int|
                                0 <= i < k && kept(#[trigger] items@[i]) && trimmed(items@[i].product_code@) == s
                                    && items@[i].invoice_id == x;
                        }
                        if exists|i: int|
                            0 <= i < k + 1 && kept(#[trigger] items@[i]) && trimmed(items@[i].product_code@) == s
                                && items@[i].invoice_id == x {
                            let i = choose|i: int|
                                0 <= i < k + 1 && kept(#[trigger] items@[i]) && trimmed(items@[i].product_code@) == s
                                    && items@[i].invoice_id == x;
                            if i < k {
                                assert(indexed(idx_before, s, x));
                            }
                        }
                    }
                }
            } else {
                proof {
                    let pre = items@.subrange(0, k as int);
                    let nxt = items@.subrange(0, k + 1);
                    assert(nxt.drop_last() =~= pre);
                    assert(!kept(nxt.last()));
                    assert forall|id: i64| #[trigger] kept_of(nxt, id) == kept_of(pre, id) by {}
                    assert forall|s: Seq<char>, x: i64|
                        #[trigger] indexed(index_seq(index@), s, x) <==> exists|i: int|
                            0 <= i < k + 1 && kept(#[trigger] items@[i]) && trimmed(items@[i].product_code@) == s
                                && items@[i].invoice_id == x by {
                        if exists|i: int|
                            0 <= i < k + 1 && kept(#[trigger] items@[i]) && trimmed(items@[i].product_code@) == s
                                && items@[i].invoice_id == x {
                            let i = choose|i: int|
                                0 <= i < k + 1 && kept(#[trigger] items@[i]) && trimmed(items@[i].product_code@) == s
                                    && items@[i].invoice_id == x;
                            assert(i < k);
                        }
                    }
                }
            }
            k = k + 1;
        }
        proof {
            let invs = inv_seq(invoices@);
            if pairs_distinct(items@) {
                assert forall|p: int, q: int, t: int|
                    0 <= p < invs.len() && 0 <= q < t < invs[p].1.len() implies #[trigger] invs[p].1[q].item_id
                        != #[trigger] invs[p].1[t].item_id by {
                    let a = origin[p][q];
                    let b = origin[p][t];
                    assert(a != b);
                    assert(invs[p].1[q].invoice_id == invs[p].0 && invs[p].1[t].invoice_id == invs[p].0);
                    if a < b {
                        assert(kept(items@[a]) && kept(items@[b]));
                    } else {
                        assert(kept(items@[b]) && kept(items@[a]));
                    }
                }
            }
        }
        assert(items@.subrange(0, k as int) =~= items@);
        let r = InvoiceScoringContext {
            invoices,
            sku_invoice_index: index,
            used_invoices: Vec::new(),
            heap: Vec::new(),
        };
        proof {
            let invs = r.invoices_view();
            assert forall|p: int, q: int|
                0 <= p < invs.len() && 0 <= q < invs[p].1.len() implies comes_from(
                #[trigger] r.invoices_view()[p].1[q],
                items@,
            ) by {
                let i = origin[p][q];
                assert(kept(items@[i]) && state_from(r.invoices_view()[p].1[q], items@[i]));
            }
        }
        r
    }

    /// Every invoice with a positive score gets a heap entry with that
    /// score. An invoice scores positive only if it carries a SKU that is
    /// still required, so these are exactly the candidates of the index.
    pub fn init_heap(&mut self, requirements: &MatchingRequirements)
        requires
            old(self).wf(),
            requirements.wf(),
        ensures
            final(self).wf(),
            final(self).invoices_view() == old(self).invoices_view(),
            final(self).index_view() == old(self).index_view(),
            final(self).used_view() == old(self).used_view(),
            final(self).heap_ready(requirements@, None),
            final(self).heap_view() == heap_of(final(self).invoices_view(), requirements@, final(self).index_view()),
            heap_ids_distinct(final(self).heap_view()),
            forall|j: int| 0 <= j < final(self).heap_view().len() ==> has_invoice(
                final(self).invoices_view(),
                (#[trigger] final(self).heap_view()[j]).invoice_id,
            ),
    {
        self.heap.clear();
        let ghost invs = self.invoices_view();
        let ghost index = self.index_view();
        let ghost reqs = requirements@;
        let mut p: usize = 0;
        while p < self.invoices.len()
            invariant
                self.wf(),
                requirements.wf(),
                invs == self.invoices_view(),
                index == self.index_view(),
                reqs == requirements@,
                self.used_view() == old(self).used_view(),
                p <= invs.len(),
                self.heap@ == heap_of(invs.subrange(0, p as int), reqs, index),
                heap_ids_distinct(self.heap@),
                forall|j: int| 0 <= j < self.heap@.len() ==> has_invoice(invs.subrange(0, p as int), (#[trigger] self.heap@[j]).invoice_id),
                forall|j: int| 0 <= j < self.heap@.len() ==> #[trigger] self.heap@[j].score > 0,
                forall|j: int| 0 <= j < self.heap@.len() ==> has_invoice(invs, (#[trigger] self.heap@[j]).invoice_id),
                forall|q: int|
                    0 <= q < p && invoice_score(#[trigger] invs[q].1, reqs, index) > 0 ==> exists|j: int|
                        0 <= j < self.heap@.len() && self.heap@[j].invoice_id == invs[q].0
                            && #[trigger] self.heap@[j].score >= invoice_score(invs[q].1, reqs, index),
            decreases invs.len() - p,
        {
            let invoice_id = self.invoices[p].invoice_id;
            assert(invs[p as int].0 == invoice_id);
            let (score, sku_count) = self.calculate_score_int(invoice_id, requirements);
            proof {
                assert(has_invoice(invs, invoice_id));
                let q = self.position_spec(invoice_id).unwrap();
                assert(q == p);
            }
            let ghost before = self.heap@;
            assert(invs.subrange(0, p + 1).drop_last() =~= invs.subrange(0, p as int));
            if score > 0 {
                self.heap.push(InvoiceScore { invoice_id, score, sku_count });
                proof {
                    assert forall|q: int|
                        0 <= q < p + 1 && invoice_score(#[trigger] invs[q].1, reqs, index) > 0 implies exists|j: int|
                        0 <= j < self.heap@.len() && self.heap@[j].invoice_id == invs[q].0
                            && #[trigger] self.heap@[j].score >= invoice_score(invs[q].1, reqs, index) by {
                        if q == p {
                            assert(self.heap@[before.len() as int].score >= invoice_score(invs[q].1, reqs, index));
                        } else {
                            let j = choose|j: int|
                                0 <= j < before.len() && before[j].invoice_id == invs[q].0
                                    && #[trigger] before[j].score >= invoice_score(invs[q].1, reqs, index);
                            assert(self.heap@[j] == before[j]);
                        }
                    }
                    assert forall|j: int| 0 <= j < self.heap@.len() implies has_invoice(invs, (#[trigger] self.heap@[j]).invoice_id) by {
                        if j < before.len() {
                            assert(self.heap@[j] == before[j]);
                        }
                    }
                    assert forall|j: int| 0 <= j < self.heap@.len() implies has_invoice(
                        invs.subrange(0, p + 1),
                        (#[trigger] self.heap@[j]).invoice_id,
                    ) by {
                        if j < before.len() {
                            assert(self.heap@[j] == before[j]);
                            let t = choose|t: int| 0 <= t < p && #[trigger] invs.subrange(0, p as int)[t].0 == before[j].invoice_id;
                            assert(invs.subrange(0, p + 1)[t].0 == before[j].invoice_id);
                        } else {
                            assert(invs.subrange(0, p + 1)[p as int].0 == invoice_id);
                        }
                    }
                    assert forall|a: int, b: int| 0 <= a < b < self.heap@.len() implies #[trigger] self.heap@[a].invoice_id
                        != #[trigger] self.heap@[b].invoice_id by {
                        if b == before.len() {
                            assert(self.heap@[a] == before[a]);
                            let t = choose|t: int| 0 <= t < p && #[trigger] invs.subrange(0, p as int)[t].0 == before[a].invoice_id;
                            assert(invs[t].0 != invs[p as int].0);
                        } else {
                            assert(self.heap@[a] == before[a] && self.heap@[b] == before[b]);
                        }
                    }
                }
            }
            proof {
                if score <= 0 {
                    assert forall|j: int| 0 <= j < self.heap@.len() implies has_invoice(
                        invs.subrange(0, p + 1),
                        (#[trigger] self.heap@[j]).invoice_id,
                    ) by {
                        let t = choose|t: int| 0 <= t < p && #[trigger] invs.subrange(0, p as int)[t].0 == self.heap@[j].invoice_id;
                        assert(invs.subrange(0, p + 1)[t].0 == self.heap@[j].invoice_id);
                    }
                }
            }
            p = p + 1;
        }
        assert(invs.subrange(0, p as int) =~= invs);
    }

    /// Position of an entry that ranks highest in the heap.
    fn top_index(&self) -> (r: usize)
        requires
            self.heap@.len() > 0,
        ensures
            r < self.heap@.len(),
            forall|j: int| 0 <= j < self.heap@.len() ==> ranks_at_least(self.heap@[r as int], #[trigger] self.heap@[j]),
    {
        let mut best: usize = 0;
        let mut j: usize = 1;
        while j < self.heap.len()
            invariant
                self.heap@.len() > 0,
                best < self.heap@.len(),
                1 <= j <= self.heap@.len(),
                forall|t: int| 0 <= t < j ==> ranks_at_least(self.heap@[best as int], #[trigger] self.heap@[t]),
            decreases self.heap@.len() - j,
        {
            let a = self.heap[j];
            let b = self.heap[best];
            if a.score > b.score || (a.score == b.score && a.sku_count > b.sku_count) {
                best = j;
            }
            j = j + 1;
        }
        best
    }

    /// Lazy greedy choice: pops the top entry and re-scores its invoice; it
    /// wins if the heap is then empty or its fresh score is at least the new
    /// top's stored score, and goes back with its fresh score otherwise.
    /// Entries that no longer score are dropped. The winner has the highest
    /// current score of all invoices; `None` means that no invoice scores.
    pub fn find_best_invoice_lazy(&mut self, requirements: &MatchingRequirements) -> (r: Option<i64>)
        requires
            old(self).wf(),
            requirements.wf(),
            old(self).heap_ready(requirements@, None),
            heap_ids_distinct(old(self).heap_view()),
        ensures
            final(self).wf(),
            heap_ids_distinct(final(self).heap_view()),
            final(self).heap_view().len() <= old(self).heap_view().len(),
            forall|j: int|
                0 <= j < final(self).heap_view().len() ==> old(self).heap_view().contains(
                    #[trigger] final(self).heap_view()[j],
                ) || is_current_entry(
                    final(self).heap_view()[j],
                    final(self).invoices_view(),
                    requirements@,
                    final(self).index_view(),
                ),
            r is None ==> final(self).heap_view().len() == 0,
            forall|j: int|
                0 <= j < final(self).heap_view().len() ==> r != Some(
                    (#[trigger] final(self).heap_view()[j]).invoice_id,
                ),
            final(self).invoices_view() == old(self).invoices_view(),
            final(self).index_view() == old(self).index_view(),
            final(self).used_view() == old(self).used_view(),
            final(self).heap_ready(requirements@, r),
            match r {
                Some(id) => exists|p: int|
                    0 <= p < final(self).invoices_view().len() && final(self).invoices_view()[p].0 == id
                        && final(self).score_at(p, requirements@) > 0 && forall|q: int|
                        0 <= q < final(self).invoices_view().len() ==> #[trigger] final(self).score_at(
                            q,
                            requirements@,
                        ) <= final(self).score_at(p, requirements@),
                None => forall|q: int|
                    0 <= q < final(self).invoices_view().len() ==> #[trigger] final(self).score_at(
                        q,
                        requirements@,
                    ) <= 0,
            },
    {
        let ghost invs = self.invoices_view();
        let ghost index = self.index_view();
        let ghost reqs = requirements@;
        proof {
            lemma_total_nonneg(self.heap@);
        }
        loop
            invariant
                score_total(self.heap@) >= 0,
                self.wf(),
                requirements.wf(),
                invs == self.invoices_view(),
                index == self.index_view(),
                reqs == requirements@,
                invs == old(self).invoices_view(),
                index == old(self).index_view(),
                self.used_view() == old(self).used_view(),
                self.heap_ready(reqs, None),
                heap_ids_distinct(self.heap@),
                self.heap@.len() <= old(self).heap_view().len(),
                forall|j: int|
                    0 <= j < self.heap@.len() ==> old(self).heap_view().contains(#[trigger] self.heap@[j])
                        || is_current_entry(self.heap@[j], invs, reqs, index),
            decreases score_total(self.heap@),
        {
            if self.heap.len() == 0 {
                return None;
            }
            let t_idx = self.top_index();
            let ghost h0 = self.heap@;
            let top = self.heap.remove(t_idx);
            proof {
                lemma_total_remove(h0, t_idx as int);
            }
            assert(top.score > 0);
            let (score, sku_count) = self.calculate_score_int(top.invoice_id, requirements);
            let ghost h1 = self.heap@;
            assert(h1 == h0.remove(t_idx as int));
            assert forall|j: int| 0 <= j < h1.len() implies h1[j].invoice_id != top.invoice_id && (old(
                self,
            ).heap_view().contains(#[trigger] h1[j]) || is_current_entry(h1[j], invs, reqs, index)) by {
                if j < t_idx {
                    assert(h1[j] == h0[j]);
                    assert(h0[j].invoice_id != h0[t_idx as int].invoice_id);
                } else {
                    assert(h1[j] == h0[j + 1]);
                    assert(h0[t_idx as int].invoice_id != h0[j + 1].invoice_id);
                }
            }
            assert(heap_ids_distinct(h1)) by {
                assert forall|a: int, b: int| 0 <= a < b < h1.len() implies #[trigger] h1[a].invoice_id
                    != #[trigger] h1[b].invoice_id by {
                    let a0 = if a < t_idx { a } else { a + 1 };
                    let b0 = if b < t_idx { b } else { b + 1 };
                    assert(h1[a] == h0[a0] && h1[b] == h0[b0]);
                }
            }
            // every invoice but the popped one keeps its covering entry
            assert forall|p: int|
                0 <= p < invs.len() && invoice_score(#[trigger] invs[p].1, reqs, index) > 0 && invs[p].0
                    != top.invoice_id implies exists|j: int|
                0 <= j < h1.len() && h1[j].invoice_id == invs[p].0 && #[trigger] h1[j].score
                    >= invoice_score(invs[p].1, reqs, index) by {
                let j = choose|j: int|
                    0 <= j < h0.len() && h0[j].invoice_id == invs[p].0 && #[trigger] h0[j].score
                        >= invoice_score(invs[p].1, reqs, index);
                assert(j != t_idx);
                if j < t_idx {
                    assert(h1[j] == h0[j]);
                } else {
                    assert(h1[j - 1] == h0[j]);
                }
            }
            assert forall|j: int| 0 <= j < h1.len() implies #[trigger] h1[j].score > 0 by {
                if j < t_idx {
                    assert(h1[j] == h0[j]);
                } else {
                    assert(h1[j] == h0[j + 1]);
                }
            }
            // the popped invoice's fresh score
            proof {
                if has_invoice(invs, top.invoice_id) {
                    let q = self.position_spec(top.invoice_id).unwrap();
                    assert forall|p: int| 0 <= p < invs.len() && invs[p].0 == top.invoice_id implies p == q by {
                        if p != q {
                            if p < q {
                                assert(invs[p].0 != invs[q].0);
                            } else {
                                assert(invs[q].0 != invs[p].0);
                            }
                        }
                    }
                }
            }
            if self.heap.len() == 0 {
                if score > 0 {
                    proof {
                        let q = self.position_spec(top.invoice_id).unwrap();
                        assert forall|p: int| 0 <= p < invs.len() implies #[trigger] self.score_at(p, reqs)
                            <= self.score_at(q, reqs) by {
                            if invs[p].0 != top.invoice_id && invoice_score(invs[p].1, reqs, index) > 0 {
                                let j = choose|j: int|
                                    0 <= j < h1.len() && h1[j].invoice_id == invs[p].0 && #[trigger] h1[j].score
                                        >= invoice_score(invs[p].1, reqs, index);
                            }
                        }
                    }
                    return Some(top.invoice_id);
                }
            } else {
                let u_idx = self.top_index();
                let second = self.heap[u_idx];
                if score >= second.score {
                    if score > 0 {
                        proof {
                            let q = self.position_spec(top.invoice_id).unwrap();
                            assert forall|p: int| 0 <= p < invs.len() implies #[trigger] self.score_at(p, reqs)
                                <= self.score_at(q, reqs) by {
                                if invs[p].0 != top.invoice_id && invoice_score(invs[p].1, reqs, index) > 0 {
                                    let j = choose|j: int|
                                        0 <= j < h1.len() && h1[j].invoice_id == invs[p].0 && #[trigger] h1[j].score
                                            >= invoice_score(invs[p].1, reqs, index);
                                    assert(ranks_at_least(h1[u_idx as int], h1[j]));
                                }
                            }
                        }
                        return Some(top.invoice_id);
                    }
                } else if score > 0 {
                    self.heap.push(InvoiceScore { invoice_id: top.invoice_id, score, sku_count });
                    proof {
                        assert(self.heap@.drop_last() =~= h1);
                        assert(score_total(self.heap@) == score_total(h1) + score);
                        assert(h1[u_idx as int].score <= top.score);
                        assert(ranks_at_least(h0[t_idx as int], h0[u_idx as int + if u_idx >= t_idx { 1int } else { 0 }]));
                        let h2 = self.heap@;
                        assert forall|p: int|
                            0 <= p < invs.len() && invoice_score(#[trigger] invs[p].1, reqs, index) > 0 implies exists|j: int|
                            0 <= j < h2.len() && h2[j].invoice_id == invs[p].0 && #[trigger] h2[j].score
                                >= invoice_score(invs[p].1, reqs, index) by {
                            if invs[p].0 == top.invoice_id {
                                assert(h2[h1.len() as int].score >= invoice_score(invs[p].1, reqs, index));
                            } else {
                                let j = choose|j: int|
                                    0 <= j < h1.len() && h1[j].invoice_id == invs[p].0 && #[trigger] h1[j].score
                                        >= invoice_score(invs[p].1, reqs, index);
                                assert(h2[j] == h1[j]);
                            }
                        }
                        assert forall|j: int| 0 <= j < h2.len() implies #[trigger] h2[j].score > 0 by {
                            if j < h1.len() {
                                assert(h2[j] == h1[j]);
                            }
                        }
                        let q = self.position_spec(top.invoice_id).unwrap();
                        assert(h2[h1.len() as int] == entry_for(invs[q], reqs, index));
                        assert forall|j: int| 0 <= j < h2.len() implies old(self).heap_view().contains(
                            #[trigger] h2[j],
                        ) || is_current_entry(h2[j], invs, reqs, index) by {
                            if j < h1.len() {
                                assert(h2[j] == h1[j]);
                            } else {
                                assert(invs[q].0 == h2[j].invoice_id);
                            }
                        }
                        assert forall|a: int, b: int| 0 <= a < b < h2.len() implies #[trigger] h2[a].invoice_id
                            != #[trigger] h2[b].invoice_id by {
                            if b == h1.len() {
                                assert(h2[a] == h1[a]);
                            } else {
                                assert(h2[a] == h1[a] && h2[b] == h1[b]);
                            }
                        }
                    }
                }
            }
            proof {
                lemma_total_nonneg(self.heap@);
            }
        }
    }

    /// Consumes up to `amount` from the first item of invoice `invoice_id`
    /// with code `product_code` and something left, records the invoice as
    /// used, and returns the updated item. Without such an item nothing
    /// changes and the result is `None`.
    pub fn consume_item(&mut self, invoice_id: i64, product_code: &str, amount: Decimal) -> (r: Option<
        InvoiceItemState,
    >)
        requires
            old(self).wf(),
            amount@ >= 0,
        ensures
            final(self).wf(),
            final(self).index_view() == old(self).index_view(),
            final(self).heap_view() == old(self).heap_view(),
            consumed_from(final(self).invoices_view(), old(self).invoices_view()),
            forall|p: int, k: int|
                0 <= p < old(self).invoices_view().len() && old(self).invoices_view()[p].0 == invoice_id
                    && #[trigger] first_live_at(old(self).invoices_view()[p].1, product_code@, k) ==> {
                    &&& r == Some(consumed(old(self).invoices_view()[p].1[k], amount@))
                    &&& final(self).invoices_view() == old(self).invoices_view().update(
                        p,
                        (
                            invoice_id,
                            old(self).invoices_view()[p].1.update(
                                k,
                                consumed(old(self).invoices_view()[p].1[k], amount@),
                            ),
                        ),
                    )
                    &&& final(self).used_view() == record_use(old(self).used_view(), invoice_id)
                },
            (forall|p: int, k: int|
                0 <= p < old(self).invoices_view().len() && old(self).invoices_view()[p].0 == invoice_id && 0
                    <= k < old(self).invoices_view()[p].1.len() ==> !live(
                    #[trigger] old(self).invoices_view()[p].1[k],
                    product_code@,
                )) ==> {
                &&& r is None
                &&& final(self).invoices_view() == old(self).invoices_view()
                &&& final(self).used_view() == old(self).used_view()
            },
    {
        let ghost invs = self.invoices_view();
        let p = match self.position(invoice_id) {
            Some(p) => p,
            None => {
                assert(forall|p: int| 0 <= p < invs.len() ==> invs[p].0 != invoice_id);
                return None;
            },
        };
        proof {
            assert forall|q: int| 0 <= q < invs.len() && invs[q].0 == invoice_id implies q == p by {
                if q < p {
                    assert(invs[q].0 != invs[p as int].0);
                } else if q > p {
                    assert(invs[p as int].0 != invs[q].0);
                }
            }
        }
        let ghost items = invs[p as int].1;
        let mut k: usize = 0;
        while k < self.invoices[p].items.len()
            invariant
                self.wf(),
                invs == self.invoices_view(),
                items == invs[p as int].1,
                p < invs.len(),
                invs[p as int].0 == invoice_id,
                forall|q: int| 0 <= q < invs.len() && invs[q].0 == invoice_id ==> q == p,
                amount@ >= 0,
                self.index_view() == old(self).index_view(),
                self.heap_view() == old(self).heap_view(),
                self.used_view() == old(self).used_view(),
                invs == old(self).invoices_view(),
                k <= items.len(),
                forall|t: int| 0 <= t < k ==> !live(#[trigger] items[t], product_code@),
            decreases items.len() - k,
        {
            let it = &self.invoices[p].items[k];
            if it.remaining_amount.is_positive() && same_text(it.product_code.as_str(), product_code) {
                let taken = amount.min(it.remaining_amount);
                let updated = InvoiceItemState {
                    invoice_id: it.invoice_id,
                    item_id: it.item_id,
                    product_code: it.product_code.clone(),
                    quantity: it.quantity,
                    original_amount: it.original_amount,
                    remaining_amount: it.remaining_amount.sub(taken),
                    unit_price: it.unit_price,
                };
                let result = updated.duplicate();
                assert(updated == consumed(items[k as int], amount@));
                let mut e = self.invoices.remove(p);
                e.items.set(k, updated);
                self.invoices.insert(p, e);
                if !contains_id(&self.used_invoices, invoice_id) {
                    self.used_invoices.push(invoice_id);
                    proof {
                        let u0 = old(self).used_view();
                        assert forall|a: int, b: int| 0 <= a < b < self.used_invoices@.len() implies
                            self.used_invoices@[a] != self.used_invoices@[b] by {
                            if b == u0.len() {
                                assert(self.used_invoices@[a] == u0[a]);
                            }
                        }
                    }
                }
                let ghost now = self.invoices_view();
                assert(now =~= invs.update(p as int, (invoice_id, items.update(k as int, consumed(items[k as int], amount@)))));
                proof {
                    assert forall|a: int, b: int|
                        0 <= a < now.len() && 0 <= b < now[a].1.len() implies (#[trigger] now[a].1[b]).invoice_id
                            == now[a].0 && state_ok(now[a].1[b]) by {
                        if a == p && b == k {
                        } else {
                            assert(now[a].1[b] == invs[a].1[b]);
                        }
                    }
                    assert forall|a: int, b: int| 0 <= a < b < now.len() implies #[trigger] now[a].0
                        != #[trigger] now[b].0 by {
                        assert(invs[a].0 != invs[b].0);
                    }
                    assert forall|a: int| 0 <= a < now.len() implies {
                        &&& (#[trigger] now[a]).0 == invs[a].0
                        &&& now[a].1.len() == invs[a].1.len()
                        &&& forall|b: int|
                            0 <= b < now[a].1.len() ==> {
                                &&& (#[trigger] now[a].1[b]).product_code@ == invs[a].1[b].product_code@
                                &&& now[a].1[b].remaining_amount@ <= invs[a].1[b].remaining_amount@
                                &&& now[a].1[b].item_id == invs[a].1[b].item_id
                            }
                    } by {
                        assert forall|b: int| 0 <= b < now[a].1.len() implies {
                            &&& (#[trigger] now[a].1[b]).product_code@ == invs[a].1[b].product_code@
                            &&& now[a].1[b].remaining_amount@ <= invs[a].1[b].remaining_amount@
                            &&& now[a].1[b].item_id == invs[a].1[b].item_id
                        } by {
                            if a == p && b == k {
                            } else {
                                assert(now[a].1[b] == invs[a].1[b]);
                            }
                        }
                    }
                    assert forall|q: int, t: int|
                        0 <= q < invs.len() && invs[q].0 == invoice_id && #[trigger] first_live_at(
                            invs[q].1,
                            product_code@,
                            t,
                        ) implies t == k by {
                        assert(q == p);
                        if t < k {
                            assert(!live(items[t], product_code@));
                        } else if t > k {
                            assert(live(items[k as int], product_code@));
                        }
                    }
                }
                return Some(result);
            }
            k = k + 1;
        }
        proof {
            assert forall|q: int, t: int|
                0 <= q < invs.len() && invs[q].0 == invoice_id && #[trigger] first_live_at(
                    invs[q].1,
                    product_code@,
                    t,
                ) implies false by {
                assert(q == p);
                assert(!live(items[t], product_code@));
            }
        }
        None
    }

    /// The items of invoice `invoice_id` with something left, in their
    /// order; empty for an unknown invoice.
    pub fn get_available_items(&self, invoice_id: i64) -> (r: Vec<InvoiceItemState>)
        requires
            self.wf(),
        ensures
            match self.position_spec(invoice_id) {
                Some(p) => r@ == available(self.invoices_view()[p].1),
                None => r@.len() == 0,
            },
    {
        let ghost invs = self.invoices_view();
        let p = match self.position(invoice_id) {
            Some(p) => p,
            None => return Vec::new(),
        };
        proof {
            let q = self.position_spec(invoice_id).unwrap();
            if q < p {
                assert(invs[q].0 != invs[p as int].0);
            } else if q > p {
                assert(invs[p as int].0 != invs[q].0);
            }
        }
        let items = &self.invoices[p].items;
        let mut r: Vec<InvoiceItemState> = Vec::new();
        let mut k: usize = 0;
        while k < items.len()
            invariant
                p < invs.len(),
                items@ == invs[p as int].1,
                k <= items@.len(),
                r@ == available(items@.subrange(0, k as int)),
            decreases items@.len() - k,
        {
            assert(items@.subrange(0, k + 1).drop_last() =~= items@.subrange(0, k as int));
            if items[k].remaining_amount.is_positive() {
                r.push(items[k].duplicate());
            }
            k = k + 1;
        }
        assert(items@.subrange(0, items@.len() as int) =~= items@);
        r
    }

    /// Number of invoices consumed from.
    pub fn used_count(&self) -> (r: usize)
        ensures
            r == self.used_view().len(),
    {
        self.used_invoices.len()
    }

    /// Number of candidate invoices.
    pub fn total_count(&self) -> (r: usize)
        ensures
            r == self.invoices_view().len(),
    {
        self.invoices.len()
    }

    /// Number of items of the invoice at position `p`.
    pub(crate) fn item_count(&self, p: usize) -> (r: usize)
        requires
            p < self.invoices_view().len(),
        ensures
            r == self.invoices_view()[p as int].1.len(),
    {
        self.invoices[p].items.len()
    }

    /// Item `k` of the invoice at position `p`.
    pub(crate) fn item_at(&self, p: usize, k: usize) -> (r: &InvoiceItemState)
        requires
            p < self.invoices_view().len(),
            k < self.invoices_view()[p as int].1.len(),
        ensures
            *r == self.invoices_view()[p as int].1[k as int],
    {
        &self.invoices[p].items[k]
    }

    /// Position of invoice `id`, in specifications.
    pub open spec fn position_spec(&self, id: i64) -> Option<int> {
        if has_invoice(self.invoices_view(), id) {
            Some(choose|p: int| 0 <= p < self.invoices_view().len() && #[trigger] self.invoices_view()[p].0 == id)
        } else {
            None
        }
    }
}

impl Default for InvoiceScoringContext {
    fn default() -> (r: InvoiceScoringContext)
        ensures
            r.wf(),
            r.invoices_view().len() == 0,
            r.index_view().len() == 0,
            r.used_view().len() == 0,
            r.heap_view().len() == 0,
    {
        InvoiceScoringContext::new()
    }
}

} // verus!
