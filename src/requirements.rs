//! Per-SKU outstanding demand of one bill.
use vstd::prelude::*;
use crate::bill::MatchBillItem1201;
use crate::decimal::{abs_int, in_range, Decimal};
use crate::text::{same_text, trim_code, trimmed};

verus! {

/// Total absolute amount of the bill lines whose trimmed product code is `sku`.
pub open spec fn demand(items: Seq<MatchBillItem1201>, sku: Seq<char>) -> int
    decreases items.len(),
{
    if items.len() == 0 {
        0
    } else {
        demand(items.drop_last(), sku) + if trimmed(items.last().fspbm@) == sku {
            abs_int(items.last().famount@)
        } else {
            0
        }
    }
}

/// Total absolute amount of all bill lines.
pub open spec fn abs_total(items: Seq<MatchBillItem1201>) -> int
    decreases items.len(),
{
    if items.len() == 0 {
        0
    } else {
        abs_total(items.drop_last()) + abs_int(items.last().famount@)
    }
}

/// Total absolute amount of the bill lines with a non-empty trimmed code.
pub open spec fn kept_total(items: Seq<MatchBillItem1201>) -> int
    decreases items.len(),
{
    if items.len() == 0 {
        0
    } else {
        kept_total(items.drop_last()) + if trimmed(items.last().fspbm@).len() > 0 {
            abs_int(items.last().famount@)
        } else {
            0
        }
    }
}

/// Sum of the amounts of demand entries.
pub open spec fn entries_total(e: Seq<(String, Decimal)>) -> int
    decreases e.len(),
{
    if e.len() == 0 {
        0
    } else {
        entries_total(e.drop_last()) + e.last().1@
    }
}

proof fn lemma_entries_total_update(e: Seq<(String, Decimal)>, i: int, v: (String, Decimal))
    requires
        0 <= i < e.len(),
    ensures
        entries_total(e.update(i, v)) == entries_total(e) - e[i].1@ + v.1@,
    decreases e.len(),
{
    if i < e.len() - 1 {
        lemma_entries_total_update(e.drop_last(), i, v);
        assert(e.update(i, v).drop_last() =~= e.drop_last().update(i, v));
    } else {
        assert(e.update(i, v).drop_last() =~= e.drop_last());
    }
}

proof fn lemma_entries_total_remove(e: Seq<(String, Decimal)>, i: int)
    requires
        0 <= i < e.len(),
    ensures
        entries_total(e.remove(i)) == entries_total(e) - e[i].1@,
    decreases e.len(),
{
    if i == e.len() - 1 {
        assert(e.remove(i) =~= e.drop_last());
    } else {
        lemma_entries_total_remove(e.drop_last(), i);
        assert(e.remove(i).drop_last() =~= e.drop_last().remove(i));
    }
}

/// Demand of one code and the kept total never exceed the total of all lines,
/// nor do those of a prefix.
pub proof fn lemma_totals_bound(items: Seq<MatchBillItem1201>, k: int, sku: Seq<char>)
    requires
        0 <= k <= items.len(),
    ensures
        0 <= demand(items.subrange(0, k), sku) <= abs_total(items),
        0 <= kept_total(items.subrange(0, k)) <= abs_total(items),
        0 <= demand(items, sku) <= abs_total(items),
    decreases items.len(),
{
    if items.len() > 0 {
        lemma_totals_bound(items.drop_last(), items.len() - 1, sku);
        assert(items.drop_last().subrange(0, items.len() - 1) =~= items.drop_last());
        if k == items.len() {
            assert(items.subrange(0, k) =~= items);
        } else {
            lemma_totals_bound(items.drop_last(), k, sku);
            assert(items.drop_last().subrange(0, k) =~= items.subrange(0, k));
        }
    } else {
        assert(items.subrange(0, k) =~= items);
    }
}

proof fn lemma_entries_total_nonneg(e: Seq<(String, Decimal)>)
    requires
        forall|i: int| 0 <= i < e.len() ==> #[trigger] e[i].1@ > 0,
    ensures
        entries_total(e) >= 0,
    decreases e.len(),
{
    if e.len() > 0 {
        assert forall|i: int| 0 <= i < e.drop_last().len() implies #[trigger] e.drop_last()[i].1@ > 0 by {
            assert(e.drop_last()[i] == e[i]);
        }
        lemma_entries_total_nonneg(e.drop_last());
    }
}

proof fn lemma_entries_total_ge(e: Seq<(String, Decimal)>, i: int)
    requires
        forall|j: int| 0 <= j < e.len() ==> #[trigger] e[j].1@ > 0,
        0 <= i < e.len(),
    ensures
        entries_total(e) >= e[i].1@,
    decreases e.len(),
{
    assert forall|j: int| 0 <= j < e.drop_last().len() implies #[trigger] e.drop_last()[j].1@ > 0 by {
        assert(e.drop_last()[j] == e[j]);
    }
    if i < e.len() - 1 {
        lemma_entries_total_ge(e.drop_last(), i);
        assert(e.drop_last()[i] == e[i]);
    } else {
        lemma_entries_total_nonneg(e.drop_last());
    }
}

/// The total of a prefix never exceeds the total of the whole list.
pub proof fn lemma_abs_total_prefix(items: Seq<MatchBillItem1201>, k: int)
    requires
        0 <= k <= items.len(),
    ensures
        0 <= abs_total(items.subrange(0, k)) <= abs_total(items),
    decreases items.len(),
{
    if items.len() > 0 {
        if k == items.len() {
            assert(items.subrange(0, k) =~= items);
            lemma_abs_total_prefix(items.drop_last(), k - 1);
            assert(items.drop_last().subrange(0, k - 1) =~= items.drop_last());
        } else {
            lemma_abs_total_prefix(items.drop_last(), k);
            assert(items.drop_last().subrange(0, k) =~= items.subrange(0, k));
        }
    } else {
        assert(items.subrange(0, k) =~= items);
    }
}

/// Whether the absolute amounts of all lines add up to a value the
/// decimal representation holds.
pub fn amounts_fit(items: &[MatchBillItem1201]) -> (r: bool)
    ensures
        r == (abs_total(items@) <= i128::MAX),
{
    let mut total: i128 = 0;
    let mut k: usize = 0;
    assert(items@.subrange(0, 0) =~= Seq::<MatchBillItem1201>::empty());
    while k < items.len()
        invariant
            k <= items@.len(),
            total == abs_total(items@.subrange(0, k as int)),
            0 <= total,
        decreases items@.len() - k,
    {
        assert(items@.subrange(0, k + 1).drop_last() =~= items@.subrange(0, k as int));
        let units = items[k].famount.units;
        if units == i128::MIN {
            proof {
                lemma_abs_total_prefix(items@, k + 1);
            }
            return false;
        }
        let a: i128 = if units < 0 {
            -units
        } else {
            units
        };
        if total > i128::MAX - a {
            proof {
                lemma_abs_total_prefix(items@, k + 1);
            }
            return false;
        }
        total = total + a;
        k = k + 1;
    }
    assert(items@.subrange(0, k as int) =~= items@);
    true
}

/// Keeps only the first `max_skus` lines, when a limit is given and
/// exceeded.
pub fn limit_bill_items(items: &mut Vec<MatchBillItem1201>, max_skus: Option<usize>)
    ensures
        final(items)@ == match max_skus {
            Some(limit) => if old(items)@.len() > limit {
                old(items)@.subrange(0, limit as int)
            } else {
                old(items)@
            },
            None => old(items)@,
        },
{
    if let Some(limit) = max_skus {
        if items.len() > limit {
            items.truncate(limit);
        }
    }
}

/// The demand model of a list of bill lines: every non-empty trimmed product
/// code with a positive total, mapped to that total.
pub open spec fn demand_map(items: Seq<MatchBillItem1201>) -> Map<Seq<char>, int> {
    Map::new(|sku: Seq<char>| sku.len() > 0 && demand(items, sku) > 0, |sku: Seq<char>| demand(items, sku))
}

/// Outstanding demand of `sku`, zero when it has none.
pub open spec fn outstanding(reqs: Map<Seq<char>, int>, sku: Seq<char>) -> int {
    if reqs.contains_key(sku) {
        reqs[sku]
    } else {
        0
    }
}

/// The demand model after reducing `sku` by `amount`: the entry goes when
/// nothing positive is left of it.
pub open spec fn reduced(reqs: Map<Seq<char>, int>, sku: Seq<char>, amount: int) -> Map<Seq<char>, int> {
    if !reqs.contains_key(sku) {
        reqs
    } else if reqs[sku] - amount > 0 {
        reqs.insert(sku, reqs[sku] - amount)
    } else {
        reqs.remove(sku)
    }
}

/// Applies the reductions `amounts` to `sku` one after the other.
pub open spec fn reduced_all(reqs: Map<Seq<char>, int>, sku: Seq<char>, amounts: Seq<int>) -> Map<Seq<char>, int>
    decreases amounts.len(),
{
    if amounts.len() == 0 {
        reqs
    } else {
        reduced(reduced_all(reqs, sku, amounts.drop_last()), sku, amounts.last())
    }
}

/// Whether every reduction in `amounts` is positive and takes no more than
/// what is outstanding when it is applied.
pub open spec fn exact_reductions(reqs: Map<Seq<char>, int>, sku: Seq<char>, amounts: Seq<int>) -> bool
    decreases amounts.len(),
{
    amounts.len() == 0 || {
        &&& exact_reductions(reqs, sku, amounts.drop_last())
        &&& 0 < amounts.last() <= outstanding(reduced_all(reqs, sku, amounts.drop_last()), sku)
    }
}

/// Sum of a sequence of integers.
pub open spec fn sum_ints(s: Seq<int>) -> int
    decreases s.len(),
{
    if s.len() == 0 {
        0
    } else {
        sum_ints(s.drop_last()) + s.last()
    }
}

/// Demand of a prefix never exceeds the demand of the whole list.
pub proof fn lemma_demand_prefix(items: Seq<MatchBillItem1201>, k: int, sku: Seq<char>)
    requires
        0 <= k <= items.len(),
    ensures
        0 <= demand(items.subrange(0, k), sku) <= demand(items, sku),
    decreases items.len(),
{
    if items.len() > 0 {
        if k == items.len() {
            assert(items.subrange(0, k) =~= items);
            lemma_demand_prefix(items.drop_last(), k - 1, sku);
            assert(items.drop_last().subrange(0, k - 1) =~= items.drop_last());
        } else {
            lemma_demand_prefix(items.drop_last(), k, sku);
            assert(items.drop_last().subrange(0, k) =~= items.subrange(0, k));
            lemma_demand_prefix(items.drop_last(), items.len() - 1, sku);
            assert(items.drop_last().subrange(0, items.len() - 1) =~= items.drop_last());
        }
    }
}

/// Requirements round trip: start from the demand of `items`, reduce one SKU
/// by amounts each of which is positive and no more than what is
/// outstanding; once the SKU is gone, the reductions add up to the total
/// absolute amount of the lines with that SKU.
pub proof fn lemma_reductions_sum_to_demand(items: Seq<MatchBillItem1201>, sku: Seq<char>, amounts: Seq<int>)
    requires
        exact_reductions(demand_map(items), sku, amounts),
        !reduced_all(demand_map(items), sku, amounts).contains_key(sku),
        sku.len() > 0,
    ensures
        sum_ints(amounts) == demand(items, sku),
{
    lemma_reductions_conserve(demand_map(items), sku, amounts);
    lemma_demand_prefix(items, 0, sku);
    assert(items.subrange(0, 0).len() == 0);
}

proof fn lemma_reductions_keep_positive(reqs: Map<Seq<char>, int>, sku: Seq<char>, amounts: Seq<int>)
    requires
        forall|s: Seq<char>| #[trigger] reqs.contains_key(s) ==> reqs[s] > 0,
    ensures
        forall|s: Seq<char>|
            #[trigger] reduced_all(reqs, sku, amounts).contains_key(s) ==> reduced_all(reqs, sku, amounts)[s] > 0,
    decreases amounts.len(),
{
    if amounts.len() > 0 {
        lemma_reductions_keep_positive(reqs, sku, amounts.drop_last());
        let m = reduced_all(reqs, sku, amounts.drop_last());
        assert(reduced_all(reqs, sku, amounts) == reduced(m, sku, amounts.last()));
        assert forall|s: Seq<char>| #[trigger] reduced(m, sku, amounts.last()).contains_key(s) implies reduced(
            m,
            sku,
            amounts.last(),
        )[s] > 0 by {
            if s != sku {
                assert(m.contains_key(s));
            }
        }
    }
}

/// Requirements round trip, the other way: reductions of one SKU, each
/// positive and no more than what is outstanding, that add up to the total
/// absolute amount of its lines leave the SKU with no demand.
pub proof fn lemma_demand_reductions_empty(items: Seq<MatchBillItem1201>, sku: Seq<char>, amounts: Seq<int>)
    requires
        exact_reductions(demand_map(items), sku, amounts),
        sum_ints(amounts) == demand(items, sku),
        sku.len() > 0,
    ensures
        !reduced_all(demand_map(items), sku, amounts).contains_key(sku),
{
    lemma_reductions_conserve(demand_map(items), sku, amounts);
    lemma_demand_prefix(items, 0, sku);
    assert(items.subrange(0, 0).len() == 0);
    lemma_reductions_keep_positive(demand_map(items), sku, amounts);
}

/// Reductions that are each no more than what is outstanding conserve the
/// total: what is left plus what was taken is what was there.
pub proof fn lemma_reductions_conserve(reqs: Map<Seq<char>, int>, sku: Seq<char>, amounts: Seq<int>)
    requires
        exact_reductions(reqs, sku, amounts),
    ensures
        outstanding(reduced_all(reqs, sku, amounts), sku) + sum_ints(amounts) == outstanding(reqs, sku),
    decreases amounts.len(),
{
    if amounts.len() > 0 {
        lemma_reductions_conserve(reqs, sku, amounts.drop_last());
    }
}

/// Outstanding demand per product code. Every entry is positive: an entry
/// whose amount falls to zero or below is removed at once.
pub struct MatchingRequirements {
    entries: Vec<(String, Decimal)>,
    model: Ghost<Map<Seq<char>, int>>,
}

impl View for MatchingRequirements {
    type V = Map<Seq<char>, int>;

    closed spec fn view(&self) -> Map<Seq<char>, int> {
        self.model@
    }
}

impl MatchingRequirements {
    /// Total outstanding demand over all codes.
    pub closed spec fn total(&self) -> int {
        entries_total(self.entries@)
    }

    /// The entries hold the model: distinct codes, each with its positive amount.
    pub closed spec fn wf(&self) -> bool {
        &&& forall|i: int|
            0 <= i < self.entries@.len() ==> {
                &&& self.model@.contains_key(#[trigger] self.entries@[i].0@)
                &&& self.model@[self.entries@[i].0@] == self.entries@[i].1@
            }
        &&& forall|i: int, j: int|
            0 <= i < j < self.entries@.len() ==> #[trigger] self.entries@[i].0@
                != #[trigger] self.entries@[j].0@
        &&& forall|s: Seq<char>| #[trigger]
            self.model@.contains_key(s) ==> exists|i: int|
                0 <= i < self.entries@.len() && #[trigger] self.entries@[i].0@ == s
        &&& forall|s: Seq<char>| #[trigger] self.model@.contains_key(s) ==> self.model@[s] > 0
        &&& self.entries@.len() == self.model@.dom().len()
        &&& self.model@.dom().finite()
    }

    pub fn new() -> (r: MatchingRequirements)
        ensures
            r.wf(),
            r@ == Map::<Seq<char>, int>::empty(),
            r.total() == 0,
    {
        MatchingRequirements { entries: Vec::new(), model: Ghost(Map::empty()) }
    }

    /// Position of the entry for `sku`, if there is one.
    fn find(&self, sku: &str) -> (r: Option<usize>)
        requires
            self.wf(),
        ensures
            match r {
                Some(i) => i < self.entries@.len() && self.entries@[i as int].0@ == sku@,
                None => !self@.contains_key(sku@),
            },
    {
        let mut i: usize = 0;
        while i < self.entries.len()
            invariant
                self.wf(),
                i <= self.entries@.len(),
                forall|k: int| 0 <= k < i ==> self.entries@[k].0@ != sku@,
            decreases self.entries@.len() - i,
        {
            if same_text(self.entries[i].0.as_str(), sku) {
                return Some(i);
            }
            i = i + 1;
        }
        None
    }
    /// Adds `amount` to the entry for `sku`, creating it when absent.
    pub(crate) fn add_amount(&mut self, sku: String, amount: Decimal)
        requires
            old(self).wf(),
            amount@ > 0,
            in_range(outstanding(old(self)@, sku@) + amount@),
        ensures
            final(self).wf(),
            final(self)@ == old(self)@.insert(sku@, outstanding(old(self)@, sku@) + amount@),
            final(self).total() == old(self).total() + amount@,
    {
        match self.find(sku.as_str()) {
            Some(i) => {
                let cur = self.entries[i].1;
                let ghost m = self.model@;
                let ghost e = self.entries@;
                let sum = cur.add(amount);
                proof {
                    lemma_entries_total_update(e, i as int, (sku, sum));
                }
                self.entries.set(i, (sku, sum));
                self.model = Ghost(m.insert(e[i as int].0@, m[e[i as int].0@] + amount@));
                assert(self.model@.dom() =~= m.dom());
                assert forall|t: Seq<char>| #[trigger] self.model@.contains_key(t) implies exists|k: int|
                    0 <= k < self.entries@.len() && #[trigger] self.entries@[k].0@ == t by {
                    let k = choose|k: int| 0 <= k < e.len() && #[trigger] e[k].0@ == t;
                    assert(self.entries@[k].0@ == t);
                }
            },
            None => {
                let ghost m = self.model@;
                let ghost e = self.entries@;
                self.entries.push((sku, amount));
                assert(self.entries@.drop_last() =~= e);
                self.model = Ghost(m.insert(sku@, amount@));
                assert(self.model@.dom() =~= m.dom().insert(sku@));
                assert forall|t: Seq<char>| #[trigger] self.model@.contains_key(t) implies exists|k: int|
                    0 <= k < self.entries@.len() && #[trigger] self.entries@[k].0@ == t by {
                    if t == sku@ {
                        assert(self.entries@[e.len() as int].0@ == t);
                    } else {
                        let k = choose|k: int| 0 <= k < e.len() && #[trigger] e[k].0@ == t;
                        assert(self.entries@[k].0@ == t);
                    }
                }
            },
        }
    }

    /// Builds the demand of a bill: walks the lines, trims each product
    /// code, skips empty codes, and sums absolute amounts per code. A code
    /// whose total is zero places no demand.
    pub fn from_bill_items(bill_items: &[MatchBillItem1201]) -> (r: MatchingRequirements)
        requires
            abs_total(bill_items@) <= i128::MAX,
        ensures
            r.wf(),
            r@ == demand_map(bill_items@),
            r.total() == kept_total(bill_items@),
    {
        let mut r = MatchingRequirements::new();
        let mut k: usize = 0;
        assert(r@ =~= demand_map(bill_items@.subrange(0, 0)));
        while k < bill_items.len()
            invariant
                k <= bill_items@.len(),
                abs_total(bill_items@) <= i128::MAX,
                r.wf(),
                r.total() == kept_total(bill_items@.subrange(0, k as int)),
                r@ == demand_map(bill_items@.subrange(0, k as int)),
            decreases bill_items@.len() - k,
        {
            let ghost prev = bill_items@.subrange(0, k as int);
            let ghost next = bill_items@.subrange(0, k + 1);
            assert(next.drop_last() =~= prev);
            let item = &bill_items[k];
            let sku = trim_code(item.fspbm.as_str());
            proof {
                lemma_totals_bound(bill_items@, k + 1, sku@);
                lemma_demand_prefix(prev, k as int, sku@);
                assert(prev.subrange(0, k as int) =~= prev);
            }
            if sku.unicode_len() == 0 || item.famount.units == 0 {
                assert(demand_map(next) =~= demand_map(prev));
            } else {
                let amount = item.famount.abs();
                assert(demand_map(next) =~= demand_map(prev).insert(sku@, outstanding(r@, sku@) + amount@));
                r.add_amount(sku, amount);
            }
            k = k + 1;
        }
        assert(bill_items@.subrange(0, k as int) =~= bill_items@);
        r
    }

    /// The product codes that still have outstanding demand, each once.
    pub fn get_required_skus(&self) -> (r: Vec<String>)
        requires
            self.wf(),
        ensures
            r@.len() == self@.dom().len(),
            forall|i: int| 0 <= i < r@.len() ==> self@.contains_key(#[trigger] r@[i]@),
            forall|i: int, j: int| 0 <= i < j < r@.len() ==> #[trigger] r@[i]@ != #[trigger] r@[j]@,
            forall|s: Seq<char>| #[trigger]
                self@.contains_key(s) ==> exists|i: int| 0 <= i < r@.len() && #[trigger] r@[i]@ == s,
    {
        let mut r: Vec<String> = Vec::new();
        let mut i: usize = 0;
        while i < self.entries.len()
            invariant
                self.wf(),
                i <= self.entries@.len(),
                r@.len() == i,
                forall|k: int| 0 <= k < i ==> #[trigger] r@[k]@ == self.entries@[k].0@,
            decreases self.entries@.len() - i,
        {
            r.push(self.entries[i].0.clone());
            i = i + 1;
        }
        assert forall|s: Seq<char>| #[trigger] self@.contains_key(s) implies exists|i: int|
            0 <= i < r@.len() && #[trigger] r@[i]@ == s by {
            let k = choose|k: int| 0 <= k < self.entries@.len() && #[trigger] self.entries@[k].0@ == s;
            assert(r@[k]@ == s);
        }
        assert forall|i: int, j: int| 0 <= i < j < r@.len() implies #[trigger] r@[i]@ != #[trigger] r@[j]@ by {
            assert(self.entries@[i].0@ != self.entries@[j].0@);
        }
        r
    }

    /// Outstanding demand of `sku`, if it has any.
    pub fn get_remaining(&self, sku: &str) -> (r: Option<Decimal>)
        requires
            self.wf(),
        ensures
            match r {
                Some(a) => self@.contains_key(sku@) && a@ == self@[sku@] && a@ > 0,
                None => !self@.contains_key(sku@),
            },
    {
        match self.find(sku) {
            Some(i) => Some(self.entries[i].1),
            None => None,
        }
    }

    /// Reduces the demand of `sku` by `amount`; the entry is removed when
    /// nothing positive is left. A code without demand is left alone.
    pub fn reduce(&mut self, sku: &str, amount: Decimal)
        requires
            old(self).wf(),
            in_range(outstanding(old(self)@, sku@) - amount@),
        ensures
            final(self).wf(),
            final(self)@ == reduced(old(self)@, sku@, amount@),
            0 < amount@ <= outstanding(old(self)@, sku@) ==> final(self).total() == old(self).total()
                - amount@,
    {
        match self.find(sku) {
            Some(i) => {
                let cur = self.entries[i].1;
                let left = cur.sub(amount);
                let ghost m = self.model@;
                let ghost e = self.entries@;
                let ghost key = e[i as int].0@;
                if left.is_positive() {
                    let name = self.entries[i].0.clone();
                    proof {
                        lemma_entries_total_update(e, i as int, (name, left));
                    }
                    self.entries.set(i, (name, left));
                    self.model = Ghost(m.insert(key, left@));
                    assert(self.model@.dom() =~= m.dom());
                    assert forall|t: Seq<char>| #[trigger] self.model@.contains_key(t) implies exists|k: int|
                        0 <= k < self.entries@.len() && #[trigger] self.entries@[k].0@ == t by {
                        let k = choose|k: int| 0 <= k < e.len() && #[trigger] e[k].0@ == t;
                        assert(self.entries@[k].0@ == t);
                    }
                } else {
                    proof {
                        lemma_entries_total_remove(e, i as int);
                    }
                    self.entries.remove(i);
                    self.model = Ghost(m.remove(key));
                    assert(self.entries@ == e.remove(i as int));
                    assert forall|a: int, b: int| 0 <= a < b < self.entries@.len() implies
                        #[trigger] self.entries@[a].0@ != #[trigger] self.entries@[b].0@ by {
                        let a0 = if a < i { a } else { a + 1 };
                        let b0 = if b < i { b } else { b + 1 };
                        assert(e[a0].0@ != e[b0].0@);
                    }
                    assert forall|k: int| 0 <= k < self.entries@.len() implies {
                        &&& self.model@.contains_key(#[trigger] self.entries@[k].0@)
                        &&& self.model@[self.entries@[k].0@] == self.entries@[k].1@
                    } by {
                        let k0 = if k < i { k } else { k + 1 };
                        assert(e[k0].0@ != key);
                    }
                    assert forall|t: Seq<char>| #[trigger] self.model@.contains_key(t) implies exists|k: int|
                        0 <= k < self.entries@.len() && #[trigger] self.entries@[k].0@ == t by {
                        let k = choose|k: int| 0 <= k < e.len() && #[trigger] e[k].0@ == t;
                        if k < i {
                            assert(self.entries@[k].0@ == t);
                        } else {
                            assert(self.entries@[k - 1].0@ == t);
                        }
                    }
                }
            },
            None => {},
        }
    }

    /// Facts that follow from well-formedness: demand is positive and the
    /// total is at least each code's demand.
    pub proof fn lemma_wf_facts(&self, sku: Seq<char>)
        requires
            self.wf(),
        ensures
            self.total() >= 0,
            outstanding(self@, sku) >= 0,
            self@.contains_key(sku) ==> self@[sku] > 0,
            self@.dom().finite(),
            outstanding(self@, sku) <= self.total(),
    {
        assert forall|i: int| 0 <= i < self.entries@.len() implies #[trigger] self.entries@[i].1@ > 0 by {
            assert(self.model@.contains_key(self.entries@[i].0@));
        }
        lemma_entries_total_nonneg(self.entries@);
        if self.model@.contains_key(sku) {
            let i = choose|i: int| 0 <= i < self.entries@.len() && #[trigger] self.entries@[i].0@ == sku;
            lemma_entries_total_ge(self.entries@, i);
        }
    }

    /// Whether no demand is left.
    pub fn is_satisfied(&self) -> (r: bool)
        requires
            self.wf(),
        ensures
            r == (self@ == Map::<Seq<char>, int>::empty()),
    {
        proof {
            if self.entries@.len() == 0 {
                self.model@.dom().lemma_len0_is_empty();
                assert(self.model@ =~= Map::<Seq<char>, int>::empty());
            } else {
                assert(self.model@.contains_key(self.entries@[0].0@));
                assert(!Map::<Seq<char>, int>::empty().contains_key(self.entries@[0].0@));
            }
        }
        self.entries.len() == 0
    }

    /// Number of product codes with outstanding demand.
    pub fn remaining_sku_count(&self) -> (r: usize)
        requires
            self.wf(),
        ensures
            r == self@.dom().len(),
    {
        self.entries.len()
    }

    /// Every product code with outstanding demand, with its amount.
    pub fn get_remaining_details(&self) -> (r: Vec<(String, Decimal)>)
        requires
            self.wf(),
        ensures
            r@.len() == self@.dom().len(),
            forall|i: int|
                0 <= i < r@.len() ==> self@.contains_key(#[trigger] r@[i].0@) && self@[r@[i].0@] == r@[i].1@,
            forall|i: int, j: int| 0 <= i < j < r@.len() ==> #[trigger] r@[i].0@ != #[trigger] r@[j].0@,
            forall|s: Seq<char>| #[trigger]
                self@.contains_key(s) ==> exists|i: int| 0 <= i < r@.len() && #[trigger] r@[i].0@ == s,
    {
        let mut r: Vec<(String, Decimal)> = Vec::new();
        let mut i: usize = 0;
        while i < self.entries.len()
            invariant
                self.wf(),
                i <= self.entries@.len(),
                r@.len() == i,
                forall|k: int| 0 <= k < i ==> #[trigger] r@[k].0@ == self.entries@[k].0@ && r@[k].1 == self.entries@[k].1,
            decreases self.entries@.len() - i,
        {
            r.push((self.entries[i].0.clone(), self.entries[i].1));
            i = i + 1;
        }
        assert forall|s: Seq<char>| #[trigger] self@.contains_key(s) implies exists|i: int|
            0 <= i < r@.len() && #[trigger] r@[i].0@ == s by {
            let k = choose|k: int| 0 <= k < self.entries@.len() && #[trigger] self.entries@[k].0@ == s;
            assert(r@[k].0@ == s);
        }
        assert forall|i: int, j: int| 0 <= i < j < r@.len() implies #[trigger] r@[i].0@ != #[trigger] r@[j].0@ by {
            assert(self.entries@[i].0@ != self.entries@[j].0@);
        }
        r
    }
}

impl Default for MatchingRequirements {
    fn default() -> (r: MatchingRequirements)
        ensures
            r.wf(),
            r@ == Map::<Seq<char>, int>::empty(),
    {
        MatchingRequirements::new()
    }
}

} // verus!
