//! Insertion-ordered sets of ids, held in an `indexmap::IndexSet`.
use vstd::prelude::*;
use indexmap::IndexSet;

verus! {

#[verifier::external_type_specification]
#[verifier::external_body]
#[verifier::reject_recursive_types(T)]
#[verifier::reject_recursive_types(S)]
pub struct ExIndexSet<T, S>(IndexSet<T, S>);

/// The ids that a set holds, in the order they were first inserted.
pub uninterp spec fn ordered_ids(s: IndexSet<i64>) -> Seq<i64>;

/// Relies on `indexmap::IndexSet::new`: a new set holds nothing.
#[verifier::external_body]
pub(crate) fn id_set_new() -> (r: IndexSet<i64>)
    ensures
        ordered_ids(r) == Seq::<i64>::empty(),
{
    IndexSet::new()
}

/// Relies on `indexmap::IndexSet::insert`: an id not yet present is
/// appended and `true` comes back; a present id leaves the set and its order
/// as they were and `false` comes back.
#[verifier::external_body]
pub(crate) fn id_set_insert(s: &mut IndexSet<i64>, id: i64) -> (r: bool)
    ensures
        r == !ordered_ids(*old(s)).contains(id),
        ordered_ids(*final(s)) == if r {
            ordered_ids(*old(s)).push(id)
        } else {
            ordered_ids(*old(s))
        },
{
    s.insert(id)
}

/// Relies on `indexmap::IndexSet::iter`: the ids in insertion order.
#[verifier::external_body]
pub(crate) fn id_set_to_vec(s: &IndexSet<i64>) -> (r: Vec<i64>)
    ensures
        r@ == ordered_ids(*s),
{
    s.iter().copied().collect()
}

} // verus!
