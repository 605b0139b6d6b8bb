use vstd::prelude::*;

use crate::order_spec::OrderSpec;

verus! {

#[verifier::external_type_specification]
#[verifier::external_body]
#[verifier::reject_recursive_types(T)]
pub struct ExSlab<T>(slab::Slab<T>);

/// The occupied slots of the arena: each currently live key mapped to the
/// order stored under it.
pub uninterp spec fn slab_entries(s: &slab::Slab<OrderSpec>) -> Map<SlabKey, OrderSpec>;

pub type SlabKey = usize;

/// The contents of a freshly made arena.
pub open spec fn empty_pool() -> Map<SlabKey, OrderSpec> {
    Map::empty()
}

/// Relies on slab::Slab::with_capacity: returns an empty slab.
#[verifier::external_body]
pub(crate) fn slab_with_capacity(capacity: usize) -> (s: slab::Slab<OrderSpec>)
    ensures
        slab_entries(&s) == empty_pool(),
{
    slab::Slab::with_capacity(capacity)
}

/// Relies on slab::Slab::insert: stores the value under a key that was
/// vacant and returns that key.
#[verifier::external_body]
pub(crate) fn slab_insert(s: &mut slab::Slab<OrderSpec>, val: OrderSpec) -> (key: SlabKey)
    ensures
        !slab_entries(old(s)).contains_key(key),
        slab_entries(final(s)) == slab_entries(old(s)).insert(key, val),
{
    s.insert(val)
}

/// Relies on slab::Slab::get: Some exactly for an occupied key.
#[verifier::external_body]
pub(crate) fn slab_get(s: &slab::Slab<OrderSpec>, key: SlabKey) -> (r: Option<OrderSpec>)
    ensures
        r == if slab_entries(s).contains_key(key) {
            Some(slab_entries(s)[key])
        } else {
            None::<OrderSpec>
        },
{
    s.get(key).copied()
}

/// Relies on slab::Slab::get_mut: overwrites the value stored under an
/// occupied key.
#[verifier::external_body]
pub(crate) fn slab_set(s: &mut slab::Slab<OrderSpec>, key: SlabKey, val: OrderSpec)
    requires
        slab_entries(old(s)).contains_key(key),
    ensures
        slab_entries(final(s)) == slab_entries(old(s)).insert(key, val),
{
    if let Some(slot) = s.get_mut(key) {
        *slot = val;
    }
}

/// Relies on slab::Slab::try_remove: vacates an occupied key and returns
/// its value, None for a vacant key.
#[verifier::external_body]
pub(crate) fn slab_try_remove(s: &mut slab::Slab<OrderSpec>, key: SlabKey) -> (r: Option<
    OrderSpec,
>)
    ensures
        slab_entries(old(s)).contains_key(key) ==> {
            &&& r == Some(slab_entries(old(s))[key])
            &&& slab_entries(final(s)) == slab_entries(old(s)).remove(key)
        },
        !slab_entries(old(s)).contains_key(key) ==> {
            &&& r is None
            &&& slab_entries(final(s)) == slab_entries(old(s))
        },
{
    s.try_remove(key)
}

/// Relies on slab::Slab::remove, which panics on a vacant key; the
/// precondition rules that out.
#[verifier::external_body]
pub(crate) fn slab_remove(s: &mut slab::Slab<OrderSpec>, key: SlabKey) -> (r: OrderSpec)
    requires
        slab_entries(old(s)).contains_key(key),
    ensures
        r == slab_entries(old(s))[key],
        slab_entries(final(s)) == slab_entries(old(s)).remove(key),
{
    s.remove(key)
}

} // verus!
