use vstd::prelude::*;

use std::collections::VecDeque;

use crate::order::{OrderId, Quantity};

verus! {

/// Dense index of a resident order's slot in the arena.
pub type SlabIndex = usize;

/// The per-level queue element: the arena handle of a resident order
/// together with its caller-visible id.
#[derive(PartialEq, Eq, Structural, Clone, Copy, Debug)]
pub struct OrderMeta {
    pub slab_idx: SlabIndex,
    pub order_id: OrderId,
}

impl OrderMeta {
    /// Spec-level constructor, so that contracts can name the exact
    /// element a mutation appends.
    pub open spec fn new_spec(slab_idx: SlabIndex, order_id: OrderId) -> OrderMeta {
        OrderMeta { slab_idx, order_id }
    }

    pub open spec fn slab_idx_spec(&self) -> SlabIndex {
        self.slab_idx
    }

    pub open spec fn order_id_spec(&self) -> OrderId {
        self.order_id
    }

    pub fn new(slab_idx: SlabIndex, order_id: OrderId) -> (r: Self)
        ensures
            r == OrderMeta::new_spec(slab_idx, order_id),
    {
        Self { order_id, slab_idx }
    }

    pub fn slab_idx(&self) -> (r: SlabIndex)
        ensures
            r == self.slab_idx_spec(),
    {
        self.slab_idx
    }

    pub fn order_id(&self) -> (r: OrderId)
        ensures
            r == self.order_id_spec(),
    {
        self.order_id
    }
}

/// A FIFO of order metadata at a single price, with a cached aggregate
/// quantity. The cache is not recomputed here: the matching engine updates
/// it together with every fill and cancel it performs.
pub struct Orders {
    pub items: VecDeque<OrderMeta>,
    pub orders_quantity: Quantity,
}

impl Orders {
    /// The queue contents, front first.
    pub open spec fn metas(&self) -> Seq<OrderMeta> {
        self.items@
    }

    /// The cached aggregate quantity of the level.
    pub open spec fn qty(&self) -> Quantity {
        self.orders_quantity
    }

    pub fn new() -> (r: Self)
        ensures
            r.metas() == Seq::<OrderMeta>::empty(),
            r.qty() == 0,
    {
        Orders { items: VecDeque::new(), orders_quantity: 0 }
    }

    pub fn add(&mut self, order_idx: SlabIndex, order_id: OrderId, quantity: Quantity)
        requires
            old(self).qty() + quantity <= Quantity::MAX,
        ensures
            final(self).metas() == old(self).metas().push(
                OrderMeta { slab_idx: order_idx, order_id },
            ),
            final(self).qty() == old(self).qty() + quantity,
    {
        self.items.push_back(OrderMeta::new(order_idx, order_id));
        self.orders_quantity = self.orders_quantity + quantity;
    }

    pub fn len(&self) -> (r: usize)
        ensures
            r == self.metas().len(),
    {
        self.items.len()
    }

    pub fn pop_front(&mut self) -> (r: Option<OrderMeta>)
        ensures
            old(self).metas().len() == 0 ==> {
                &&& r is None
                &&& final(self).metas() == old(self).metas()
                &&& final(self).qty() == old(self).qty()
            },
            old(self).metas().len() > 0 ==> {
                &&& r == Some(old(self).metas()[0])
                &&& final(self).metas() == old(self).metas().drop_first()
                &&& final(self).qty() == old(self).qty()
            },
    {
        if let Some(front) = self.items.pop_front() {
            return Some(front);
        }
        None
    }

    /// The front element without removing it.
    pub fn front(&self) -> (r: OrderMeta)
        requires
            self.metas().len() > 0,
        ensures
            r == self.metas()[0],
    {
        self.items[0]
    }

    /// Removes and returns the element at position `index`, shifting the
    /// later ones towards the front. The cached quantity is untouched.
    pub fn remove_at(&mut self, index: usize) -> (r: OrderMeta)
        requires
            index < old(self).metas().len(),
        ensures
            r == old(self).metas()[index as int],
            final(self).metas() == old(self).metas().remove(index as int),
            final(self).qty() == old(self).qty(),
    {
        self.items.remove(index).unwrap()
    }

    pub fn items(&self) -> (r: &VecDeque<OrderMeta>)
        ensures
            r@ == self.metas(),
    {
        &self.items
    }

    pub fn orders_quantity(&self) -> (r: Quantity)
        ensures
            r == self.qty(),
    {
        self.orders_quantity
    }

    pub fn set_orders_quantity(&mut self, quantity: Quantity)
        ensures
            final(self).metas() == old(self).metas(),
            final(self).qty() == quantity,
    {
        self.orders_quantity = quantity;
    }
}

} // verus!
