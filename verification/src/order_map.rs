use vstd::prelude::*;

use crate::model::walk_sum;
use crate::order::{OrderId, OrderSide, Price, Quantity};
use crate::orders::{OrderMeta, Orders, SlabIndex};

verus! {

/// A price-indexed collection of levels, kept sorted in book order
/// (best price first), plus a cached aggregate `total_quantity` equal,
/// while the book is consistent, to the sum of the level caches.
///
/// The bids side iterates highest price first (`descending`), the asks
/// side lowest first. The caches are not recomputed here: the matching
/// engine updates them together with its fills and cancels, which is why
/// `set_total_quantity` and `set_level_quantity` are raw setters.
pub struct OrderMap {
    pub orders: Vec<(Price, Orders)>,
    pub total_quantity: Quantity,
    pub descending: bool,
}

impl OrderMap {
    /// The levels in book order: best price first.
    pub open spec fn levels(&self) -> Seq<(Price, Orders)> {
        self.orders@
    }

    pub open spec fn total_spec(&self) -> Quantity {
        self.total_quantity
    }

    pub open spec fn is_descending(&self) -> bool {
        self.descending
    }

    /// `a` comes strictly before `b` in this map's book order.
    pub open spec fn key_before(&self, a: Price, b: Price) -> bool {
        if self.descending {
            a > b
        } else {
            a < b
        }
    }

    /// Well-formedness of the structure itself: levels strictly sorted in
    /// book order (hence prices pairwise distinct).
    pub open spec fn sorted(&self) -> bool {
        forall|i: int, j: int|
            0 <= i < j < self.levels().len() ==> self.key_before(
                #[trigger] self.levels()[i].0,
                #[trigger] self.levels()[j].0,
            )
    }

    pub open spec fn has_level(&self, key: Price) -> bool {
        exists|i: int| 0 <= i < self.levels().len() && (#[trigger] self.levels()[i].0) == key
    }

    /// The position of the level priced `key`; under `sorted()` it is
    /// unique.
    pub open spec fn level_index(&self, key: Price) -> int {
        choose|i: int| 0 <= i < self.levels().len() && (#[trigger] self.levels()[i].0) == key
    }

    /// The level priced `key`.
    pub open spec fn level_at(&self, key: Price) -> Orders {
        self.levels()[self.level_index(key)].1
    }

    /// The sum of the cached level quantities, as an unbounded integer.
    pub open spec fn cache_sum(&self) -> int {
        Self::sum_of(self.levels())
    }

    pub open spec fn sum_of(levels: Seq<(Price, Orders)>) -> int
        decreases levels.len(),
    {
        if levels.len() == 0 {
            0
        } else {
            levels[0].1.qty() + Self::sum_of(levels.drop_first())
        }
    }

    pub proof fn lemma_unique_level(&self, i: int, j: int)
        requires
            self.sorted(),
            0 <= i < self.levels().len(),
            0 <= j < self.levels().len(),
            self.levels()[i].0 == self.levels()[j].0,
        ensures
            i == j,
    {
    }

    pub fn new(descending: bool) -> (r: Self)
        ensures
            r.levels() == Seq::<(Price, Orders)>::empty(),
            r.total_spec() == 0,
            r.is_descending() == descending,
            r.sorted(),
    {
        OrderMap { orders: Vec::new(), total_quantity: 0, descending }
    }

    /// The number of levels.
    pub fn len(&self) -> (r: usize)
        ensures
            r == self.levels().len(),
    {
        self.orders.len()
    }

    pub fn orders(&self) -> (r: &Vec<(Price, Orders)>)
        ensures
            r@ == self.levels(),
    {
        &self.orders
    }

    pub fn total_quantity(&self) -> (r: Quantity)
        ensures
            r == self.total_spec(),
    {
        self.total_quantity
    }

    pub fn set_total_quantity(&mut self, quantity: Quantity)
        ensures
            final(self).levels() == old(self).levels(),
            final(self).is_descending() == old(self).is_descending(),
            final(self).total_spec() == quantity,
    {
        self.total_quantity = quantity;
    }

    /// The position of the level priced `key`, if present.
    fn find_level(&self, key: &Price) -> (r: Option<usize>)
        ensures
            match r {
                Some(i) => i < self.levels().len() && self.levels()[i as int].0 == *key,
                None => !self.has_level(*key),
            },
    {
        let n = self.orders.len();
        let mut i: usize = 0;
        while i < n
            invariant
                n == self.levels().len(),
                i <= n,
                forall|j: int| 0 <= j < i ==> (#[trigger] self.levels()[j].0) != *key,
            decreases n - i,
        {
            if self.orders[i].0 == *key {
                return Some(i);
            }
            i = i + 1;
        }
        None
    }

    /// Whether the level at position `i` comes before `key` in book order.
    fn before_at(&self, i: usize, key: &Price) -> (r: bool)
        requires
            i < self.levels().len(),
        ensures
            r == self.key_before(self.levels()[i as int].0, *key),
    {
        let level_price = self.orders[i].0;
        if self.descending {
            level_price > *key
        } else {
            level_price < *key
        }
    }

    /// Appends an order to the tail of the level priced `key`, creating the
    /// level at its sorted position if it is absent, and adds `quantity` to
    /// the level cache and to the side cache.
    pub fn add_order(
        &mut self,
        key: &Price,
        order_idx: SlabIndex,
        order_id: OrderId,
        quantity: Quantity,
    )
        requires
            old(self).sorted(),
            old(self).total_spec() + quantity <= Quantity::MAX,
            old(self).has_level(*key) ==> old(self).level_at(*key).qty() + quantity
                <= Quantity::MAX,
        ensures
            final(self).sorted(),
            final(self).is_descending() == old(self).is_descending(),
            final(self).total_spec() == old(self).total_spec() + quantity,
            final(self).has_level(*key),
            old(self).has_level(*key) ==> {
                let li = old(self).level_index(*key);
                &&& final(self).levels().len() == old(self).levels().len()
                &&& final(self).level_index(*key) == li
                &&& final(self).levels()[li].0 == *key
                &&& final(self).levels()[li].1.metas() == old(self).levels()[li].1.metas().push(
                    OrderMeta::new_spec(order_idx, order_id),
                )
                &&& final(self).levels()[li].1.qty() == old(self).levels()[li].1.qty() + quantity
                &&& forall|i: int|
                    0 <= i < old(self).levels().len() && i != li ==> final(self).levels()[i] == old(self).levels()[i]
            },
            !old(self).has_level(*key) ==> {
                let pos = final(self).level_index(*key);
                &&& 0 <= pos <= old(self).levels().len()
                &&& forall|i: int|
                    0 <= i < pos ==> old(self).key_before(#[trigger] old(self).levels()[i].0, *key)
                &&& forall|i: int|
                    pos <= i < old(self).levels().len() ==> old(self).key_before(
                        *key,
                        #[trigger] old(self).levels()[i].0,
                    )
                &&& final(self).levels().len() == old(self).levels().len() + 1
                &&& final(self).levels()[pos].0 == *key
                &&& final(self).levels()[pos].1.metas() =~= seq![
                    OrderMeta::new_spec(order_idx, order_id),
                ]
                &&& final(self).levels()[pos].1.qty() == quantity
                &&& forall|i: int|
                    0 <= i < pos ==> final(self).levels()[i] == old(self).levels()[i]
                &&& forall|i: int|
                    pos < i < final(self).levels().len() ==> final(self).levels()[i] == old(self).levels()[i - 1]
            },
    {
        let ghost pre = *self;
        let n = self.orders.len();
        let mut pos: usize = 0;
        while pos < n && self.before_at(pos, key)
            invariant
                *self == pre,
                n == self.levels().len(),
                pos <= n,
                forall|j: int|
                    0 <= j < pos ==> self.key_before(#[trigger] self.levels()[j].0, *key),
            decreases n - pos,
        {
            pos = pos + 1;
        }
        if pos < self.orders.len() && self.orders[pos].0 == *key {
            proof {
                assert(self.has_level(*key));
                self.lemma_unique_level(pos as int, self.level_index(*key));
            }
            let pair = self.orders.remove(pos);
            let price = pair.0;
            let mut level = pair.1;
            level.add(order_idx, order_id, quantity);
            self.orders.insert(pos, (price, level));
            self.total_quantity = self.total_quantity + quantity;
            proof {
                assert(self.levels() =~= pre.levels().update(
                    pos as int,
                    self.levels()[pos as int],
                ));
                assert(self.levels()[pos as int].0 == *key);
                assert(self.has_level(*key));
                self.lemma_unique_level(pos as int, self.level_index(*key));
            }
        } else {
            proof {
                assert forall|i: int|
                    pos <= i < self.levels().len() implies self.key_before(
                    *key,
                    #[trigger] self.levels()[i].0,
                ) by {
                    if i > pos {
                        assert(self.key_before(self.levels()[pos as int].0, self.levels()[i].0));
                    }
                }
                assert(!self.has_level(*key));
            }
            let mut level = Orders::new();
            level.add(order_idx, order_id, quantity);
            self.orders.insert(pos, (*key, level));
            self.total_quantity = self.total_quantity + quantity;
            proof {
                assert(self.levels()[pos as int].0 == *key);
                assert(self.has_level(*key));
                assert(self.sorted());
                self.lemma_unique_level(pos as int, self.level_index(*key));
            }
        }
    }

    pub fn get_orders(&self, key: &Price) -> (r: Option<&Orders>)
        requires
            self.sorted(),
        ensures
            (r is Some) == self.has_level(*key),
            r is Some ==> r == Some(&self.level_at(*key)),
    {
        match self.find_level(key) {
            Some(i) => {
                proof {
                    assert(self.has_level(*key));
                    self.lemma_unique_level(i as int, self.level_index(*key));
                }
                Some(&self.orders[i].1)
            },
            None => None,
        }
    }

    /// Removes the whole level priced `key`, returning it. The side cache
    /// is untouched: the engine has already drained what it removes.
    pub fn remove_orders(&mut self, key: &Price) -> (r: Option<Orders>)
        requires
            old(self).sorted(),
        ensures
            final(self).sorted(),
            final(self).is_descending() == old(self).is_descending(),
            final(self).total_spec() == old(self).total_spec(),
            (r is Some) == old(self).has_level(*key),
            !old(self).has_level(*key) ==> final(self).levels() == old(self).levels(),
            old(self).has_level(*key) ==> {
                &&& r == Some(old(self).level_at(*key))
                &&& final(self).levels() == old(self).levels().remove(
                    old(self).level_index(*key),
                )
            },
    {
        match self.find_level(key) {
            Some(i) => {
                proof {
                    assert(self.has_level(*key));
                    self.lemma_unique_level(i as int, self.level_index(*key));
                }
                let pair = self.orders.remove(i);
                Some(pair.1)
            },
            None => None,
        }
    }

    /// The best resting price of this side, if any.
    pub fn peek_key(&self) -> (r: Option<Price>)
        ensures
            self.levels().len() == 0 ==> r is None,
            self.levels().len() > 0 ==> r == Some(self.levels()[0].0),
    {
        if self.orders.len() > 0 {
            Some(self.orders[0].0)
        } else {
            None
        }
    }

    /// The best level of this side, if any.
    pub fn peek(&self) -> (r: Option<&(Price, Orders)>)
        ensures
            self.levels().len() == 0 ==> r is None,
            self.levels().len() > 0 ==> r == Some(&self.levels()[0]),
    {
        if self.orders.len() > 0 {
            Some(&self.orders[0])
        } else {
            None
        }
    }

    /// Pops the front element of the level priced `key`. The caches are
    /// untouched.
    pub fn pop_front_at(&mut self, key: &Price) -> (r: OrderMeta)
        requires
            old(self).sorted(),
            old(self).has_level(*key),
            old(self).level_at(*key).metas().len() > 0,
        ensures
            final(self).sorted(),
            final(self).is_descending() == old(self).is_descending(),
            final(self).total_spec() == old(self).total_spec(),
            final(self).levels().len() == old(self).levels().len(),
            final(self).has_level(*key),
            final(self).level_index(*key) == old(self).level_index(*key),
            r == old(self).level_at(*key).metas()[0],
            final(self).level_at(*key).metas() == old(self).level_at(*key).metas().drop_first(),
            final(self).level_at(*key).qty() == old(self).level_at(*key).qty(),
            final(self).levels()[old(self).level_index(*key)].0 == *key,
            forall|i: int|
                0 <= i < old(self).levels().len() && i != old(self).level_index(*key) ==> final(self).levels()[i] == old(self).levels()[i],
    {
        let i = self.find_level(key).unwrap();
        proof {
            self.lemma_unique_level(i as int, self.level_index(*key));
        }
        let pair = self.orders.remove(i);
        let price = pair.0;
        let mut level = pair.1;
        let r = level.pop_front().unwrap();
        self.orders.insert(i, (price, level));
        proof {
            assert(self.levels() =~= old(self).levels().update(
                i as int,
                self.levels()[i as int],
            ));
            assert(self.levels()[i as int].0 == *key);
            assert(self.has_level(*key));
            self.lemma_unique_level(i as int, self.level_index(*key));
        }
        r
    }

    /// Overwrites the cached quantity of the level priced `key`. Everything
    /// else is untouched.
    pub fn set_level_quantity(&mut self, key: &Price, quantity: Quantity)
        requires
            old(self).sorted(),
            old(self).has_level(*key),
        ensures
            final(self).sorted(),
            final(self).is_descending() == old(self).is_descending(),
            final(self).total_spec() == old(self).total_spec(),
            final(self).levels().len() == old(self).levels().len(),
            final(self).has_level(*key),
            final(self).level_index(*key) == old(self).level_index(*key),
            final(self).level_at(*key).metas() == old(self).level_at(*key).metas(),
            final(self).level_at(*key).qty() == quantity,
            final(self).levels()[old(self).level_index(*key)].0 == *key,
            forall|i: int|
                0 <= i < old(self).levels().len() && i != old(self).level_index(*key) ==> final(self).levels()[i] == old(self).levels()[i],
    {
        let i = self.find_level(key).unwrap();
        proof {
            self.lemma_unique_level(i as int, self.level_index(*key));
        }
        let pair = self.orders.remove(i);
        let price = pair.0;
        let mut level = pair.1;
        level.set_orders_quantity(quantity);
        self.orders.insert(i, (price, level));
        proof {
            assert(self.levels() =~= old(self).levels().update(
                i as int,
                self.levels()[i as int],
            ));
            assert(self.levels()[i as int].0 == *key);
            assert(self.has_level(*key));
            self.lemma_unique_level(i as int, self.level_index(*key));
        }
    }

    /// Removes the element at `index` of the level priced `key`, returning
    /// it. The caches are untouched.
    pub fn remove_meta_at(&mut self, key: &Price, index: usize) -> (r: OrderMeta)
        requires
            old(self).sorted(),
            old(self).has_level(*key),
            index < old(self).level_at(*key).metas().len(),
        ensures
            final(self).sorted(),
            final(self).is_descending() == old(self).is_descending(),
            final(self).total_spec() == old(self).total_spec(),
            final(self).levels().len() == old(self).levels().len(),
            final(self).has_level(*key),
            final(self).level_index(*key) == old(self).level_index(*key),
            r == old(self).level_at(*key).metas()[index as int],
            final(self).level_at(*key).metas() == old(self).level_at(*key).metas().remove(
                index as int,
            ),
            final(self).level_at(*key).qty() == old(self).level_at(*key).qty(),
            final(self).levels()[old(self).level_index(*key)].0 == *key,
            forall|i: int|
                0 <= i < old(self).levels().len() && i != old(self).level_index(*key) ==> final(self).levels()[i] == old(self).levels()[i],
    {
        let i = self.find_level(key).unwrap();
        proof {
            self.lemma_unique_level(i as int, self.level_index(*key));
        }
        let pair = self.orders.remove(i);
        let price = pair.0;
        let mut level = pair.1;
        let r = level.remove_at(index);
        self.orders.insert(i, (price, level));
        proof {
            assert(self.levels() =~= old(self).levels().update(
                i as int,
                self.levels()[i as int],
            ));
            assert(self.levels()[i as int].0 == *key);
            assert(self.has_level(*key));
            self.lemma_unique_level(i as int, self.level_index(*key));
        }
        r
    }

    /// Sums the cached level quantities in book order while the level price
    /// is marketable for an order of side `order_side` limited to `key`,
    /// stopping early once the sum exceeds `quantity`. Used for the
    /// fill-or-kill feasibility test.
    pub fn collect_quantity_match_price(
        &self,
        key: &Price,
        order_side: &OrderSide,
        quantity: &Quantity,
    ) -> (r: Quantity)
        requires
            self.cache_sum() <= Quantity::MAX,
        ensures
            r == walk_sum(self.levels(), *order_side, *key, *quantity as int),
    {
        let mut result: Quantity = 0;
        let n = self.orders.len();
        let mut i: usize = 0;
        proof {
            assert(self.levels().skip(0) =~= self.levels());
        }
        while i < n
            invariant
                n == self.levels().len(),
                i <= n,
                self.cache_sum() <= Quantity::MAX,
                result <= *quantity,
                result + Self::sum_of(self.levels().skip(i as int)) <= self.cache_sum(),
                walk_sum(self.levels(), *order_side, *key, *quantity as int) == result + walk_sum(
                    self.levels().skip(i as int),
                    *order_side,
                    *key,
                    *quantity - result,
                ),
            decreases n - i,
        {
            let ghost rest = self.levels().skip(i as int);
            proof {
                Self::lemma_sum_of_split(self.levels(), i as int);
                Self::lemma_sum_of_nonneg(self.levels().skip(i as int + 1));
                assert(rest.drop_first() =~= self.levels().skip(i as int + 1));
                assert(rest[0] == self.levels()[i as int]);
            }
            let level_price = self.orders[i].0;
            let is_marketable = if order_side.is_buy() {
                *key >= level_price
            } else {
                *key <= level_price
            };
            if !is_marketable {
                return result;
            }
            let q = self.orders[i].1.orders_quantity();
            result = result + q;
            if result > *quantity {
                return result;
            }
            i = i + 1;
        }
        result
    }

    pub proof fn lemma_sum_of_update(levels: Seq<(Price, Orders)>, i: int, l: (Price, Orders))
        requires
            0 <= i < levels.len(),
        ensures
            Self::sum_of(levels.update(i, l)) == Self::sum_of(levels) - levels[i].1.qty()
                + l.1.qty(),
        decreases i,
    {
        if i == 0 {
            assert(levels.update(0, l)[0] == l);
            assert(levels.update(0, l).drop_first() =~= levels.drop_first());
        } else {
            Self::lemma_sum_of_update(levels.drop_first(), i - 1, l);
            assert(levels.update(i, l).drop_first() =~= levels.drop_first().update(i - 1, l));
            assert(levels.update(i, l)[0] == levels[0]);
        }
    }

    pub proof fn lemma_sum_of_insert(levels: Seq<(Price, Orders)>, pos: int, l: (Price, Orders))
        requires
            0 <= pos <= levels.len(),
        ensures
            Self::sum_of(levels.insert(pos, l)) == Self::sum_of(levels) + l.1.qty(),
        decreases pos,
    {
        if pos == 0 {
            assert(levels.insert(0, l)[0] == l);
            assert(levels.insert(0, l).drop_first() =~= levels);
        } else {
            Self::lemma_sum_of_insert(levels.drop_first(), pos - 1, l);
            assert(levels.insert(pos, l).drop_first() =~= levels.drop_first().insert(pos - 1, l));
            assert(levels.insert(pos, l)[0] == levels[0]);
        }
    }

    pub proof fn lemma_sum_of_remove(levels: Seq<(Price, Orders)>, i: int)
        requires
            0 <= i < levels.len(),
        ensures
            Self::sum_of(levels.remove(i)) == Self::sum_of(levels) - levels[i].1.qty(),
        decreases i,
    {
        if i == 0 {
            assert(levels.remove(0) =~= levels.drop_first());
        } else {
            Self::lemma_sum_of_remove(levels.drop_first(), i - 1);
            assert(levels.remove(i).drop_first() =~= levels.drop_first().remove(i - 1));
            assert(levels.remove(i)[0] == levels[0]);
        }
    }

    /// Each level cache is bounded by the whole sum.
    pub proof fn lemma_level_le_sum(levels: Seq<(Price, Orders)>, i: int)
        requires
            0 <= i < levels.len(),
        ensures
            levels[i].1.qty() <= Self::sum_of(levels),
        decreases i,
    {
        if i == 0 {
            Self::lemma_sum_of_nonneg(levels.drop_first());
        } else {
            Self::lemma_level_le_sum(levels.drop_first(), i - 1);
            assert(levels.drop_first()[i - 1] == levels[i]);
        }
    }

    pub proof fn lemma_sum_of_split(levels: Seq<(Price, Orders)>, i: int)
        requires
            0 <= i < levels.len(),
        ensures
            Self::sum_of(levels.skip(i)) == levels[i].1.qty() + Self::sum_of(levels.skip(i + 1)),
        decreases i,
    {
        if i == 0 {
            assert(levels.skip(0) == levels);
            assert(levels.skip(1) == levels.drop_first());
        } else {
            Self::lemma_sum_of_split(levels.drop_first(), i - 1);
            assert(levels.drop_first().skip(i - 1) == levels.skip(i));
            assert(levels.drop_first().skip(i) == levels.skip(i + 1));
        }
    }

    pub proof fn lemma_sum_of_nonneg(levels: Seq<(Price, Orders)>)
        ensures
            Self::sum_of(levels) >= 0,
        decreases levels.len(),
    {
        if levels.len() > 0 {
            Self::lemma_sum_of_nonneg(levels.drop_first());
        }
    }

    proof fn lemma_sum_of_push(levels: Seq<(Price, Orders)>, x: (Price, Orders))
        ensures
            Self::sum_of(levels.push(x)) == Self::sum_of(levels) + x.1.qty(),
        decreases levels.len(),
    {
        if levels.len() == 0 {
            assert(levels.push(x).drop_first() =~= levels);
        } else {
            Self::lemma_sum_of_push(levels.drop_first(), x);
            assert(levels.push(x).drop_first() =~= levels.drop_first().push(x));
        }
    }

    proof fn lemma_sum_of_len_bound(levels: Seq<(Price, Orders)>)
        ensures
            Self::sum_of(levels) <= levels.len() * (Quantity::MAX as int),
        decreases levels.len(),
    {
        if levels.len() > 0 {
            Self::lemma_sum_of_len_bound(levels.drop_first());
        }
    }

    /// Collects the level prices in book order until `is_break` answers
    /// true for one; that price and everything behind it are left out.
    pub fn collect_until_key<F: Fn(&Price) -> bool>(&self, is_break: F) -> (r: Vec<Price>)
        requires
            forall|p: Price| #[trigger] is_break.requires((&p,)),
        ensures
            r@.len() <= self.levels().len(),
            forall|i: int| 0 <= i < r@.len() ==> #[trigger] r@[i] == self.levels()[i].0,
            forall|i: int|
                0 <= i < r@.len() ==> is_break.ensures((&(#[trigger] self.levels()[i]).0,), false),
            r@.len() < self.levels().len() ==> is_break.ensures(
                (&self.levels()[r@.len() as int].0,),
                true,
            ),
    {
        let mut result: Vec<Price> = Vec::new();
        let n = self.orders.len();
        let mut i: usize = 0;
        while i < n
            invariant
                n == self.levels().len(),
                i <= n,
                result@.len() == i,
                forall|p: Price| #[trigger] is_break.requires((&p,)),
                forall|j: int| 0 <= j < i ==> #[trigger] result@[j] == self.levels()[j].0,
                forall|j: int|
                    0 <= j < i ==> is_break.ensures((&(#[trigger] self.levels()[j]).0,), false),
            decreases n - i,
        {
            let key = self.orders[i].0;
            if is_break(&key) {
                return result;
            }
            result.push(key);
            i = i + 1;
        }
        result
    }

    /// Recomputes the total from the level caches, saturating at the
    /// largest representable quantity. For diagnostics.
    pub fn recalculate_total(&self) -> (r: Quantity)
        ensures
            r == if self.cache_sum() <= Quantity::MAX {
                self.cache_sum()
            } else {
                Quantity::MAX as int
            },
    {
        let mut result: Quantity = 0;
        let n = self.orders.len();
        let mut i: usize = 0;
        proof {
            assert(self.levels().take(0) =~= Seq::<(Price, Orders)>::empty());
        }
        while i < n
            invariant
                n == self.levels().len(),
                i <= n,
                result == if Self::sum_of(self.levels().take(i as int)) <= Quantity::MAX {
                    Self::sum_of(self.levels().take(i as int))
                } else {
                    Quantity::MAX as int
                },
            decreases n - i,
        {
            proof {
                assert(self.levels().take(i as int + 1) =~= self.levels().take(i as int).push(
                    self.levels()[i as int],
                ));
                Self::lemma_sum_of_push(self.levels().take(i as int), self.levels()[i as int]);
            }
            let q = self.orders[i].1.orders_quantity();
            if result > Quantity::MAX - q {
                result = Quantity::MAX;
            } else {
                result = result + q;
            }
            i = i + 1;
        }
        proof {
            assert(self.levels().take(n as int) =~= self.levels());
        }
        result
    }

    /// Checks the side cache against the level caches: `Ok` exactly when
    /// `total_quantity` equals the sum of the cached level quantities.
    pub fn validate_cache(&self) -> (r: Result<(), String>)
        ensures
            (r is Ok) == (self.total_spec() == self.cache_sum()),
    {
        let mut acc: u128 = 0;
        let n = self.orders.len();
        let mut i: usize = 0;
        proof {
            assert(self.levels().take(0) =~= Seq::<(Price, Orders)>::empty());
        }
        while i < n
            invariant
                n == self.levels().len(),
                i <= n,
                acc == Self::sum_of(self.levels().take(i as int)),
            decreases n - i,
        {
            proof {
                assert(self.levels().take(i as int + 1) =~= self.levels().take(i as int).push(
                    self.levels()[i as int],
                ));
                Self::lemma_sum_of_push(self.levels().take(i as int), self.levels()[i as int]);
                Self::lemma_sum_of_len_bound(self.levels().take(i as int));
                Self::lemma_sum_of_nonneg(self.levels().take(i as int));
            }
            let q = self.orders[i].1.orders_quantity();
            acc = acc + q as u128;
            i = i + 1;
        }
        proof {
            assert(self.levels().take(n as int) =~= self.levels());
        }
        if acc == self.total_quantity as u128 {
            Ok(())
        } else {
            Err(cache_mismatch_message(self.total_quantity, acc))
        }
    }
}

/// Relies on the format! macro of std to render the diagnostic text; the
/// message contents carry no contract.
#[verifier::external_body]
fn cache_mismatch_message(cached: u64, calculated: u128) -> String {
    format!("Cache inconsistency: cached={}, calculated={}", cached, calculated)
}

} // verus!
