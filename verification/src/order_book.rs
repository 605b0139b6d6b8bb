use vstd::prelude::*;

use crate::arena::{
    empty_pool, slab_entries, slab_get, slab_insert, slab_remove, slab_set,
    slab_try_remove, slab_with_capacity, SlabKey,
};
use crate::model::{
    fillable_sum, first_id_index, has_id, lemma_first_id_index, lemma_sum_trades_nonneg,
    lemma_sum_trades_push, lemma_sum_trades_split,
    lemma_walk_sum_reaches, marketable_at, min_q, opposite, sum_trades, trades_of,
};
use crate::order::{Order, OrderId, OrderSide, OrderType, Price, Quantity, TimeInForce};
use crate::order_error::OrderError;
use crate::order_map::OrderMap;
use crate::order_match::OrderMatch;
use crate::order_spec::OrderSpec;
use crate::orders::{OrderMeta, Orders};

verus! {

/// A single-symbol limit order book: the arena that owns every resident
/// order, the two matched sides, the two parked stop sides, and the
/// current market price.
pub struct OrderBook {
    pub order_allocator: slab::Slab<OrderSpec>,
    pub bids: OrderMap,
    pub asks: OrderMap,
    pub stop_bids: OrderMap,
    pub stop_asks: OrderMap,
    pub current_market_price: Price,
}

impl OrderBook {
    /// The occupied arena slots.
    pub open spec fn pool(&self) -> Map<SlabKey, OrderSpec> {
        slab_entries(&self.order_allocator)
    }

    pub open spec fn market_price_spec(&self) -> Price {
        self.current_market_price
    }

    /// The matched side on which an order of side `side` would rest.
    pub open spec fn side_sel(&self, side: OrderSide) -> OrderMap {
        if side == OrderSide::Buy {
            self.bids
        } else {
            self.asks
        }
    }

    /// The matched side an order of side `side` trades against.
    pub open spec fn opp_sel(&self, side: OrderSide) -> OrderMap {
        self.side_sel(opposite(side))
    }

    /// The stop side on which a stop order of side `side` is parked.
    pub open spec fn stop_sel(&self, side: OrderSide) -> OrderMap {
        if side == OrderSide::Buy {
            self.stop_bids
        } else {
            self.stop_asks
        }
    }

    /// The four sides in a fixed enumeration, for stating that a handle is
    /// queued at most once anywhere.
    pub open spec fn side_ref(&self, c: int) -> OrderMap {
        if c == 0 {
            self.bids
        } else if c == 1 {
            self.asks
        } else if c == 2 {
            self.stop_bids
        } else {
            self.stop_asks
        }
    }

    pub open spec fn pos_valid(&self, c: int, i: int, j: int) -> bool {
        &&& 0 <= c < 4
        &&& 0 <= i < self.side_ref(c).levels().len()
        &&& 0 <= j < self.side_ref(c).levels()[i].1.metas().len()
    }

    /// The handle queued at position `j` of level `i` of side `c`.
    pub open spec fn handle_at(&self, c: int, i: int, j: int) -> SlabKey {
        self.side_ref(c).levels()[i].1.metas()[j].slab_idx_spec()
    }

    /// Every handle is queued at most once over the whole book.
    pub open spec fn handles_distinct(&self) -> bool {
        forall|c1: int, i1: int, j1: int, c2: int, i2: int, j2: int|
            self.pos_valid(c1, i1, j1) && self.pos_valid(c2, i2, j2) && #[trigger] self.handle_at(
                c1,
                i1,
                j1,
            ) == #[trigger] self.handle_at(c2, i2, j2) ==> c1 == c2 && i1 == i2 && j1 == j2
    }

    /// `h` is queued nowhere in the book.
    pub open spec fn not_queued(&self, h: SlabKey) -> bool {
        forall|c: int, i: int, j: int|
            self.pos_valid(c, i, j) ==> #[trigger] self.handle_at(c, i, j) != h
    }

    /// The well-formedness of the whole book; the public operations
    /// preserve it. It packages the cache-consistency, no-empty-level and
    /// handle-liveness invariants: bids iterate descending and asks
    /// ascending; each side cache equals the sum of its level caches; every
    /// level is nonempty with its cache equal to the pooled sum of its
    /// entries; every queued handle is live in the pool with the side,
    /// price and id of its entry and a positive quantity; no ephemeral
    /// order rests on a matched side; and a handle is queued at most once.
    pub open spec fn wf(&self) -> bool {
        &&& self.bids.is_descending()
        &&& !self.asks.is_descending()
        &&& self.stop_bids.is_descending()
        &&& !self.stop_asks.is_descending()
        &&& Self::side_wf(self.pool(), self.bids, OrderSide::Buy)
        &&& Self::side_wf(self.pool(), self.asks, OrderSide::Sell)
        &&& Self::side_wf(self.pool(), self.stop_bids, OrderSide::Buy)
        &&& Self::side_wf(self.pool(), self.stop_asks, OrderSide::Sell)
        &&& Self::side_non_ephemeral(self.pool(), self.bids)
        &&& Self::side_non_ephemeral(self.pool(), self.asks)
        &&& self.handles_distinct()
    }

    /// One side's local invariant.
    pub open spec fn side_wf(pool: Map<SlabKey, OrderSpec>, m: OrderMap, side: OrderSide) -> bool {
        &&& m.sorted()
        &&& m.total_spec() == m.cache_sum()
        &&& forall|i: int|
            0 <= i < m.levels().len() ==> Self::level_wf(pool, #[trigger] m.levels()[i], side)
    }

    pub open spec fn level_wf(
        pool: Map<SlabKey, OrderSpec>,
        level: (Price, Orders),
        side: OrderSide,
    ) -> bool {
        &&& level.1.metas().len() > 0
        &&& level.1.qty() > 0
        &&& level.1.qty() == Self::pooled_qty(pool, level.1.metas())
        &&& forall|j: int|
            0 <= j < level.1.metas().len() ==> Self::meta_wf(
                pool,
                #[trigger] level.1.metas()[j],
                level.0,
                side,
            )
    }

    pub open spec fn meta_wf(
        pool: Map<SlabKey, OrderSpec>,
        meta: OrderMeta,
        price: Price,
        side: OrderSide,
    ) -> bool {
        &&& pool.contains_key(meta.slab_idx_spec())
        &&& pool[meta.slab_idx_spec()].order_side == side
        &&& pool[meta.slab_idx_spec()].price == price
        &&& pool[meta.slab_idx_spec()].id == meta.order_id_spec()
        &&& pool[meta.slab_idx_spec()].quantity > 0
    }

    /// No order parked on this side is immediate-or-cancel or fill-or-kill.
    pub open spec fn side_non_ephemeral(pool: Map<SlabKey, OrderSpec>, m: OrderMap) -> bool {
        forall|i: int, j: int|
            0 <= i < m.levels().len() && 0 <= j < (#[trigger] m.levels()[i]).1.metas().len() ==> {
                let tif = pool[(#[trigger] m.levels()[i].1.metas()[j]).slab_idx_spec()].time_in_force;
                tif != TimeInForce::IOC && tif != TimeInForce::FOK
            }
    }

    /// The sum of the pooled quantities of the queued entries.
    pub open spec fn pooled_qty(pool: Map<SlabKey, OrderSpec>, metas: Seq<OrderMeta>) -> int
        decreases metas.len(),
    {
        if metas.len() == 0 {
            0
        } else {
            pool[metas[0].slab_idx_spec()].quantity + Self::pooled_qty(pool, metas.drop_first())
        }
    }

    pub proof fn lemma_pooled_nonneg(pool: Map<SlabKey, OrderSpec>, metas: Seq<OrderMeta>)
        ensures
            Self::pooled_qty(pool, metas) >= 0,
        decreases metas.len(),
    {
        if metas.len() > 0 {
            Self::lemma_pooled_nonneg(pool, metas.drop_first());
        }
    }

    /// Two pools that agree on the queued handles give a level the same sum.
    pub proof fn lemma_pooled_agree(
        p1: Map<SlabKey, OrderSpec>,
        p2: Map<SlabKey, OrderSpec>,
        metas: Seq<OrderMeta>,
    )
        requires
            forall|j: int|
                0 <= j < metas.len() ==> p1[(#[trigger] metas[j]).slab_idx_spec()] == p2[metas[j].slab_idx_spec()],
        ensures
            Self::pooled_qty(p1, metas) == Self::pooled_qty(p2, metas),
        decreases metas.len(),
    {
        if metas.len() > 0 {
            assert forall|j: int|
                0 <= j < metas.drop_first().len() implies p1[(#[trigger] metas.drop_first()[j]).slab_idx_spec()]
                == p2[metas.drop_first()[j].slab_idx_spec()] by {
                assert(metas.drop_first()[j] == metas[j + 1]);
            }
            Self::lemma_pooled_agree(p1, p2, metas.drop_first());
        }
    }

    pub proof fn lemma_pooled_push(
        pool: Map<SlabKey, OrderSpec>,
        metas: Seq<OrderMeta>,
        m: OrderMeta,
    )
        ensures
            Self::pooled_qty(pool, metas.push(m)) == Self::pooled_qty(pool, metas)
                + pool[m.slab_idx_spec()].quantity,
        decreases metas.len(),
    {
        if metas.len() == 0 {
            assert(metas.push(m).drop_first() =~= metas);
        } else {
            Self::lemma_pooled_push(pool, metas.drop_first(), m);
            assert(metas.push(m).drop_first() =~= metas.drop_first().push(m));
        }
    }

    pub proof fn lemma_pooled_remove(pool: Map<SlabKey, OrderSpec>, metas: Seq<OrderMeta>, i: int)
        requires
            0 <= i < metas.len(),
        ensures
            Self::pooled_qty(pool, metas.remove(i)) == Self::pooled_qty(pool, metas)
                - pool[metas[i].slab_idx_spec()].quantity,
        decreases i,
    {
        if i == 0 {
            assert(metas.remove(0) =~= metas.drop_first());
        } else {
            Self::lemma_pooled_remove(pool, metas.drop_first(), i - 1);
            assert(metas.remove(i).drop_first() =~= metas.drop_first().remove(i - 1));
            assert(metas.remove(i)[0] == metas[0]);
        }
    }

    /// A nonempty queue of live positive-quantity orders sums positive.
    pub proof fn lemma_pooled_pos(pool: Map<SlabKey, OrderSpec>, metas: Seq<OrderMeta>)
        requires
            metas.len() > 0,
            forall|j: int|
                0 <= j < metas.len() ==> pool[(#[trigger] metas[j]).slab_idx_spec()].quantity > 0,
        ensures
            Self::pooled_qty(pool, metas) > 0,
    {
        Self::lemma_pooled_nonneg(pool, metas.drop_first());
    }

    /// A level keeps its invariant under any pool change that does not
    /// touch its handles.
    pub proof fn lemma_level_wf_agree(
        p1: Map<SlabKey, OrderSpec>,
        p2: Map<SlabKey, OrderSpec>,
        level: (Price, Orders),
        side: OrderSide,
    )
        requires
            Self::level_wf(p1, level, side),
            forall|j: int|
                0 <= j < level.1.metas().len() ==> {
                    let h = (#[trigger] level.1.metas()[j]).slab_idx_spec();
                    p2.contains_key(h) && p1[h] == p2[h]
                },
        ensures
            Self::level_wf(p2, level, side),
    {
        Self::lemma_pooled_agree(p1, p2, level.1.metas());
    }

    /// A book with equal containers and pool is as well formed.
    pub proof fn lemma_wf_same(a: OrderBook, b: OrderBook)
        requires
            a.wf(),
            b.pool() == a.pool(),
            b.bids == a.bids,
            b.asks == a.asks,
            b.stop_bids == a.stop_bids,
            b.stop_asks == a.stop_asks,
        ensures
            b.wf(),
    {
        assert(b.handles_distinct()) by {
            assert forall|c1: int, i1: int, j1: int, c2: int, i2: int, j2: int|
                b.pos_valid(c1, i1, j1) && b.pos_valid(c2, i2, j2) && #[trigger] b.handle_at(
                    c1,
                    i1,
                    j1,
                ) == #[trigger] b.handle_at(c2, i2, j2) implies c1 == c2 && i1 == i2 && j1
                == j2 by {
                assert(b.side_ref(c1) == a.side_ref(c1));
                assert(b.side_ref(c2) == a.side_ref(c2));
                assert(a.handle_at(c1, i1, j1) == a.handle_at(c2, i2, j2));
            }
        }
    }

    /// The order side whose entries container `c` holds.
    pub open spec fn side_of_container(c: int) -> OrderSide {
        if c == 0 || c == 2 {
            OrderSide::Buy
        } else {
            OrderSide::Sell
        }
    }

    /// What appending one order to the tail of the level priced `price` of
    /// a side does to it: exactly the contract of `OrderMap::add_order`.
    pub open spec fn added_to(oldm: OrderMap, newm: OrderMap, price: Price, h: SlabKey, id: OrderId, q: Quantity) -> bool {
        &&& newm.sorted()
        &&& newm.is_descending() == oldm.is_descending()
        &&& newm.total_spec() == oldm.total_spec() + q
        &&& newm.has_level(price)
        &&& oldm.has_level(price) ==> {
            let li = oldm.level_index(price);
            &&& newm.levels().len() == oldm.levels().len()
            &&& newm.level_index(price) == li
            &&& newm.levels()[li].0 == price
            &&& newm.levels()[li].1.metas() == oldm.levels()[li].1.metas().push(
                OrderMeta::new_spec(h, id),
            )
            &&& newm.levels()[li].1.qty() == oldm.levels()[li].1.qty() + q
            &&& forall|i: int|
                0 <= i < oldm.levels().len() && i != li ==> newm.levels()[i] == oldm.levels()[i]
        }
        &&& !oldm.has_level(price) ==> {
            let pos = newm.level_index(price);
            &&& 0 <= pos <= oldm.levels().len()
            &&& newm.levels().len() == oldm.levels().len() + 1
            &&& newm.levels()[pos].0 == price
            &&& newm.levels()[pos].1.metas() =~= seq![OrderMeta::new_spec(h, id)]
            &&& newm.levels()[pos].1.qty() == q
            &&& forall|i: int| 0 <= i < pos ==> newm.levels()[i] == oldm.levels()[i]
            &&& forall|i: int|
                pos < i < newm.levels().len() ==> newm.levels()[i] == oldm.levels()[i - 1]
        }
    }

    /// Resting a freshly pooled order on the side it belongs to keeps the
    /// whole book well formed.
    pub proof fn lemma_add_wf(pre: OrderBook, post: OrderBook, c: int, h: SlabKey)
        requires
            pre.wf(),
            0 <= c < 4,
            pre.pool().contains_key(h),
            pre.not_queued(h),
            pre.pool()[h].order_side == Self::side_of_container(c),
            pre.pool()[h].quantity > 0,
            c < 2 ==> pre.pool()[h].time_in_force != TimeInForce::IOC && pre.pool()[h].time_in_force
                != TimeInForce::FOK,
            post.pool() == pre.pool(),
            forall|d: int| 0 <= d < 4 && d != c ==> #[trigger] post.side_ref(d) == pre.side_ref(d),
            Self::added_to(
                pre.side_ref(c),
                post.side_ref(c),
                pre.pool()[h].price,
                h,
                pre.pool()[h].id,
                pre.pool()[h].quantity,
            ),
        ensures
            post.wf(),
    {
        let pool = pre.pool();
        let ord = pool[h];
        let oldm = pre.side_ref(c);
        let newm = post.side_ref(c);
        let side = Self::side_of_container(c);
        let meta = OrderMeta::new_spec(h, ord.id);
        if c != 0 {
            assert(post.side_ref(0) == pre.side_ref(0));
        }
        if c != 1 {
            assert(post.side_ref(1) == pre.side_ref(1));
        }
        if c != 2 {
            assert(post.side_ref(2) == pre.side_ref(2));
        }
        if c != 3 {
            assert(post.side_ref(3) == pre.side_ref(3));
        }
        assert(Self::side_wf(pool, oldm, side));
        if oldm.has_level(ord.price) {
            let li = oldm.level_index(ord.price);
            assert(0 <= li < oldm.levels().len());
            assert(newm.levels() =~= oldm.levels().update(li, newm.levels()[li]));
            OrderMap::lemma_sum_of_update(oldm.levels(), li, newm.levels()[li]);
            Self::lemma_pooled_push(pool, oldm.levels()[li].1.metas(), meta);
            assert(Self::level_wf(pool, oldm.levels()[li], side));
            assert forall|i: int| 0 <= i < newm.levels().len() implies Self::level_wf(
                pool,
                #[trigger] newm.levels()[i],
                side,
            ) by {
                if i != li {
                    assert(newm.levels()[i] == oldm.levels()[i]);
                } else {
                    let nm = newm.levels()[li].1.metas();
                    let om = oldm.levels()[li].1.metas();
                    assert forall|j: int| 0 <= j < nm.len() implies Self::meta_wf(
                        pool,
                        #[trigger] nm[j],
                        newm.levels()[li].0,
                        side,
                    ) by {
                        if j < om.len() {
                            assert(nm[j] == om[j]);
                        } else {
                            assert(nm[j] == meta);
                        }
                    }
                }
            }
            assert(Self::side_wf(pool, newm, side));
            if c < 2 {
                assert(Self::side_non_ephemeral(pool, newm)) by {
                    assert forall|i: int, j: int|
                        0 <= i < newm.levels().len() && 0 <= j < (
                        #[trigger] newm.levels()[i]).1.metas().len() implies {
                        let tif = pool[(#[trigger] newm.levels()[i].1.metas()[j]).slab_idx_spec()].time_in_force;
                        tif != TimeInForce::IOC && tif != TimeInForce::FOK
                    } by {
                        if i != li || j < oldm.levels()[i].1.metas().len() {
                            assert(newm.levels()[i].1.metas()[j] == oldm.levels()[i].1.metas()[j]);
                        } else {
                            assert(newm.levels()[i].1.metas()[j] == meta);
                        }
                    }
                }
            }
            assert(post.handles_distinct()) by {
                assert forall|c1: int, i1: int, j1: int, c2: int, i2: int, j2: int|
                    post.pos_valid(c1, i1, j1) && post.pos_valid(c2, i2, j2)
                        && #[trigger] post.handle_at(c1, i1, j1) == #[trigger] post.handle_at(
                        c2,
                        i2,
                        j2,
                    ) implies c1 == c2 && i1 == i2 && j1 == j2 by {
                    Self::origin_case_add_existing(pre, post, c, h, c1, i1, j1);
                    Self::origin_case_add_existing(pre, post, c, h, c2, i2, j2);
                }
            }
        } else {
            let pos = newm.level_index(ord.price);
            assert(newm.levels()[pos].1.metas() == seq![meta]);
            OrderMap::lemma_sum_of_insert(
                oldm.levels(),
                pos,
                newm.levels()[pos],
            );
            assert(newm.levels() =~= oldm.levels().insert(pos, newm.levels()[pos]));
            assert forall|i: int| 0 <= i < newm.levels().len() implies Self::level_wf(
                pool,
                #[trigger] newm.levels()[i],
                side,
            ) by {
                if i < pos {
                    assert(newm.levels()[i] == oldm.levels()[i]);
                } else if i > pos {
                    assert(newm.levels()[i] == oldm.levels()[i - 1]);
                } else {
                    assert(newm.levels()[pos].1.metas() =~= seq![meta]);
                    assert(newm.levels()[pos].1.metas().len() == 1);
                    assert(newm.levels()[pos].1.metas()[0] == meta);
                    assert(newm.levels()[pos].1.metas().drop_first() =~= Seq::<
                        OrderMeta,
                    >::empty());
                    assert(Self::pooled_qty(pool, newm.levels()[pos].1.metas().drop_first())
                        == 0);
                    assert(Self::pooled_qty(pool, newm.levels()[pos].1.metas()) == ord.quantity);
                }
            }
            assert(Self::side_wf(pool, newm, side));
            if c < 2 {
                assert(Self::side_non_ephemeral(pool, newm)) by {
                    assert forall|i: int, j: int|
                        0 <= i < newm.levels().len() && 0 <= j < (
                        #[trigger] newm.levels()[i]).1.metas().len() implies {
                        let tif = pool[(#[trigger] newm.levels()[i].1.metas()[j]).slab_idx_spec()].time_in_force;
                        tif != TimeInForce::IOC && tif != TimeInForce::FOK
                    } by {
                        if i < pos {
                            assert(newm.levels()[i] == oldm.levels()[i]);
                        } else if i > pos {
                            assert(newm.levels()[i] == oldm.levels()[i - 1]);
                        } else {
                            assert(newm.levels()[i].1.metas()[j] == meta);
                        }
                    }
                }
            }
            assert(post.handles_distinct()) by {
                assert forall|c1: int, i1: int, j1: int, c2: int, i2: int, j2: int|
                    post.pos_valid(c1, i1, j1) && post.pos_valid(c2, i2, j2)
                        && #[trigger] post.handle_at(c1, i1, j1) == #[trigger] post.handle_at(
                        c2,
                        i2,
                        j2,
                    ) implies c1 == c2 && i1 == i2 && j1 == j2 by {
                    Self::origin_case_add_new(pre, post, c, h, c1, i1, j1);
                    Self::origin_case_add_new(pre, post, c, h, c2, i2, j2);
                }
            }
        }
    }

    /// Where a post-state position comes from, when a meta was appended to
    /// an existing level `li` of container `c`: either the same pre-state
    /// position, or the new tail entry with handle `h`.
    proof fn origin_case_add_existing(
        pre: OrderBook,
        post: OrderBook,
        c: int,
        h: SlabKey,
        cx: int,
        ix: int,
        jx: int,
    )
        requires
            pre.wf(),
            0 <= c < 4,
            pre.pool().contains_key(h),
            post.pool() == pre.pool(),
            forall|d: int| 0 <= d < 4 && d != c ==> #[trigger] post.side_ref(d) == pre.side_ref(d),
            pre.side_ref(c).has_level(pre.pool()[h].price),
            Self::added_to(
                pre.side_ref(c),
                post.side_ref(c),
                pre.pool()[h].price,
                h,
                pre.pool()[h].id,
                pre.pool()[h].quantity,
            ),
            post.pos_valid(cx, ix, jx),
        ensures
            ({
                let li = pre.side_ref(c).level_index(pre.pool()[h].price);
                if cx == c && ix == li && jx == pre.side_ref(c).levels()[li].1.metas().len() {
                    post.handle_at(cx, ix, jx) == h
                } else {
                    pre.pos_valid(cx, ix, jx) && post.handle_at(cx, ix, jx) == pre.handle_at(
                        cx,
                        ix,
                        jx,
                    )
                }
            }),
    {
        let oldm = pre.side_ref(c);
        let newm = post.side_ref(c);
        let li = oldm.level_index(pre.pool()[h].price);
        if cx != c {
            assert(post.side_ref(cx) == pre.side_ref(cx));
        } else {
            if ix != li {
                assert(newm.levels()[ix] == oldm.levels()[ix]);
            } else {
                let om = oldm.levels()[li].1.metas();
                if jx < om.len() {
                    assert(newm.levels()[li].1.metas()[jx] == om[jx]);
                } else {
                    assert(newm.levels()[li].1.metas()[jx] == OrderMeta::new_spec(
                        h,
                        pre.pool()[h].id,
                    ));
                }
            }
        }
    }

    /// Where a post-state position comes from, when a new level was
    /// inserted at `pos` of container `c`: either a pre-state position
    /// (shifted past `pos`), or the single new entry with handle `h`.
    proof fn origin_case_add_new(
        pre: OrderBook,
        post: OrderBook,
        c: int,
        h: SlabKey,
        cx: int,
        ix: int,
        jx: int,
    )
        requires
            pre.wf(),
            0 <= c < 4,
            pre.pool().contains_key(h),
            post.pool() == pre.pool(),
            forall|d: int| 0 <= d < 4 && d != c ==> #[trigger] post.side_ref(d) == pre.side_ref(d),
            !pre.side_ref(c).has_level(pre.pool()[h].price),
            Self::added_to(
                pre.side_ref(c),
                post.side_ref(c),
                pre.pool()[h].price,
                h,
                pre.pool()[h].id,
                pre.pool()[h].quantity,
            ),
            post.pos_valid(cx, ix, jx),
        ensures
            ({
                let pos = post.side_ref(c).level_index(pre.pool()[h].price);
                if cx == c && ix == pos {
                    post.handle_at(cx, ix, jx) == h && jx == 0
                } else if cx == c && ix > pos {
                    pre.pos_valid(cx, ix - 1, jx) && post.handle_at(cx, ix, jx) == pre.handle_at(
                        cx,
                        ix - 1,
                        jx,
                    )
                } else {
                    pre.pos_valid(cx, ix, jx) && post.handle_at(cx, ix, jx) == pre.handle_at(
                        cx,
                        ix,
                        jx,
                    )
                }
            }),
    {
        let oldm = pre.side_ref(c);
        let newm = post.side_ref(c);
        let pos = newm.level_index(pre.pool()[h].price);
        if cx != c {
            assert(post.side_ref(cx) == pre.side_ref(cx));
        } else {
            if ix < pos {
                assert(newm.levels()[ix] == oldm.levels()[ix]);
            } else if ix > pos {
                assert(newm.levels()[ix] == oldm.levels()[ix - 1]);
            } else {
                assert(newm.levels()[pos].1.metas() =~= seq![OrderMeta::new_spec(
                    h,
                    pre.pool()[h].id,
                )]);
            }
        }
    }

    /// What removing the queue entry at position `mi` of the level at
    /// `li` does to a side: the level shrinks, or disappears when that
    /// entry was its last, and both caches drop by the entry's pooled
    /// quantity `q`.
    pub open spec fn removed_from(oldm: OrderMap, newm: OrderMap, li: int, mi: int, q: Quantity) -> bool {
        &&& newm.sorted()
        &&& newm.is_descending() == oldm.is_descending()
        &&& newm.total_spec() == oldm.total_spec() - q
        &&& if oldm.levels()[li].1.metas().len() == 1 {
            newm.levels() == oldm.levels().remove(li)
        } else {
            &&& newm.levels().len() == oldm.levels().len()
            &&& newm.levels()[li].0 == oldm.levels()[li].0
            &&& newm.levels()[li].1.metas() == oldm.levels()[li].1.metas().remove(mi)
            &&& newm.levels()[li].1.qty() == oldm.levels()[li].1.qty() - q
            &&& forall|i: int|
                0 <= i < oldm.levels().len() && i != li ==> newm.levels()[i] == oldm.levels()[i]
        }
    }

    /// Unqueueing one entry and releasing its pool slot keeps the book
    /// well formed, and its handle is then queued nowhere.
    pub proof fn lemma_remove_wf(pre: OrderBook, post: OrderBook, c: int, li: int, mi: int)
        requires
            pre.wf(),
            pre.pos_valid(c, li, mi),
            post.pool() == pre.pool().remove(pre.handle_at(c, li, mi)),
            forall|d: int| 0 <= d < 4 && d != c ==> #[trigger] post.side_ref(d) == pre.side_ref(d),
            Self::removed_from(
                pre.side_ref(c),
                post.side_ref(c),
                li,
                mi,
                pre.pool()[pre.handle_at(c, li, mi)].quantity,
            ),
            0 <= mi < pre.side_ref(c).levels()[li].1.metas().len(),
        ensures
            post.wf(),
            post.not_queued(pre.handle_at(c, li, mi)),
            forall|hh: SlabKey| pre.not_queued(hh) ==> #[trigger] post.not_queued(hh),
    {
        let pool = pre.pool();
        let h = pre.handle_at(c, li, mi);
        let q = pool[h].quantity;
        let oldm = pre.side_ref(c);
        let newm = post.side_ref(c);
        let side = Self::side_of_container(c);
        if c != 0 {
            assert(post.side_ref(0) == pre.side_ref(0));
        }
        if c != 1 {
            assert(post.side_ref(1) == pre.side_ref(1));
        }
        if c != 2 {
            assert(post.side_ref(2) == pre.side_ref(2));
        }
        if c != 3 {
            assert(post.side_ref(3) == pre.side_ref(3));
        }
        // Every queued handle other than the removed position's differs
        // from h, so the shrunk pool agrees with the old one there.
        assert forall|cx: int, ix: int, jx: int|
            pre.pos_valid(cx, ix, jx) && !(cx == c && ix == li && jx == mi) implies #[trigger] pre.handle_at(cx, ix, jx) != h by {
            assert(pre.handle_at(c, li, mi) == h);
        }
        // The untouched containers stay well formed under the shrunk pool.
        assert forall|d: int| 0 <= d < 4 && d != c implies Self::side_wf(
            post.pool(),
            #[trigger] post.side_ref(d),
            Self::side_of_container(d),
        ) by {
            let m = pre.side_ref(d);
            assert(Self::side_wf(pool, m, Self::side_of_container(d)));
            assert forall|i: int| 0 <= i < m.levels().len() implies Self::level_wf(
                post.pool(),
                #[trigger] m.levels()[i],
                Self::side_of_container(d),
            ) by {
                assert forall|j: int| 0 <= j < m.levels()[i].1.metas().len() implies {
                    let hh = (#[trigger] m.levels()[i].1.metas()[j]).slab_idx_spec();
                    post.pool().contains_key(hh) && pool[hh] == post.pool()[hh]
                } by {
                    assert(pre.handle_at(d, i, j) == m.levels()[i].1.metas()[j].slab_idx_spec());
                    assert(pre.pos_valid(d, i, j));
                }
                Self::lemma_level_wf_agree(
                    pool,
                    post.pool(),
                    m.levels()[i],
                    Self::side_of_container(d),
                );
            }
        }
        // The touched container.
        if oldm.levels()[li].1.metas().len() == 1 {
            assert(newm.levels() == oldm.levels().remove(li));
            OrderMap::lemma_sum_of_remove(oldm.levels(), li);
            assert(Self::level_wf(pool, oldm.levels()[li], side));
            assert(oldm.levels()[li].1.qty() == q) by {
                let ms = oldm.levels()[li].1.metas();
                assert(ms[0] == ms[mi]);
                assert(ms.drop_first() =~= Seq::<OrderMeta>::empty());
                assert(Self::pooled_qty(pool, ms.drop_first()) == 0);
                assert(Self::pooled_qty(pool, ms) == pool[ms[0].slab_idx_spec()].quantity);
                assert(ms[mi].slab_idx_spec() == h);
            }
            assert forall|i: int| 0 <= i < newm.levels().len() implies Self::level_wf(
                post.pool(),
                #[trigger] newm.levels()[i],
                side,
            ) by {
                let oi = if i < li {
                    i
                } else {
                    i + 1
                };
                assert(newm.levels()[i] == oldm.levels()[oi]);
                assert forall|j: int| 0 <= j < oldm.levels()[oi].1.metas().len() implies {
                    let hh = (#[trigger] oldm.levels()[oi].1.metas()[j]).slab_idx_spec();
                    post.pool().contains_key(hh) && pool[hh] == post.pool()[hh]
                } by {
                    assert(pre.pos_valid(c, oi, j));
                    assert(pre.handle_at(c, oi, j) == oldm.levels()[oi].1.metas()[j].slab_idx_spec());
                }
                Self::lemma_level_wf_agree(pool, post.pool(), oldm.levels()[oi], side);
            }
            if c < 2 {
                assert(Self::side_non_ephemeral(post.pool(), newm)) by {
                    assert forall|i: int, j: int|
                        0 <= i < newm.levels().len() && 0 <= j < (
                        #[trigger] newm.levels()[i]).1.metas().len() implies {
                        let tif = post.pool()[(#[trigger] newm.levels()[i].1.metas()[j]).slab_idx_spec()].time_in_force;
                        tif != TimeInForce::IOC && tif != TimeInForce::FOK
                    } by {
                        let oi = if i < li {
                            i
                        } else {
                            i + 1
                        };
                        assert(newm.levels()[i] == oldm.levels()[oi]);
                        assert(pre.pos_valid(c, oi, j));
                        assert(pre.handle_at(c, oi, j) == oldm.levels()[oi].1.metas()[j].slab_idx_spec());
                    }
                }
            }
            assert forall|cx: int, ix: int, jx: int|
                post.pos_valid(cx, ix, jx) implies {
                let oi = if cx == c && ix >= li {
                    ix + 1
                } else {
                    ix
                };
                &&& pre.pos_valid(cx, oi, jx)
                &&& #[trigger] post.handle_at(cx, ix, jx) == pre.handle_at(cx, oi, jx)
                &&& !(cx == c && oi == li)
            } by {
                if cx == c && ix >= li {
                    assert(newm.levels()[ix] == oldm.levels()[ix + 1]);
                } else if cx == c {
                    assert(newm.levels()[ix] == oldm.levels()[ix]);
                } else {
                    assert(post.side_ref(cx) == pre.side_ref(cx));
                }
            }
            assert(post.handles_distinct());
            assert(post.not_queued(h));
            assert forall|hh: SlabKey| pre.not_queued(hh) implies #[trigger] post.not_queued(
                hh,
            ) by {
                assert forall|cx: int, ix: int, jx: int|
                    post.pos_valid(cx, ix, jx) implies #[trigger] post.handle_at(cx, ix, jx)
                    != hh by {}
            }
        } else {
            let oldmetas = oldm.levels()[li].1.metas();
            assert(newm.levels() =~= oldm.levels().update(li, newm.levels()[li]));
            OrderMap::lemma_sum_of_update(oldm.levels(), li, newm.levels()[li]);
            assert(Self::level_wf(pool, oldm.levels()[li], side));
            assert(oldmetas[mi].slab_idx_spec() == h);
            Self::lemma_pooled_remove(pool, oldmetas, mi);
            assert forall|j: int| 0 <= j < oldmetas.remove(mi).len() implies {
                let hh = (#[trigger] oldmetas.remove(mi)[j]).slab_idx_spec();
                post.pool().contains_key(hh) && pool[hh] == post.pool()[hh]
            } by {
                let oj = if j < mi {
                    j
                } else {
                    j + 1
                };
                assert(oldmetas.remove(mi)[j] == oldmetas[oj]);
                assert(pre.pos_valid(c, li, oj));
                assert(pre.handle_at(c, li, oj) == oldmetas[oj].slab_idx_spec());
            }
            Self::lemma_pooled_agree(pool, post.pool(), oldmetas.remove(mi));
            assert forall|i: int| 0 <= i < newm.levels().len() implies Self::level_wf(
                post.pool(),
                #[trigger] newm.levels()[i],
                side,
            ) by {
                if i != li {
                    assert(newm.levels()[i] == oldm.levels()[i]);
                    assert forall|j: int| 0 <= j < oldm.levels()[i].1.metas().len() implies {
                        let hh = (#[trigger] oldm.levels()[i].1.metas()[j]).slab_idx_spec();
                        post.pool().contains_key(hh) && pool[hh] == post.pool()[hh]
                    } by {
                        assert(pre.pos_valid(c, i, j));
                        assert(pre.handle_at(c, i, j) == oldm.levels()[i].1.metas()[j].slab_idx_spec());
                    }
                    Self::lemma_level_wf_agree(pool, post.pool(), oldm.levels()[i], side);
                } else {
                    let newmetas = newm.levels()[li].1.metas();
                    assert(newmetas == oldmetas.remove(mi));
                    assert forall|j: int| 0 <= j < newmetas.len() implies Self::meta_wf(
                        post.pool(),
                        #[trigger] newmetas[j],
                        newm.levels()[li].0,
                        side,
                    ) by {
                        let oj = if j < mi {
                            j
                        } else {
                            j + 1
                        };
                        assert(newmetas[j] == oldmetas[oj]);
                        assert(pre.pos_valid(c, li, oj));
                        assert(pre.handle_at(c, li, oj) == oldmetas[oj].slab_idx_spec());
                        assert(Self::meta_wf(pool, oldmetas[oj], oldm.levels()[li].0, side));
                    }
                    assert(newm.levels()[li].1.qty() == Self::pooled_qty(
                        post.pool(),
                        newmetas,
                    ));
                    assert(newmetas.len() > 0);
                    assert forall|j: int|
                        0 <= j < newmetas.len() implies post.pool()[(
                    #[trigger] newmetas[j]).slab_idx_spec()].quantity > 0 by {
                        let oj = if j < mi {
                            j
                        } else {
                            j + 1
                        };
                        assert(newmetas[j] == oldmetas[oj]);
                        assert(pre.pos_valid(c, li, oj));
                        assert(pre.handle_at(c, li, oj) == oldmetas[oj].slab_idx_spec());
                    }
                    Self::lemma_pooled_pos(post.pool(), newmetas);
                }
            }
            if c < 2 {
                assert(Self::side_non_ephemeral(post.pool(), newm)) by {
                    assert forall|i: int, j: int|
                        0 <= i < newm.levels().len() && 0 <= j < (
                        #[trigger] newm.levels()[i]).1.metas().len() implies {
                        let tif = post.pool()[(#[trigger] newm.levels()[i].1.metas()[j]).slab_idx_spec()].time_in_force;
                        tif != TimeInForce::IOC && tif != TimeInForce::FOK
                    } by {
                        if i != li {
                            assert(newm.levels()[i] == oldm.levels()[i]);
                            assert(pre.pos_valid(c, i, j));
                            assert(pre.handle_at(c, i, j) == oldm.levels()[i].1.metas()[j].slab_idx_spec());
                        } else {
                            let oj = if j < mi {
                                j
                            } else {
                                j + 1
                            };
                            assert(newm.levels()[li].1.metas()[j] == oldmetas[oj]);
                            assert(pre.pos_valid(c, li, oj));
                            assert(pre.handle_at(c, li, oj) == oldmetas[oj].slab_idx_spec());
                        }
                    }
                }
            }
            assert forall|cx: int, ix: int, jx: int|
                post.pos_valid(cx, ix, jx) implies {
                let oj = if cx == c && ix == li && jx >= mi {
                    jx + 1
                } else {
                    jx
                };
                &&& pre.pos_valid(cx, ix, oj)
                &&& #[trigger] post.handle_at(cx, ix, jx) == pre.handle_at(cx, ix, oj)
                &&& !(cx == c && ix == li && oj == mi)
            } by {
                if cx == c && ix == li {
                    let oj = if jx >= mi {
                        jx + 1
                    } else {
                        jx
                    };
                    assert(newm.levels()[li].1.metas()[jx] == oldmetas[oj]);
                } else if cx == c {
                    assert(newm.levels()[ix] == oldm.levels()[ix]);
                } else {
                    assert(post.side_ref(cx) == pre.side_ref(cx));
                }
            }
            assert(post.handles_distinct());
            assert(post.not_queued(h));
            assert forall|hh: SlabKey| pre.not_queued(hh) implies #[trigger] post.not_queued(
                hh,
            ) by {
                assert forall|cx: int, ix: int, jx: int|
                    post.pos_valid(cx, ix, jx) implies #[trigger] post.handle_at(cx, ix, jx)
                    != hh by {}
            }
        }
    }

    /// A side keeps its invariant under any pool change that does not
    /// touch its queued handles.
    pub proof fn lemma_side_wf_agree(
        p1: Map<SlabKey, OrderSpec>,
        p2: Map<SlabKey, OrderSpec>,
        m: OrderMap,
        side: OrderSide,
    )
        requires
            Self::side_wf(p1, m, side),
            forall|i: int, j: int|
                0 <= i < m.levels().len() && 0 <= j < (#[trigger] m.levels()[i]).1.metas().len()
                    ==> {
                    let h = (#[trigger] m.levels()[i].1.metas()[j]).slab_idx_spec();
                    p2.contains_key(h) && p1[h] == p2[h]
                },
        ensures
            Self::side_wf(p2, m, side),
    {
        assert forall|i: int| 0 <= i < m.levels().len() implies Self::level_wf(
            p2,
            #[trigger] m.levels()[i],
            side,
        ) by {
            assert forall|j: int| 0 <= j < m.levels()[i].1.metas().len() implies {
                let h = (#[trigger] m.levels()[i].1.metas()[j]).slab_idx_spec();
                p2.contains_key(h) && p1[h] == p2[h]
            } by {
                assert(0 <= i < m.levels().len() && 0 <= j < m.levels()[i].1.metas().len());
            }
            Self::lemma_level_wf_agree(p1, p2, m.levels()[i], side);
        }
    }

    /// Adding a fresh, unreferenced pool entry leaves the book well
    /// formed, and the new handle is queued nowhere.
    pub proof fn lemma_pool_extend_wf(pre: OrderBook, post: OrderBook, h: SlabKey, ord: OrderSpec)
        requires
            pre.wf(),
            !pre.pool().contains_key(h),
            post.pool() == pre.pool().insert(h, ord),
            post.bids == pre.bids,
            post.asks == pre.asks,
            post.stop_bids == pre.stop_bids,
            post.stop_asks == pre.stop_asks,
        ensures
            post.wf(),
            post.not_queued(h),
    {
        Self::lemma_pool_retarget_wf(pre, post, h);
    }

    /// Dropping an unreferenced pool entry leaves the book well formed.
    pub proof fn lemma_pool_shrink_wf(pre: OrderBook, post: OrderBook, h: SlabKey)
        requires
            pre.wf(),
            pre.not_queued(h),
            post.pool() == pre.pool().remove(h),
            post.bids == pre.bids,
            post.asks == pre.asks,
            post.stop_bids == pre.stop_bids,
            post.stop_asks == pre.stop_asks,
        ensures
            post.wf(),
            post.not_queued(h),
    {
        Self::lemma_pool_retarget_wf(pre, post, h);
    }

    /// Changing an unreferenced pool entry in any way (adding, replacing
    /// or dropping it) leaves the book well formed.
    pub proof fn lemma_pool_retarget_wf(pre: OrderBook, post: OrderBook, h: SlabKey)
        requires
            pre.wf(),
            pre.not_queued(h) || !pre.pool().contains_key(h),
            forall|k: SlabKey|
                k != h ==> #[trigger] post.pool().contains_key(k) == pre.pool().contains_key(k)
                    && (pre.pool().contains_key(k) ==> post.pool()[k] == pre.pool()[k]),
            post.bids == pre.bids,
            post.asks == pre.asks,
            post.stop_bids == pre.stop_bids,
            post.stop_asks == pre.stop_asks,
        ensures
            post.wf(),
            post.not_queued(h),
    {
        assert forall|cx: int, ix: int, jx: int|
            pre.pos_valid(cx, ix, jx) implies #[trigger] pre.handle_at(cx, ix, jx) != h by {
            if pre.not_queued(h) {
            } else {
                let m = pre.side_ref(cx);
                assert(Self::meta_wf(
                    pre.pool(),
                    m.levels()[ix].1.metas()[jx],
                    m.levels()[ix].0,
                    Self::side_of_container(cx),
                ));
            }
        }
        assert forall|d: int| 0 <= d < 4 implies Self::side_wf(
            post.pool(),
            #[trigger] post.side_ref(d),
            Self::side_of_container(d),
        ) by {
            let m = pre.side_ref(d);
            assert(post.side_ref(d) == m);
            assert(Self::side_wf(pre.pool(), m, Self::side_of_container(d)));
            assert forall|i: int, j: int|
                0 <= i < m.levels().len() && 0 <= j < (#[trigger] m.levels()[i]).1.metas().len()
                    implies {
                let hh = (#[trigger] m.levels()[i].1.metas()[j]).slab_idx_spec();
                post.pool().contains_key(hh) && pre.pool()[hh] == post.pool()[hh]
            } by {
                assert(pre.pos_valid(d, i, j));
                assert(pre.handle_at(d, i, j) == m.levels()[i].1.metas()[j].slab_idx_spec());
                assert(Self::meta_wf(
                    pre.pool(),
                    m.levels()[i].1.metas()[j],
                    m.levels()[i].0,
                    Self::side_of_container(d),
                ));
            }
            Self::lemma_side_wf_agree(pre.pool(), post.pool(), m, Self::side_of_container(d));
        }
        assert(Self::side_wf(post.pool(), post.bids, OrderSide::Buy)) by {
            assert(post.side_ref(0) == post.bids);
        }
        assert(Self::side_wf(post.pool(), post.asks, OrderSide::Sell)) by {
            assert(post.side_ref(1) == post.asks);
        }
        assert(Self::side_wf(post.pool(), post.stop_bids, OrderSide::Buy)) by {
            assert(post.side_ref(2) == post.stop_bids);
        }
        assert(Self::side_wf(post.pool(), post.stop_asks, OrderSide::Sell)) by {
            assert(post.side_ref(3) == post.stop_asks);
        }
        assert(Self::side_non_ephemeral(post.pool(), post.bids)) by {
            let m = pre.bids;
            assert forall|i: int, j: int|
                0 <= i < m.levels().len() && 0 <= j < (#[trigger] m.levels()[i]).1.metas().len()
                    implies {
                let tif = post.pool()[(#[trigger] m.levels()[i].1.metas()[j]).slab_idx_spec()].time_in_force;
                tif != TimeInForce::IOC && tif != TimeInForce::FOK
            } by {
                assert(pre.pos_valid(0, i, j));
                assert(pre.handle_at(0, i, j) == m.levels()[i].1.metas()[j].slab_idx_spec());
                assert(Self::meta_wf(pre.pool(), m.levels()[i].1.metas()[j], m.levels()[i].0, OrderSide::Buy));
            }
        }
        assert(Self::side_non_ephemeral(post.pool(), post.asks)) by {
            let m = pre.asks;
            assert forall|i: int, j: int|
                0 <= i < m.levels().len() && 0 <= j < (#[trigger] m.levels()[i]).1.metas().len()
                    implies {
                let tif = post.pool()[(#[trigger] m.levels()[i].1.metas()[j]).slab_idx_spec()].time_in_force;
                tif != TimeInForce::IOC && tif != TimeInForce::FOK
            } by {
                assert(pre.pos_valid(1, i, j));
                assert(pre.handle_at(1, i, j) == m.levels()[i].1.metas()[j].slab_idx_spec());
                assert(Self::meta_wf(pre.pool(), m.levels()[i].1.metas()[j], m.levels()[i].0, OrderSide::Sell));
            }
        }
        Self::lemma_wf_same_containers(pre, post);
        assert(post.not_queued(h)) by {
            assert forall|cx: int, ix: int, jx: int|
                post.pos_valid(cx, ix, jx) implies #[trigger] post.handle_at(cx, ix, jx) != h by {
                assert(post.side_ref(cx) == pre.side_ref(cx));
                assert(pre.pos_valid(cx, ix, jx));
                assert(pre.handle_at(cx, ix, jx) != h);
            }
        }
    }

    /// Distinctness carries over between books with the same containers.
    proof fn lemma_wf_same_containers(a: OrderBook, b: OrderBook)
        requires
            a.handles_distinct(),
            b.bids == a.bids,
            b.asks == a.asks,
            b.stop_bids == a.stop_bids,
            b.stop_asks == a.stop_asks,
        ensures
            b.handles_distinct(),
    {
        assert forall|c1: int, i1: int, j1: int, c2: int, i2: int, j2: int|
            b.pos_valid(c1, i1, j1) && b.pos_valid(c2, i2, j2) && #[trigger] b.handle_at(
                c1,
                i1,
                j1,
            ) == #[trigger] b.handle_at(c2, i2, j2) implies c1 == c2 && i1 == i2 && j1 == j2 by {
            assert(b.side_ref(c1) == a.side_ref(c1));
            assert(b.side_ref(c2) == a.side_ref(c2));
            assert(a.handle_at(c1, i1, j1) == a.handle_at(c2, i2, j2));
        }
    }

    /// One side is a best-first consumption of another: some prefix of
    /// its levels is gone, the first surviving level lost a prefix of its
    /// queue and part of its quantity, and everything behind is untouched.
    pub open spec fn side_reduced_at(oldm: OrderMap, newm: OrderMap, k: int) -> bool {
        &&& 0 <= k <= oldm.levels().len()
        &&& newm.levels().len() == oldm.levels().len() - k
        &&& forall|i: int|
            1 <= i < newm.levels().len() ==> #[trigger] newm.levels()[i] == oldm.levels()[k + i]
        &&& newm.levels().len() > 0 ==> {
            &&& newm.levels()[0].0 == oldm.levels()[k].0
            &&& exists|dd: int|
                0 <= dd <= oldm.levels()[k].1.metas().len() && #[trigger] newm.levels()[0].1.metas()
                    == oldm.levels()[k].1.metas().skip(dd)
            &&& newm.levels()[0].1.qty() <= oldm.levels()[k].1.qty()
        }
    }

    pub open spec fn side_reduced(oldm: OrderMap, newm: OrderMap) -> bool {
        exists|k: int| #[trigger] Self::side_reduced_at(oldm, newm, k)
    }

    pub proof fn lemma_side_reduced_refl(m: OrderMap)
        ensures
            Self::side_reduced(m, m),
    {
        assert(Self::side_reduced_at(m, m, 0)) by {
            if m.levels().len() > 0 {
                assert(m.levels()[0].1.metas() =~= m.levels()[0].1.metas().skip(0));
                assert(0 <= 0 <= m.levels()[0].1.metas().len() && m.levels()[0].1.metas()
                    == m.levels()[0].1.metas().skip(0));
            }
        }
    }

    pub proof fn lemma_side_reduced_trans(a: OrderMap, b: OrderMap, c: OrderMap)
        requires
            Self::side_reduced(a, b),
            Self::side_reduced(b, c),
        ensures
            Self::side_reduced(a, c),
    {
        let k1 = choose|k: int| #[trigger] Self::side_reduced_at(a, b, k);
        let k2 = choose|k: int| #[trigger] Self::side_reduced_at(b, c, k);
        if k2 == 0 {
            assert(Self::side_reduced_at(a, c, k1)) by {
                if c.levels().len() > 0 {
                    let d1 = choose|dd: int|
                        0 <= dd <= a.levels()[k1].1.metas().len() && #[trigger] b.levels()[0].1.metas()
                            == a.levels()[k1].1.metas().skip(dd);
                    let d2 = choose|dd: int|
                        0 <= dd <= b.levels()[0].1.metas().len() && #[trigger] c.levels()[0].1.metas()
                            == b.levels()[0].1.metas().skip(dd);
                    assert(c.levels()[0].1.metas() =~= a.levels()[k1].1.metas().skip(d1 + d2));
                    assert(0 <= d1 + d2 <= a.levels()[k1].1.metas().len() && c.levels()[0].1.metas()
                        == a.levels()[k1].1.metas().skip(d1 + d2));
                    assert forall|i: int|
                        1 <= i < c.levels().len() implies #[trigger] c.levels()[i] == a.levels()[k1
                        + i] by {
                        assert(c.levels()[i] == b.levels()[i]);
                        assert(b.levels()[i] == a.levels()[k1 + i]);
                    }
                }
            }
        } else {
            assert(Self::side_reduced_at(a, c, k1 + k2)) by {
                assert forall|i: int|
                    1 <= i < c.levels().len() implies #[trigger] c.levels()[i] == a.levels()[k1 + k2
                    + i] by {
                    assert(c.levels()[i] == b.levels()[k2 + i]);
                    assert(b.levels()[k2 + i] == a.levels()[k1 + k2 + i]);
                }
                if c.levels().len() > 0 {
                    assert(b.levels()[k2] == a.levels()[k1 + k2]);
                    let d2 = choose|dd: int|
                        0 <= dd <= b.levels()[k2].1.metas().len() && #[trigger] c.levels()[0].1.metas()
                            == b.levels()[k2].1.metas().skip(dd);
                    assert(0 <= d2 <= a.levels()[k1 + k2].1.metas().len() && c.levels()[0].1.metas()
                        == a.levels()[k1 + k2].1.metas().skip(d2));
                }
            }
        }
    }

    /// The sum of a level's pooled quantities after overwriting the entry
    /// of the element at `i`, provided its handle is queued only there.
    pub proof fn lemma_pooled_update(
        pool: Map<SlabKey, OrderSpec>,
        metas: Seq<OrderMeta>,
        i: int,
        v: OrderSpec,
    )
        requires
            0 <= i < metas.len(),
            forall|j: int|
                0 <= j < metas.len() && j != i ==> (#[trigger] metas[j]).slab_idx_spec()
                    != metas[i].slab_idx_spec(),
        ensures
            Self::pooled_qty(pool.insert(metas[i].slab_idx_spec(), v), metas) == Self::pooled_qty(
                pool,
                metas,
            ) - pool[metas[i].slab_idx_spec()].quantity + v.quantity,
        decreases i,
    {
        let p2 = pool.insert(metas[i].slab_idx_spec(), v);
        if i == 0 {
            assert forall|j: int|
                0 <= j < metas.drop_first().len() implies pool[(#[trigger] metas.drop_first()[j]).slab_idx_spec()]
                == p2[metas.drop_first()[j].slab_idx_spec()] by {
                assert(metas.drop_first()[j] == metas[j + 1]);
            }
            Self::lemma_pooled_agree(pool, p2, metas.drop_first());
        } else {
            assert(metas.drop_first()[i - 1] == metas[i]);
            assert forall|j: int|
                0 <= j < metas.drop_first().len() && j != i - 1 implies (
            #[trigger] metas.drop_first()[j]).slab_idx_spec() != metas.drop_first()[i
                - 1].slab_idx_spec() by {
                assert(metas.drop_first()[j] == metas[j + 1]);
            }
            Self::lemma_pooled_update(pool, metas.drop_first(), i - 1, v);
        }
    }

    /// Partially filling the front entry of a level (reducing its pooled
    /// quantity by `cut` and both caches with it) keeps the book well
    /// formed.
    pub proof fn lemma_partial_fill_wf(pre: OrderBook, post: OrderBook, c: int, li: int, cut: Quantity)
        requires
            pre.wf(),
            pre.pos_valid(c, li, 0),
            0 < cut < pre.pool()[pre.handle_at(c, li, 0)].quantity,
            post.pool() == pre.pool().insert(
                pre.handle_at(c, li, 0),
                (OrderSpec {
                    quantity: (pre.pool()[pre.handle_at(c, li, 0)].quantity - cut) as Quantity,
                    ..pre.pool()[pre.handle_at(c, li, 0)]
                }),
            ),
            forall|d: int| 0 <= d < 4 && d != c ==> #[trigger] post.side_ref(d) == pre.side_ref(d),
            post.side_ref(c).sorted(),
            post.side_ref(c).is_descending() == pre.side_ref(c).is_descending(),
            post.side_ref(c).total_spec() == pre.side_ref(c).total_spec() - cut,
            post.side_ref(c).levels().len() == pre.side_ref(c).levels().len(),
            post.side_ref(c).levels()[li].0 == pre.side_ref(c).levels()[li].0,
            post.side_ref(c).levels()[li].1.metas() == pre.side_ref(c).levels()[li].1.metas(),
            post.side_ref(c).levels()[li].1.qty() == pre.side_ref(c).levels()[li].1.qty() - cut,
            forall|i: int|
                0 <= i < pre.side_ref(c).levels().len() && i != li ==> #[trigger] post.side_ref(
                    c,
                ).levels()[i] == pre.side_ref(c).levels()[i],
        ensures
            post.wf(),
            forall|hh: SlabKey| pre.not_queued(hh) ==> #[trigger] post.not_queued(hh),
    {
        let pool = pre.pool();
        let h = pre.handle_at(c, li, 0);
        let oldm = pre.side_ref(c);
        let newm = post.side_ref(c);
        let side = Self::side_of_container(c);
        let v = (OrderSpec { quantity: (pool[h].quantity - cut) as Quantity, ..pool[h] });
        if c != 0 {
            assert(post.side_ref(0) == pre.side_ref(0));
        }
        if c != 1 {
            assert(post.side_ref(1) == pre.side_ref(1));
        }
        if c != 2 {
            assert(post.side_ref(2) == pre.side_ref(2));
        }
        if c != 3 {
            assert(post.side_ref(3) == pre.side_ref(3));
        }
        // Any queued handle other than the front entry's differs from h.
        assert forall|cx: int, ix: int, jx: int|
            pre.pos_valid(cx, ix, jx) && !(cx == c && ix == li && jx == 0)
                implies #[trigger] pre.handle_at(cx, ix, jx) != h by {
            assert(pre.handle_at(c, li, 0) == h);
        }
        // Untouched containers.
        assert forall|d: int| 0 <= d < 4 && d != c implies Self::side_wf(
            post.pool(),
            #[trigger] post.side_ref(d),
            Self::side_of_container(d),
        ) by {
            let m = pre.side_ref(d);
            assert(Self::side_wf(pool, m, Self::side_of_container(d)));
            assert forall|i: int, j: int|
                0 <= i < m.levels().len() && 0 <= j < (#[trigger] m.levels()[i]).1.metas().len()
                    implies {
                let hh = (#[trigger] m.levels()[i].1.metas()[j]).slab_idx_spec();
                post.pool().contains_key(hh) && pool[hh] == post.pool()[hh]
            } by {
                assert(pre.pos_valid(d, i, j));
                assert(pre.handle_at(d, i, j) == m.levels()[i].1.metas()[j].slab_idx_spec());
            }
            Self::lemma_side_wf_agree(pool, post.pool(), m, Self::side_of_container(d));
        }
        // The touched container.
        let metas = oldm.levels()[li].1.metas();
        assert(Self::level_wf(pool, oldm.levels()[li], side));
        assert forall|j: int|
            0 <= j < metas.len() && j != 0 implies (#[trigger] metas[j]).slab_idx_spec()
            != metas[0].slab_idx_spec() by {
            assert(pre.pos_valid(c, li, j));
            assert(pre.handle_at(c, li, j) == metas[j].slab_idx_spec());
            assert(pre.handle_at(c, li, 0) == metas[0].slab_idx_spec());
        }
        Self::lemma_pooled_update(pool, metas, 0, v);
        Self::lemma_pooled_nonneg(pool, metas.drop_first());
        assert(oldm.levels()[li].1.qty() > cut);
        assert(newm.levels() =~= oldm.levels().update(li, newm.levels()[li]));
        OrderMap::lemma_sum_of_update(oldm.levels(), li, newm.levels()[li]);
        assert forall|i: int| 0 <= i < newm.levels().len() implies Self::level_wf(
            post.pool(),
            #[trigger] newm.levels()[i],
            side,
        ) by {
            if i != li {
                assert(newm.levels()[i] == oldm.levels()[i]);
                assert forall|j: int| 0 <= j < oldm.levels()[i].1.metas().len() implies {
                    let hh = (#[trigger] oldm.levels()[i].1.metas()[j]).slab_idx_spec();
                    post.pool().contains_key(hh) && pool[hh] == post.pool()[hh]
                } by {
                    assert(pre.pos_valid(c, i, j));
                    assert(pre.handle_at(c, i, j) == oldm.levels()[i].1.metas()[j].slab_idx_spec());
                }
                Self::lemma_level_wf_agree(pool, post.pool(), oldm.levels()[i], side);
            } else {
                assert(newm.levels()[li].1.metas() == metas);
                assert forall|j: int| 0 <= j < metas.len() implies Self::meta_wf(
                    post.pool(),
                    #[trigger] metas[j],
                    newm.levels()[li].0,
                    side,
                ) by {
                    assert(Self::meta_wf(pool, metas[j], oldm.levels()[li].0, side));
                    if j != 0 {
                        assert(pre.pos_valid(c, li, j));
                        assert(pre.handle_at(c, li, j) == metas[j].slab_idx_spec());
                    }
                }
            }
        }
        assert(Self::side_wf(post.pool(), newm, side));
        // The entry keeps its time in force, so the ephemeral ban holds.
        if c < 2 {
            assert(Self::side_non_ephemeral(post.pool(), newm)) by {
                assert forall|i: int, j: int|
                    0 <= i < newm.levels().len() && 0 <= j < (
                    #[trigger] newm.levels()[i]).1.metas().len() implies {
                    let tif = post.pool()[(#[trigger] newm.levels()[i].1.metas()[j]).slab_idx_spec()].time_in_force;
                    tif != TimeInForce::IOC && tif != TimeInForce::FOK
                } by {
                    if i != li {
                        assert(newm.levels()[i] == oldm.levels()[i]);
                    } else {
                        assert(newm.levels()[li].1.metas() == metas);
                    }
                    assert(pre.pos_valid(c, i, j));
                    assert(pre.handle_at(c, i, j) == oldm.levels()[i].1.metas()[j].slab_idx_spec());
                }
            }
        }
        assert(post.handles_distinct()) by {
            assert forall|c1: int, i1: int, j1: int, c2: int, i2: int, j2: int|
                post.pos_valid(c1, i1, j1) && post.pos_valid(c2, i2, j2)
                    && #[trigger] post.handle_at(c1, i1, j1) == #[trigger] post.handle_at(
                    c2,
                    i2,
                    j2,
                ) implies c1 == c2 && i1 == i2 && j1 == j2 by {
                assert(post.side_ref(c1).levels()[i1].1.metas() == pre.side_ref(
                    c1,
                ).levels()[i1].1.metas());
                assert(post.side_ref(c2).levels()[i2].1.metas() == pre.side_ref(
                    c2,
                ).levels()[i2].1.metas());
                assert(pre.handle_at(c1, i1, j1) == pre.handle_at(c2, i2, j2));
            }
        }
        assert(Self::side_wf(post.pool(), post.bids, OrderSide::Buy)) by {
            assert(post.side_ref(0) == post.bids);
        }
        assert(Self::side_wf(post.pool(), post.asks, OrderSide::Sell)) by {
            assert(post.side_ref(1) == post.asks);
        }
        assert(Self::side_wf(post.pool(), post.stop_bids, OrderSide::Buy)) by {
            assert(post.side_ref(2) == post.stop_bids);
        }
        assert(Self::side_wf(post.pool(), post.stop_asks, OrderSide::Sell)) by {
            assert(post.side_ref(3) == post.stop_asks);
        }
        assert(Self::side_non_ephemeral(post.pool(), post.bids)) by {
            assert(post.side_ref(0) == post.bids);
        }
        assert(Self::side_non_ephemeral(post.pool(), post.asks)) by {
            assert(post.side_ref(1) == post.asks);
        }
        assert forall|hh: SlabKey| pre.not_queued(hh) implies #[trigger] post.not_queued(hh) by {
            assert forall|cx: int, ix: int, jx: int|
                post.pos_valid(cx, ix, jx) implies #[trigger] post.handle_at(cx, ix, jx) != hh by {
                assert(post.side_ref(cx).levels()[ix].1.metas() == pre.side_ref(
                    cx,
                ).levels()[ix].1.metas());
                assert(pre.pos_valid(cx, ix, jx));
                assert(pre.handle_at(cx, ix, jx) != hh);
            }
        }
    }

    /// Whether `h` is the handle of some entry of the queue.
    pub open spec fn in_metas(metas: Seq<OrderMeta>, h: SlabKey) -> bool {
        exists|j: int| 0 <= j < metas.len() && (#[trigger] metas[j]).slab_idx_spec() == h
    }

    /// Whether `h` is queued at any level of the side.
    pub open spec fn in_side(levels: Seq<(Price, Orders)>, h: SlabKey) -> bool {
        exists|i: int, j: int|
            0 <= i < levels.len() && 0 <= j < (#[trigger] levels[i]).1.metas().len() && (
            #[trigger] levels[i].1.metas()[j]).slab_idx_spec() == h
    }

    /// How a level fill may change the pool: no new keys appear, and any
    /// key other than the taker's and the level's own entries is left
    /// exactly as it was.
    #[verifier::opaque]
    pub open spec fn pool_frame(
        p0: Map<SlabKey, OrderSpec>,
        p1: Map<SlabKey, OrderSpec>,
        metas: Seq<OrderMeta>,
        except: SlabKey,
    ) -> bool {
        &&& forall|kk: SlabKey| #[trigger] p1.contains_key(kk) ==> p0.contains_key(kk)
        &&& forall|kk: SlabKey|
            kk != except && !Self::in_metas(metas, kk) ==> #[trigger] p1.contains_key(kk)
                == p0.contains_key(kk) && (p0.contains_key(kk) ==> p1[kk] == p0[kk])
    }

    /// How a whole submission may change the pool: no new keys appear,
    /// and any key other than the taker's and the opposing side's queued
    /// entries is left exactly as it was.
    #[verifier::opaque]
    pub open spec fn side_pool_frame(
        p0: Map<SlabKey, OrderSpec>,
        p1: Map<SlabKey, OrderSpec>,
        levels: Seq<(Price, Orders)>,
        except: SlabKey,
    ) -> bool {
        &&& forall|kk: SlabKey| #[trigger] p1.contains_key(kk) ==> p0.contains_key(kk)
        &&& forall|kk: SlabKey|
            kk != except && !Self::in_side(levels, kk) ==> #[trigger] p1.contains_key(kk)
                == p0.contains_key(kk) && (p0.contains_key(kk) ==> p1[kk] == p0[kk])
    }

    pub proof fn lemma_frame_extract(
        p0: Map<SlabKey, OrderSpec>,
        p1: Map<SlabKey, OrderSpec>,
        metas: Seq<OrderMeta>,
        except: SlabKey,
    )
        requires
            Self::pool_frame(p0, p1, metas, except),
        ensures
            forall|kk: SlabKey| #[trigger] p1.contains_key(kk) ==> p0.contains_key(kk),
            forall|kk: SlabKey|
                kk != except && !Self::in_metas(metas, kk) ==> #[trigger] p1.contains_key(kk)
                    == p0.contains_key(kk) && (p0.contains_key(kk) ==> p1[kk] == p0[kk]),
    {
        reveal(OrderBook::pool_frame);
        assert(Self::pool_frame(p0, p1, metas, except) == ((forall|kk: SlabKey|
            #[trigger] p1.contains_key(kk) ==> p0.contains_key(kk)) && (forall|kk: SlabKey|
            kk != except && !Self::in_metas(metas, kk) ==> #[trigger] p1.contains_key(kk)
                == p0.contains_key(kk) && (p0.contains_key(kk) ==> p1[kk] == p0[kk]))));
    }

    pub proof fn lemma_frame_intro(
        p0: Map<SlabKey, OrderSpec>,
        p1: Map<SlabKey, OrderSpec>,
        metas: Seq<OrderMeta>,
        except: SlabKey,
    )
        requires
            forall|kk: SlabKey| #[trigger] p1.contains_key(kk) ==> p0.contains_key(kk),
            forall|kk: SlabKey|
                kk != except && !Self::in_metas(metas, kk) ==> #[trigger] p1.contains_key(kk)
                    == p0.contains_key(kk) && (p0.contains_key(kk) ==> p1[kk] == p0[kk]),
        ensures
            Self::pool_frame(p0, p1, metas, except),
    {
        reveal(OrderBook::pool_frame);
    }

    pub proof fn lemma_side_frame_extract(
        p0: Map<SlabKey, OrderSpec>,
        p1: Map<SlabKey, OrderSpec>,
        levels: Seq<(Price, Orders)>,
        except: SlabKey,
    )
        requires
            Self::side_pool_frame(p0, p1, levels, except),
        ensures
            forall|kk: SlabKey| #[trigger] p1.contains_key(kk) ==> p0.contains_key(kk),
            forall|kk: SlabKey|
                kk != except && !Self::in_side(levels, kk) ==> #[trigger] p1.contains_key(kk)
                    == p0.contains_key(kk) && (p0.contains_key(kk) ==> p1[kk] == p0[kk]),
    {
        reveal(OrderBook::side_pool_frame);
        assert(Self::side_pool_frame(p0, p1, levels, except) == ((forall|kk: SlabKey|
            #[trigger] p1.contains_key(kk) ==> p0.contains_key(kk)) && (forall|kk: SlabKey|
            kk != except && !Self::in_side(levels, kk) ==> #[trigger] p1.contains_key(kk)
                == p0.contains_key(kk) && (p0.contains_key(kk) ==> p1[kk] == p0[kk]))));
    }

    pub proof fn lemma_side_frame_intro(
        p0: Map<SlabKey, OrderSpec>,
        p1: Map<SlabKey, OrderSpec>,
        levels: Seq<(Price, Orders)>,
        except: SlabKey,
    )
        requires
            forall|kk: SlabKey| #[trigger] p1.contains_key(kk) ==> p0.contains_key(kk),
            forall|kk: SlabKey|
                kk != except && !Self::in_side(levels, kk) ==> #[trigger] p1.contains_key(kk)
                    == p0.contains_key(kk) && (p0.contains_key(kk) ==> p1[kk] == p0[kk]),
        ensures
            Self::side_pool_frame(p0, p1, levels, except),
    {
        reveal(OrderBook::side_pool_frame);
    }

    pub proof fn lemma_frame_point(
        p0: Map<SlabKey, OrderSpec>,
        p1: Map<SlabKey, OrderSpec>,
        metas: Seq<OrderMeta>,
        except: SlabKey,
        kk: SlabKey,
    )
        requires
            Self::pool_frame(p0, p1, metas, except),
        ensures
            p1.contains_key(kk) ==> p0.contains_key(kk),
            kk != except && !Self::in_metas(metas, kk) ==> p1.contains_key(kk) == p0.contains_key(
                kk,
            ) && (p0.contains_key(kk) ==> p1[kk] == p0[kk]),
    {
        reveal(OrderBook::pool_frame);
    }

    pub proof fn lemma_side_frame_point(
        p0: Map<SlabKey, OrderSpec>,
        p1: Map<SlabKey, OrderSpec>,
        levels: Seq<(Price, Orders)>,
        except: SlabKey,
        kk: SlabKey,
    )
        requires
            Self::side_pool_frame(p0, p1, levels, except),
        ensures
            p1.contains_key(kk) ==> p0.contains_key(kk),
            kk != except && !Self::in_side(levels, kk) ==> p1.contains_key(kk) == p0.contains_key(
                kk,
            ) && (p0.contains_key(kk) ==> p1[kk] == p0[kk]),
    {
        reveal(OrderBook::side_pool_frame);
    }

    /// The trade events of one level fill: the queued makers are consumed
    /// front first, each trade for the smaller of the maker's pooled
    /// quantity and the taker's remainder, until one side is exhausted.
    pub open spec fn level_trades(
        pool: Map<SlabKey, OrderSpec>,
        metas: Seq<OrderMeta>,
        price: Price,
        side: OrderSide,
        taker_id: OrderId,
        rem: Quantity,
    ) -> Seq<OrderMatch>
        decreases metas.len(),
    {
        if rem == 0 || metas.len() == 0 {
            Seq::empty()
        } else {
            let maker_q = pool[metas[0].slab_idx_spec()].quantity;
            let t = OrderMatch {
                order_side: side,
                price,
                quantity: min_q(maker_q, rem),
                match_from_id: taker_id,
                match_to_id: metas[0].order_id_spec(),
            };
            if maker_q <= rem {
                seq![t] + Self::level_trades(
                    pool,
                    metas.drop_first(),
                    price,
                    side,
                    taker_id,
                    (rem - maker_q) as Quantity,
                )
            } else {
                seq![t]
            }
        }
    }

    /// The whole trade list of one submission against the resting side
    /// `levels` (in book order) of `pool`: levels are consumed best first
    /// while the taker is marketable and has remainder, each through
    /// `level_trades`.
    pub open spec fn book_trades(
        pool: Map<SlabKey, OrderSpec>,
        levels: Seq<(Price, Orders)>,
        taker: OrderSpec,
        rem: Quantity,
    ) -> Seq<OrderMatch>
        decreases levels.len(),
    {
        if rem == 0 || levels.len() == 0 || (taker.order_type == OrderType::Limit
            && !marketable_at(taker.order_side, taker.price, levels[0].0)) {
            Seq::empty()
        } else {
            let lq = Self::pooled_qty(pool, levels[0].1.metas());
            let lt = Self::level_trades(
                pool,
                levels[0].1.metas(),
                levels[0].0,
                taker.order_side,
                taker.id,
                rem,
            );
            if lq < rem {
                lt + Self::book_trades(pool, levels.drop_first(), taker, (rem - lq) as Quantity)
            } else {
                lt
            }
        }
    }

    /// Two pools that agree on the queued handles describe the same level
    /// fill.
    pub proof fn lemma_level_trades_agree(
        p1: Map<SlabKey, OrderSpec>,
        p2: Map<SlabKey, OrderSpec>,
        metas: Seq<OrderMeta>,
        price: Price,
        side: OrderSide,
        taker_id: OrderId,
        rem: Quantity,
    )
        requires
            forall|j: int|
                0 <= j < metas.len() ==> p1[(#[trigger] metas[j]).slab_idx_spec()] == p2[metas[j].slab_idx_spec()],
        ensures
            Self::level_trades(p1, metas, price, side, taker_id, rem) == Self::level_trades(
                p2,
                metas,
                price,
                side,
                taker_id,
                rem,
            ),
        decreases metas.len(),
    {
        if rem == 0 || metas.len() == 0 {
        } else {
            assert forall|j: int|
                0 <= j < metas.drop_first().len() implies p1[(#[trigger] metas.drop_first()[j]).slab_idx_spec()]
                == p2[metas.drop_first()[j].slab_idx_spec()] by {
                assert(metas.drop_first()[j] == metas[j + 1]);
            }
            let maker_q = p1[metas[0].slab_idx_spec()].quantity;
            if maker_q <= rem {
                Self::lemma_level_trades_agree(
                    p1,
                    p2,
                    metas.drop_first(),
                    price,
                    side,
                    taker_id,
                    (rem - maker_q) as Quantity,
                );
            }
        }
    }

    /// Two pools that agree on the side's queued handles describe the
    /// same submission.
    pub proof fn lemma_book_trades_agree(
        p1: Map<SlabKey, OrderSpec>,
        p2: Map<SlabKey, OrderSpec>,
        levels: Seq<(Price, Orders)>,
        taker: OrderSpec,
        rem: Quantity,
    )
        requires
            forall|i: int, j: int|
                0 <= i < levels.len() && 0 <= j < (#[trigger] levels[i]).1.metas().len() ==> p1[(
                #[trigger] levels[i].1.metas()[j]).slab_idx_spec()] == p2[levels[i].1.metas()[j].slab_idx_spec()],
        ensures
            Self::book_trades(p1, levels, taker, rem) == Self::book_trades(p2, levels, taker, rem),
        decreases levels.len(),
    {
        if rem == 0 || levels.len() == 0 || (taker.order_type == OrderType::Limit
            && !marketable_at(taker.order_side, taker.price, levels[0].0)) {
        } else {
            assert forall|j: int|
                0 <= j < levels[0].1.metas().len() implies p1[(#[trigger] levels[0].1.metas()[j]).slab_idx_spec()]
                == p2[levels[0].1.metas()[j].slab_idx_spec()] by {
                assert(0 <= 0 < levels.len());
            }
            Self::lemma_pooled_agree(p1, p2, levels[0].1.metas());
            Self::lemma_level_trades_agree(
                p1,
                p2,
                levels[0].1.metas(),
                levels[0].0,
                taker.order_side,
                taker.id,
                rem,
            );
            assert forall|i: int, j: int|
                0 <= i < levels.drop_first().len() && 0 <= j < (
                #[trigger] levels.drop_first()[i]).1.metas().len() implies p1[(
            #[trigger] levels.drop_first()[i].1.metas()[j]).slab_idx_spec()]
                == p2[levels.drop_first()[i].1.metas()[j].slab_idx_spec()] by {
                assert(levels.drop_first()[i] == levels[i + 1]);
            }
            let lq = Self::pooled_qty(p1, levels[0].1.metas());
            if lq < rem {
                Self::lemma_book_trades_agree(
                    p1,
                    p2,
                    levels.drop_first(),
                    taker,
                    (rem - lq) as Quantity,
                );
            }
        }
    }

    /// A trade list with correct per-entry attribution, full fills on all
    /// but the last entry and the right total is the level fill: no other
    /// trade list satisfies the level-fill accounting.
    pub proof fn lemma_level_trades_char(
        pool: Map<SlabKey, OrderSpec>,
        metas: Seq<OrderMeta>,
        price: Price,
        side: OrderSide,
        taker_id: OrderId,
        rem: Quantity,
        newt: Seq<OrderMatch>,
    )
        requires
            rem > 0,
            0 < newt.len() <= metas.len(),
            forall|j: int|
                0 <= j < metas.len() ==> pool[(#[trigger] metas[j]).slab_idx_spec()].quantity > 0,
            sum_trades(newt) == if Self::pooled_qty(pool, metas) <= rem {
                Self::pooled_qty(pool, metas)
            } else {
                rem as int
            },
            forall|i: int|
                0 <= i < newt.len() ==> {
                    let t = newt[i];
                    &&& t.order_side == side
                    &&& t.price == price
                    &&& t.match_from_id == taker_id
                    &&& t.match_to_id == (#[trigger] metas[i]).order_id_spec()
                    &&& t.quantity > 0
                    &&& t.quantity <= pool[metas[i].slab_idx_spec()].quantity
                    &&& (i < newt.len() - 1 ==> t.quantity == pool[metas[i].slab_idx_spec()].quantity)
                },
        ensures
            newt == Self::level_trades(pool, metas, price, side, taker_id, rem),
        decreases metas.len(),
    {
        let q0 = pool[metas[0].slab_idx_spec()].quantity;
        let pooled = Self::pooled_qty(pool, metas);
        Self::lemma_pooled_nonneg(pool, metas.drop_first());
        assert(pooled == q0 + Self::pooled_qty(pool, metas.drop_first()));
        let head = OrderMatch {
            order_side: side,
            price,
            quantity: min_q(q0, rem),
            match_from_id: taker_id,
            match_to_id: metas[0].order_id_spec(),
        };
        if newt.len() == 1 {
            lemma_sum_trades_nonneg(newt.drop_first());
            assert(newt.drop_first() =~= Seq::<OrderMatch>::empty());
            assert(sum_trades(newt) == newt[0].quantity);
            if q0 > rem {
                assert(newt[0].quantity == rem);
                assert(newt =~= seq![head]);
            } else {
                // The single trade consumes the whole maker, and nothing
                // follows: either the taker is exactly spent or the level
                // held only this maker.
                assert(newt[0].quantity == q0);
                if rem == q0 {
                    assert((rem - q0) as Quantity == 0);
                    assert(Self::level_trades(
                        pool,
                        metas.drop_first(),
                        price,
                        side,
                        taker_id,
                        (rem - q0) as Quantity,
                    ) =~= Seq::<OrderMatch>::empty());
                    assert(newt =~= seq![head] + Seq::<OrderMatch>::empty());
                } else {
                    assert(Self::pooled_qty(pool, metas.drop_first()) == 0);
                    assert(metas.drop_first().len() == 0) by {
                        if metas.drop_first().len() > 0 {
                            Self::lemma_pooled_pos(pool, metas.drop_first());
                        }
                    }
                    assert(Self::level_trades(
                        pool,
                        metas.drop_first(),
                        price,
                        side,
                        taker_id,
                        (rem - q0) as Quantity,
                    ) =~= Seq::<OrderMatch>::empty());
                    assert(newt =~= seq![head] + Seq::<OrderMatch>::empty());
                }
            }
        } else {
            // At least two trades: the front maker is fully consumed and
            // the rest is the fill of the shorter level.
            assert(newt[0].quantity == q0);
            lemma_sum_trades_nonneg(newt.drop_first().drop_first());
            assert(sum_trades(newt) == newt[0].quantity + sum_trades(newt.drop_first()));
            assert(sum_trades(newt.drop_first()) == newt.drop_first()[0].quantity + sum_trades(
                newt.drop_first().drop_first(),
            ));
            assert(newt.drop_first()[0] == newt[1]);
            assert(sum_trades(newt) > q0);
            assert(rem > q0);
            assert forall|j: int|
                0 <= j < metas.drop_first().len() implies pool[(#[trigger] metas.drop_first()[j]).slab_idx_spec()].quantity
                > 0 by {
                assert(metas.drop_first()[j] == metas[j + 1]);
            }
            assert forall|i: int|
                0 <= i < newt.drop_first().len() implies {
                let t = newt.drop_first()[i];
                &&& t.order_side == side
                &&& t.price == price
                &&& t.match_from_id == taker_id
                &&& t.match_to_id == (#[trigger] metas.drop_first()[i]).order_id_spec()
                &&& t.quantity > 0
                &&& t.quantity <= pool[metas.drop_first()[i].slab_idx_spec()].quantity
                &&& (i < newt.drop_first().len() - 1 ==> t.quantity == pool[metas.drop_first()[i].slab_idx_spec()].quantity)
            } by {
                assert(newt.drop_first()[i] == newt[i + 1]);
                assert(metas.drop_first()[i] == metas[i + 1]);
            }
            Self::lemma_level_trades_char(
                pool,
                metas.drop_first(),
                price,
                side,
                taker_id,
                (rem - q0) as Quantity,
                newt.drop_first(),
            );
            assert(newt =~= seq![head] + newt.drop_first());
        }
    }

    pub fn new(expected_peak_order: usize) -> (r: Self)
        ensures
            r.pool() == empty_pool(),
            r.bids.levels().len() == 0,
            r.asks.levels().len() == 0,
            r.stop_bids.levels().len() == 0,
            r.stop_asks.levels().len() == 0,
            r.bids.total_spec() == 0,
            r.asks.total_spec() == 0,
            r.market_price_spec() == 0,
            r.wf(),
    {
        OrderBook {
            order_allocator: slab_with_capacity(expected_peak_order),
            asks: OrderMap::new(false),
            bids: OrderMap::new(true),
            stop_asks: OrderMap::new(false),
            stop_bids: OrderMap::new(true),
            current_market_price: 0,
        }
    }

    pub fn current_market_price(&self) -> (r: Price)
        ensures
            r == self.market_price_spec(),
    {
        self.current_market_price
    }

    pub fn set_market_price(&mut self, current_market_price: Price)
        ensures
            final(self).market_price_spec() == current_market_price,
            final(self).pool() == old(self).pool(),
            final(self).bids == old(self).bids,
            final(self).asks == old(self).asks,
            final(self).stop_bids == old(self).stop_bids,
            final(self).stop_asks == old(self).stop_asks,
            old(self).wf() ==> final(self).wf(),
    {
        self.current_market_price = current_market_price;
        proof {
            if old(self).wf() {
                Self::lemma_wf_same(*old(self), *self);
            }
        }
    }

    pub fn asks(&self) -> (r: &OrderMap)
        ensures
            r == &self.asks,
    {
        &self.asks
    }

    pub fn bids(&self) -> (r: &OrderMap)
        ensures
            r == &self.bids,
    {
        &self.bids
    }

    pub fn stop_asks(&self) -> (r: &OrderMap)
        ensures
            r == &self.stop_asks,
    {
        &self.stop_asks
    }

    pub fn stop_bids(&self) -> (r: &OrderMap)
        ensures
            r == &self.stop_bids,
    {
        &self.stop_bids
    }

    pub fn order_allocator(&self) -> (r: &slab::Slab<OrderSpec>)
        ensures
            slab_entries(r) == self.pool(),
    {
        &self.order_allocator
    }

    /// The best resting price of one matched side: the highest bid or the
    /// lowest ask.
    pub fn peek_top_price(&self, is_bids: bool) -> (r: Option<Price>)
        ensures
            is_bids ==> r == if self.bids.levels().len() > 0 {
                Some(self.bids.levels()[0].0)
            } else {
                None::<Price>
            },
            !is_bids ==> r == if self.asks.levels().len() > 0 {
                Some(self.asks.levels()[0].0)
            } else {
                None::<Price>
            },
    {
        if is_bids {
            self.bids.peek_key()
        } else {
            self.asks.peek_key()
        }
    }

    /// Whether an incoming fill-or-kill order could be filled completely
    /// from the resting liquidity that is marketable against it.
    pub fn has_sufficient_quantity(&self, order: &OrderSpec) -> (r: bool)
        requires
            self.wf(),
        ensures
            order.order_type == OrderType::Limit ==> r == (fillable_sum(
                self.opp_sel(order.order_side).levels(),
                order.order_side,
                order.price,
            ) >= order.quantity),
            order.order_type != OrderType::Limit ==> r == (self.opp_sel(
                order.order_side,
            ).total_spec() >= order.quantity),
    {
        let quantity: Quantity = if order.is_limit_price() {
            let r = if order.is_buy() {
                self.asks.collect_quantity_match_price(
                    &order.price,
                    &order.order_side,
                    &order.quantity,
                )
            } else {
                self.bids.collect_quantity_match_price(
                    &order.price,
                    &order.order_side,
                    &order.quantity,
                )
            };
            proof {
                lemma_walk_sum_reaches(
                    self.opp_sel(order.order_side).levels(),
                    order.order_side,
                    order.price,
                    order.quantity as int,
                );
            }
            r
        } else {
            if order.is_buy() {
                self.asks.total_quantity()
            } else {
                self.bids.total_quantity()
            }
        };
        quantity >= order.quantity
    }

    /// Checks both matched sides' caches against their level caches.
    pub fn validate_cache(&self) -> (r: Result<(), String>)
        ensures
            (r is Ok) == (self.asks.total_spec() == self.asks.cache_sum()
                && self.bids.total_spec() == self.bids.cache_sum()),
            self.wf() ==> r is Ok,
    {
        if let Err(e) = self.asks.validate_cache() {
            return Err(e);
        }
        if let Err(e) = self.bids.validate_cache() {
            return Err(e);
        }
        Ok(())
    }

    fn total_quantity(&self, is_bids: bool) -> (r: Quantity)
        ensures
            is_bids ==> r == self.bids.total_spec(),
            !is_bids ==> r == self.asks.total_spec(),
    {
        if is_bids {
            self.bids.total_quantity()
        } else {
            self.asks.total_quantity()
        }
    }

    fn set_total_quantity(&mut self, is_bids: bool, new_quantity: Quantity)
        ensures
            final(self).pool() == old(self).pool(),
            final(self).market_price_spec() == old(self).market_price_spec(),
            final(self).stop_bids == old(self).stop_bids,
            final(self).stop_asks == old(self).stop_asks,
            is_bids ==> final(self).asks == old(self).asks && final(self).bids.levels() == old(self).bids.levels() && final(self).bids.is_descending() == old(self).bids.is_descending()
                && final(self).bids.total_spec() == new_quantity,
            !is_bids ==> final(self).bids == old(self).bids && final(self).asks.levels() == old(self).asks.levels() && final(self).asks.is_descending() == old(self).asks.is_descending()
                && final(self).asks.total_spec() == new_quantity,
    {
        if is_bids {
            self.bids.set_total_quantity(new_quantity);
        } else {
            self.asks.set_total_quantity(new_quantity);
        }
    }

    fn decrease_total_quantity(&mut self, is_bids: bool, quantity: Quantity)
        requires
            is_bids ==> quantity <= old(self).bids.total_spec(),
            !is_bids ==> quantity <= old(self).asks.total_spec(),
        ensures
            final(self).pool() == old(self).pool(),
            final(self).market_price_spec() == old(self).market_price_spec(),
            final(self).stop_bids == old(self).stop_bids,
            final(self).stop_asks == old(self).stop_asks,
            is_bids ==> final(self).asks == old(self).asks && final(self).bids.levels() == old(self).bids.levels() && final(self).bids.is_descending() == old(self).bids.is_descending()
                && final(self).bids.total_spec() == old(self).bids.total_spec() - quantity,
            !is_bids ==> final(self).bids == old(self).bids && final(self).asks.levels() == old(self).asks.levels() && final(self).asks.is_descending() == old(self).asks.is_descending()
                && final(self).asks.total_spec() == old(self).asks.total_spec() - quantity,
    {
        if is_bids {
            let t = self.bids.total_quantity();
            self.set_total_quantity(is_bids, t - quantity);
        } else {
            let t = self.asks.total_quantity();
            self.set_total_quantity(is_bids, t - quantity);
        }
    }

    /// Rests the pooled order `order_idx` on its side's book, unless its
    /// remaining quantity is zero. Returns whether it was added.
    fn update_book_order(&mut self, order_idx: SlabKey) -> (r: bool)
        requires
            old(self).wf(),
            old(self).pool().contains_key(order_idx),
            old(self).not_queued(order_idx),
            old(self).pool()[order_idx].time_in_force != TimeInForce::IOC,
            old(self).pool()[order_idx].time_in_force != TimeInForce::FOK,
            old(self).side_sel(old(self).pool()[order_idx].order_side).total_spec() + old(self).pool()[order_idx].quantity <= Quantity::MAX,
        ensures
            final(self).wf(),
            final(self).pool() == old(self).pool(),
            final(self).market_price_spec() == old(self).market_price_spec(),
            final(self).stop_bids == old(self).stop_bids,
            final(self).stop_asks == old(self).stop_asks,
            final(self).opp_sel(old(self).pool()[order_idx].order_side) == old(self).opp_sel(
                old(self).pool()[order_idx].order_side,
            ),
            r == (old(self).pool()[order_idx].quantity > 0),
            !r ==> final(self).bids == old(self).bids && final(self).asks == old(self).asks,
            r ==> Self::added_to(
                old(self).side_sel(old(self).pool()[order_idx].order_side),
                final(self).side_sel(old(self).pool()[order_idx].order_side),
                old(self).pool()[order_idx].price,
                order_idx,
                old(self).pool()[order_idx].id,
                old(self).pool()[order_idx].quantity,
            ),
    {
        let ghost pre = *self;
        let order = slab_get(&self.order_allocator, order_idx).unwrap();
        if order.quantity == 0 {
            return false;
        }
        let side_is_buy = order.order_side.is_buy();
        proof {
            let m = if side_is_buy {
                self.bids
            } else {
                self.asks
            };
            let c: int = if side_is_buy {
                0
            } else {
                1
            };
            assert(Self::side_wf(self.pool(), m, order.order_side));
            if m.has_level(order.price) {
                let li = m.level_index(order.price);
                assert(0 <= li < m.levels().len());
                OrderMap::lemma_level_le_sum(m.levels(), li);
            }
        }
        if side_is_buy {
            let key = order.price;
            self.bids.add_order(&key, order_idx, order.id, order.quantity);
        } else {
            let key = order.price;
            self.asks.add_order(&key, order_idx, order.id, order.quantity);
        }
        proof {
            let c: int = if side_is_buy {
                0
            } else {
                1
            };
            assert forall|d: int| 0 <= d < 4 && d != c implies #[trigger] self.side_ref(d)
                == pre.side_ref(d) by {}
            Self::lemma_add_wf(pre, *self, c, order_idx);
        }
        true
    }

    /// Parks a stop order: pools a copy and queues it on the stop side of
    /// its order side, keyed by its trigger price.
    pub fn insert_stop_order(&mut self, order: &OrderSpec)
        requires
            old(self).wf(),
            order.quantity > 0,
            old(self).stop_sel(order.order_side).total_spec() + order.quantity <= Quantity::MAX,
        ensures
            final(self).wf(),
            final(self).bids == old(self).bids,
            final(self).asks == old(self).asks,
            final(self).market_price_spec() == old(self).market_price_spec(),
            final(self).stop_sel(opposite(order.order_side)) == old(self).stop_sel(
                opposite(order.order_side),
            ),
            exists|h: SlabKey|
                {
                    &&& !old(self).pool().contains_key(h)
                    &&& final(self).pool() == old(self).pool().insert(h, *order)
                    &&& #[trigger] Self::added_to(
                        old(self).stop_sel(order.order_side),
                        final(self).stop_sel(order.order_side),
                        order.price,
                        h,
                        order.id,
                        order.quantity,
                    )
                },
    {
        let ghost pre = *self;
        let order_idx = slab_insert(&mut self.order_allocator, *order);
        proof {
            Self::lemma_pool_extend_wf(pre, *self, order_idx, *order);
        }
        let ghost mid = *self;
        proof {
            let m = if order.order_side == OrderSide::Buy {
                self.stop_bids
            } else {
                self.stop_asks
            };
            assert(Self::side_wf(self.pool(), m, order.order_side));
            if m.has_level(order.price) {
                let li = m.level_index(order.price);
                assert(0 <= li < m.levels().len());
                OrderMap::lemma_level_le_sum(m.levels(), li);
            }
        }
        if order.order_side.is_buy() {
            let key = order.price;
            self.stop_bids.add_order(&key, order_idx, order.id, order.quantity);
        } else {
            let key = order.price;
            self.stop_asks.add_order(&key, order_idx, order.id, order.quantity);
        }
        proof {
            let c: int = if order.order_side == OrderSide::Buy {
                2
            } else {
                3
            };
            assert forall|d: int| 0 <= d < 4 && d != c implies #[trigger] self.side_ref(d)
                == mid.side_ref(d) by {}
            Self::lemma_add_wf(mid, *self, c, order_idx);
            assert(Self::added_to(
                old(self).stop_sel(order.order_side),
                self.stop_sel(order.order_side),
                order.price,
                order_idx,
                order.id,
                order.quantity,
            ));
        }
    }

    /// Removes the resident order with the id of `order` from the level at
    /// `order`'s side and price, releasing its pool slot and returning it
    /// by value.
    ///
    /// Fails with `OrdersNotFound` when no level rests at that side and
    /// price, and with `OrderNotFound` when the level holds no entry with
    /// that id; the book is unchanged in both cases.
    pub fn cancel_order(&mut self, order: &OrderSpec) -> (r: Result<OrderSpec, OrderError>)
        requires
            old(self).wf(),
        ensures
            final(self).wf(),
            final(self).market_price_spec() == old(self).market_price_spec(),
            final(self).stop_bids == old(self).stop_bids,
            final(self).stop_asks == old(self).stop_asks,
            final(self).opp_sel(order.order_side) == old(self).opp_sel(order.order_side),
            !old(self).side_sel(order.order_side).has_level(order.price) ==> r == Err::<
                OrderSpec,
                OrderError,
            >(OrderError::OrdersNotFound) && *final(self) == *old(self),
            old(self).side_sel(order.order_side).has_level(order.price) && !has_id(
                old(self).side_sel(order.order_side).level_at(order.price).metas(),
                order.id,
            ) ==> r == Err::<OrderSpec, OrderError>(OrderError::OrderNotFound) && *final(self)
                == *old(self),
            old(self).side_sel(order.order_side).has_level(order.price) && has_id(
                old(self).side_sel(order.order_side).level_at(order.price).metas(),
                order.id,
            ) ==> ({
                let oldm = old(self).side_sel(order.order_side);
                let li = oldm.level_index(order.price);
                let metas = oldm.level_at(order.price).metas();
                let mi = first_id_index(metas, order.id);
                let h = metas[mi].slab_idx_spec();
                &&& r == Ok::<OrderSpec, OrderError>(old(self).pool()[h])
                &&& final(self).pool() == old(self).pool().remove(h)
                &&& Self::removed_from(
                    oldm,
                    final(self).side_sel(order.order_side),
                    li,
                    mi,
                    old(self).pool()[h].quantity,
                )
            }),
    {
        let ghost pre = *self;
        let side_is_buy = order.order_side.is_buy();
        let key = order.price;
        let ghost c: int = if side_is_buy {
            0
        } else {
            1
        };
        // Locate the level.
        let mut level_len: usize = 0;
        let level_found: bool;
        {
            let orders = if side_is_buy {
                self.bids.get_orders(&key)
            } else {
                self.asks.get_orders(&key)
            };
            match orders {
                None => {
                    level_found = false;
                },
                Some(level) => {
                    level_len = level.len();
                    level_found = true;
                },
            }
        }
        if !level_found {
            return Err(OrderError::OrdersNotFound);
        }
        let ghost oldm = pre.side_sel(order.order_side);
        let ghost li = oldm.level_index(order.price);
        let ghost metas = oldm.level_at(order.price).metas();
        // Locate the entry with the order's id.
        let mut order_index: usize = 0;
        let mut found: bool = false;
        while order_index < level_len
            invariant_except_break
                !found,
                order_index <= level_len,
            invariant
                *self == pre,
                pre.wf(),
                key == order.price,
                side_is_buy == (order.order_side == OrderSide::Buy),
                oldm == pre.side_sel(order.order_side),
                oldm.sorted(),
                oldm.has_level(order.price),
                li == oldm.level_index(order.price),
                metas == oldm.level_at(order.price).metas(),
                level_len == metas.len(),
                forall|j: int|
                    0 <= j < order_index ==> (#[trigger] metas[j]).order_id_spec() != order.id,
                found ==> order_index < level_len && metas[order_index as int].order_id_spec()
                    == order.id,
            ensures
                found ==> order_index < level_len && metas[order_index as int].order_id_spec()
                    == order.id,
                !found ==> order_index == level_len,
            decreases level_len - order_index,
        {
            let m = {
                let level = if side_is_buy {
                    self.bids.get_orders(&key).unwrap()
                } else {
                    self.asks.get_orders(&key).unwrap()
                };
                level.items()[order_index]
            };
            if m.order_id() == order.id {
                found = true;
                break ;
            }
            order_index = order_index + 1;
        }
        if !found {
            proof {
                assert(!has_id(metas, order.id));
            }
            return Err(OrderError::OrderNotFound);
        }
        proof {
            lemma_first_id_index(metas, order.id);
            assert(first_id_index(metas, order.id) == order_index) by {
                let fi = first_id_index(metas, order.id);
                if fi < order_index {
                    assert(metas[fi].order_id_spec() != order.id);
                }
            }
            assert(pre.pos_valid(c, li, order_index as int));
            assert(pre.handle_at(c, li, order_index as int) == metas[order_index as int].slab_idx_spec());
            assert(Self::meta_wf(pre.pool(), metas[order_index as int], order.price, order.order_side));
        }
        let meta = {
            let level = if side_is_buy {
                self.bids.get_orders(&key).unwrap()
            } else {
                self.asks.get_orders(&key).unwrap()
            };
            level.items()[order_index]
        };
        let slab_order = slab_try_remove(&mut self.order_allocator, meta.slab_idx()).unwrap();
        let ghost mid = *self;
        // Unqueue the entry, maintaining both caches, and drop the level
        // if it was the only one.
        if level_len == 1 {
            if side_is_buy {
                let _ = self.bids.remove_orders(&key);
            } else {
                let _ = self.asks.remove_orders(&key);
            }
        } else {
            proof {
                assert(Self::level_wf(pre.pool(), oldm.levels()[li], order.order_side));
                Self::lemma_pooled_nonneg(pre.pool(), metas.remove(order_index as int));
                Self::lemma_pooled_remove(pre.pool(), metas, order_index as int);
            }
            let level_qty: Quantity;
            if side_is_buy {
                level_qty = self.bids.get_orders(&key).unwrap().orders_quantity();
                let _ = self.bids.remove_meta_at(&key, order_index);
                self.bids.set_level_quantity(&key, level_qty - slab_order.quantity);
            } else {
                level_qty = self.asks.get_orders(&key).unwrap().orders_quantity();
                let _ = self.asks.remove_meta_at(&key, order_index);
                self.asks.set_level_quantity(&key, level_qty - slab_order.quantity);
            }
        }
        proof {
            assert(Self::level_wf(pre.pool(), oldm.levels()[li], order.order_side));
            Self::lemma_pooled_remove(pre.pool(), metas, order_index as int);
            Self::lemma_pooled_nonneg(pre.pool(), metas.remove(order_index as int));
            OrderMap::lemma_level_le_sum(oldm.levels(), li);
        }
        let side_total = self.total_quantity(side_is_buy);
        self.set_total_quantity(side_is_buy, side_total - slab_order.quantity);
        proof {
            assert forall|d: int| 0 <= d < 4 && d != c implies #[trigger] self.side_ref(d)
                == pre.side_ref(d) by {}
            Self::lemma_remove_wf(pre, *self, c, li, order_index as int);
        }
        Ok(slab_order)
    }

    /// Executes one level fill: trades the incoming pooled order
    /// `order_idx` against the best opposing level, which must rest at
    /// `top_price`, consuming the smaller of the level quantity and the
    /// incoming remainder. Returns `Some(())` exactly when the incoming
    /// order still has remaining quantity (so the caller continues with
    /// the next level); for a non-marketable limit order nothing happens
    /// and `None` is returned.
    #[verifier::rlimit(100)]
    fn match_order(
        &mut self,
        order_idx: SlabKey,
        top_price: Price,
        order_matches: &mut Vec<OrderMatch>,
    ) -> (r: Option<()>)
        requires
            old(self).wf(),
            old(self).pool().contains_key(order_idx),
            old(self).not_queued(order_idx),
            old(self).pool()[order_idx].quantity > 0,
            old(self).opp_sel(old(self).pool()[order_idx].order_side).levels().len() > 0,
            top_price == old(self).opp_sel(old(self).pool()[order_idx].order_side).levels()[0].0,
        ensures
            final(self).wf(),
            final(self).pool().contains_key(order_idx),
            final(self).not_queued(order_idx),
            final(self).market_price_spec() == old(self).market_price_spec(),
            final(self).stop_bids == old(self).stop_bids,
            final(self).stop_asks == old(self).stop_asks,
            final(self).side_sel(old(self).pool()[order_idx].order_side) == old(self).side_sel(
                old(self).pool()[order_idx].order_side,
            ),
            final(self).pool()[order_idx] == (OrderSpec {
                quantity: final(self).pool()[order_idx].quantity,
                ..old(self).pool()[order_idx]
            }),
            Self::pool_frame(
                old(self).pool(),
                final(self).pool(),
                old(self).opp_sel(old(self).pool()[order_idx].order_side).levels()[0].1.metas(),
                order_idx,
            ),
            (old(self).pool()[order_idx].order_type == OrderType::Limit && !marketable_at(
                old(self).pool()[order_idx].order_side,
                old(self).pool()[order_idx].price,
                top_price,
            )) ==> (r is None && *final(self) == *old(self) && final(order_matches)@ == old(
                order_matches,
            )@),
            !(old(self).pool()[order_idx].order_type == OrderType::Limit && !marketable_at(
                old(self).pool()[order_idx].order_side,
                old(self).pool()[order_idx].price,
                top_price,
            )) ==> ({
                let taker = old(self).pool()[order_idx];
                let oppm = old(self).opp_sel(taker.order_side);
                let lvl = oppm.levels()[0];
                let consumed = min_q(lvl.1.qty(), taker.quantity);
                let entry_len = old(order_matches)@.len() as int;
                let newt = final(order_matches)@.skip(entry_len);
                &&& final(order_matches)@.len() > entry_len
                &&& final(order_matches)@.subrange(0, entry_len) == old(order_matches)@
                &&& sum_trades(newt) == consumed
                &&& newt.len() <= lvl.1.metas().len()
                &&& forall|i: int|
                    0 <= i < newt.len() ==> {
                        let t = newt[i];
                        &&& t.order_side == taker.order_side
                        &&& t.price == top_price
                        &&& t.match_from_id == taker.id
                        &&& t.match_to_id == (#[trigger] lvl.1.metas()[i]).order_id_spec()
                        &&& t.quantity > 0
                        &&& t.quantity <= old(self).pool()[lvl.1.metas()[i].slab_idx_spec()].quantity
                        &&& (i < newt.len() - 1 ==> t.quantity == old(self).pool()[lvl.1.metas()[i].slab_idx_spec()].quantity)
                    }
                &&& final(self).pool()[order_idx].quantity == taker.quantity - consumed
                &&& ((r == Some::<()>(())) <==> consumed < taker.quantity)
                &&& final(self).opp_sel(taker.order_side).total_spec() == oppm.total_spec()
                    - consumed
                &&& final(self).opp_sel(taker.order_side).is_descending() == oppm.is_descending()
                &&& if consumed == lvl.1.qty() {
                    final(self).opp_sel(taker.order_side).levels() == oppm.levels().remove(0)
                        && (forall|j: int|
                        0 <= j < lvl.1.metas().len() ==> !final(self).pool().contains_key(
                            (#[trigger] lvl.1.metas()[j]).slab_idx_spec(),
                        ))
                } else {
                    &&& final(self).opp_sel(taker.order_side).levels().len()
                        == oppm.levels().len()
                    &&& final(self).opp_sel(taker.order_side).levels()[0].0 == top_price
                    &&& (exists|dd: int|
                        0 <= dd <= lvl.1.metas().len() && #[trigger] final(self).opp_sel(
                            taker.order_side,
                        ).levels()[0].1.metas() == lvl.1.metas().skip(dd) && (forall|j: int|
                            0 <= j < dd ==> !final(self).pool().contains_key(
                                (#[trigger] lvl.1.metas()[j]).slab_idx_spec(),
                            )))
                    &&& final(self).opp_sel(taker.order_side).levels()[0].1.qty() == lvl.1.qty()
                        - consumed
                    &&& forall|i: int|
                        1 <= i < oppm.levels().len() ==> #[trigger] final(self).opp_sel(
                            taker.order_side,
                        ).levels()[i] == oppm.levels()[i]
                }
            }),
    {
        let ghost pre = *self;
        let taker = slab_get(&self.order_allocator, order_idx).unwrap();
        if taker.order_type.is_limit() {
            let is_match = self.is_match_price(&taker.order_side, taker.price, top_price);
            if !is_match {
                proof {
                    reveal(OrderBook::pool_frame);
                }
                return None;
            }
        }
        let is_buy = taker.order_side.is_buy();
        let ghost c: int = if is_buy {
            1
        } else {
            0
        };
        let ghost oppm0 = pre.opp_sel(taker.order_side);
        let ghost lvl = oppm0.levels()[0];
        let ghost entry_len = order_matches@.len() as int;
        let ghost entry_matches = order_matches@;
        let mut order_quantity = taker.quantity;
        let ghost mut partial: bool = false;
        proof {
            assert(Self::side_wf(pre.pool(), oppm0, opposite(taker.order_side))) by {
                assert(pre.side_ref(c) == oppm0);
            }
            assert(Self::level_wf(pre.pool(), lvl, opposite(taker.order_side)));
            assert(order_matches@.skip(entry_len) =~= Seq::<OrderMatch>::empty());
            assert(order_matches@.subrange(0, entry_len) =~= entry_matches);
            assert(lvl.1.metas().skip(0) =~= lvl.1.metas());
            reveal(OrderBook::pool_frame);
            assert(Self::pool_frame(pre.pool(), self.pool(), lvl.1.metas(), order_idx)) by {
            }
        }
        loop
            invariant_except_break
                !partial,
                forall|i: int|
                    0 <= i < order_matches@.len() - entry_len ==> {
                        let t = order_matches@[entry_len + i];
                        &&& t.match_to_id == (#[trigger] lvl.1.metas()[i]).order_id_spec()
                        &&& t.quantity == pre.pool()[lvl.1.metas()[i].slab_idx_spec()].quantity
                    },
                forall|j: int|
                    order_matches@.len() - entry_len <= j < lvl.1.metas().len() ==> {
                        let hh = (#[trigger] lvl.1.metas()[j]).slab_idx_spec();
                        &&& self.pool().contains_key(hh)
                        &&& self.pool()[hh] == pre.pool()[hh]
                    },
                forall|j: int|
                    0 <= j < order_matches@.len() - entry_len ==> !self.pool().contains_key(
                        (#[trigger] lvl.1.metas()[j]).slab_idx_spec(),
                    ),
                ({
                    let k = order_matches@.len() - entry_len;
                    if k < lvl.1.metas().len() {
                        let om = self.opp_sel(taker.order_side);
                        &&& om.levels().len() == oppm0.levels().len()
                        &&& om.levels()[0].0 == top_price
                        &&& om.levels()[0].1.metas() == lvl.1.metas().skip(k)
                        &&& om.levels()[0].1.qty() == lvl.1.qty() - (taker.quantity
                            - order_quantity)
                        &&& forall|i: int|
                            1 <= i < oppm0.levels().len() ==> #[trigger] om.levels()[i]
                                == oppm0.levels()[i]
                    } else {
                        self.opp_sel(taker.order_side).levels() == oppm0.levels().remove(0)
                            && taker.quantity - order_quantity == lvl.1.qty()
                    }
                }),
            invariant
                self.wf(),
                pre.wf(),
                self.pool().contains_key(order_idx),
                self.pool()[order_idx] == taker,
                self.not_queued(order_idx),
                taker == pre.pool()[order_idx],
                taker.quantity > 0,
                is_buy == (taker.order_side == OrderSide::Buy),
                c == if is_buy { 1int } else { 0int },
                oppm0 == pre.opp_sel(taker.order_side),
                self.side_ref(c) == self.opp_sel(taker.order_side),
                pre.side_ref(c) == oppm0,
                oppm0.levels().len() > 0,
                lvl == oppm0.levels()[0],
                top_price == lvl.0,
                Self::level_wf(pre.pool(), lvl, opposite(taker.order_side)),
                self.side_sel(taker.order_side) == pre.side_sel(taker.order_side),
                self.stop_bids == pre.stop_bids,
                self.stop_asks == pre.stop_asks,
                self.current_market_price == pre.current_market_price,
                order_quantity <= taker.quantity,
                order_matches@.len() >= entry_len,
                entry_len == entry_matches.len(),
                order_matches@.subrange(0, entry_len) == entry_matches,
                sum_trades(order_matches@.skip(entry_len)) == taker.quantity - order_quantity,
                order_matches@.len() - entry_len <= lvl.1.metas().len(),
                forall|i: int|
                    0 <= i < order_matches@.len() - entry_len ==> {
                        let t = order_matches@[entry_len + i];
                        &&& t.order_side == taker.order_side
                        &&& t.price == top_price
                        &&& t.match_from_id == taker.id
                        &&& t.quantity > 0
                        &&& t.quantity <= pre.pool()[(#[trigger] lvl.1.metas()[i]).slab_idx_spec()].quantity
                    },
                self.opp_sel(taker.order_side).total_spec() == oppm0.total_spec() - (
                taker.quantity - order_quantity),
                self.opp_sel(taker.order_side).is_descending() == oppm0.is_descending(),
                Self::pool_frame(pre.pool(), self.pool(), lvl.1.metas(), order_idx),
            ensures
                self.wf(),
                self.pool().contains_key(order_idx),
                self.pool()[order_idx] == taker,
                self.not_queued(order_idx),
                self.side_sel(taker.order_side) == pre.side_sel(taker.order_side),
                self.side_ref(c) == self.opp_sel(taker.order_side),
                self.stop_bids == pre.stop_bids,
                self.stop_asks == pre.stop_asks,
                self.current_market_price == pre.current_market_price,
                order_quantity <= taker.quantity,
                order_matches@.len() >= entry_len,
                order_matches@.subrange(0, entry_len) == entry_matches,
                sum_trades(order_matches@.skip(entry_len)) == taker.quantity - order_quantity,
                order_matches@.len() - entry_len <= lvl.1.metas().len(),
                forall|i: int|
                    0 <= i < order_matches@.len() - entry_len ==> {
                        let t = order_matches@[entry_len + i];
                        &&& t.order_side == taker.order_side
                        &&& t.price == top_price
                        &&& t.match_from_id == taker.id
                        &&& t.match_to_id == (#[trigger] lvl.1.metas()[i]).order_id_spec()
                        &&& t.quantity <= pre.pool()[lvl.1.metas()[i].slab_idx_spec()].quantity
                        &&& t.quantity > 0
                        &&& (!partial || i < order_matches@.len() - entry_len - 1
                            ==> t.quantity == pre.pool()[lvl.1.metas()[i].slab_idx_spec()].quantity)
                    },
                self.opp_sel(taker.order_side).total_spec() == oppm0.total_spec() - (
                taker.quantity - order_quantity),
                self.opp_sel(taker.order_side).is_descending() == oppm0.is_descending(),
                forall|j: int|
                    0 <= j < order_matches@.len() - entry_len - if partial {
                        1int
                    } else {
                        0int
                    } ==> !self.pool().contains_key((#[trigger] lvl.1.metas()[j]).slab_idx_spec()),
                order_quantity == 0 || order_matches@.len() - entry_len == lvl.1.metas().len(),
                partial ==> order_quantity == 0,
                ({
                    let k = order_matches@.len() - entry_len - if partial { 1int } else { 0int };
                    if k < lvl.1.metas().len() {
                        let om = self.opp_sel(taker.order_side);
                        &&& om.levels().len() == oppm0.levels().len()
                        &&& om.levels()[0].0 == top_price
                        &&& om.levels()[0].1.metas() == lvl.1.metas().skip(k)
                        &&& om.levels()[0].1.qty() == lvl.1.qty() - (taker.quantity
                            - order_quantity)
                        &&& om.levels()[0].1.qty() > 0
                        &&& forall|i: int|
                            1 <= i < oppm0.levels().len() ==> #[trigger] om.levels()[i]
                                == oppm0.levels()[i]
                    } else {
                        self.opp_sel(taker.order_side).levels() == oppm0.levels().remove(0)
                            && taker.quantity - order_quantity == lvl.1.qty()
                    }
                }),
            decreases lvl.1.metas().len() - (order_matches@.len() - entry_len), order_quantity,
        {
            let ghost head = *self;
            let ghost k = order_matches@.len() - entry_len;
            if order_quantity == 0 {
                break ;
            }
            let level_len: usize;
            {
                let level = if is_buy {
                    self.asks.get_orders(&top_price)
                } else {
                    self.bids.get_orders(&top_price)
                };
                match level {
                    None => {
                        level_len = 0;
                    },
                    Some(l) => {
                        level_len = l.len();
                    },
                }
            }
            proof {
                if k >= lvl.1.metas().len() {
                    // The level is gone; no later level carries its price.
                    let om = self.opp_sel(taker.order_side);
                    assert(om.levels() == oppm0.levels().remove(0));
                    assert(Self::side_wf(pre.pool(), oppm0, opposite(taker.order_side)));
                    assert forall|i: int|
                        0 <= i < om.levels().len() implies (#[trigger] om.levels()[i].0)
                        != top_price by {
                        assert(om.levels()[i] == oppm0.levels()[i + 1]);
                        assert(oppm0.key_before(oppm0.levels()[0].0, oppm0.levels()[i + 1].0));
                    }
                    assert(!om.has_level(top_price));
                    assert(level_len == 0);
                } else {
                    let om = self.opp_sel(taker.order_side);
                    assert(om.levels()[0].0 == top_price);
                    assert(om.has_level(top_price));
                    om.lemma_unique_level(0, om.level_index(top_price));
                    assert(om.level_at(top_price) == om.levels()[0].1);
                    assert(om.levels()[0].1.metas().len() == lvl.1.metas().len() - k);
                    assert(level_len == lvl.1.metas().len() - k);
                }
            }
            if level_len == 0 {
                break ;
            }
            // The front resting order of the level.
            let front = {
                let l = if is_buy {
                    self.asks.get_orders(&top_price).unwrap()
                } else {
                    self.bids.get_orders(&top_price).unwrap()
                };
                l.items()[0]
            };
            proof {
                assert(front == lvl.1.metas()[k]);
                assert(self.pos_valid(c, 0, 0));
                assert(self.handle_at(c, 0, 0) == front.slab_idx_spec());
                assert(Self::side_wf(self.pool(), self.side_ref(c), opposite(taker.order_side)))
                    by {
                    if c == 0 {
                        assert(self.side_ref(0) == self.bids);
                    } else {
                        assert(self.side_ref(1) == self.asks);
                    }
                }
                assert(Self::level_wf(
                    self.pool(),
                    self.side_ref(c).levels()[0],
                    opposite(taker.order_side),
                ));
                assert(Self::meta_wf(self.pool(), front, top_price, opposite(taker.order_side)));
                assert(front.slab_idx_spec() != order_idx);
            }
            let front_order = slab_get(&self.order_allocator, front.slab_idx()).unwrap();
            let ghost om_head = self.opp_sel(taker.order_side);
            proof {
                // The level quantity bounds needed for the cache updates.
                assert(om_head.levels()[0].1.qty() == Self::pooled_qty(
                    self.pool(),
                    om_head.levels()[0].1.metas(),
                ));
                Self::lemma_pooled_nonneg(self.pool(), om_head.levels()[0].1.metas().drop_first());
                assert(front_order.quantity <= om_head.levels()[0].1.qty());
                assert(Self::side_wf(self.pool(), self.side_ref(c), opposite(taker.order_side)));
                OrderMap::lemma_level_le_sum(om_head.levels(), 0);
                assert(om_head.levels()[0].1.qty() <= om_head.total_spec());
            }
            if front_order.quantity <= order_quantity {
                // The front order is fully consumed: emit the trade, then
                // unqueue it and release its slot.
                let fill = front_order.quantity;
                let ghost bm = order_matches@;
                order_matches.push(
                    OrderMatch {
                        order_side: taker.order_side,
                        price: top_price,
                        quantity: fill,
                        match_from_id: taker.id,
                        match_to_id: front.order_id(),
                    },
                );
                if level_len == 1 {
                    if is_buy {
                        let _ = self.asks.remove_orders(&top_price);
                    } else {
                        let _ = self.bids.remove_orders(&top_price);
                    }
                } else {
                    let level_qty = if is_buy {
                        self.asks.get_orders(&top_price).unwrap().orders_quantity()
                    } else {
                        self.bids.get_orders(&top_price).unwrap().orders_quantity()
                    };
                    if is_buy {
                        let _ = self.asks.pop_front_at(&top_price);
                        self.asks.set_level_quantity(&top_price, level_qty - fill);
                    } else {
                        let _ = self.bids.pop_front_at(&top_price);
                        self.bids.set_level_quantity(&top_price, level_qty - fill);
                    }
                }
                self.decrease_total_quantity(!is_buy, fill);
                let _ = slab_remove(&mut self.order_allocator, front.slab_idx());
                order_quantity = order_quantity - fill;
                proof {
                    assert forall|d: int| 0 <= d < 4 && d != c implies #[trigger] self.side_ref(d)
                        == head.side_ref(d) by {}
                    assert(head.pos_valid(c, 0, 0));
                    assert(head.handle_at(c, 0, 0) == front.slab_idx_spec());
                    assert(om_head.levels()[0].1.metas().remove(0) =~= om_head.levels()[0].1.metas().drop_first());
                    Self::lemma_remove_wf(head, *self, c, 0, 0);
                    // Trade accounting.
                    assert(order_matches@ == bm.push(order_matches@.last()));
                    assert(order_matches@.subrange(0, entry_len) =~= bm.subrange(0, entry_len));
                    assert(order_matches@.skip(entry_len) =~= bm.skip(entry_len).push(
                        order_matches@.last(),
                    ));
                    lemma_sum_trades_push(bm.skip(entry_len), order_matches@.last());
                    // Level shape.
                    assert(lvl.1.metas().skip(k).drop_first() =~= lvl.1.metas().skip(k + 1));
                    // The untouched suffix keeps its pool entries: their
                    // handles differ from the removed front's.
                    assert forall|j: int| k + 1 <= j < lvl.1.metas().len() implies {
                        let hh = (#[trigger] lvl.1.metas()[j]).slab_idx_spec();
                        &&& self.pool().contains_key(hh)
                        &&& self.pool()[hh] == pre.pool()[hh]
                    } by {
                        assert(pre.pos_valid(c, 0, j));
                        assert(pre.pos_valid(c, 0, k));
                        assert(pre.handle_at(c, 0, j) == lvl.1.metas()[j].slab_idx_spec());
                        assert(pre.handle_at(c, 0, k) == lvl.1.metas()[k].slab_idx_spec());
                        assert(lvl.1.metas()[j].slab_idx_spec() != front.slab_idx_spec());
                    }
                    // Keys outside the level are untouched by the removal.
                    reveal(OrderBook::pool_frame);
                    assert(Self::pool_frame(pre.pool(), self.pool(), lvl.1.metas(), order_idx))
                        by {
                        assert forall|kk: SlabKey|
                            #[trigger] self.pool().contains_key(kk) implies pre.pool().contains_key(
                            kk,
                        ) by {
                            assert(head.pool().contains_key(kk));
                        }
                        assert forall|kk: SlabKey|
                            kk != order_idx && !Self::in_metas(lvl.1.metas(), kk)
                                implies #[trigger] self.pool().contains_key(kk)
                            == pre.pool().contains_key(kk) && (pre.pool().contains_key(kk)
                            ==> self.pool()[kk] == pre.pool()[kk]) by {
                            assert(lvl.1.metas()[k].slab_idx_spec() == front.slab_idx_spec());
                            assert(kk != front.slab_idx_spec());
                            assert(head.pool().contains_key(kk) == pre.pool().contains_key(kk));
                        }
                    }
                    // The newly released front joins the released prefix.
                    assert forall|j: int|
                        0 <= j < k + 1 implies !self.pool().contains_key(
                        (#[trigger] lvl.1.metas()[j]).slab_idx_spec(),
                    ) by {
                        if j < k {
                            assert(!head.pool().contains_key(lvl.1.metas()[j].slab_idx_spec()));
                        } else {
                            assert(lvl.1.metas()[k].slab_idx_spec() == front.slab_idx_spec());
                        }
                    }
                    if level_len == 1 {
                        assert(self.opp_sel(taker.order_side).levels() =~= oppm0.levels().remove(
                            0,
                        ));
                    }
                }
            } else {
                // The incoming order is exhausted by a partial fill of the
                // front order.
                let fill = order_quantity;
                let ghost bm = order_matches@;
                order_matches.push(
                    OrderMatch {
                        order_side: taker.order_side,
                        price: top_price,
                        quantity: fill,
                        match_from_id: taker.id,
                        match_to_id: front.order_id(),
                    },
                );
                let reduced = OrderSpec {
                    quantity: front_order.quantity - fill,
                    ..front_order
                };
                slab_set(&mut self.order_allocator, front.slab_idx(), reduced);
                let ghost mid = *self;
                let level_qty = if is_buy {
                    self.asks.get_orders(&top_price).unwrap().orders_quantity()
                } else {
                    self.bids.get_orders(&top_price).unwrap().orders_quantity()
                };
                if is_buy {
                    self.asks.set_level_quantity(&top_price, level_qty - fill);
                } else {
                    self.bids.set_level_quantity(&top_price, level_qty - fill);
                }
                self.decrease_total_quantity(!is_buy, fill);
                order_quantity = 0;
                proof {
                    partial = true;
                    assert forall|d: int| 0 <= d < 4 && d != c implies #[trigger] self.side_ref(d)
                        == head.side_ref(d) by {}
                    assert(head.pos_valid(c, 0, 0));
                    assert(head.handle_at(c, 0, 0) == front.slab_idx_spec());
                    Self::lemma_partial_fill_wf(head, *self, c, 0, fill);
                    // Keys outside the level are untouched by the write.
                    reveal(OrderBook::pool_frame);
                    assert(Self::pool_frame(pre.pool(), self.pool(), lvl.1.metas(), order_idx))
                        by {
                        assert forall|kk: SlabKey|
                            #[trigger] self.pool().contains_key(kk) implies pre.pool().contains_key(
                            kk,
                        ) by {
                            if kk != front.slab_idx_spec() {
                                assert(head.pool().contains_key(kk));
                            } else {
                                assert(head.pool().contains_key(front.slab_idx_spec()));
                            }
                        }
                        assert forall|kk: SlabKey|
                            kk != order_idx && !Self::in_metas(lvl.1.metas(), kk)
                                implies #[trigger] self.pool().contains_key(kk)
                            == pre.pool().contains_key(kk) && (pre.pool().contains_key(kk)
                            ==> self.pool()[kk] == pre.pool()[kk]) by {
                            assert(lvl.1.metas()[k].slab_idx_spec() == front.slab_idx_spec());
                            assert(kk != front.slab_idx_spec());
                            assert(head.pool().contains_key(kk) == pre.pool().contains_key(kk));
                        }
                    }
                    assert(order_matches@.subrange(0, entry_len) =~= bm.subrange(0, entry_len));
                    assert(order_matches@.skip(entry_len) =~= bm.skip(entry_len).push(
                        order_matches@.last(),
                    ));
                    lemma_sum_trades_push(bm.skip(entry_len), order_matches@.last());
                }
                break ;
            }
        }
        // Persist the incoming order's remaining quantity.
        let ghost before_set = *self;
        slab_set(
            &mut self.order_allocator,
            order_idx,
            OrderSpec { quantity: order_quantity, ..taker },
        );
        proof {
            Self::lemma_pool_retarget_wf(before_set, *self, order_idx);
            // The write-back touches only the incoming handle.
            reveal(OrderBook::pool_frame);
            assert(Self::pool_frame(pre.pool(), self.pool(), lvl.1.metas(), order_idx)) by {
                assert forall|kk: SlabKey|
                    #[trigger] self.pool().contains_key(kk) implies pre.pool().contains_key(
                    kk,
                ) by {
                    if kk != order_idx {
                        assert(before_set.pool().contains_key(kk));
                    }
                }
                assert forall|kk: SlabKey|
                    kk != order_idx && !Self::in_metas(lvl.1.metas(), kk)
                        implies #[trigger] self.pool().contains_key(kk) == pre.pool().contains_key(
                    kk,
                ) && (pre.pool().contains_key(kk) ==> self.pool()[kk] == pre.pool()[kk]) by {
                    assert(before_set.pool().contains_key(kk) == pre.pool().contains_key(kk));
                }
            }
            assert(old(self).opp_sel(old(self).pool()[order_idx].order_side).levels()[0].1.metas()
                == lvl.1.metas());
            let newt = order_matches@.skip(entry_len);
            assert(newt.len() == order_matches@.len() - entry_len);
            assert forall|i: int| 0 <= i < newt.len() implies newt[i] == order_matches@[entry_len
                + i] by {}
            let kk = order_matches@.len() - entry_len - if partial {
                1int
            } else {
                0int
            };
            if kk < lvl.1.metas().len() {
                assert(self.opp_sel(taker.order_side).levels()[0].1.metas() == lvl.1.metas().skip(
                    kk,
                ));
                assert(taker.quantity - order_quantity < lvl.1.qty());
                assert(order_quantity == 0);
            } else {
                assert(taker.quantity - order_quantity == lvl.1.qty());
            }
            assert(min_q(lvl.1.qty(), taker.quantity) == taker.quantity - order_quantity);
            assert(order_matches@.subrange(0, entry_len) =~= entry_matches);
        }
        if order_quantity == 0 {
            return None;
        }
        Some(())
    }

    /// An empty side has a zero cache under the book invariant.
    pub proof fn lemma_side_wf_total_zero(b: OrderBook, side: OrderSide)
        requires
            b.wf(),
            b.opp_sel(side).levels().len() == 0,
        ensures
            b.opp_sel(side).total_spec() == 0,
    {
        let m = b.opp_sel(side);
        if side == OrderSide::Buy {
            assert(b.side_ref(1) == m);
            assert(Self::side_wf(b.pool(), m, OrderSide::Sell));
        } else {
            assert(b.side_ref(0) == m);
            assert(Self::side_wf(b.pool(), m, OrderSide::Buy));
        }
    }

    /// Whether a fill-or-kill order could be completely filled from the
    /// liquidity marketable against it.
    pub open spec fn fok_feasible(&self, order: OrderSpec) -> bool {
        if order.order_type == OrderType::Limit {
            fillable_sum(
                self.opp_sel(order.order_side).levels(),
                order.order_side,
                order.price,
            ) >= order.quantity
        } else {
            self.opp_sel(order.order_side).total_spec() >= order.quantity
        }
    }

    /// Runs the crossing loop for the pooled incoming order `order_idx`
    /// (a fresh copy of `order`): drains the opposing side best level
    /// first while the order is marketable, collecting the trade events.
    /// A fill-or-kill order that cannot be completely filled trades
    /// nothing and the book is left untouched.
    #[verifier::rlimit(100)]
    fn process_order(&mut self, order_idx: SlabKey, order: &OrderSpec) -> (r: Vec<OrderMatch>)
        requires
            old(self).wf(),
            old(self).pool().contains_key(order_idx),
            old(self).pool()[order_idx] == *order,
            old(self).not_queued(order_idx),
            order.quantity > 0,
        ensures
            final(self).wf(),
            final(self).pool().contains_key(order_idx),
            final(self).not_queued(order_idx),
            final(self).market_price_spec() == old(self).market_price_spec(),
            final(self).stop_bids == old(self).stop_bids,
            final(self).stop_asks == old(self).stop_asks,
            final(self).side_sel(order.order_side) == old(self).side_sel(order.order_side),
            0 <= sum_trades(r@) <= order.quantity,
            final(self).pool()[order_idx] == (OrderSpec {
                quantity: (order.quantity - sum_trades(r@)) as Quantity,
                ..*order
            }),
            sum_trades(r@) == old(self).opp_sel(order.order_side).total_spec() - final(self).opp_sel(order.order_side).total_spec(),
            Self::side_reduced(
                old(self).opp_sel(order.order_side),
                final(self).opp_sel(order.order_side),
            ),
            final(self).opp_sel(order.order_side).is_descending() == old(self).opp_sel(
                order.order_side,
            ).is_descending(),
            r@.len() == 0 ==> *final(self) == *old(self),
            forall|i: int|
                0 <= i < r@.len() ==> {
                    let t = #[trigger] r@[i];
                    &&& t.order_side == order.order_side
                    &&& t.match_from_id == order.id
                    &&& t.quantity > 0
                    &&& (order.order_type == OrderType::Limit ==> marketable_at(
                        order.order_side,
                        order.price,
                        t.price,
                    ))
                },
            forall|i: int, j: int|
                0 <= i < j < r@.len() ==> !old(self).opp_sel(order.order_side).key_before(
                    (#[trigger] r@[j]).price,
                    (#[trigger] r@[i]).price,
                ),
            order.time_in_force == TimeInForce::FOK && !old(self).fok_feasible(*order)
                ==> r@.len() == 0,
            order.order_type == OrderType::Limit && fillable_sum(
                old(self).opp_sel(order.order_side).levels(),
                order.order_side,
                order.price,
            ) >= order.quantity ==> sum_trades(r@) == order.quantity,
            order.order_type != OrderType::Limit && old(self).opp_sel(
                order.order_side,
            ).total_spec() >= order.quantity ==> sum_trades(r@) == order.quantity,
            !(order.time_in_force == TimeInForce::FOK && !old(self).fok_feasible(*order)) ==> r@
                == Self::book_trades(
                old(self).pool(),
                old(self).opp_sel(order.order_side).levels(),
                *order,
                order.quantity,
            ),
            Self::side_pool_frame(
                old(self).pool(),
                final(self).pool(),
                old(self).opp_sel(order.order_side).levels(),
                order_idx,
            ),
            forall|kk: SlabKey|
                Self::in_side(old(self).opp_sel(order.order_side).levels(), kk) && !Self::in_side(
                    final(self).opp_sel(order.order_side).levels(),
                    kk,
                ) ==> !(#[trigger] final(self).pool().contains_key(kk)),
    {
        let mut order_matches: Vec<OrderMatch> = Vec::new();
        if order.is_fill_or_kill() && !self.has_sufficient_quantity(order) {
            proof {
                Self::lemma_side_reduced_refl(self.opp_sel(order.order_side));
                Self::lemma_side_frame_intro(
                    self.pool(),
                    self.pool(),
                    self.opp_sel(order.order_side).levels(),
                    order_idx,
                );
            }
            return order_matches;
        }
        let ghost pre = *self;
        let is_sell = order.order_side.is_sell();
        let ghost oppm_pre = pre.opp_sel(order.order_side);
        let ghost mut k_done: int = 0;
        proof {
            assert(Self::side_reduced(
                pre.opp_sel(order.order_side),
                self.opp_sel(order.order_side),
            )) by {
                Self::lemma_side_reduced_refl(pre.opp_sel(order.order_side));
            }
            assert(oppm_pre.levels().skip(0) =~= oppm_pre.levels());
            Self::lemma_side_frame_intro(pre.pool(), self.pool(), oppm_pre.levels(), order_idx);
        }
        loop
            invariant_except_break
                sum_trades(order_matches@) < order.quantity,
                self.opp_sel(order.order_side).levels() == oppm_pre.levels().skip(k_done),
                Self::book_trades(pre.pool(), oppm_pre.levels(), *order, order.quantity)
                    == order_matches@ + Self::book_trades(
                    pre.pool(),
                    oppm_pre.levels().skip(k_done),
                    *order,
                    (order.quantity - sum_trades(order_matches@)) as Quantity,
                ),
                forall|i: int, j: int|
                    k_done <= i < oppm_pre.levels().len() && 0 <= j < (
                    #[trigger] oppm_pre.levels()[i]).1.metas().len() ==> {
                        let hh = (#[trigger] oppm_pre.levels()[i].1.metas()[j]).slab_idx_spec();
                        &&& self.pool().contains_key(hh)
                        &&& self.pool()[hh] == pre.pool()[hh]
                    },
            invariant
                self.wf(),
                pre.wf(),
                oppm_pre == pre.opp_sel(order.order_side),
                0 <= k_done <= oppm_pre.levels().len(),
                Self::side_pool_frame(pre.pool(), self.pool(), oppm_pre.levels(), order_idx),
                forall|i: int, j: int|
                    0 <= i < k_done && 0 <= j < (#[trigger] oppm_pre.levels()[i]).1.metas().len()
                        ==> !self.pool().contains_key(
                        (#[trigger] oppm_pre.levels()[i].1.metas()[j]).slab_idx_spec(),
                    ),
                *order == pre.pool()[order_idx],
                order.quantity > 0,
                is_sell == (order.order_side == OrderSide::Sell),
                self.pool().contains_key(order_idx),
                self.not_queued(order_idx),
                self.pool()[order_idx] == (OrderSpec {
                    quantity: (order.quantity - sum_trades(order_matches@)) as Quantity,
                    ..*order
                }),
                0 <= sum_trades(order_matches@) <= order.quantity,
                self.market_price_spec() == pre.market_price_spec(),
                self.stop_bids == pre.stop_bids,
                self.stop_asks == pre.stop_asks,
                self.side_sel(order.order_side) == pre.side_sel(order.order_side),
                sum_trades(order_matches@) == pre.opp_sel(order.order_side).total_spec()
                    - self.opp_sel(order.order_side).total_spec(),
                Self::side_reduced(
                    pre.opp_sel(order.order_side),
                    self.opp_sel(order.order_side),
                ),
                self.opp_sel(order.order_side).is_descending() == pre.opp_sel(
                    order.order_side,
                ).is_descending(),
                order_matches@.len() == 0 ==> *self == pre,
                forall|i: int|
                    0 <= i < order_matches@.len() ==> {
                        let t = #[trigger] order_matches@[i];
                        &&& t.order_side == order.order_side
                        &&& t.match_from_id == order.id
                        &&& t.quantity > 0
                        &&& (order.order_type == OrderType::Limit ==> marketable_at(
                            order.order_side,
                            order.price,
                            t.price,
                        ))
                    },
                forall|i: int, j: int|
                    0 <= i < j < order_matches@.len() ==> !pre.opp_sel(
                        order.order_side,
                    ).key_before(
                        (#[trigger] order_matches@[j]).price,
                        (#[trigger] order_matches@[i]).price,
                    ),
                self.opp_sel(order.order_side).levels().len() > 0 ==> forall|i: int|
                    0 <= i < order_matches@.len() ==> !pre.opp_sel(order.order_side).key_before(
                        self.opp_sel(order.order_side).levels()[0].0,
                        (#[trigger] order_matches@[i]).price,
                    ),
                order.order_type == OrderType::Limit && fillable_sum(
                    pre.opp_sel(order.order_side).levels(),
                    order.order_side,
                    order.price,
                ) >= order.quantity ==> fillable_sum(
                    self.opp_sel(order.order_side).levels(),
                    order.order_side,
                    order.price,
                ) >= order.quantity - sum_trades(order_matches@),
                order.order_type != OrderType::Limit && pre.opp_sel(
                    order.order_side,
                ).total_spec() >= order.quantity ==> self.opp_sel(order.order_side).total_spec()
                    >= order.quantity - sum_trades(order_matches@),
            ensures
                self.wf(),
                self.pool().contains_key(order_idx),
                self.not_queued(order_idx),
                self.pool()[order_idx] == (OrderSpec {
                    quantity: (order.quantity - sum_trades(order_matches@)) as Quantity,
                    ..*order
                }),
                0 <= sum_trades(order_matches@) <= order.quantity,
                self.market_price_spec() == pre.market_price_spec(),
                self.stop_bids == pre.stop_bids,
                self.stop_asks == pre.stop_asks,
                self.side_sel(order.order_side) == pre.side_sel(order.order_side),
                sum_trades(order_matches@) == pre.opp_sel(order.order_side).total_spec()
                    - self.opp_sel(order.order_side).total_spec(),
                Self::side_reduced(
                    pre.opp_sel(order.order_side),
                    self.opp_sel(order.order_side),
                ),
                self.opp_sel(order.order_side).is_descending() == pre.opp_sel(
                    order.order_side,
                ).is_descending(),
                order_matches@.len() == 0 ==> *self == pre,
                forall|i: int|
                    0 <= i < order_matches@.len() ==> {
                        let t = #[trigger] order_matches@[i];
                        &&& t.order_side == order.order_side
                        &&& t.match_from_id == order.id
                        &&& t.quantity > 0
                        &&& (order.order_type == OrderType::Limit ==> marketable_at(
                            order.order_side,
                            order.price,
                            t.price,
                        ))
                    },
                forall|i: int, j: int|
                    0 <= i < j < order_matches@.len() ==> !pre.opp_sel(
                        order.order_side,
                    ).key_before(
                        (#[trigger] order_matches@[j]).price,
                        (#[trigger] order_matches@[i]).price,
                    ),
                order.order_type == OrderType::Limit && fillable_sum(
                    pre.opp_sel(order.order_side).levels(),
                    order.order_side,
                    order.price,
                ) >= order.quantity ==> sum_trades(order_matches@) == order.quantity,
                order.order_type != OrderType::Limit && pre.opp_sel(
                    order.order_side,
                ).total_spec() >= order.quantity ==> sum_trades(order_matches@)
                    == order.quantity,
                order_matches@ == Self::book_trades(
                    pre.pool(),
                    oppm_pre.levels(),
                    *order,
                    order.quantity,
                ),
                Self::side_pool_frame(pre.pool(), self.pool(), oppm_pre.levels(), order_idx),
                forall|kk: SlabKey|
                    Self::in_side(oppm_pre.levels(), kk) && !Self::in_side(
                        self.opp_sel(order.order_side).levels(),
                        kk,
                    ) ==> !(#[trigger] self.pool().contains_key(kk)),
            decreases self.opp_sel(order.order_side).levels().len(),
        {
            let ghost head = *self;
            let top_price = match self.peek_top_price(is_sell) {
                None => {
                    proof {
                        assert(self.opp_sel(order.order_side).levels().len() == 0);
                        Self::lemma_side_wf_total_zero(*self, order.order_side);
                        // The whole side was consumed: the trade model has
                        // nothing left, and every entry of it is released.
                        assert(oppm_pre.levels().skip(k_done).len() == 0);
                        assert(k_done == oppm_pre.levels().len());
                        assert(Self::book_trades(
                            pre.pool(),
                            oppm_pre.levels().skip(k_done),
                            *order,
                            (order.quantity - sum_trades(order_matches@)) as Quantity,
                        ) =~= Seq::<OrderMatch>::empty());
                        assert(order_matches@ =~= Self::book_trades(
                            pre.pool(),
                            oppm_pre.levels(),
                            *order,
                            order.quantity,
                        ));
                        assert forall|kk: SlabKey|
                            Self::in_side(oppm_pre.levels(), kk) && !Self::in_side(
                                self.opp_sel(order.order_side).levels(),
                                kk,
                            ) implies !(#[trigger] self.pool().contains_key(kk)) by {
                            let (i, j) = choose|i: int, j: int|
                                0 <= i < oppm_pre.levels().len() && 0 <= j < (
                                #[trigger] oppm_pre.levels()[i]).1.metas().len() && (
                                #[trigger] oppm_pre.levels()[i].1.metas()[j]).slab_idx_spec()
                                    == kk;
                            assert(!self.pool().contains_key(
                                oppm_pre.levels()[i].1.metas()[j].slab_idx_spec(),
                            ));
                        }
                    }
                    break ;
                },
                Some(p) => p,
            };
            proof {
                assert(self.opp_sel(order.order_side).levels().len() > 0);
                assert(top_price == self.opp_sel(order.order_side).levels()[0].0);
            }
            let ghost bm = order_matches@;
            let result = self.match_order(order_idx, top_price, &mut order_matches);
            proof {
                let side = order.order_side;
                let taker_head = head.pool()[order_idx];
                assert(taker_head == (OrderSpec {
                    quantity: (order.quantity - sum_trades(bm)) as Quantity,
                    ..*order
                }));
                if taker_head.order_type == OrderType::Limit && !marketable_at(
                    taker_head.order_side,
                    taker_head.price,
                    top_price,
                ) {
                    // Nothing happened; the loop is about to stop.
                    assert(order_matches@ == bm);
                    assert(*self == head);
                } else {
                    let oppm_pre = pre.opp_sel(side);
                    let oppm_head = head.opp_sel(side);
                    let oppm_cur = self.opp_sel(side);
                    let lvl_head = oppm_head.levels()[0];
                    let rem_head = taker_head.quantity;
                    let consumed = min_q(lvl_head.1.qty(), rem_head);
                    let newt = order_matches@.skip(bm.len() as int);
                    // Quantity accounting.
                    assert(order_matches@.subrange(0, bm.len() as int) == bm);
                    lemma_sum_trades_split(order_matches@, bm.len() as int);
                    assert(sum_trades(order_matches@) == sum_trades(bm) + consumed);
                    // Relate the appended trades to both views of the list.
                    assert(newt.len() == order_matches@.len() - bm.len());
                    assert forall|ii: int| 0 <= ii < newt.len() implies #[trigger] newt[ii]
                        == order_matches@[bm.len() + ii] by {}
                    assert forall|ii: int|
                        0 <= ii < newt.len() implies ((#[trigger] newt[ii]).price == top_price
                        && newt[ii].order_side == order.order_side && newt[ii].match_from_id
                        == order.id && newt[ii].quantity > 0) by {
                        assert(newt[ii].match_to_id == lvl_head.1.metas()[ii].order_id_spec());
                    }
                    assert forall|ii: int| 0 <= ii < bm.len() implies #[trigger] order_matches@[ii]
                        == bm[ii] by {
                        assert(order_matches@.subrange(0, bm.len() as int)[ii] == bm[ii]);
                    }
                    // The best-first consumption shape, one step further.
                    if consumed == lvl_head.1.qty() {
                        assert(oppm_cur.levels() == oppm_head.levels().remove(0));
                        assert(Self::side_reduced_at(oppm_head, oppm_cur, 1)) by {
                            assert forall|i: int|
                                1 <= i < oppm_cur.levels().len() implies #[trigger] oppm_cur.levels()[i]
                                == oppm_head.levels()[1 + i] by {
                                assert(oppm_cur.levels()[i] == oppm_head.levels().remove(0)[i]);
                            }
                            if oppm_cur.levels().len() > 0 {
                                assert(oppm_cur.levels()[0] == oppm_head.levels()[1]);
                                assert(oppm_cur.levels()[0].1.metas() =~= oppm_head.levels()[1].1.metas().skip(0));
                                assert(0 <= 0 <= oppm_head.levels()[1].1.metas().len()
                                    && oppm_cur.levels()[0].1.metas() == oppm_head.levels()[1].1.metas().skip(0));
                            }
                        }
                        assert(Self::side_reduced(oppm_head, oppm_cur));
                    } else {
                        assert(Self::side_reduced_at(oppm_head, oppm_cur, 0));
                        assert(Self::side_reduced(oppm_head, oppm_cur));
                    }
                    Self::lemma_side_reduced_trans(oppm_pre, oppm_head, oppm_cur);
                    // Every new trade happened at the head's best price,
                    // which is at or after every earlier traded price.
                    assert forall|i: int| 0 <= i < order_matches@.len() implies {
                        let t = #[trigger] order_matches@[i];
                        &&& t.order_side == order.order_side
                        &&& t.match_from_id == order.id
                        &&& t.quantity > 0
                        &&& (order.order_type == OrderType::Limit ==> marketable_at(
                            order.order_side,
                            order.price,
                            t.price,
                        ))
                    } by {
                        if i < bm.len() {
                            assert(order_matches@[i] == bm[i]);
                        } else {
                            assert(order_matches@[i] == newt[i - bm.len()]);
                            assert(order_matches@[i].price == top_price);
                        }
                    }
                    assert forall|i: int, j: int|
                        0 <= i < j < order_matches@.len() implies !oppm_pre.key_before(
                            (#[trigger] order_matches@[j]).price,
                            (#[trigger] order_matches@[i]).price,
                        ) by {
                        if j < bm.len() {
                            assert(order_matches@[i] == bm[i]);
                            assert(order_matches@[j] == bm[j]);
                        } else {
                            assert(order_matches@[j] == newt[j - bm.len()]);
                            assert(order_matches@[j].price == top_price);
                            if i < bm.len() {
                                assert(order_matches@[i] == bm[i]);
                                assert(!oppm_pre.key_before(top_price, bm[i].price));
                            } else {
                                assert(order_matches@[i] == newt[i - bm.len()]);
                                assert(order_matches@[i].price == top_price);
                            }
                        }
                    }
                    // The new best price, if any, comes no earlier.
                    if oppm_cur.levels().len() > 0 {
                        assert forall|i: int| 0 <= i < order_matches@.len() implies !oppm_pre.key_before(
                            oppm_cur.levels()[0].0,
                            (#[trigger] order_matches@[i]).price,
                        ) by {
                            if consumed == lvl_head.1.qty() {
                                assert(oppm_cur.levels()[0] == oppm_head.levels().remove(0)[0]);
                                assert(oppm_cur.levels()[0] == oppm_head.levels()[1]);
                                assert(oppm_head.sorted()) by {
                                    if side == OrderSide::Buy {
                                        assert(head.side_ref(1) == oppm_head);
                                        assert(Self::side_wf(head.pool(), oppm_head, OrderSide::Sell));
                                    } else {
                                        assert(head.side_ref(0) == oppm_head);
                                        assert(Self::side_wf(head.pool(), oppm_head, OrderSide::Buy));
                                    }
                                }
                                assert(oppm_head.key_before(top_price, oppm_head.levels()[1].0));
                            } else {
                                assert(oppm_cur.levels()[0].0 == top_price);
                            }
                            if i < bm.len() {
                                assert(order_matches@[i] == bm[i]);
                                assert(!oppm_pre.key_before(top_price, bm[i].price));
                            } else {
                                assert(order_matches@[i] == newt[i - bm.len()]);
                                assert(order_matches@[i].price == top_price);
                            }
                        }
                    }
                    // Feasibility is conserved while marketable levels are
                    // consumed in order.
                    if order.order_type == OrderType::Limit {
                        assert(marketable_at(side, order.price, top_price));
                        assert(fillable_sum(oppm_head.levels(), side, order.price)
                            == lvl_head.1.qty() + fillable_sum(
                            oppm_head.levels().drop_first(),
                            side,
                            order.price,
                        ));
                        if consumed == lvl_head.1.qty() {
                            assert(oppm_cur.levels() =~= oppm_head.levels().drop_first());
                        } else {
                            assert(oppm_cur.levels()[0].1.qty() == lvl_head.1.qty() - consumed);
                            assert(oppm_cur.levels().drop_first() =~= oppm_head.levels().drop_first());
                            assert(fillable_sum(oppm_cur.levels(), side, order.price)
                                == oppm_cur.levels()[0].1.qty() + fillable_sum(
                                oppm_cur.levels().drop_first(),
                                side,
                                order.price,
                            ));
                        }
                    }
                    // The appended trades are exactly the level fill of
                    // the submission's trade model.
                    let metas = lvl_head.1.metas();
                    assert(oppm_head.levels() == oppm_pre.levels().skip(k_done));
                    assert(lvl_head == oppm_pre.levels()[k_done]);
                    assert(Self::side_wf(head.pool(), oppm_head, opposite(side))) by {
                        if side == OrderSide::Buy {
                            assert(head.side_ref(1) == oppm_head);
                        } else {
                            assert(head.side_ref(0) == oppm_head);
                        }
                    }
                    assert(Self::level_wf(head.pool(), lvl_head, opposite(side)));
                    assert forall|j: int|
                        0 <= j < metas.len() implies head.pool()[(#[trigger] metas[j]).slab_idx_spec()].quantity
                        > 0 by {
                        assert(Self::meta_wf(head.pool(), metas[j], lvl_head.0, opposite(side)));
                    }
                    assert forall|j: int|
                        0 <= j < metas.len() implies head.pool()[(#[trigger] metas[j]).slab_idx_spec()]
                        == pre.pool()[metas[j].slab_idx_spec()] by {
                        assert(oppm_pre.levels()[k_done].1.metas()[j] == metas[j]);
                    }
                    Self::lemma_pooled_agree(head.pool(), pre.pool(), metas);
                    let lq = Self::pooled_qty(pre.pool(), metas);
                    assert(lq == lvl_head.1.qty());
                    assert(sum_trades(newt) == if Self::pooled_qty(head.pool(), metas)
                        <= rem_head {
                        Self::pooled_qty(head.pool(), metas)
                    } else {
                        rem_head as int
                    });
                    assert(newt.len() > 0);
                    Self::lemma_level_trades_char(
                        head.pool(),
                        metas,
                        top_price,
                        side,
                        order.id,
                        rem_head,
                        newt,
                    );
                    Self::lemma_level_trades_agree(
                        head.pool(),
                        pre.pool(),
                        metas,
                        top_price,
                        side,
                        order.id,
                        rem_head,
                    );
                    assert(newt == Self::level_trades(
                        pre.pool(),
                        metas,
                        top_price,
                        side,
                        order.id,
                        rem_head,
                    ));
                    // One unfolding of the book model at this level.
                    assert(oppm_pre.levels().skip(k_done).drop_first() =~= oppm_pre.levels().skip(
                        k_done + 1,
                    ));
                    assert(rem_head == (order.quantity - sum_trades(bm)) as Quantity);
                    assert(top_price == lvl_head.0);
                    assert(order_matches@ =~= bm + newt);
                    if lq < rem_head {
                        assert(Self::book_trades(
                            pre.pool(),
                            oppm_pre.levels().skip(k_done),
                            *order,
                            rem_head,
                        ) =~= newt + Self::book_trades(
                            pre.pool(),
                            oppm_pre.levels().skip(k_done + 1),
                            *order,
                            (rem_head - lq) as Quantity,
                        ));
                        assert(Self::book_trades(
                            pre.pool(),
                            oppm_pre.levels(),
                            *order,
                            order.quantity,
                        ) =~= order_matches@ + Self::book_trades(
                            pre.pool(),
                            oppm_pre.levels().skip(k_done + 1),
                            *order,
                            (rem_head - lq) as Quantity,
                        ));
                    } else {
                        assert(Self::book_trades(
                            pre.pool(),
                            oppm_pre.levels().skip(k_done),
                            *order,
                            rem_head,
                        ) =~= newt);
                        assert(Self::book_trades(
                            pre.pool(),
                            oppm_pre.levels(),
                            *order,
                            order.quantity,
                        ) =~= order_matches@);
                    }
                }
            }
            if result.is_none() {
                proof {
                    let side = order.order_side;
                    let taker_head = head.pool()[order_idx];
                    if taker_head.order_type == OrderType::Limit && !marketable_at(
                        side,
                        taker_head.price,
                        top_price,
                    ) {
                        assert(order.order_type == OrderType::Limit);
                        assert(fillable_sum(
                            self.opp_sel(side).levels(),
                            side,
                            order.price,
                        ) == 0);
                        // The trade model stops at the same point.
                        assert(oppm_pre.levels().skip(k_done)[0].0 == top_price);
                        assert(Self::book_trades(
                            pre.pool(),
                            oppm_pre.levels().skip(k_done),
                            *order,
                            (order.quantity - sum_trades(order_matches@)) as Quantity,
                        ) =~= Seq::<OrderMatch>::empty());
                        assert(order_matches@ =~= Self::book_trades(
                            pre.pool(),
                            oppm_pre.levels(),
                            *order,
                            order.quantity,
                        ));
                    }
                    // Whatever entry the side has lost is out of the pool.
                    let oppm_head = head.opp_sel(side);
                    let lvl_head = oppm_head.levels()[0];
                    let case_a = taker_head.order_type == OrderType::Limit && !marketable_at(
                        side,
                        taker_head.price,
                        top_price,
                    );
                    let consumed = min_q(lvl_head.1.qty(), taker_head.quantity);
                    assert forall|kk: SlabKey|
                        Self::in_side(oppm_pre.levels(), kk) && !Self::in_side(
                            self.opp_sel(side).levels(),
                            kk,
                        ) implies !(#[trigger] self.pool().contains_key(kk)) by {
                        reveal(OrderBook::pool_frame);
                        let (i, j) = choose|i: int, j: int|
                            0 <= i < oppm_pre.levels().len() && 0 <= j < (
                            #[trigger] oppm_pre.levels()[i]).1.metas().len() && (
                            #[trigger] oppm_pre.levels()[i].1.metas()[j]).slab_idx_spec() == kk;
                        if i < k_done {
                            assert(!head.pool().contains_key(kk));
                        } else if case_a {
                            assert(self.opp_sel(side).levels()[i - k_done] == oppm_pre.levels()[i]);
                            assert(self.opp_sel(side).levels()[i - k_done].1.metas()[j].slab_idx_spec()
                                == kk);
                            assert(Self::in_side(self.opp_sel(side).levels(), kk));
                        } else if i == k_done {
                            assert(lvl_head == oppm_pre.levels()[k_done]);
                            if consumed == lvl_head.1.qty() {
                                assert(!self.pool().contains_key(
                                    lvl_head.1.metas()[j].slab_idx_spec(),
                                ));
                            } else {
                                let dd = choose|dd: int|
                                    0 <= dd <= lvl_head.1.metas().len() && #[trigger] self.opp_sel(
                                        side,
                                    ).levels()[0].1.metas() == lvl_head.1.metas().skip(dd) && (
                                    forall|jx: int|
                                        0 <= jx < dd ==> !self.pool().contains_key(
                                            (#[trigger] lvl_head.1.metas()[jx]).slab_idx_spec(),
                                        ));
                                if j < dd {
                                    assert(!self.pool().contains_key(
                                        lvl_head.1.metas()[j].slab_idx_spec(),
                                    ));
                                } else {
                                    assert(self.opp_sel(side).levels()[0].1.metas()[j - dd]
                                        == lvl_head.1.metas()[j]);
                                    assert(Self::in_side(self.opp_sel(side).levels(), kk));
                                }
                            }
                        } else {
                            assert(oppm_head.levels()[i - k_done] == oppm_pre.levels()[i]);
                            if consumed == lvl_head.1.qty() {
                                assert(self.opp_sel(side).levels() == oppm_head.levels().remove(
                                    0,
                                ));
                                assert(self.opp_sel(side).levels()[i - k_done - 1]
                                    == oppm_head.levels()[i - k_done]);
                                assert(self.opp_sel(side).levels()[i - k_done - 1].1.metas()[j].slab_idx_spec()
                                    == kk);
                                assert(Self::in_side(self.opp_sel(side).levels(), kk));
                            } else {
                                assert(self.opp_sel(side).levels()[i - k_done]
                                    == oppm_head.levels()[i - k_done]);
                                assert(self.opp_sel(side).levels()[i - k_done].1.metas()[j].slab_idx_spec()
                                    == kk);
                                assert(Self::in_side(self.opp_sel(side).levels(), kk));
                            }
                        }
                    }
                    // The frame carries over this last level fill.
                    Self::lemma_side_frame_extract(
                        pre.pool(),
                        head.pool(),
                        oppm_pre.levels(),
                        order_idx,
                    );
                    if !case_a {
                        assert(head.opp_sel(head.pool()[order_idx].order_side).levels()[0].1.metas()
                            == lvl_head.1.metas());
                        assert(Self::pool_frame(
                            head.pool(),
                            self.pool(),
                            lvl_head.1.metas(),
                            order_idx,
                        ));
                        Self::lemma_frame_extract(
                            head.pool(),
                            self.pool(),
                            lvl_head.1.metas(),
                            order_idx,
                        );
                    }
                    assert forall|kk: SlabKey|
                        #[trigger] self.pool().contains_key(kk) implies pre.pool().contains_key(
                        kk,
                    ) by {
                        if !case_a {
                            Self::lemma_frame_point(
                                head.pool(),
                                self.pool(),
                                lvl_head.1.metas(),
                                order_idx,
                                kk,
                            );
                        }
                        Self::lemma_side_frame_point(
                            pre.pool(),
                            head.pool(),
                            oppm_pre.levels(),
                            order_idx,
                            kk,
                        );
                    }
                    assert forall|kk: SlabKey|
                        kk != order_idx && !Self::in_side(oppm_pre.levels(), kk)
                            implies #[trigger] self.pool().contains_key(kk)
                        == pre.pool().contains_key(kk) && (pre.pool().contains_key(kk)
                        ==> self.pool()[kk] == pre.pool()[kk]) by {
                        Self::lemma_side_frame_point(
                            pre.pool(),
                            head.pool(),
                            oppm_pre.levels(),
                            order_idx,
                            kk,
                        );
                        if !case_a {
                            Self::lemma_frame_point(
                                head.pool(),
                                self.pool(),
                                lvl_head.1.metas(),
                                order_idx,
                                kk,
                            );
                            assert(!Self::in_metas(lvl_head.1.metas(), kk)) by {
                                if Self::in_metas(lvl_head.1.metas(), kk) {
                                    let jj = choose|jj: int|
                                        0 <= jj < lvl_head.1.metas().len() && (
                                        #[trigger] lvl_head.1.metas()[jj]).slab_idx_spec()
                                            == kk;
                                    assert(lvl_head == oppm_pre.levels()[k_done]);
                                    assert(oppm_pre.levels()[k_done].1.metas()[jj].slab_idx_spec()
                                        == kk);
                                    assert(Self::in_side(oppm_pre.levels(), kk));
                                }
                            }
                            assert(head.pool().contains_key(kk) == pre.pool().contains_key(
                                kk,
                            ));
                        }
                    }
                    Self::lemma_side_frame_intro(
                        pre.pool(),
                        self.pool(),
                        oppm_pre.levels(),
                        order_idx,
                    );
                }
                break ;
            }
            proof {
                let side = order.order_side;
                let taker_head = head.pool()[order_idx];
                assert(result == Some::<()>(()));
                assert(taker_head.order_side == side);
                assert(!(taker_head.order_type == OrderType::Limit && !marketable_at(
                    side,
                    taker_head.price,
                    top_price,
                )));
                let lvl_head = head.opp_sel(side).levels()[0];
                let consumed = min_q(lvl_head.1.qty(), taker_head.quantity);
                assert(consumed < taker_head.quantity);
                assert(consumed == lvl_head.1.qty());
                assert(self.opp_sel(side).levels() == head.opp_sel(side).levels().remove(0));
                assert(self.opp_sel(side).levels().len() < head.opp_sel(side).levels().len());
                // One more level is fully consumed and released.
                let oppm_head = head.opp_sel(side);
                let cc: int = if side == OrderSide::Buy {
                    1
                } else {
                    0
                };
                assert(head.side_ref(cc) == oppm_head);
                assert(oppm_head.levels() == oppm_pre.levels().skip(k_done));
                assert(lvl_head == oppm_pre.levels()[k_done]);
                k_done = k_done + 1;
                assert(self.opp_sel(side).levels() =~= oppm_pre.levels().skip(k_done));
                // The level fill's pool effect, and the frame so far.
                assert(head.opp_sel(head.pool()[order_idx].order_side).levels()[0].1.metas()
                    == lvl_head.1.metas());
                assert(Self::pool_frame(head.pool(), self.pool(), lvl_head.1.metas(), order_idx));
                Self::lemma_frame_extract(head.pool(), self.pool(), lvl_head.1.metas(), order_idx);
                Self::lemma_side_frame_extract(pre.pool(), head.pool(), oppm_pre.levels(), order_idx);
                assert forall|i2: int, j2: int|
                    0 <= i2 < k_done && 0 <= j2 < (
                    #[trigger] oppm_pre.levels()[i2]).1.metas().len() implies !self.pool().contains_key(
                    (#[trigger] oppm_pre.levels()[i2].1.metas()[j2]).slab_idx_spec(),
                ) by {
                    if i2 < k_done - 1 {
                        assert(!head.pool().contains_key(
                            oppm_pre.levels()[i2].1.metas()[j2].slab_idx_spec(),
                        ));
                    } else {
                        assert(oppm_pre.levels()[i2].1.metas()[j2] == lvl_head.1.metas()[j2]);
                        assert(!self.pool().contains_key(lvl_head.1.metas()[j2].slab_idx_spec()));
                    }
                }
                assert forall|i2: int, j2: int|
                    k_done <= i2 < oppm_pre.levels().len() && 0 <= j2 < (
                    #[trigger] oppm_pre.levels()[i2]).1.metas().len() implies {
                    let hh = (#[trigger] oppm_pre.levels()[i2].1.metas()[j2]).slab_idx_spec();
                    &&& self.pool().contains_key(hh)
                    &&& self.pool()[hh] == pre.pool()[hh]
                } by {
                    let hh = oppm_pre.levels()[i2].1.metas()[j2].slab_idx_spec();
                    assert(oppm_head.levels()[i2 - (k_done - 1)] == oppm_pre.levels()[i2]);
                    assert(head.pos_valid(cc, i2 - (k_done - 1), j2));
                    assert(head.handle_at(cc, i2 - (k_done - 1), j2) == hh);
                    assert(hh != order_idx);
                    assert(!Self::in_metas(lvl_head.1.metas(), hh)) by {
                        if Self::in_metas(lvl_head.1.metas(), hh) {
                            let jj = choose|jj: int|
                                0 <= jj < lvl_head.1.metas().len() && (
                                #[trigger] lvl_head.1.metas()[jj]).slab_idx_spec() == hh;
                            assert(head.pos_valid(cc, 0, jj));
                            assert(head.handle_at(cc, 0, jj) == hh);
                        }
                    }
                    assert(head.pool().contains_key(hh) && head.pool()[hh] == pre.pool()[hh]);
                    Self::lemma_frame_point(
                        head.pool(),
                        self.pool(),
                        lvl_head.1.metas(),
                        order_idx,
                        hh,
                    );
                }
                assert forall|kk: SlabKey|
                    #[trigger] self.pool().contains_key(kk) implies pre.pool().contains_key(
                    kk,
                ) by {
                    Self::lemma_frame_point(
                        head.pool(),
                        self.pool(),
                        lvl_head.1.metas(),
                        order_idx,
                        kk,
                    );
                    Self::lemma_side_frame_point(
                        pre.pool(),
                        head.pool(),
                        oppm_pre.levels(),
                        order_idx,
                        kk,
                    );
                }
                assert forall|kk: SlabKey|
                    kk != order_idx && !Self::in_side(oppm_pre.levels(), kk)
                        implies #[trigger] self.pool().contains_key(kk) == pre.pool().contains_key(
                    kk,
                ) && (pre.pool().contains_key(kk) ==> self.pool()[kk] == pre.pool()[kk]) by {
                    Self::lemma_frame_point(
                        head.pool(),
                        self.pool(),
                        lvl_head.1.metas(),
                        order_idx,
                        kk,
                    );
                    Self::lemma_side_frame_point(
                        pre.pool(),
                        head.pool(),
                        oppm_pre.levels(),
                        order_idx,
                        kk,
                    );
                    assert(!Self::in_metas(lvl_head.1.metas(), kk)) by {
                        if Self::in_metas(lvl_head.1.metas(), kk) {
                            let jj = choose|jj: int|
                                0 <= jj < lvl_head.1.metas().len() && (
                                #[trigger] lvl_head.1.metas()[jj]).slab_idx_spec() == kk;
                            assert(oppm_pre.levels()[k_done - 1].1.metas()[jj].slab_idx_spec()
                                == kk);
                            assert(Self::in_side(oppm_pre.levels(), kk));
                        }
                    }
                    assert(head.pool().contains_key(kk) == pre.pool().contains_key(kk));
                }
                Self::lemma_side_frame_intro(pre.pool(), self.pool(), oppm_pre.levels(), order_idx);
            }
        }
        order_matches
    }

    /// Whether any entry on a matched side carries the given id.
    pub open spec fn resident_id(&self, id: OrderId) -> bool {
        exists|c: int, i: int, j: int|
            0 <= c < 2 && self.pos_valid(c, i, j) && (#[trigger] self.side_ref(c).levels()[i].1.metas()[j]).order_id_spec() == id
    }

    /// An id absent from the matched sides stays absent when one side is
    /// unchanged and the other only consumed from the front.
    pub proof fn lemma_reduced_resident(a: OrderBook, b: OrderBook, side: OrderSide, id: OrderId)
        requires
            !a.resident_id(id),
            b.side_sel(side) == a.side_sel(side),
            Self::side_reduced(a.opp_sel(side), b.opp_sel(side)),
        ensures
            !b.resident_id(id),
    {
        let own_c: int = if side == OrderSide::Buy {
            0
        } else {
            1
        };
        let opp_c: int = 1 - own_c;
        let k = choose|k: int| #[trigger] Self::side_reduced_at(a.opp_sel(side), b.opp_sel(side), k);
        assert forall|c: int, i: int, j: int|
            0 <= c < 2 && b.pos_valid(c, i, j) implies (#[trigger] b.side_ref(
            c,
        ).levels()[i].1.metas()[j]).order_id_spec() != id by {
            if c == own_c {
                assert(b.side_ref(c) == a.side_ref(c));
                assert(a.pos_valid(c, i, j));
                assert(a.side_ref(c).levels()[i].1.metas()[j].order_id_spec() != id);
            } else {
                let am = a.opp_sel(side);
                let bm = b.opp_sel(side);
                assert(b.side_ref(c) == bm);
                assert(a.side_ref(c) == am);
                if i == 0 {
                    let dd = choose|dd: int|
                        0 <= dd <= am.levels()[k].1.metas().len() && #[trigger] bm.levels()[0].1.metas()
                            == am.levels()[k].1.metas().skip(dd);
                    assert(bm.levels()[0].1.metas()[j] == am.levels()[k].1.metas()[dd + j]);
                    assert(a.pos_valid(c, k, dd + j));
                    assert(a.side_ref(c).levels()[k].1.metas()[dd + j].order_id_spec() != id);
                } else {
                    assert(bm.levels()[i] == am.levels()[k + i]);
                    assert(a.pos_valid(c, k + i, j));
                    assert(a.side_ref(c).levels()[k + i].1.metas()[j].order_id_spec() != id);
                }
            }
        }
    }

    /// Submits an order: pools a working copy, runs the crossing loop
    /// against the opposing side, and then either parks the remainder at
    /// the tail of its price level or releases it (ephemeral orders never
    /// rest; neither does a fully filled one). Returns the trade events,
    /// `None` when nothing matched.
    pub fn insert_order(&mut self, order: &OrderSpec) -> (r: Option<Vec<OrderMatch>>)
        requires
            old(self).wf(),
            order.quantity > 0,
            order.time_in_force != TimeInForce::IOC && order.time_in_force != TimeInForce::FOK
                ==> old(self).side_sel(order.order_side).total_spec() + order.quantity
                <= Quantity::MAX,
        ensures
            final(self).wf(),
            final(self).market_price_spec() == old(self).market_price_spec(),
            final(self).stop_bids == old(self).stop_bids,
            final(self).stop_asks == old(self).stop_asks,
            (r is None) == (trades_of(r).len() == 0),
            0 <= sum_trades(trades_of(r)) <= order.quantity,
            sum_trades(trades_of(r)) == old(self).opp_sel(order.order_side).total_spec() - final(self).opp_sel(order.order_side).total_spec(),
            Self::side_reduced(
                old(self).opp_sel(order.order_side),
                final(self).opp_sel(order.order_side),
            ),
            final(self).opp_sel(order.order_side).is_descending() == old(self).opp_sel(
                order.order_side,
            ).is_descending(),
            forall|i: int|
                0 <= i < trades_of(r).len() ==> {
                    let t = #[trigger] trades_of(r)[i];
                    &&& t.order_side == order.order_side
                    &&& t.match_from_id == order.id
                    &&& t.quantity > 0
                    &&& (order.order_type == OrderType::Limit ==> marketable_at(
                        order.order_side,
                        order.price,
                        t.price,
                    ))
                },
            forall|i: int, j: int|
                0 <= i < j < trades_of(r).len() ==> !old(self).opp_sel(
                    order.order_side,
                ).key_before(
                    (#[trigger] trades_of(r)[j]).price,
                    (#[trigger] trades_of(r)[i]).price,
                ),
            order.time_in_force == TimeInForce::FOK && !old(self).fok_feasible(*order) ==> (
            r is None && final(self).pool() == old(self).pool() && final(self).bids == old(self).bids && final(self).asks == old(self).asks),
            !(order.time_in_force == TimeInForce::FOK && !old(self).fok_feasible(*order))
                ==> trades_of(r) == Self::book_trades(
                old(self).pool(),
                old(self).opp_sel(order.order_side).levels(),
                *order,
                order.quantity,
            ),
            forall|kk: SlabKey|
                Self::in_side(old(self).opp_sel(order.order_side).levels(), kk) && !Self::in_side(
                    final(self).opp_sel(order.order_side).levels(),
                    kk,
                ) ==> !(#[trigger] final(self).pool().contains_key(kk)),
            sum_trades(trades_of(r)) == order.quantity || (order.time_in_force
                == TimeInForce::IOC || order.time_in_force == TimeInForce::FOK) ==> forall|
                kk: SlabKey,
            |
                #[trigger] final(self).pool().contains_key(kk) ==> old(self).pool().contains_key(
                    kk,
                ),
            order.order_type == OrderType::Limit && fillable_sum(
                old(self).opp_sel(order.order_side).levels(),
                order.order_side,
                order.price,
            ) >= order.quantity ==> sum_trades(trades_of(r)) == order.quantity,
            order.order_type != OrderType::Limit && old(self).opp_sel(
                order.order_side,
            ).total_spec() >= order.quantity ==> sum_trades(trades_of(r)) == order.quantity,
            (order.time_in_force == TimeInForce::IOC || order.time_in_force == TimeInForce::FOK)
                ==> final(self).side_sel(order.order_side) == old(self).side_sel(
                order.order_side,
            ) && (!old(self).resident_id(order.id) ==> !final(self).resident_id(order.id)),
            !(order.time_in_force == TimeInForce::IOC || order.time_in_force == TimeInForce::FOK)
                && sum_trades(trades_of(r)) == order.quantity ==> final(self).side_sel(
                order.order_side,
            ) == old(self).side_sel(order.order_side),
            !(order.time_in_force == TimeInForce::IOC || order.time_in_force == TimeInForce::FOK)
                && sum_trades(trades_of(r)) < order.quantity ==> exists|h: SlabKey|
                {
                    &&& !old(self).pool().contains_key(h)
                    &&& #[trigger] Self::added_to(
                        old(self).side_sel(order.order_side),
                        final(self).side_sel(order.order_side),
                        order.price,
                        h,
                        order.id,
                        (order.quantity - sum_trades(trades_of(r))) as Quantity,
                    )
                    &&& final(self).pool().contains_key(h)
                    &&& final(self).pool()[h] == (OrderSpec {
                        quantity: (order.quantity - sum_trades(trades_of(r))) as Quantity,
                        ..*order
                    })
                    &&& (trades_of(r).len() == 0 ==> final(self).pool() == old(self).pool().insert(h, *order) && final(self).opp_sel(order.order_side) == old(self).opp_sel(order.order_side))
                    &&& forall|kk: SlabKey|
                        #[trigger] final(self).pool().contains_key(kk) ==> old(
                            self,
                        ).pool().contains_key(kk) || kk == h
                },
    {
        let ghost pre = *self;
        let order_idx = slab_insert(&mut self.order_allocator, *order);
        proof {
            Self::lemma_pool_extend_wf(pre, *self, order_idx, *order);
        }
        let ghost mid0 = *self;
        let order_matches = self.process_order(order_idx, order);
        let ghost mid1 = *self;
        proof {
            // The submission's trade model is unchanged by pooling the
            // taker's own copy: the fresh handle is queued nowhere.
            assert(mid0.opp_sel(order.order_side) == pre.opp_sel(order.order_side));
            assert forall|i: int, j: int|
                0 <= i < pre.opp_sel(order.order_side).levels().len() && 0 <= j < (
                #[trigger] pre.opp_sel(order.order_side).levels()[i]).1.metas().len()
                    implies mid0.pool()[(#[trigger] pre.opp_sel(
                    order.order_side,
                ).levels()[i].1.metas()[j]).slab_idx_spec()] == pre.pool()[pre.opp_sel(
                    order.order_side,
                ).levels()[i].1.metas()[j].slab_idx_spec()] by {
                let cx: int = if order.order_side == OrderSide::Buy {
                    1
                } else {
                    0
                };
                assert(pre.side_ref(cx) == pre.opp_sel(order.order_side));
                assert(pre.pos_valid(cx, i, j));
                assert(Self::meta_wf(
                    pre.pool(),
                    pre.opp_sel(order.order_side).levels()[i].1.metas()[j],
                    pre.opp_sel(order.order_side).levels()[i].0,
                    opposite(order.order_side),
                ));
            }
            Self::lemma_book_trades_agree(
                mid0.pool(),
                pre.pool(),
                pre.opp_sel(order.order_side).levels(),
                *order,
                order.quantity,
            );
        }
        if order.is_ephemeral_order() {
            let _ = slab_remove(&mut self.order_allocator, order_idx);
            proof {
                Self::lemma_pool_shrink_wf(mid1, *self, order_idx);
                if !pre.resident_id(order.id) {
                    Self::lemma_reduced_resident(pre, *self, order.order_side, order.id);
                }
                if order_matches@.len() == 0 {
                    assert(self.pool() =~= pre.pool());
                }
                assert forall|kk: SlabKey|
                    #[trigger] self.pool().contains_key(kk) implies pre.pool().contains_key(
                    kk,
                ) by {
                    Self::lemma_side_frame_point(
                        mid0.pool(),
                        mid1.pool(),
                        mid0.opp_sel(order.order_side).levels(),
                        order_idx,
                        kk,
                    );
                }
            }
        } else if !self.update_book_order(order_idx) {
            let _ = slab_remove(&mut self.order_allocator, order_idx);
            proof {
                Self::lemma_pool_shrink_wf(mid1, *self, order_idx);
                assert forall|kk: SlabKey|
                    #[trigger] self.pool().contains_key(kk) implies pre.pool().contains_key(
                    kk,
                ) by {
                    Self::lemma_side_frame_point(
                        mid0.pool(),
                        mid1.pool(),
                        mid0.opp_sel(order.order_side).levels(),
                        order_idx,
                        kk,
                    );
                }
            }
        } else {
            proof {
                if order_matches@.len() == 0 {
                    assert(mid1 == mid0);
                }
                assert forall|kk: SlabKey|
                    #[trigger] self.pool().contains_key(kk) implies pre.pool().contains_key(kk)
                    || kk == order_idx by {
                    Self::lemma_side_frame_point(
                        mid0.pool(),
                        mid1.pool(),
                        mid0.opp_sel(order.order_side).levels(),
                        order_idx,
                        kk,
                    );
                }
            }
        }
        if order_matches.is_empty() {
            return None;
        }
        Some(order_matches)
    }

    /// The saturating application of a signed quantity change.
    pub open spec fn apply_delta(delta: i64, q: Quantity) -> Quantity {
        if delta >= 0 {
            if q + delta <= Quantity::MAX {
                (q + delta) as Quantity
            } else {
                Quantity::MAX
            }
        } else {
            if q >= -(delta as int) {
                (q + delta) as Quantity
            } else {
                0
            }
        }
    }

    /// Replaces the resident order with the id of `order` at `order`'s
    /// side and price: its quantity is changed by `quantity_delta`
    /// (saturating), its price to `new_price` unless that is 0, and the
    /// result is submitted as a fresh arrival, so it loses time priority
    /// and may trade. Side, type, time in force and id are preserved from
    /// the resident order.
    ///
    /// Fails like `cancel_order` when the order cannot be found, and with
    /// `OrderAlreadyFilled`, leaving the book unchanged, when the new
    /// quantity would be 0.
    #[verifier::rlimit(60)]
    pub fn replace_order(&mut self, order: &OrderSpec, quantity_delta: i64, new_price: Price) -> (r:
        Result<Vec<OrderMatch>, OrderError>)
        requires
            old(self).wf(),
            quantity_delta > 0 ==> old(self).side_sel(order.order_side).total_spec()
                + quantity_delta <= Quantity::MAX,
        ensures
            final(self).wf(),
            final(self).market_price_spec() == old(self).market_price_spec(),
            final(self).stop_bids == old(self).stop_bids,
            final(self).stop_asks == old(self).stop_asks,
            !old(self).side_sel(order.order_side).has_level(order.price) ==> r == Err::<
                Vec<OrderMatch>,
                OrderError,
            >(OrderError::OrdersNotFound) && *final(self) == *old(self),
            old(self).side_sel(order.order_side).has_level(order.price) && !has_id(
                old(self).side_sel(order.order_side).level_at(order.price).metas(),
                order.id,
            ) ==> r == Err::<Vec<OrderMatch>, OrderError>(OrderError::OrderNotFound) && *final(self)
                == *old(self),
            old(self).side_sel(order.order_side).has_level(order.price) && has_id(
                old(self).side_sel(order.order_side).level_at(order.price).metas(),
                order.id,
            ) ==> ({
                let oldm = old(self).side_sel(order.order_side);
                let li = oldm.level_index(order.price);
                let metas = oldm.level_at(order.price).metas();
                let mi = first_id_index(metas, order.id);
                let h = metas[mi].slab_idx_spec();
                let stored = old(self).pool()[h];
                let nq = Self::apply_delta(quantity_delta, stored.quantity);
                &&& (nq == 0 ==> r == Err::<Vec<OrderMatch>, OrderError>(
                    OrderError::OrderAlreadyFilled,
                ) && *final(self) == *old(self))
                &&& (nq != 0 ==> {
                    &&& r is Ok
                    &&& (quantity_delta == 0 && new_price == 0 && trades_of(
                        Some(r->Ok_0),
                    ).len() == 0 ==> exists|h2: SlabKey|
                        {
                            &&& !old(self).pool().remove(h).contains_key(h2)
                            &&& final(self).pool() == old(self).pool().remove(h).insert(
                                h2,
                                stored,
                            )
                            &&& final(self).side_sel(order.order_side).levels().len()
                                == oldm.levels().len()
                            &&& final(self).side_sel(order.order_side).levels()[li].0
                                == order.price
                            &&& #[trigger] final(self).side_sel(
                                order.order_side,
                            ).levels()[li].1.metas() == metas.remove(mi).push(
                                OrderMeta::new_spec(h2, order.id),
                            )
                            &&& final(self).side_sel(order.order_side).levels()[li].1.qty()
                                == oldm.level_at(order.price).qty()
                            &&& forall|i: int|
                                0 <= i < oldm.levels().len() && i != li ==> final(self).side_sel(
                                    order.order_side,
                                ).levels()[i] == oldm.levels()[i]
                            &&& final(self).side_sel(order.order_side).total_spec()
                                == oldm.total_spec()
                            &&& final(self).opp_sel(order.order_side) == old(self).opp_sel(
                                order.order_side,
                            )
                        })
                })
            }),
    {
        let ghost pre = *self;
        // Locate the resident order and compute the new quantity first:
        // a replace that would drive it to 0 must leave the book alone.
        let stored_quantity: Quantity;
        {
            let level = if order.order_side.is_buy() {
                self.bids.get_orders(&order.price)
            } else {
                self.asks.get_orders(&order.price)
            };
            let level = match level {
                None => {
                    return Err(OrderError::OrdersNotFound);
                },
                Some(l) => l,
            };
            let n = level.len();
            let mut i: usize = 0;
            let ghost metas = pre.side_sel(order.order_side).level_at(order.price).metas();
            let mut found_qty: Quantity = 0;
            let mut found: bool = false;
            proof {
                assert(level.metas() == metas);
            }
            while i < n
                invariant_except_break
                    !found,
                    i <= n,
                invariant
                    *self == pre,
                    pre.wf(),
                    n == metas.len(),
                    level.metas() == metas,
                    metas == pre.side_sel(order.order_side).level_at(order.price).metas(),
                    pre.side_sel(order.order_side).has_level(order.price),
                    forall|j: int| 0 <= j < i ==> (#[trigger] metas[j]).order_id_spec()
                        != order.id,
                    found ==> i < n && metas[i as int].order_id_spec() == order.id
                        && found_qty == pre.pool()[metas[i as int].slab_idx_spec()].quantity,
                ensures
                    found ==> i < n && metas[i as int].order_id_spec() == order.id && forall|
                        j: int,
                    |
                        0 <= j < i ==> (#[trigger] metas[j]).order_id_spec() != order.id,
                    found ==> found_qty == pre.pool()[metas[i as int].slab_idx_spec()].quantity,
                    !found ==> forall|j: int|
                        0 <= j < n ==> (#[trigger] metas[j]).order_id_spec() != order.id,
                decreases n - i,
            {
                let m = level.items()[i];
                if m.order_id() == order.id {
                    proof {
                        let c: int = if order.order_side == OrderSide::Buy {
                            0
                        } else {
                            1
                        };
                        let oldm = pre.side_sel(order.order_side);
                        assert(oldm.has_level(order.price));
                        let li = oldm.level_index(order.price);
                        assert(pre.pos_valid(c, li, i as int));
                        assert(pre.handle_at(c, li, i as int) == metas[i as int].slab_idx_spec());
                        assert(Self::meta_wf(
                            pre.pool(),
                            metas[i as int],
                            order.price,
                            order.order_side,
                        ));
                    }
                    found_qty = slab_get(&self.order_allocator, m.slab_idx()).unwrap().quantity;
                    found = true;
                    break ;
                }
                i = i + 1;
            }
            if !found {
                return Err(OrderError::OrderNotFound);
            }
            proof {
                lemma_first_id_index(metas, order.id);
                let fi = first_id_index(metas, order.id);
                if fi < i as int {
                    assert(metas[fi].order_id_spec() != order.id);
                }
                assert(fi == i as int);
            }
            stored_quantity = found_qty;
        }
        // The saturating quantity change.
        let new_quantity: Quantity = if quantity_delta >= 0 {
            let d = quantity_delta as u64;
            if stored_quantity <= Quantity::MAX - d {
                stored_quantity + d
            } else {
                Quantity::MAX
            }
        } else {
            let mag = (-(quantity_delta as i128)) as u64;
            if stored_quantity >= mag {
                stored_quantity - mag
            } else {
                0
            }
        };
        if new_quantity == 0 {
            return Err(OrderError::OrderAlreadyFilled);
        }
        // Remove the old order, then submit the updated one as a fresh
        // arrival.
        let stored = match self.cancel_order(order) {
            Ok(o) => o,
            Err(_) => {
                proof {
                    assert(false);
                }
                return Err(OrderError::OrderNotFound);
            },
        };
        let ghost mid = *self;
        let mut new_order = stored;
        new_order.quantity = new_quantity;
        if new_price != 0 {
            new_order.price = new_price;
        }
        proof {
            let oldm = pre.side_sel(order.order_side);
            let li = oldm.level_index(order.price);
            let metas = oldm.level_at(order.price).metas();
            let mi = first_id_index(metas, order.id);
            let h = metas[mi].slab_idx_spec();
            assert(pre.pos_valid(
                if order.order_side == OrderSide::Buy {
                    0int
                } else {
                    1int
                },
                li,
                mi,
            ));
            assert(Self::meta_wf(pre.pool(), metas[mi], order.price, order.order_side));
            assert(stored == pre.pool()[h]);
            assert(stored.order_side == order.order_side);
            assert(stored.time_in_force != TimeInForce::IOC && stored.time_in_force
                != TimeInForce::FOK);
            // The freed side cache leaves room for the new quantity.
            assert(mid.side_sel(order.order_side).total_spec() == oldm.total_spec()
                - stored.quantity);
        }
        let insert_result = self.insert_order(&new_order);
        let matches = match insert_result {
            Some(m) => m,
            None => Vec::new(),
        };
        proof {
            if quantity_delta == 0 && new_price == 0 && matches@.len() == 0 {
                let oldm = pre.side_sel(order.order_side);
                let li = oldm.level_index(order.price);
                let metas = oldm.level_at(order.price).metas();
                let mi = first_id_index(metas, order.id);
                let h = metas[mi].slab_idx_spec();
                let midm = mid.side_sel(order.order_side);
                let finm = self.side_sel(order.order_side);
                assert(new_order == stored);
                assert(stored.price == order.price);
                assert(matches@ == trades_of(insert_result));
                assert(trades_of(insert_result).len() == 0);
                assert(trades_of(insert_result) =~= Seq::<OrderMatch>::empty());
                assert(sum_trades(trades_of(insert_result)) == 0);
                assert(new_order.time_in_force != TimeInForce::IOC && new_order.time_in_force
                    != TimeInForce::FOK);
                assert(sum_trades(trades_of(insert_result)) < new_order.quantity);
                let h2 = choose|h2: SlabKey|
                    {
                        &&& !mid.pool().contains_key(h2)
                        &&& #[trigger] Self::added_to(
                            mid.side_sel(stored.order_side),
                            self.side_sel(stored.order_side),
                            stored.price,
                            h2,
                            stored.id,
                            (stored.quantity - sum_trades(trades_of(insert_result))) as Quantity,
                        )
                        &&& self.pool().contains_key(h2)
                        &&& self.pool()[h2] == (OrderSpec {
                            quantity: (stored.quantity - sum_trades(
                                trades_of(insert_result),
                            )) as Quantity,
                            ..stored
                        })
                        &&& (trades_of(insert_result).len() == 0 ==> self.pool()
                            == mid.pool().insert(h2, stored) && self.opp_sel(stored.order_side)
                            == mid.opp_sel(stored.order_side))
                    };
                assert(sum_trades(trades_of(insert_result)) == 0);
                assert(stored.id == order.id);
                assert(Self::added_to(midm, finm, order.price, h2, order.id, stored.quantity));
                assert(self.pool() == mid.pool().insert(h2, stored));
                assert(mid.pool() == pre.pool().remove(h));
                let appended = OrderMeta::new_spec(h2, order.id);
                if metas.len() == 1 {
                    // The level vanished with the cancel and is recreated,
                    // at the same sorted position because the key is the
                    // same.
                    assert(midm.levels() == oldm.levels().remove(li));
                    assert(!midm.has_level(order.price)) by {
                        assert forall|i: int|
                            0 <= i < midm.levels().len() implies (#[trigger] midm.levels()[i].0)
                            != order.price by {
                            let oi = if i < li {
                                i
                            } else {
                                i + 1
                            };
                            assert(midm.levels()[i] == oldm.levels()[oi]);
                            oldm.lemma_unique_level(li, li);
                            if oi < li {
                                assert(oldm.key_before(oldm.levels()[oi].0, oldm.levels()[li].0));
                            } else {
                                assert(oldm.key_before(oldm.levels()[li].0, oldm.levels()[oi].0));
                            }
                        }
                    }
                    let pos = finm.level_index(order.price);
                    assert(finm.levels()[pos].0 == order.price);
                    assert(pos == li) by {
                        if pos < li {
                            assert(finm.levels()[pos + 1] == midm.levels()[pos]);
                            assert(midm.levels()[pos] == oldm.levels()[pos]);
                            assert(finm.sorted()) by {
                                if order.order_side == OrderSide::Buy {
                                    assert(self.side_ref(0) == finm);
                                    assert(Self::side_wf(self.pool(), finm, OrderSide::Buy));
                                } else {
                                    assert(self.side_ref(1) == finm);
                                    assert(Self::side_wf(self.pool(), finm, OrderSide::Sell));
                                }
                            }
                            assert(finm.key_before(order.price, oldm.levels()[pos].0));
                            assert(oldm.key_before(oldm.levels()[pos].0, oldm.levels()[li].0));
                        } else if pos > li {
                            assert(finm.levels()[pos - 1] == midm.levels()[pos - 1]);
                            assert(midm.levels()[pos - 1] == oldm.levels()[pos]);
                            assert(finm.sorted()) by {
                                if order.order_side == OrderSide::Buy {
                                    assert(self.side_ref(0) == finm);
                                    assert(Self::side_wf(self.pool(), finm, OrderSide::Buy));
                                } else {
                                    assert(self.side_ref(1) == finm);
                                    assert(Self::side_wf(self.pool(), finm, OrderSide::Sell));
                                }
                            }
                            assert(finm.key_before(oldm.levels()[pos].0, order.price));
                            assert(oldm.key_before(oldm.levels()[li].0, oldm.levels()[pos].0));
                        }
                    }
                    assert(finm.levels()[li].1.metas() =~= metas.remove(mi).push(appended));
                    assert(finm.levels()[li].1.qty() == stored.quantity);
                    assert(oldm.level_at(order.price).qty() == stored.quantity) by {
                        assert(Self::side_wf(pre.pool(), oldm, order.order_side)) by {
                            if order.order_side == OrderSide::Buy {
                                assert(pre.side_ref(0) == oldm);
                            } else {
                                assert(pre.side_ref(1) == oldm);
                            }
                        }
                        assert(Self::level_wf(pre.pool(), oldm.levels()[li], order.order_side));
                        assert(metas[0] == metas[mi]);
                        assert(metas.drop_first() =~= Seq::<OrderMeta>::empty());
                        assert(Self::pooled_qty(pre.pool(), metas.drop_first()) == 0);
                    }
                    assert forall|i: int|
                        0 <= i < oldm.levels().len() && i != li implies #[trigger] finm.levels()[i]
                        == oldm.levels()[i] by {
                        if i < li {
                            assert(finm.levels()[i] == midm.levels()[i]);
                            assert(midm.levels()[i] == oldm.levels()[i]);
                        } else {
                            assert(finm.levels()[i] == midm.levels()[i - 1]);
                            assert(midm.levels()[i - 1] == oldm.levels()[i]);
                        }
                    }
                } else {
                    // The level survived the cancel; the new entry goes to
                    // its tail.
                    assert(midm.levels().len() == oldm.levels().len());
                    assert(midm.levels()[li].0 == order.price);
                    assert(midm.has_level(order.price));
                    assert(midm.sorted());
                    midm.lemma_unique_level(li, midm.level_index(order.price));
                    assert(midm.level_index(order.price) == li);
                    assert(finm.level_index(order.price) == li);
                    assert(finm.levels()[li].1.metas() == metas.remove(mi).push(appended));
                    assert(finm.levels()[li].1.qty() == oldm.level_at(order.price).qty());
                }
                assert(self.pool() == pre.pool().remove(h).insert(h2, stored));
                assert(!pre.pool().remove(h).contains_key(h2));
                assert(exists|hx: SlabKey|
                    {
                        &&& !pre.pool().remove(h).contains_key(hx)
                        &&& self.pool() == pre.pool().remove(h).insert(hx, stored)
                        &&& finm.levels().len() == oldm.levels().len()
                        &&& finm.levels()[li].0 == order.price
                        &&& #[trigger] finm.levels()[li].1.metas() == metas.remove(mi).push(
                            OrderMeta::new_spec(hx, order.id),
                        )
                        &&& finm.levels()[li].1.qty() == oldm.level_at(order.price).qty()
                        &&& forall|i: int|
                            0 <= i < oldm.levels().len() && i != li ==> finm.levels()[i]
                                == oldm.levels()[i]
                        &&& finm.total_spec() == oldm.total_spec()
                        &&& self.opp_sel(order.order_side) == pre.opp_sel(order.order_side)
                    }) by {
                    assert(!pre.pool().remove(h).contains_key(h2));
                    assert(self.pool() == pre.pool().remove(h).insert(h2, stored));
                    assert(finm.levels().len() == oldm.levels().len());
                    assert(finm.levels()[li].0 == order.price);
                    assert(finm.levels()[li].1.metas() == metas.remove(mi).push(
                        OrderMeta::new_spec(h2, order.id),
                    ));
                    assert(finm.levels()[li].1.qty() == oldm.level_at(order.price).qty());
                    assert(forall|i: int|
                        0 <= i < oldm.levels().len() && i != li ==> #[trigger] finm.levels()[i]
                            == oldm.levels()[i]);
                    assert(finm.total_spec() == oldm.total_spec());
                    assert(self.opp_sel(order.order_side) == pre.opp_sel(order.order_side));
                }
            }
        }
        Ok(matches)
    }

    /// Finds the price level on which the order with `order_id` rests on
    /// the given side: the first level, in book order, whose queue holds
    /// the id.
    pub fn recover_order_price(&self, order_side: OrderSide, order_id: OrderId) -> (r: Option<
        Price,
    >)
        ensures
            ({
                let m = self.side_sel(order_side);
                &&& (r is Some) == exists|i: int|
                    0 <= i < m.levels().len() && has_id(
                        (#[trigger] m.levels()[i]).1.metas(),
                        order_id,
                    )
                &&& r is Some ==> exists|i: int|
                    {
                        &&& 0 <= i < m.levels().len()
                        &&& has_id((#[trigger] m.levels()[i]).1.metas(), order_id)
                        &&& r == Some(m.levels()[i].0)
                        &&& forall|j: int|
                            0 <= j < i ==> !has_id((#[trigger] m.levels()[j]).1.metas(), order_id)
                    }
            }),
    {
        let m = if order_side.is_sell() {
            &self.asks
        } else {
            &self.bids
        };
        proof {
            assert(m == &self.side_sel(order_side));
        }
        let n = m.len();
        let mut i: usize = 0;
        while i < n
            invariant
                m == &self.side_sel(order_side),
                n == m.levels().len(),
                i <= n,
                forall|j: int|
                    0 <= j < i ==> !has_id((#[trigger] m.levels()[j]).1.metas(), order_id),
            decreases n - i,
        {
            let level = &m.orders()[i].1;
            let level_price = m.orders()[i].0;
            let ln = level.len();
            let mut j: usize = 0;
            while j < ln
                invariant
                    m == &self.side_sel(order_side),
                    n == m.levels().len(),
                    i < n,
                    level == &m.levels()[i as int].1,
                    level_price == m.levels()[i as int].0,
                    ln == level.metas().len(),
                    j <= ln,
                    forall|jj: int|
                        0 <= jj < j ==> (#[trigger] level.metas()[jj]).order_id_spec() != order_id,
                    forall|jj: int|
                        0 <= jj < i ==> !has_id((#[trigger] m.levels()[jj]).1.metas(), order_id),
                decreases ln - j,
            {
                let meta = level.items()[j];
                if meta.order_id() == order_id {
                    proof {
                        assert(has_id(m.levels()[i as int].1.metas(), order_id));
                        assert(exists|ii: int|
                            {
                                &&& 0 <= ii < m.levels().len()
                                &&& has_id((#[trigger] m.levels()[ii]).1.metas(), order_id)
                                &&& Some(level_price) == Some::<Price>(m.levels()[ii].0)
                                &&& forall|j: int|
                                    0 <= j < ii ==> !has_id(
                                        (#[trigger] m.levels()[j]).1.metas(),
                                        order_id,
                                    )
                            }) by {
                            assert(has_id(m.levels()[i as int].1.metas(), order_id));
                            assert(Some(level_price) == Some::<Price>(m.levels()[i as int].0));
                            assert(forall|j: int|
                                0 <= j < i as int ==> !has_id(
                                    (#[trigger] m.levels()[j]).1.metas(),
                                    order_id,
                                ));
                        }
                    }
                    return Some(level_price);
                }
                j = j + 1;
            }
            proof {
                assert(!has_id(m.levels()[i as int].1.metas(), order_id));
            }
            i = i + 1;
        }
        None
    }

    /// Two sequences of levels with the same prices, queues and cached
    /// quantities: equality by content.
    pub open spec fn levels_equiv(a: Seq<(Price, Orders)>, b: Seq<(Price, Orders)>) -> bool {
        &&& a.len() == b.len()
        &&& forall|i: int|
            0 <= i < a.len() ==> (#[trigger] a[i]).0 == b[i].0 && a[i].1.metas() == b[i].1.metas()
                && a[i].1.qty() == b[i].1.qty()
    }

    /// An insert of a fresh pool slot followed by its release round
    /// trips: the pool is as before.
    pub proof fn lemma_pool_insert_remove(p: Map<SlabKey, OrderSpec>, h: SlabKey, v: OrderSpec)
        requires
            !p.contains_key(h),
        ensures
            p.insert(h, v).remove(h) == p,
    {
        assert(p.insert(h, v).remove(h) =~= p);
    }

    /// Insert-then-cancel returns a side to its previous state: an order
    /// that rested at the tail of its price level without trading, with an
    /// id not already queued at that level, is found by the cancel's
    /// first-match search exactly where it was appended, and its removal
    /// undoes the rest. Together with `lemma_pool_insert_remove` this is
    /// the whole book-content round trip for a non-crossing insert.
    pub proof fn lemma_rest_then_cancel(
        m0: OrderMap,
        m1: OrderMap,
        m2: OrderMap,
        price: Price,
        h: SlabKey,
        id: OrderId,
        q: Quantity,
    )
        requires
            m0.sorted(),
            m0.has_level(price) ==> !has_id(m0.level_at(price).metas(), id),
            m0.has_level(price) ==> m0.level_at(price).metas().len() > 0,
            Self::added_to(m0, m1, price, h, id, q),
            Self::removed_from(
                m1,
                m2,
                m1.level_index(price),
                first_id_index(m1.level_at(price).metas(), id),
                q,
            ),
        ensures
            Self::levels_equiv(m2.levels(), m0.levels()),
            m2.total_spec() == m0.total_spec(),
            m2.is_descending() == m0.is_descending(),
    {
        let meta = OrderMeta::new_spec(h, id);
        if m0.has_level(price) {
            let li = m0.level_index(price);
            let metas0 = m0.levels()[li].1.metas();
            assert(m1.level_index(price) == li);
            let metas1 = m1.levels()[li].1.metas();
            assert(metas1 == metas0.push(meta));
            assert(m0.level_at(price).metas() == metas0);
            assert(m1.level_at(price).metas() == metas1);
            assert(has_id(metas1, id)) by {
                assert(metas1[metas0.len() as int].order_id_spec() == id);
            }
            lemma_first_id_index(metas1, id);
            let fi = first_id_index(metas1, id);
            assert(fi == metas0.len()) by {
                if fi < metas0.len() {
                    assert(metas1[fi] == metas0[fi]);
                    assert(has_id(metas0, id)) by {
                        assert(metas0[fi].order_id_spec() == id);
                    }
                }
            }
            assert(metas1.len() > 1);
            assert(metas1.remove(metas0.len() as int) =~= metas0);
            assert forall|i: int|
                0 <= i < m0.levels().len() implies (#[trigger] m2.levels()[i]).0
                == m0.levels()[i].0 && m2.levels()[i].1.metas() == m0.levels()[i].1.metas()
                && m2.levels()[i].1.qty() == m0.levels()[i].1.qty() by {
                if i != li {
                    assert(m2.levels()[i] == m1.levels()[i]);
                    assert(m1.levels()[i] == m0.levels()[i]);
                } else {
                    assert(m2.levels()[li].1.metas() == metas1.remove(metas0.len() as int));
                    assert(m2.levels()[li].1.qty() == m0.levels()[li].1.qty());
                    assert(m2.levels()[li].0 == price);
                    assert(m0.levels()[li].0 == price);
                }
            }
        } else {
            let pos = m1.level_index(price);
            assert(m1.levels()[pos].1.metas() =~= seq![meta]);
            assert(m1.level_at(price).metas() == m1.levels()[pos].1.metas());
            assert(first_id_index(m1.level_at(price).metas(), id) == 0) by {
                assert(m1.level_at(price).metas()[0] == meta);
            }
            assert(m1.levels()[pos].1.metas().len() == 1);
            assert(m2.levels() == m1.levels().remove(pos));
            assert forall|i: int|
                0 <= i < m0.levels().len() implies (#[trigger] m2.levels()[i]).0
                == m0.levels()[i].0 && m2.levels()[i].1.metas() == m0.levels()[i].1.metas()
                && m2.levels()[i].1.qty() == m0.levels()[i].1.qty() by {
                if i < pos {
                    assert(m2.levels()[i] == m1.levels()[i]);
                    assert(m1.levels()[i] == m0.levels()[i]);
                } else {
                    assert(m2.levels()[i] == m1.levels()[i + 1]);
                    assert(m1.levels()[i + 1] == m0.levels()[i]);
                }
            }
        }
    }

    fn is_match_price(&self, order_side: &OrderSide, order_price: Price, top_price: Price) -> (r:
        bool)
        ensures
            r == marketable_at(*order_side, order_price, top_price),
    {
        if order_side.is_buy() && order_price >= top_price {
            return true;
        }
        if order_side.is_sell() && order_price <= top_price {
            return true;
        }
        false
    }
}

} // verus!
