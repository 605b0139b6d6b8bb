use vstd::prelude::*;

use crate::order::{OrderId, OrderSide, Price, Quantity};
use crate::order_match::OrderMatch;
use crate::orders::{OrderMeta, Orders};

verus! {

/// The side a resting order must have to trade against an incoming order
/// of side `side`.
pub open spec fn opposite(side: OrderSide) -> OrderSide {
    if side == OrderSide::Buy {
        OrderSide::Sell
    } else {
        OrderSide::Buy
    }
}

/// The smaller of two quantities.
pub open spec fn min_q(a: Quantity, b: Quantity) -> Quantity {
    if a <= b {
        a
    } else {
        b
    }
}

/// The total quantity of a list of trade events.
pub open spec fn sum_trades(trades: Seq<OrderMatch>) -> int
    decreases trades.len(),
{
    if trades.len() == 0 {
        0
    } else {
        trades[0].quantity + sum_trades(trades.drop_first())
    }
}

pub proof fn lemma_sum_trades_nonneg(trades: Seq<OrderMatch>)
    ensures
        sum_trades(trades) >= 0,
    decreases trades.len(),
{
    if trades.len() > 0 {
        lemma_sum_trades_nonneg(trades.drop_first());
    }
}

pub proof fn lemma_sum_trades_push(trades: Seq<OrderMatch>, t: OrderMatch)
    ensures
        sum_trades(trades.push(t)) == sum_trades(trades) + t.quantity,
    decreases trades.len(),
{
    if trades.len() == 0 {
        assert(trades.push(t).drop_first() =~= trades);
    } else {
        lemma_sum_trades_push(trades.drop_first(), t);
        assert(trades.push(t).drop_first() =~= trades.drop_first().push(t));
    }
}

/// Splitting a trade list splits its quantity sum.
pub proof fn lemma_sum_trades_split(trades: Seq<OrderMatch>, n: int)
    requires
        0 <= n <= trades.len(),
    ensures
        sum_trades(trades) == sum_trades(trades.subrange(0, n)) + sum_trades(trades.skip(n)),
    decreases n,
{
    if n == 0 {
        assert(trades.subrange(0, 0) =~= Seq::<OrderMatch>::empty());
        assert(trades.skip(0) =~= trades);
    } else {
        lemma_sum_trades_split(trades.drop_first(), n - 1);
        assert(trades.subrange(0, n).drop_first() =~= trades.drop_first().subrange(0, n - 1));
        assert(trades.drop_first().skip(n - 1) =~= trades.skip(n));
        assert(trades.subrange(0, n)[0] == trades[0]);
    }
}

/// The trade list behind the optional result of a submission: `None`
/// collapses to no trades.
pub open spec fn trades_of(r: Option<Vec<OrderMatch>>) -> Seq<OrderMatch> {
    match r {
        Option::None => Seq::empty(),
        Option::Some(v) => v@,
    }
}

/// Whether some queue element carries the given order id.
pub open spec fn has_id(metas: Seq<OrderMeta>, id: OrderId) -> bool {
    exists|j: int| 0 <= j < metas.len() && (#[trigger] metas[j]).order_id_spec() == id
}

/// The position of the first queue element carrying the given order id.
pub open spec fn first_id_index(metas: Seq<OrderMeta>, id: OrderId) -> int
    decreases metas.len(),
{
    if metas.len() == 0 {
        0
    } else if metas[0].order_id_spec() == id {
        0
    } else {
        1 + first_id_index(metas.drop_first(), id)
    }
}

pub proof fn lemma_first_id_index(metas: Seq<OrderMeta>, id: OrderId)
    requires
        has_id(metas, id),
    ensures
        0 <= first_id_index(metas, id) < metas.len(),
        metas[first_id_index(metas, id)].order_id_spec() == id,
        forall|j: int|
            0 <= j < first_id_index(metas, id) ==> (#[trigger] metas[j]).order_id_spec() != id,
    decreases metas.len(),
{
    if metas.len() > 0 && metas[0].order_id_spec() != id {
        assert(has_id(metas.drop_first(), id)) by {
            let j = choose|j: int| 0 <= j < metas.len() && (#[trigger] metas[j]).order_id_spec() == id;
            assert(metas.drop_first()[j - 1].order_id_spec() == id);
        }
        lemma_first_id_index(metas.drop_first(), id);
        assert forall|j: int| 0 <= j < first_id_index(metas, id) implies (#[trigger] metas[j]).order_id_spec() != id by {
            if j > 0 {
                assert(metas.drop_first()[j - 1] == metas[j]);
            }
        }
    }
}

/// The marketability test of the engine: an incoming limit order at
/// `limit` may trade against a resting level at `level_price` of the
/// opposing side exactly when this holds. Market orders skip the test.
pub open spec fn marketable_at(side: OrderSide, limit: Price, level_price: Price) -> bool {
    if side == OrderSide::Buy {
        limit >= level_price
    } else {
        limit <= level_price
    }
}

/// The sum of the cached quantities of the longest marketable prefix of
/// `levels` (which are in book order, best first).
pub open spec fn fillable_sum(levels: Seq<(Price, Orders)>, side: OrderSide, limit: Price) -> int
    decreases levels.len(),
{
    if levels.len() == 0 || !marketable_at(side, limit, levels[0].0) {
        0
    } else {
        levels[0].1.qty() + fillable_sum(levels.drop_first(), side, limit)
    }
}

/// What the early-stopping feasibility walk accumulates: like
/// `fillable_sum`, but the walk also stops once the accumulated sum
/// exceeds `need`.
pub open spec fn walk_sum(
    levels: Seq<(Price, Orders)>,
    side: OrderSide,
    limit: Price,
    need: int,
) -> int
    decreases levels.len(),
{
    if levels.len() == 0 || !marketable_at(side, limit, levels[0].0) {
        0
    } else {
        let q = levels[0].1.qty();
        q + if q > need {
            0
        } else {
            walk_sum(levels.drop_first(), side, limit, need - q)
        }
    }
}

/// The early stop loses nothing: the walk reaches `need` exactly when the
/// whole marketable prefix does.
pub proof fn lemma_walk_sum_reaches(
    levels: Seq<(Price, Orders)>,
    side: OrderSide,
    limit: Price,
    need: int,
)
    ensures
        walk_sum(levels, side, limit, need) <= fillable_sum(levels, side, limit),
        need >= 0 ==> ((walk_sum(levels, side, limit, need) >= need) == (fillable_sum(
            levels,
            side,
            limit,
        ) >= need)),
    decreases levels.len(),
{
    if levels.len() == 0 || !marketable_at(side, limit, levels[0].0) {
    } else {
        let q = levels[0].1.qty() as int;
        lemma_walk_sum_reaches(levels.drop_first(), side, limit, need - q);
        lemma_fillable_sum_nonneg(levels.drop_first(), side, limit);
    }
}

pub proof fn lemma_fillable_sum_nonneg(levels: Seq<(Price, Orders)>, side: OrderSide, limit: Price)
    ensures
        fillable_sum(levels, side, limit) >= 0,
    decreases levels.len(),
{
    if levels.len() == 0 || !marketable_at(side, limit, levels[0].0) {
    } else {
        lemma_fillable_sum_nonneg(levels.drop_first(), side, limit);
    }
}

} // verus!
