//! What every matching and placement keeps: the shape of the book, the
//! numbering of trades, the limit price, and the executed quantity as the
//! sum of the fills; and what matching delivers where its arithmetic is
//! exact: price-time priority, conservation of quantity, and no order left
//! crossing an unfilled taker.
use crate::decimal::{spec_add, spec_min, spec_sub, unit_limit, Dec, MAX_SCALE};
use crate::orderbook::{
    better, crosses, insert_resting, is_open, match_levels, match_maker, open_orders, run_makers,
    spec_add_order, spec_match, status_for, BookView, Fill, LevelView, Order, Side,
};
use vstd::prelude::*;

verus! {

/// The side on which resting orders trade with a taker of side `s`.
pub open spec fn opposite(s: Side) -> Side {
    match s {
        Side::Bid => Side::Ask,
        Side::Ask => Side::Bid,
    }
}

/// A resting order that belongs in a level at `price` on book side `side`.
pub open spec fn order_fits(side: Side, price: Dec, o: Order) -> bool {
    o.price.units() == price.units() && o.side == side
}

/// A book side in good order: levels strictly sorted best price first, each
/// holding open orders of that side at its price.
pub open spec fn side_wf(side: Side, levels: Seq<LevelView>) -> bool {
    &&& forall|i: int, j: int|
        #![trigger levels[i], levels[j]]
        0 <= i < j < levels.len() ==> better(side, levels[i].price, levels[j].price)
    &&& forall|i: int, k: int|
        #![trigger levels[i].orders[k]]
        0 <= i < levels.len() && 0 <= k < levels[i].orders.len() ==> order_fits(
            side,
            levels[i].price,
            levels[i].orders[k],
        ) && is_open(levels[i].orders[k])
}

/// Both sides of a book in good order.
pub open spec fn book_wf(b: BookView) -> bool {
    side_wf(Side::Bid, b.bids) && side_wf(Side::Ask, b.asks)
}

/// Every resting order of the levels has a filled quantity that is not negative.
pub open spec fn side_filled_nonneg(levels: Seq<LevelView>) -> bool {
    forall|i: int, k: int|
        #![trigger levels[i].orders[k]]
        0 <= i < levels.len() && 0 <= k < levels[i].orders.len() ==> 0
            <= levels[i].orders[k].filled_quantity.units()
}

/// Every resting order of the book has a filled quantity that is not negative.
pub open spec fn book_filled_nonneg(b: BookView) -> bool {
    side_filled_nonneg(b.bids) && side_filled_nonneg(b.asks)
}

/// Resting an order whose filled quantity is not negative keeps every filled
/// quantity of the side not negative.
pub proof fn lemma_insert_filled_nonneg(side: Side, s: Seq<LevelView>, o: Order)
    requires
        side_filled_nonneg(s),
        0 <= o.filled_quantity.units(),
    ensures
        side_filled_nonneg(insert_resting(side, s, o)),
    decreases s.len(),
{
    let r = insert_resting(side, s, o);
    if s.len() == 0 {
        assert forall|i: int, k: int| 0 <= i < r.len() && 0 <= k < r[i].orders.len() implies 0
            <= (#[trigger] r[i].orders[k]).filled_quantity.units() by {
            assert(r[0].orders[k] == o);
        }
    } else if s[0].price.units() == o.price.units() {
        assert forall|i: int, k: int| 0 <= i < r.len() && 0 <= k < r[i].orders.len() implies 0
            <= (#[trigger] r[i].orders[k]).filled_quantity.units() by {
            if i > 0 {
                assert(r[i] == s[i]);
            } else if k < s[0].orders.len() {
                assert(r[0].orders[k] == s[0].orders[k]);
            } else {
                assert(r[0].orders[k] == o);
            }
        }
    } else if better(side, o.price, s[0].price) {
        assert forall|i: int, k: int| 0 <= i < r.len() && 0 <= k < r[i].orders.len() implies 0
            <= (#[trigger] r[i].orders[k]).filled_quantity.units() by {
            if i > 0 {
                assert(r[i] == s[i - 1]);
            } else {
                assert(r[0].orders[k] == o);
            }
        }
    } else {
        let d = s.drop_first();
        assert forall|i: int, k: int| 0 <= i < d.len() && 0 <= k < d[i].orders.len() implies 0
            <= (#[trigger] d[i].orders[k]).filled_quantity.units() by {
            assert(d[i] == s[i + 1]);
        }
        lemma_insert_filled_nonneg(side, d, o);
        let ri = insert_resting(side, d, o);
        assert forall|i: int, k: int| 0 <= i < r.len() && 0 <= k < r[i].orders.len() implies 0
            <= (#[trigger] r[i].orders[k]).filled_quantity.units() by {
            if i > 0 {
                assert(r[i] == ri[i - 1]);
            } else {
                assert(r[0] == s[0]);
            }
        }
    }
}

/// An amount that is not negative, of scale at most `s`.
pub open spec fn amount_within(d: Dec, s: u32) -> bool {
    d.spec_scale() <= s && 0 <= d.spec_mantissa()
}

/// A taker whose quantity is an amount of scale at most `s` (itself a scale
/// `rust_decimal` can hold) that `rust_decimal` can hold at scale `s`.
pub open spec fn taker_in_domain(taker: Order, s: u32) -> bool {
    &&& s <= MAX_SCALE
    &&& amount_within(taker.quantity, s)
    &&& taker.quantity.units() <= unit_limit(s)
}

/// A resting order whose quantity and filled quantity are amounts of scale
/// at most `s`, that is open, and whose quantity can be filled twice over
/// and still be held at scale `s`.
pub open spec fn maker_in_domain(o: Order, s: u32) -> bool {
    &&& amount_within(o.quantity, s)
    &&& amount_within(o.filled_quantity, s)
    &&& o.filled_quantity.units() < o.quantity.units()
    &&& 2 * o.quantity.units() <= unit_limit(s)
}

/// `exact_setting` at the scale `s`.
pub open spec fn exact_setting_at(side: Side, taker: Order, levels: Seq<LevelView>, s: u32) -> bool {
    &&& taker_in_domain(taker, s)
    &&& side_wf(opposite(side), levels)
    &&& forall|i: int, k: int|
        #![trigger levels[i].orders[k]]
        0 <= i < levels.len() && 0 <= k < levels[i].orders.len() ==> maker_in_domain(
            levels[i].orders[k],
            s,
        )
}

/// The setting in which matching is exact: a book side in good order and a
/// taker whose amounts are all not negative and of scales up to some scale
/// `s`, at which each can be held, twice over for the resting quantities.
/// The amounts may have different scales.
pub open spec fn exact_setting(side: Side, taker: Order, levels: Seq<LevelView>) -> bool {
    exists|s: u32| #[trigger] exact_setting_at(side, taker, levels, s)
}

/// An executed quantity as matching carries it: an amount of scale at most `s`.
pub open spec fn carried(e: Dec, s: u32) -> bool {
    amount_within(e, s)
}

/// The sum of the fills' quantities, in units.
pub open spec fn total_units(fills: Seq<Fill>) -> int
    decreases fills.len(),
{
    if fills.len() == 0 {
        0
    } else {
        total_units(fills.drop_last()) + fills.last().quantity.units()
    }
}

/// The resting orders of the levels, level by level, each level oldest first.
pub open spec fn flat_orders(levels: Seq<LevelView>) -> Seq<Order>
    decreases levels.len(),
{
    if levels.len() == 0 {
        Seq::empty()
    } else {
        flat_orders(levels.drop_last()) + levels.last().orders
    }
}

/// The number of leading levels whose price the limit crosses: the levels a
/// taker of `side` walks.
pub open spec fn walked(side: Side, limit: Dec, levels: Seq<LevelView>) -> int
    decreases levels.len(),
{
    if levels.len() == 0 || !crosses(side, limit, levels[0].price) {
        0
    } else {
        1 + walked(side, limit, levels.drop_first())
    }
}

/// Price-time priority: the fills were made, one each, with the first
/// orders of the walked levels taken best level first and oldest first
/// within a level; and with all of them if the taker was not filled.
pub open spec fn in_priority_order(
    side: Side,
    taker: Order,
    fills: Seq<Fill>,
    executed: Dec,
    before: Seq<LevelView>,
) -> bool {
    let queue = flat_orders(before.take(walked(side, taker.price, before)));
    &&& fills.len() <= queue.len()
    &&& forall|k: int|
        0 <= k < fills.len() ==> #[trigger] fills[k].maker_order_id == queue[k].order_id
    &&& executed.units() < taker.quantity.units() ==> fills.len() == queue.len()
}

/// What exact matching delivers to a taker of `side` against the levels
/// `before` (which become `after`): the executed quantity lies between zero
/// and the taker's quantity and is the sum of the fills' quantities, every
/// fill is for a positive quantity, the fills follow price-time priority,
/// and if the taker is not filled completely, no order is left at a price
/// its limit crosses.
pub open spec fn matched_exactly(
    side: Side,
    taker: Order,
    fills: Seq<Fill>,
    executed: Dec,
    before: Seq<LevelView>,
    after: Seq<LevelView>,
) -> bool {
    &&& 0 <= executed.units() <= taker.quantity.units()
    &&& total_units(fills) == executed.units()
    &&& forall|k: int| 0 <= k < fills.len() ==> #[trigger] fills[k].quantity.units() > 0
    &&& in_priority_order(side, taker, fills, executed, before)
    &&& executed.units() < taker.quantity.units() ==> forall|i: int|
        0 <= i < after.len() && crosses(side, taker.price, (#[trigger] after[i]).price)
            ==> after[i].orders.len() == 0
}

/// The levels walked up to the first one not crossed.
pub proof fn lemma_walked(side: Side, limit: Dec, levels: Seq<LevelView>, i: int)
    requires
        0 <= i <= levels.len(),
        forall|j: int| 0 <= j < i ==> crosses(side, limit, #[trigger] levels[j].price),
        i == levels.len() || !crosses(side, limit, levels[i].price),
    ensures
        walked(side, limit, levels) == i,
    decreases i,
{
    if i > 0 {
        let d = levels.drop_first();
        assert forall|j: int| 0 <= j < i - 1 implies crosses(side, limit, #[trigger] d[j].price) by {
            assert(d[j] == levels[j + 1]);
        }
        if i < levels.len() {
            assert(d[i - 1] == levels[i]);
        }
        lemma_walked(side, limit, d, i - 1);
    }
}

/// The orders of one more level follow those of the levels before it.
pub proof fn lemma_flat_orders_step(levels: Seq<LevelView>, i: int)
    requires
        0 <= i < levels.len(),
    ensures
        flat_orders(levels.take(i + 1)) == flat_orders(levels.take(i)) + levels[i].orders,
{
    assert(levels.take(i + 1).drop_last() =~= levels.take(i));
}

/// The number of resting orders on a book side.
pub open spec fn resting_count(levels: Seq<LevelView>) -> int
    decreases levels.len(),
{
    if levels.len() == 0 {
        0
    } else {
        resting_count(levels.drop_last()) + levels.last().orders.len()
    }
}

/// A prefix of a side holds no more resting orders than the side.
pub proof fn lemma_resting_count_prefix(levels: Seq<LevelView>, i: int)
    requires
        0 <= i <= levels.len(),
    ensures
        0 <= resting_count(levels.take(i)) <= resting_count(levels),
        i < levels.len() ==> resting_count(levels.take(i + 1)) == resting_count(levels.take(i))
            + levels[i].orders.len(),
    decreases levels.len() - i,
{
    lemma_resting_count_nonneg(levels.take(i));
    if i < levels.len() {
        assert(levels.take(i + 1).drop_last() =~= levels.take(i));
        lemma_resting_count_prefix(levels, i + 1);
    } else {
        assert(levels.take(i) =~= levels);
    }
}

proof fn lemma_resting_count_nonneg(levels: Seq<LevelView>)
    ensures
        resting_count(levels) >= 0,
    decreases levels.len(),
{
    if levels.len() > 0 {
        lemma_resting_count_nonneg(levels.drop_last());
    }
}

/// A limit that does not cross a level does not cross the levels ranked after it.
pub proof fn lemma_no_cross_after(side: Side, limit: Dec, a: Dec, b: Dec)
    requires
        better(opposite(side), a, b),
        !crosses(side, limit, a),
    ensures
        !crosses(side, limit, b),
{
}

/// The quantities of `fills` added one by one to `start` with `rust_decimal`
/// (`None` on overflow).
pub open spec fn sum_quantities(start: Dec, fills: Seq<Fill>) -> Option<Dec>
    decreases fills.len(),
{
    if fills.len() == 0 {
        Some(start)
    } else {
        match sum_quantities(start, fills.drop_last()) {
            None => None,
            Some(v) => spec_add(v, fills.last().quantity),
        }
    }
}

/// From state (fills0, e0, t0) to (fills1, e1, t1) a taker of `side` only
/// appended fills: numbered on from t0 one by one, all with the taker's id
/// and at prices its limit crosses, whose quantities added to e0 give e1.
pub open spec fn appends_fills(
    side: Side,
    taker: Order,
    fills0: Seq<Fill>,
    e0: Dec,
    t0: u64,
    fills1: Seq<Fill>,
    e1: Dec,
    t1: u64,
) -> bool {
    &&& fills0.len() <= fills1.len()
    &&& fills1.take(fills0.len() as int) == fills0
    &&& t1 == t0 + (fills1.len() - fills0.len())
    &&& forall|k: int|
        #![trigger fills1[k]]
        fills0.len() <= k < fills1.len() ==> fills1[k].trade_id == t0 + (k - fills0.len()) + 1
            && fills1[k].taker_order_id == taker.order_id && crosses(side, taker.price, fills1[k].price)
    &&& sum_quantities(e0, fills1.skip(fills0.len() as int)) == Some(e1)
}

proof fn lemma_sum_concat(start: Dec, a: Seq<Fill>, b: Seq<Fill>, mid: Dec)
    requires
        sum_quantities(start, a) == Some(mid),
    ensures
        sum_quantities(start, a + b) == sum_quantities(mid, b),
    decreases b.len(),
{
    if b.len() == 0 {
        assert(a + b =~= a);
    } else {
        lemma_sum_concat(start, a, b.drop_last(), mid);
        assert((a + b).drop_last() =~= a + b.drop_last());
        assert((a + b).last() == b.last());
    }
}

proof fn lemma_appends_refl(side: Side, taker: Order, f: Seq<Fill>, e: Dec, t: u64)
    ensures
        appends_fills(side, taker, f, e, t, f, e, t),
{
    assert(f.take(f.len() as int) =~= f);
    assert(f.skip(f.len() as int) =~= Seq::<Fill>::empty());
}

proof fn lemma_appends_trans(
    side: Side,
    taker: Order,
    f0: Seq<Fill>,
    e0: Dec,
    t0: u64,
    f1: Seq<Fill>,
    e1: Dec,
    t1: u64,
    f2: Seq<Fill>,
    e2: Dec,
    t2: u64,
)
    requires
        appends_fills(side, taker, f0, e0, t0, f1, e1, t1),
        appends_fills(side, taker, f1, e1, t1, f2, e2, t2),
    ensures
        appends_fills(side, taker, f0, e0, t0, f2, e2, t2),
{
    assert(f2.take(f0.len() as int) =~= f2.take(f1.len() as int).take(f0.len() as int));
    assert forall|k: int| f0.len() <= k < f2.len() implies #[trigger] f2[k].trade_id == t0 + (k
        - f0.len()) + 1 && f2[k].taker_order_id == taker.order_id && crosses(
        side,
        taker.price,
        f2[k].price,
    ) by {
        if k < f1.len() {
            assert(f2[k] == f2.take(f1.len() as int)[k]);
            assert(f1[k] == f2[k]);
        }
    }
    assert(f2.skip(f0.len() as int) =~= f1.skip(f0.len() as int) + f2.skip(f1.len() as int)) by {
        assert(f2.take(f1.len() as int) == f1);
        assert forall|k: int| 0 <= k < f1.len() - f0.len() implies f2.skip(f0.len() as int)[k]
            == f1.skip(f0.len() as int)[k] by {
            assert(f2[f0.len() + k] == f2.take(f1.len() as int)[f0.len() + k]);
        }
    }
    lemma_sum_concat(e0, f1.skip(f0.len() as int), f2.skip(f1.len() as int), e1);
}

/// Meeting one resting order appends at most one fill and changes nothing
/// of the order but its filled quantity.
proof fn lemma_match_maker(side: Side, taker: Order, f: Seq<Fill>, e: Dec, t: u64, maker: Order)
    requires
        match_maker(side, taker, f, e, t, maker) is Some,
    ensures
        ({
            let r = match_maker(side, taker, f, e, t, maker)->Some_0;
            &&& appends_fills(side, taker, f, e, t, r.0, r.1, r.2)
            &&& r.3 == Order { filled_quantity: r.3.filled_quantity, ..maker }
        }),
{
    let r = match_maker(side, taker, f, e, t, maker)->Some_0;
    if crosses(side, taker.price, maker.price) && e.units() < taker.quantity.units() {
        let left = spec_sub(taker.quantity, e)->Some_0;
        let filled = spec_min(left, maker.quantity);
        let fill = Fill {
            trade_id: (t + 1) as u64,
            maker_order_id: maker.order_id,
            taker_order_id: taker.order_id,
            price: maker.price,
            quantity: filled,
        };
        assert(r.0 == f.push(fill));
        assert(r.0.take(f.len() as int) =~= f);
        let s = r.0.skip(f.len() as int);
        assert(s =~= seq![fill]);
        assert(s.drop_last() =~= Seq::<Fill>::empty());
        assert(sum_quantities(e, s.drop_last()) == Some(e));
        assert(sum_quantities(e, s) == spec_add(e, filled));
        assert(r.0[f.len() as int] == fill);
    } else {
        lemma_appends_refl(side, taker, f, e, t);
    }
}

/// Meeting the resting orders of a level appends fills as `appends_fills`
/// says and returns the orders changed in their filled quantity only.
proof fn lemma_run_makers(
    side: Side,
    taker: Order,
    f: Seq<Fill>,
    e: Dec,
    t: u64,
    makers: Seq<Order>,
)
    requires
        run_makers(side, taker, f, e, t, makers) is Some,
    ensures
        ({
            let r = run_makers(side, taker, f, e, t, makers)->Some_0;
            &&& appends_fills(side, taker, f, e, t, r.0, r.1, r.2)
            &&& r.3.len() == makers.len()
            &&& forall|k: int|
                #![trigger r.3[k]]
                0 <= k < makers.len() ==> r.3[k] == Order {
                    filled_quantity: r.3[k].filled_quantity,
                    ..makers[k]
                }
        }),
    decreases makers.len(),
{
    if makers.len() == 0 {
        lemma_appends_refl(side, taker, f, e, t);
    } else {
        let acc = run_makers(side, taker, f, e, t, makers.drop_last())->Some_0;
        lemma_run_makers(side, taker, f, e, t, makers.drop_last());
        lemma_match_maker(side, taker, acc.0, acc.1, acc.2, makers.last());
        let st = match_maker(side, taker, acc.0, acc.1, acc.2, makers.last())->Some_0;
        lemma_appends_trans(side, taker, f, e, t, acc.0, acc.1, acc.2, st.0, st.1, st.2);
        let r = run_makers(side, taker, f, e, t, makers)->Some_0;
        assert forall|k: int| 0 <= k < makers.len() implies #[trigger] r.3[k] == Order {
            filled_quantity: r.3[k].filled_quantity,
            ..makers[k]
        } by {
            if k < makers.len() - 1 {
                assert(r.3[k] == acc.3[k]);
                assert(makers.drop_last()[k] == makers[k]);
            }
        }
    }
}

/// The open orders of a sequence whose orders all fit a level are open and fit it.
proof fn lemma_open_orders_fit(side: Side, price: Dec, s: Seq<Order>)
    requires
        forall|k: int| #![trigger s[k]] 0 <= k < s.len() ==> order_fits(side, price, s[k]),
    ensures
        forall|k: int|
            #![trigger open_orders(s)[k]]
            0 <= k < open_orders(s).len() ==> order_fits(side, price, open_orders(s)[k]) && is_open(
                open_orders(s)[k],
            ),
    decreases s.len(),
{
    if s.len() > 0 {
        let d = s.drop_last();
        assert forall|k: int| #![trigger d[k]] 0 <= k < d.len() implies order_fits(
            side,
            price,
            d[k],
        ) by {
            assert(d[k] == s[k]);
        }
        lemma_open_orders_fit(side, price, d);
        let r = open_orders(d);
        if is_open(s.last()) {
            assert forall|k: int| 0 <= k < r.push(s.last()).len() implies order_fits(
                side,
                price,
                #[trigger] r.push(s.last())[k],
            ) && is_open(r.push(s.last())[k]) by {
                if k < r.len() {
                    assert(r.push(s.last())[k] == r[k]);
                }
            }
        }
    }
}

/// Walking the levels of a side in good order: the fills are appended as
/// `appends_fills` says, and the side keeps its levels and their prices and
/// stays in good order.
proof fn lemma_match_levels(
    side: Side,
    taker: Order,
    f: Seq<Fill>,
    e: Dec,
    t: u64,
    levels: Seq<LevelView>,
)
    requires
        match_levels(side, taker, f, e, t, levels) is Some,
    ensures
        ({
            let r = match_levels(side, taker, f, e, t, levels)->Some_0;
            &&& appends_fills(side, taker, f, e, t, r.0, r.1, r.2)
            &&& r.3.len() == levels.len()
            &&& forall|i: int| #![trigger r.3[i]] 0 <= i < levels.len() ==> r.3[i].price == levels[i].price
            &&& forall|i: int|
                #![trigger r.3[i]]
                0 <= i < levels.len() ==> r.3[i].orders.len() <= levels[i].orders.len()
            &&& side_wf(opposite(side), levels) ==> side_wf(opposite(side), r.3)
        }),
    decreases levels.len(),
{
    let r = match_levels(side, taker, f, e, t, levels)->Some_0;
    if levels.len() == 0 || !crosses(side, taker.price, levels[0].price) {
        lemma_appends_refl(side, taker, f, e, t);
    } else {
        let m = run_makers(side, taker, f, e, t, levels[0].orders)->Some_0;
        lemma_run_makers(side, taker, f, e, t, levels[0].orders);
        let rest_in = levels.drop_first();
        let rest = match_levels(side, taker, m.0, m.1, m.2, rest_in)->Some_0;
        lemma_match_levels(side, taker, m.0, m.1, m.2, rest_in);
        lemma_appends_trans(side, taker, f, e, t, m.0, m.1, m.2, rest.0, rest.1, rest.2);
        let first = LevelView { price: levels[0].price, orders: open_orders(m.3) };
        assert(r.3 == seq![first] + rest.3);
        lemma_open_orders_len(m.3);
        assert forall|i: int| 0 <= i < levels.len() implies #[trigger] r.3[i].price
            == levels[i].price && r.3[i].orders.len() <= levels[i].orders.len() by {
            if i > 0 {
                assert(r.3[i] == rest.3[i - 1]);
                assert(rest_in[i - 1] == levels[i]);
            }
        }
        if side_wf(opposite(side), levels) {
            let os = opposite(side);
            assert forall|i: int, j: int| #![trigger rest_in[i], rest_in[j]] 0 <= i < j < rest_in.len()
                implies better(os, rest_in[i].price, rest_in[j].price) by {
                assert(rest_in[i] == levels[i + 1]);
                assert(rest_in[j] == levels[j + 1]);
            }
            assert forall|i: int, k: int|
                #![trigger rest_in[i].orders[k]]
                0 <= i < rest_in.len() && 0 <= k < rest_in[i].orders.len() implies order_fits(
                os,
                rest_in[i].price,
                rest_in[i].orders[k],
            ) && is_open(rest_in[i].orders[k]) by {
                assert(rest_in[i] == levels[i + 1]);
            }
            assert(side_wf(os, rest_in));
            let upd = m.3;
            assert forall|k: int| #![trigger upd[k]] 0 <= k < upd.len() implies order_fits(
                os,
                levels[0].price,
                upd[k],
            ) by {
                assert(upd[k] == Order { filled_quantity: upd[k].filled_quantity, ..levels[0].orders[k] });
                assert(order_fits(os, levels[0].price, levels[0].orders[k]));
            }
            lemma_open_orders_fit(os, levels[0].price, upd);
            let out = r.3;
            assert forall|i: int, j: int| #![trigger out[i], out[j]] 0 <= i < j < out.len() implies better(
                os,
                out[i].price,
                out[j].price,
            ) by {
                assert(out[j] == rest.3[j - 1]);
                if i > 0 {
                    assert(out[i] == rest.3[i - 1]);
                } else {
                    assert(out[i] == first);
                    assert(levels[j] == rest_in[j - 1]);
                    assert(better(os, levels[0].price, levels[j].price));
                }
            }
            assert forall|i: int, k: int|
                #![trigger out[i].orders[k]]
                0 <= i < out.len() && 0 <= k < out[i].orders.len() implies order_fits(
                os,
                out[i].price,
                out[i].orders[k],
            ) && is_open(out[i].orders[k]) by {
                if i > 0 {
                    assert(out[i] == rest.3[i - 1]);
                } else {
                    assert(out[i] == first);
                    assert(out[i].orders[k] == open_orders(upd)[k]);
                }
            }
        }
    }
}

/// Every level price of `insert_resting(side, s, o)` is one of `s` or `o`'s,
/// so a price that ranks before all of those ranks before all of these.
proof fn lemma_insert_ranks_after(side: Side, s: Seq<LevelView>, o: Order, p: Dec)
    requires
        forall|j: int| #![trigger s[j]] 0 <= j < s.len() ==> better(side, p, s[j].price),
        better(side, p, o.price),
    ensures
        forall|i: int|
            #![trigger insert_resting(side, s, o)[i]]
            0 <= i < insert_resting(side, s, o).len() ==> better(
                side,
                p,
                insert_resting(side, s, o)[i].price,
            ),
    decreases s.len(),
{
    let r = insert_resting(side, s, o);
    if s.len() == 0 {
    } else if s[0].price.units() == o.price.units() {
        assert forall|i: int| 0 <= i < r.len() implies better(side, p, #[trigger] r[i].price) by {
            if i > 0 {
                assert(r[i] == s[i]);
            }
        }
    } else if better(side, o.price, s[0].price) {
        assert forall|i: int| 0 <= i < r.len() implies better(side, p, #[trigger] r[i].price) by {
            if i > 0 {
                assert(r[i] == s[i - 1]);
            }
        }
    } else {
        let d = s.drop_first();
        assert forall|j: int| #![trigger d[j]] 0 <= j < d.len() implies better(side, p, d[j].price) by {
            assert(d[j] == s[j + 1]);
        }
        lemma_insert_ranks_after(side, d, o, p);
        assert forall|i: int| 0 <= i < r.len() implies better(side, p, #[trigger] r[i].price) by {
            if i > 0 {
                assert(r[i] == insert_resting(side, d, o)[i - 1]);
            }
        }
    }
}

/// Resting an open order of the side's own kind keeps a side in good order,
/// and the order ends up last in the level of its price.
proof fn lemma_insert_resting(side: Side, s: Seq<LevelView>, o: Order)
    requires
        side_wf(side, s),
        o.side == side,
        is_open(o),
    ensures
        side_wf(side, insert_resting(side, s, o)),
        exists|i: int|
            #![trigger insert_resting(side, s, o)[i]]
            0 <= i < insert_resting(side, s, o).len() && insert_resting(side, s, o)[i].price.units()
                == o.price.units() && insert_resting(side, s, o)[i].orders.len() > 0
                && insert_resting(side, s, o)[i].orders.last() == o,
    decreases s.len(),
{
    let r = insert_resting(side, s, o);
    if s.len() == 0 {
        assert(r[0].orders.last() == o);
    } else if s[0].price.units() == o.price.units() {
        let l0 = LevelView { price: s[0].price, orders: s[0].orders.push(o) };
        assert(r[0] == l0);
        assert forall|i: int, j: int| #![trigger r[i], r[j]] 0 <= i < j < r.len() implies better(
            side,
            r[i].price,
            r[j].price,
        ) by {
            assert(r[j] == s[j]);
            if i > 0 {
                assert(r[i] == s[i]);
            }
        }
        assert forall|i: int, k: int|
            #![trigger r[i].orders[k]]
            0 <= i < r.len() && 0 <= k < r[i].orders.len() implies order_fits(
            side,
            r[i].price,
            r[i].orders[k],
        ) && is_open(r[i].orders[k]) by {
            if i > 0 {
                assert(r[i] == s[i]);
            } else if k < s[0].orders.len() {
                assert(r[0].orders[k] == s[0].orders[k]);
            }
        }
        assert(r[0].orders.last() == o);
    } else if better(side, o.price, s[0].price) {
        assert forall|i: int, j: int| #![trigger r[i], r[j]] 0 <= i < j < r.len() implies better(
            side,
            r[i].price,
            r[j].price,
        ) by {
            assert(r[j] == s[j - 1]);
            if i > 0 {
                assert(r[i] == s[i - 1]);
            } else {
                assert(better(side, s[0].price, s[j - 1].price) || j - 1 == 0);
            }
        }
        assert forall|i: int, k: int|
            #![trigger r[i].orders[k]]
            0 <= i < r.len() && 0 <= k < r[i].orders.len() implies order_fits(
            side,
            r[i].price,
            r[i].orders[k],
        ) && is_open(r[i].orders[k]) by {
            if i > 0 {
                assert(r[i] == s[i - 1]);
            }
        }
        assert(r[0].orders.last() == o);
    } else {
        let d = s.drop_first();
        assert forall|i: int, j: int| #![trigger d[i], d[j]] 0 <= i < j < d.len() implies better(
            side,
            d[i].price,
            d[j].price,
        ) by {
            assert(d[i] == s[i + 1]);
            assert(d[j] == s[j + 1]);
        }
        assert forall|i: int, k: int|
            #![trigger d[i].orders[k]]
            0 <= i < d.len() && 0 <= k < d[i].orders.len() implies order_fits(
            side,
            d[i].price,
            d[i].orders[k],
        ) && is_open(d[i].orders[k]) by {
            assert(d[i] == s[i + 1]);
        }
        lemma_insert_resting(side, d, o);
        let ri = insert_resting(side, d, o);
        assert forall|j: int| #![trigger d[j]] 0 <= j < d.len() implies better(
            side,
            s[0].price,
            d[j].price,
        ) by {
            assert(d[j] == s[j + 1]);
        }
        lemma_insert_ranks_after(side, d, o, s[0].price);
        assert(r == seq![s[0]] + ri);
        assert forall|i: int, j: int| #![trigger r[i], r[j]] 0 <= i < j < r.len() implies better(
            side,
            r[i].price,
            r[j].price,
        ) by {
            assert(r[j] == ri[j - 1]);
            if i > 0 {
                assert(r[i] == ri[i - 1]);
            }
        }
        assert forall|i: int, k: int|
            #![trigger r[i].orders[k]]
            0 <= i < r.len() && 0 <= k < r[i].orders.len() implies order_fits(
            side,
            r[i].price,
            r[i].orders[k],
        ) && is_open(r[i].orders[k]) by {
            if i > 0 {
                assert(r[i] == ri[i - 1]);
            }
        }
        let w = choose|i: int|
            #![trigger ri[i]]
            0 <= i < ri.len() && ri[i].price.units() == o.price.units() && ri[i].orders.len() > 0
                && ri[i].orders.last() == o;
        assert(r[w + 1] == ri[w]);
    }
}

/// Keeping the open orders keeps no more orders than there were.
proof fn lemma_open_orders_len(s: Seq<Order>)
    ensures
        open_orders(s).len() <= s.len(),
    decreases s.len(),
{
    if s.len() > 0 {
        lemma_open_orders_len(s.drop_last());
    }
}

/// A property of prices held by `o`'s price and by every non-empty level of
/// `s` is held by every non-empty level after `o` rests on `s`.
proof fn lemma_insert_nonempty_prices(side: Side, s: Seq<LevelView>, o: Order, p: spec_fn(Dec) -> bool)
    requires
        forall|j: int| 0 <= j < s.len() && (#[trigger] s[j]).orders.len() > 0 ==> p(s[j].price),
        p(o.price),
        forall|a: Dec, b: Dec| #[trigger] p(a) && a.units() == b.units() ==> #[trigger] p(b),
    ensures
        forall|i: int|
            0 <= i < insert_resting(side, s, o).len() && (#[trigger] insert_resting(
                side,
                s,
                o,
            )[i]).orders.len() > 0 ==> p(insert_resting(side, s, o)[i].price),
    decreases s.len(),
{
    let r = insert_resting(side, s, o);
    if s.len() == 0 {
    } else if s[0].price.units() == o.price.units() {
        assert forall|i: int| 0 <= i < r.len() && (#[trigger] r[i]).orders.len() > 0 implies p(
            r[i].price,
        ) by {
            if i > 0 {
                assert(r[i] == s[i]);
            } else {
                assert(r[0].price == s[0].price);
                assert(p(o.price) && o.price.units() == s[0].price.units());
            }
        }
    } else if better(side, o.price, s[0].price) {
        assert forall|i: int| 0 <= i < r.len() && (#[trigger] r[i]).orders.len() > 0 implies p(
            r[i].price,
        ) by {
            if i > 0 {
                assert(r[i] == s[i - 1]);
            }
        }
    } else {
        let d = s.drop_first();
        assert forall|j: int| 0 <= j < d.len() && (#[trigger] d[j]).orders.len() > 0 implies p(
            d[j].price,
        ) by {
            assert(d[j] == s[j + 1]);
        }
        lemma_insert_nonempty_prices(side, d, o, p);
        assert forall|i: int| 0 <= i < r.len() && (#[trigger] r[i]).orders.len() > 0 implies p(
            r[i].price,
        ) by {
            if i > 0 {
                assert(r[i] == insert_resting(side, d, o)[i - 1]);
            }
        }
    }
}

/// Law (matching): on any book side, a taker that trades without overflow
/// gets fills numbered on from the last trade id one by one (which becomes
/// the last id), each with the taker's id and at a price its limit crosses;
/// the executed quantity is the `rust_decimal` sum of the fills' quantities;
/// the side keeps its levels and prices, and if it was in good order it
/// stays so.
pub proof fn law_matching(side: Side, taker: Order, tid: u64, levels: Seq<LevelView>)
    requires
        spec_match(side, taker, tid, levels) is Some,
    ensures
        ({
            let r = spec_match(side, taker, tid, levels)->Some_0;
            &&& r.2 == tid + r.0.len()
            &&& forall|k: int|
                #![trigger r.0[k]]
                0 <= k < r.0.len() ==> r.0[k].trade_id == tid + k + 1 && r.0[k].taker_order_id
                    == taker.order_id && crosses(side, taker.price, r.0[k].price)
            &&& sum_quantities(Dec::spec_zero(), r.0) == Some(r.1)
            &&& r.3.len() == levels.len()
            &&& forall|i: int| #![trigger r.3[i]] 0 <= i < levels.len() ==> r.3[i].price == levels[i].price
            &&& side_wf(opposite(side), levels) ==> side_wf(opposite(side), r.3)
        }),
{
    lemma_match_levels(side, taker, Seq::empty(), Dec::spec_zero(), tid, levels);
    let r = spec_match(side, taker, tid, levels)->Some_0;
    assert(r.0.skip(0) =~= r.0);
}

/// Law (no trade without a cross): if the best level of the other side does
/// not cross the taker's limit (or there is none), matching trades nothing
/// and leaves the side as it is.
pub proof fn law_no_cross_no_trade(side: Side, taker: Order, tid: u64, levels: Seq<LevelView>)
    requires
        levels.len() == 0 || !crosses(side, taker.price, levels[0].price),
    ensures
        spec_match(side, taker, tid, levels) == Some((Seq::<Fill>::empty(), Dec::spec_zero(), tid, levels)),
{
}

/// Law (placement): placing an order in a book in good order, where it
/// succeeds, leaves the book in good order; the other side keeps its prices;
/// the fills are numbered on from the book's last trade id; the executed
/// quantity is the sum of the fills and is recorded as the order's filled
/// quantity; the order is recorded under its id and, if still open, rests
/// last in the level of its price on its own side.
pub proof fn law_placement(b: BookView, order: Order, ts: i64)
    requires
        book_wf(b),
        spec_add_order(b, order, ts) is Some,
    ensures
        ({
            let (b2, fills, executed) = spec_add_order(b, order, ts)->Some_0;
            &&& book_wf(b2)
            &&& b2.last_trade_id == b.last_trade_id + fills.len()
            &&& forall|k: int|
                #![trigger fills[k]]
                0 <= k < fills.len() ==> fills[k].trade_id == b.last_trade_id + k + 1
                    && fills[k].taker_order_id == order.order_id && crosses(
                    order.side,
                    order.price,
                    fills[k].price,
                )
            &&& sum_quantities(Dec::spec_zero(), fills) == Some(executed)
            &&& b2.orders.contains_key(order.order_id)
            &&& b2.orders[order.order_id].filled_quantity == executed
            &&& order.side == Side::Ask && is_open(b2.orders[order.order_id]) ==> exists|i: int|
                #![trigger b2.asks[i]]
                0 <= i < b2.asks.len() && b2.asks[i].price.units() == order.price.units()
                    && b2.asks[i].orders.len() > 0 && b2.asks[i].orders.last() == b2.orders[order.order_id]
            &&& order.side == Side::Bid && is_open(b2.orders[order.order_id]) ==> exists|i: int|
                #![trigger b2.bids[i]]
                0 <= i < b2.bids.len() && b2.bids[i].price.units() == order.price.units()
                    && b2.bids[i].orders.len() > 0 && b2.bids[i].orders.last() == b2.orders[order.order_id]
            &&& b2.market == b.market
        }),
{
    let o = Order { timestamp: ts, ..order };
    let opp = match o.side {
        Side::Ask => b.bids,
        Side::Bid => b.asks,
    };
    law_matching(o.side, o, b.last_trade_id, opp);
    let m = spec_match(o.side, o, b.last_trade_id, opp)->Some_0;
    let placed = Order { filled_quantity: m.1, status: status_for(m.1, o.quantity), ..o };
    let (b2, fills, executed) = spec_add_order(b, order, ts)->Some_0;
    assert(fills == m.0 && executed == m.1);
    assert(b2.orders == b.orders.insert(order.order_id, placed));
    match o.side {
        Side::Ask => {
            assert(b2.bids == m.3);
            if is_open(placed) {
                lemma_insert_resting(Side::Ask, b.asks, placed);
                let ins = insert_resting(Side::Ask, b.asks, placed);
                assert(b2.asks == ins);
                let w = choose|i: int|
                    #![trigger ins[i]]
                    0 <= i < ins.len() && ins[i].price.units() == placed.price.units()
                        && ins[i].orders.len() > 0 && ins[i].orders.last() == placed;
                assert(b2.asks[w] == ins[w]);
            } else {
                assert(b2.asks == b.asks);
            }
        },
        Side::Bid => {
            assert(b2.asks == m.3);
            if is_open(placed) {
                lemma_insert_resting(Side::Bid, b.bids, placed);
                let ins = insert_resting(Side::Bid, b.bids, placed);
                assert(b2.bids == ins);
                let w = choose|i: int|
                    #![trigger ins[i]]
                    0 <= i < ins.len() && ins[i].price.units() == placed.price.units()
                        && ins[i].orders.len() > 0 && ins[i].orders.last() == placed;
                assert(b2.bids[w] == ins[w]);
            } else {
                assert(b2.bids == b.bids);
            }
        },
    }
}

/// A book that is not crossed: every non-empty bid level is priced below
/// every non-empty ask level.
pub open spec fn uncrossed(b: BookView) -> bool {
    forall|i: int, j: int|
        #![trigger b.bids[i], b.asks[j]]
        0 <= i < b.bids.len() && 0 <= j < b.asks.len() && b.bids[i].orders.len() > 0
            && b.asks[j].orders.len() > 0 ==> b.bids[i].price.units() < b.asks[j].price.units()
}

/// Law (no crossed book): placing an order in a book that is in good order
/// and not crossed, where matching was exact (`matched_exactly`, which the
/// exact setting guarantees), leaves the book not crossed.
pub proof fn law_placement_uncrossed(b: BookView, order: Order, ts: i64)
    requires
        book_wf(b),
        uncrossed(b),
        spec_add_order(b, order, ts) is Some,
        ({
            let o = Order { timestamp: ts, ..order };
            let (b2, fills, executed) = spec_add_order(b, order, ts)->Some_0;
            match order.side {
                Side::Bid => matched_exactly(Side::Bid, o, fills, executed, b.asks, b2.asks),
                Side::Ask => matched_exactly(Side::Ask, o, fills, executed, b.bids, b2.bids),
            }
        }),
    ensures
        uncrossed(spec_add_order(b, order, ts)->Some_0.0),
{
    let o = Order { timestamp: ts, ..order };
    let opp = match o.side {
        Side::Ask => b.bids,
        Side::Bid => b.asks,
    };
    lemma_match_levels(o.side, o, Seq::empty(), Dec::spec_zero(), b.last_trade_id, opp);
    let m = spec_match(o.side, o, b.last_trade_id, opp)->Some_0;
    let placed = Order { filled_quantity: m.1, status: status_for(m.1, o.quantity), ..o };
    let (b2, fills, executed) = spec_add_order(b, order, ts)->Some_0;
    match o.side {
        Side::Bid => {
            assert(b2.asks == m.3);
            let p = |x: Dec|
                forall|j: int|
                    0 <= j < b2.asks.len() && (#[trigger] b2.asks[j]).orders.len() > 0 ==> x.units()
                        < b2.asks[j].price.units();
            assert forall|i: int| 0 <= i < b.bids.len() && (#[trigger] b.bids[i]).orders.len() > 0 implies p(
                b.bids[i].price,
            ) by {
                assert forall|j: int|
                    0 <= j < b2.asks.len() && (#[trigger] b2.asks[j]).orders.len() > 0 implies b.bids[i].price.units()
                        < b2.asks[j].price.units() by {
                    assert(b2.asks[j].orders.len() <= b.asks[j].orders.len());
                    assert(b2.asks[j].price == b.asks[j].price);
                }
            }
            if is_open(placed) {
                assert(b2.bids == insert_resting(Side::Bid, b.bids, placed));
                assert forall|j: int|
                    0 <= j < b2.asks.len() && (#[trigger] b2.asks[j]).orders.len() > 0 implies placed.price.units()
                        < b2.asks[j].price.units() by {
                    if !(placed.price.units() < b2.asks[j].price.units()) {
                        assert(crosses(Side::Bid, o.price, b2.asks[j].price));
                    }
                }
                assert(p(placed.price));
                lemma_insert_nonempty_prices(Side::Bid, b.bids, placed, p);
            } else {
                assert(b2.bids == b.bids);
            }
            assert forall|i: int, j: int|
                #![trigger b2.bids[i], b2.asks[j]]
                0 <= i < b2.bids.len() && 0 <= j < b2.asks.len() && b2.bids[i].orders.len() > 0
                    && b2.asks[j].orders.len() > 0 implies b2.bids[i].price.units()
                < b2.asks[j].price.units() by {
                assert(p(b2.bids[i].price));
            }
        },
        Side::Ask => {
            assert(b2.bids == m.3);
            let p = |x: Dec|
                forall|i: int|
                    0 <= i < b2.bids.len() && (#[trigger] b2.bids[i]).orders.len() > 0 ==> b2.bids[i].price.units()
                        < x.units();
            assert forall|j: int| 0 <= j < b.asks.len() && (#[trigger] b.asks[j]).orders.len() > 0 implies p(
                b.asks[j].price,
            ) by {
                assert forall|i: int|
                    0 <= i < b2.bids.len() && (#[trigger] b2.bids[i]).orders.len() > 0 implies b2.bids[i].price.units()
                        < b.asks[j].price.units() by {
                    assert(b2.bids[i].orders.len() <= b.bids[i].orders.len());
                    assert(b2.bids[i].price == b.bids[i].price);
                }
            }
            if is_open(placed) {
                assert(b2.asks == insert_resting(Side::Ask, b.asks, placed));
                assert forall|i: int|
                    0 <= i < b2.bids.len() && (#[trigger] b2.bids[i]).orders.len() > 0 implies b2.bids[i].price.units()
                        < placed.price.units() by {
                    if !(b2.bids[i].price.units() < placed.price.units()) {
                        assert(crosses(Side::Ask, o.price, b2.bids[i].price));
                    }
                }
                assert(p(placed.price));
                lemma_insert_nonempty_prices(Side::Ask, b.asks, placed, p);
            } else {
                assert(b2.asks == b.asks);
            }
            assert forall|i: int, j: int|
                #![trigger b2.bids[i], b2.asks[j]]
                0 <= i < b2.bids.len() && 0 <= j < b2.asks.len() && b2.bids[i].orders.len() > 0
                    && b2.asks[j].orders.len() > 0 implies b2.bids[i].price.units()
                < b2.asks[j].price.units() by {
                assert(p(b2.asks[j].price));
            }
        },
    }
}

} // verus!
