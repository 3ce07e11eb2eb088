//! What a single match and a placement owe the orders involved, stated on
//! the amounts themselves: fills are at the resting order's price and never
//! beyond the taker's limit, resting orders that did not trade stay where
//! they were, and a placed order is recorded with the status its executed
//! quantity calls for.
use crate::book_laws::law_matching;
use crate::decimal::Dec;
use crate::orderbook::{
    is_open, match_levels, match_maker, open_orders, run_makers, spec_add_order, spec_match,
    BookView, Fill, LevelView, Order, OrderStatus, Side,
};
use vstd::prelude::*;

verus! {

/// An open order of a sequence is among its open orders.
proof fn lemma_open_orders_contains(s: Seq<Order>, k: int)
    requires
        0 <= k < s.len(),
        s[k].filled_quantity.units() < s[k].quantity.units(),
    ensures
        open_orders(s).contains(s[k]),
    decreases s.len(),
{
    let d = s.drop_last();
    if k < s.len() - 1 {
        assert(d[k] == s[k]);
        lemma_open_orders_contains(d, k);
        let w = choose|x: int| 0 <= x < open_orders(d).len() && open_orders(d)[x] == s[k];
        if is_open(s.last()) {
            assert(open_orders(s)[w] == open_orders(d).push(s.last())[w]);
        }
    } else {
        assert(is_open(s.last()));
        assert(open_orders(s) == open_orders(d).push(s.last()));
        assert(open_orders(s)[open_orders(d).len() as int] == s[k]);
    }
}

/// Meeting the resting orders of one level: the fills it appends each name
/// one of those orders and are at its price, and an order that no appended
/// fill names comes out unchanged.
proof fn lemma_run_makers_origin(
    side: Side,
    taker: Order,
    f: Seq<Fill>,
    e: Dec,
    t: u64,
    makers: Seq<Order>,
)
    requires
        run_makers(side, taker, f, e, t, makers) is Some,
    ensures
        ({
            let r = run_makers(side, taker, f, e, t, makers)->Some_0;
            &&& f.len() <= r.0.len()
            &&& r.3.len() == makers.len()
            &&& forall|j: int| 0 <= j < f.len() ==> #[trigger] r.0[j] == f[j]
            &&& forall|j: int|
                #![trigger r.0[j]]
                f.len() <= j < r.0.len() ==> exists|k: int|
                    #![trigger makers[k]]
                    0 <= k < makers.len() && r.0[j].maker_order_id
                        == makers[k].order_id && r.0[j].price == makers[k].price
            &&& forall|k: int|
                0 <= k < makers.len() ==> (#[trigger] r.3[k]) == makers[k] || exists|j: int|
                    f.len() <= j < r.0.len() && r.0[j].maker_order_id == makers[k].order_id
        }),
    decreases makers.len(),
{
    let r = run_makers(side, taker, f, e, t, makers)->Some_0;
    if makers.len() > 0 {
        let d = makers.drop_last();
        let acc = run_makers(side, taker, f, e, t, d)->Some_0;
        lemma_run_makers_origin(side, taker, f, e, t, d);
        let last = makers.last();
        let st = match_maker(side, taker, acc.0, acc.1, acc.2, last)->Some_0;
        assert(r == (st.0, st.1, st.2, acc.3.push(st.3)));
        let moved = st.0.len() > acc.0.len();
        if moved {
            assert(st.0 == acc.0.push(st.0.last()));
            assert(st.0.last().maker_order_id == last.order_id);
            assert(st.0.last().price == last.price);
        } else {
            assert(st.0 == acc.0);
            assert(st.3 == last);
        }
        assert forall|j: int| 0 <= j < f.len() implies #[trigger] r.0[j] == f[j] by {
            assert(acc.0[j] == f[j]);
            if moved {
                assert(r.0[j] == acc.0[j]);
            }
        }
        assert forall|j: int| #![trigger r.0[j]] f.len() <= j < r.0.len() implies exists|k: int|
            #![trigger makers[k]]
            0 <= k < makers.len() && r.0[j].maker_order_id == makers[k].order_id
                && r.0[j].price == makers[k].price by {
            if j < acc.0.len() {
                if moved {
                    assert(r.0[j] == acc.0[j]);
                }
                let k = choose|k: int|
                    0 <= k < d.len() && acc.0[j].maker_order_id == (#[trigger] d[k]).order_id && acc.0[j].maker_order_id == d[k].order_id
                        && acc.0[j].price == d[k].price;
                assert(d[k] == makers[k]);
            } else {
                assert(moved);
                assert(r.0[j] == st.0.last());
                assert(makers[makers.len() - 1] == last);
            }
        }
        assert forall|k: int| 0 <= k < makers.len() implies (#[trigger] r.3[k]) == makers[k]
            || exists|j: int| f.len() <= j < r.0.len() && r.0[j].maker_order_id == makers[k].order_id by {
            if k < d.len() {
                assert(r.3[k] == acc.3[k]);
                assert(d[k] == makers[k]);
                if acc.3[k] != d[k] {
                    let j = choose|j: int|
                        f.len() <= j < acc.0.len() && acc.0[j].maker_order_id == d[k].order_id;
                    assert(r.0[j] == acc.0[j]);
                    assert(f.len() <= j < r.0.len() && r.0[j].maker_order_id == makers[k].order_id);
                }
            } else {
                assert(r.3[k] == st.3);
                assert(makers[k] == last);
                if moved {
                    let j = acc.0.len() as int;
                    assert(r.0[j] == st.0.last());
                    assert(f.len() <= j < r.0.len() && r.0[j].maker_order_id == makers[k].order_id);
                } else {
                    assert(st.3 == last);
                }
            }
        }
    }
}

/// Walking the levels of a book side: the fills appended each name a resting
/// order of the levels and are at its price, and an open resting order that
/// no appended fill names is still in its level afterwards.
proof fn lemma_match_levels_origin(
    side: Side,
    taker: Order,
    f: Seq<Fill>,
    e: Dec,
    t: u64,
    levels: Seq<LevelView>,
)
    requires
        match_levels(side, taker, f, e, t, levels) is Some,
    ensures
        ({
            let r = match_levels(side, taker, f, e, t, levels)->Some_0;
            &&& f.len() <= r.0.len()
            &&& r.3.len() == levels.len()
            &&& forall|j: int| 0 <= j < f.len() ==> #[trigger] r.0[j] == f[j]
            &&& forall|j: int|
                #![trigger r.0[j]]
                f.len() <= j < r.0.len() ==> exists|i: int, k: int|
                    #![trigger levels[i].orders[k]]
                    0 <= i < levels.len() && 0 <= k < levels[i].orders.len() && r.0[j].maker_order_id
                        == levels[i].orders[k].order_id && r.0[j].price == levels[i].orders[k].price
            &&& forall|i: int, k: int| #![trigger r.3[i], levels[i].orders[k]]
                0 <= i < levels.len() && 0 <= k < levels[i].orders.len()
                    && levels[i].orders[k].filled_quantity.units() < levels[i].orders[k].quantity.units()
                    && (forall|j: int|
                    f.len() <= j < r.0.len() ==> r.0[j].maker_order_id != levels[i].orders[k].order_id)
                    ==> r.3[i].orders.contains(levels[i].orders[k])
        }),
    decreases levels.len(),
{
    let r = match_levels(side, taker, f, e, t, levels)->Some_0;
    if levels.len() == 0 || r == (f, e, t, levels) {
        assert forall|i: int, k: int| #![trigger r.3[i], levels[i].orders[k]]
            0 <= i < levels.len() && 0 <= k < levels[i].orders.len()
                && levels[i].orders[k].filled_quantity.units() < levels[i].orders[k].quantity.units()
                && (forall|j: int|
                f.len() <= j < r.0.len() ==> r.0[j].maker_order_id != levels[i].orders[k].order_id)
                implies r.3[i].orders.contains(levels[i].orders[k]) by {
            assert(r.3[i].orders[k] == levels[i].orders[k]);
        }
    } else {
        let m = run_makers(side, taker, f, e, t, levels[0].orders)->Some_0;
        lemma_run_makers_origin(side, taker, f, e, t, levels[0].orders);
        let rest_in = levels.drop_first();
        let rest = match_levels(side, taker, m.0, m.1, m.2, rest_in)->Some_0;
        lemma_match_levels_origin(side, taker, m.0, m.1, m.2, rest_in);
        let first = LevelView { price: levels[0].price, orders: open_orders(m.3) };
        assert(r == (rest.0, rest.1, rest.2, seq![first] + rest.3));
        assert forall|j: int| 0 <= j < f.len() implies #[trigger] r.0[j] == f[j] by {
            assert(rest.0[j] == m.0[j]);
            assert(m.0[j] == f[j]);
        }
        assert forall|j: int| #![trigger r.0[j]] f.len() <= j < r.0.len() implies exists|i: int, k: int|
            #![trigger levels[i].orders[k]]
            0 <= i < levels.len() && 0 <= k < levels[i].orders.len() && r.0[j].maker_order_id
                == levels[i].orders[k].order_id && r.0[j].price == levels[i].orders[k].price by {
            if j < m.0.len() {
                assert(rest.0[j] == m.0[j]);
                let k = choose|k: int|
                    0 <= k < levels[0].orders.len() && m.0[j].maker_order_id == (#[trigger] levels[0].orders[k]).order_id && m.0[j].maker_order_id
                        == levels[0].orders[k].order_id && m.0[j].price == levels[0].orders[k].price;
                assert(0 <= 0 < levels.len() && 0 <= k < levels[0].orders.len());
            } else {
                let (i, k) = choose|i: int, k: int|
                    0 <= i < rest_in.len() && 0 <= k < rest_in[i].orders.len() && rest.0[j].maker_order_id == (#[trigger] rest_in[i].orders[k]).order_id && rest.0[j].maker_order_id
                        == rest_in[i].orders[k].order_id && rest.0[j].price == rest_in[i].orders[k].price;
                assert(rest_in[i] == levels[i + 1]);
            }
        }
        assert forall|i: int, k: int| #![trigger r.3[i], levels[i].orders[k]]
            0 <= i < levels.len() && 0 <= k < levels[i].orders.len()
                && levels[i].orders[k].filled_quantity.units() < levels[i].orders[k].quantity.units()
                && (forall|j: int|
                f.len() <= j < r.0.len() ==> r.0[j].maker_order_id != levels[i].orders[k].order_id)
                implies r.3[i].orders.contains(levels[i].orders[k]) by {
            if i == 0 {
                assert(r.3[0] == first);
                if m.3[k] != levels[0].orders[k] {
                    let j = choose|j: int|
                        f.len() <= j < m.0.len() && m.0[j].maker_order_id == levels[0].orders[k].order_id;
                    assert(rest.0[j] == m.0[j]);
                    assert(r.0[j].maker_order_id != levels[0].orders[k].order_id);
                }
                lemma_open_orders_contains(m.3, k);
            } else {
                assert(r.3[i] == rest.3[i - 1]);
                assert(rest_in[i - 1] == levels[i]);
                assert forall|j: int| m.0.len() <= j < rest.0.len() implies rest.0[j].maker_order_id
                    != rest_in[i - 1].orders[k].order_id by {
                    assert(r.0[j] == rest.0[j]);
                }
            }
        }
    }
}

/// Law (fill prices): every fill of a match is at the price of a resting
/// order of the book side that it names, and never beyond the taker's
/// limit: an ask sells at no less than its limit, a bid pays no more.
pub proof fn law_fill_prices(side: Side, taker: Order, tid: u64, levels: Seq<LevelView>)
    requires
        spec_match(side, taker, tid, levels) is Some,
    ensures
        ({
            let fills = spec_match(side, taker, tid, levels)->Some_0.0;
            forall|k: int|
                0 <= k < fills.len() ==> {
                    &&& side == Side::Ask ==> taker.price.units() <= (#[trigger] fills[k]).price.units()
                    &&& side == Side::Bid ==> fills[k].price.units() <= taker.price.units()
                    &&& exists|i: int, j: int|
                        0 <= i < levels.len() && 0 <= j < levels[i].orders.len()
                            && fills[k].maker_order_id == levels[i].orders[j].order_id
                            && fills[k].price == levels[i].orders[j].price
                }
        }),
{
    law_matching(side, taker, tid, levels);
    lemma_match_levels_origin(side, taker, Seq::empty(), Dec::spec_zero(), tid, levels);
}

/// Law (no trade beyond the limit): an ask whose limit is above every
/// resting bid price, or a bid whose limit is below every resting ask
/// price, trades nothing, and the resting side stays as it was.
pub proof fn law_no_trade_beyond_limit(side: Side, taker: Order, tid: u64, levels: Seq<LevelView>)
    requires
        forall|i: int|
            0 <= i < levels.len() ==> (side == Side::Ask ==> (#[trigger] levels[i]).price.units()
                < taker.price.units()) && (side == Side::Bid ==> taker.price.units()
                < levels[i].price.units()),
    ensures
        spec_match(side, taker, tid, levels) == Some((Seq::<Fill>::empty(), Dec::spec_zero(), tid, levels)),
{
    if levels.len() > 0 {
        assert(levels[0] == levels[0]);
    }
}

/// Law (untraded orders stay): after a match, every resting order that was
/// open (filled below its quantity) and that no fill names is still in its
/// level.
pub proof fn law_untraded_orders_stay(side: Side, taker: Order, tid: u64, levels: Seq<LevelView>)
    requires
        spec_match(side, taker, tid, levels) is Some,
    ensures
        ({
            let r = spec_match(side, taker, tid, levels)->Some_0;
            &&& r.3.len() == levels.len()
            &&& forall|i: int, k: int| #![trigger r.3[i], levels[i].orders[k]]
                0 <= i < levels.len() && 0 <= k < levels[i].orders.len()
                    && levels[i].orders[k].filled_quantity.units() < levels[i].orders[k].quantity.units()
                    && (forall|j: int| 0 <= j < r.0.len() ==> r.0[j].maker_order_id != levels[i].orders[k].order_id)
                    ==> r.3[i].orders.contains(levels[i].orders[k])
        }),
{
    lemma_match_levels_origin(side, taker, Seq::empty(), Dec::spec_zero(), tid, levels);
}

/// Law (status of a placed order): the order is recorded with its executed
/// quantity as its filled quantity, and with status `Filled` where that is
/// its whole quantity, `PartiallyFilled` where some but not all of it
/// traded, and `Pending` where nothing did, on either side.
pub proof fn law_placement_status(b: BookView, order: Order, ts: i64)
    requires
        spec_add_order(b, order, ts) is Some,
    ensures
        ({
            let (b2, fills, executed) = spec_add_order(b, order, ts)->Some_0;
            &&& b2.orders.contains_key(order.order_id)
            &&& b2.orders[order.order_id].filled_quantity == executed
            &&& b2.orders[order.order_id].status == (if executed.units() == order.quantity.units() {
                OrderStatus::Filled
            } else if 0 < executed.units() {
                OrderStatus::PartiallyFilled
            } else {
                OrderStatus::Pending
            })
        }),
{
}

} // verus!
