use crate::order::{Order, Trade};
use vstd::prelude::*;

verus! {

/// A sell order crosses a buy order when its price is at or below the buy
/// price and both still have quantity open.
pub open spec fn crosses(buy: Order, sell: Order) -> bool {
    sell.price <= buy.price && sell.quantity > 0 && buy.quantity > 0
}

/// The quantity that changes hands when two orders cross: the smaller of
/// the two open quantities.
pub open spec fn fill(buy: Order, sell: Order) -> u32 {
    if sell.quantity <= buy.quantity {
        sell.quantity
    } else {
        buy.quantity
    }
}

/// The trade recorded for a crossing; it executes at the resting sell price.
pub open spec fn trade_of(buy: Order, sell: Order) -> Trade {
    Trade { buy_id: buy.id, sell_id: sell.id, quantity_traded: fill(buy, sell), price: sell.price }
}

pub open spec fn with_quantity(o: Order, quantity: u32) -> Order {
    Order { quantity, ..o }
}

/// The buy order after a crossing: zero when it was the smaller side,
/// otherwise reduced by the sell quantity.
pub open spec fn buy_after(buy: Order, sell: Order) -> Order {
    if sell.quantity <= buy.quantity {
        with_quantity(buy, (buy.quantity - sell.quantity) as u32)
    } else {
        with_quantity(buy, 0)
    }
}

/// The sell order after a crossing: zero when it was the smaller (or equal)
/// side, otherwise reduced by the buy quantity.
pub open spec fn sell_after(buy: Order, sell: Order) -> Order {
    if sell.quantity <= buy.quantity {
        with_quantity(sell, 0)
    } else {
        with_quantity(sell, (sell.quantity - buy.quantity) as u32)
    }
}

/// Scans the sell side from index `j` on for one buy order; yields the buy
/// order as left, the sell side as left, and the trades in the order they
/// happen. The scan ends once the buy order has nothing left.
pub open spec fn scan(buy: Order, sells: Seq<Order>, j: nat) -> (Order, Seq<Order>, Seq<Trade>)
    decreases sells.len() - j,
{
    if j >= sells.len() || buy.quantity == 0 {
        (buy, sells, Seq::empty())
    } else if crosses(buy, sells[j as int]) {
        let sell = sells[j as int];
        let rest = scan(buy_after(buy, sell), sells.update(j as int, sell_after(buy, sell)), j + 1);
        (rest.0, rest.1, seq![trade_of(buy, sell)] + rest.2)
    } else {
        scan(buy, sells, j + 1)
    }
}

/// One matching pass from buy index `i` on: each buy order in turn is
/// scanned against the sell side and is then left with quantity zero,
/// whether or not it was filled.
pub open spec fn matching_pass(buys: Seq<Order>, sells: Seq<Order>, i: nat) -> (
    Seq<Order>,
    Seq<Order>,
    Seq<Trade>,
)
    decreases buys.len() - i,
{
    if i >= buys.len() {
        (buys, sells, Seq::empty())
    } else {
        let s = scan(buys[i as int], sells, 0);
        let rest = matching_pass(buys.update(i as int, with_quantity(s.0, 0)), s.1, i + 1);
        (rest.0, rest.1, s.2 + rest.2)
    }
}

pub open spec fn after_trades(
    done: Seq<Trade>,
    r: (Order, Seq<Order>, Seq<Trade>),
) -> (Order, Seq<Order>, Seq<Trade>) {
    (r.0, r.1, done + r.2)
}

pub open spec fn after_pass_trades(
    done: Seq<Trade>,
    r: (Seq<Order>, Seq<Order>, Seq<Trade>),
) -> (Seq<Order>, Seq<Order>, Seq<Trade>) {
    (r.0, r.1, done + r.2)
}

/// `after` holds the same orders as `before`, in the same places, with the
/// same ids, sides and prices, and no quantity larger than it was.
pub open spec fn kept_shape(before: Seq<Order>, after: Seq<Order>) -> bool {
    &&& after.len() == before.len()
    &&& forall|k: int|
        0 <= k < before.len() ==> {
            &&& #[trigger] after[k].id == before[k].id
            &&& after[k].order_type == before[k].order_type
            &&& after[k].price == before[k].price
            &&& after[k].quantity <= before[k].quantity
        }
}

/// A trade of `buy` against some order of `sells`: it executes at that sell
/// order's price, at or below the buy price, and moves a positive quantity
/// that neither order exceeds.
pub open spec fn backed_by(t: Trade, buy: Order, sells: Seq<Order>) -> bool {
    &&& t.buy_id == buy.id
    &&& t.price <= buy.price
    &&& 0 < t.quantity_traded <= buy.quantity
    &&& exists|c: int|
        0 <= c < sells.len() && #[trigger] sells[c].id == t.sell_id && sells[c].price == t.price
            && t.quantity_traded <= sells[c].quantity
}

/// A trade between some order of `buys` and some order of `sells`.
pub open spec fn trade_backed(t: Trade, buys: Seq<Order>, sells: Seq<Order>) -> bool {
    exists|a: int| 0 <= a < buys.len() && backed_by(t, #[trigger] buys[a], sells)
}

proof fn lemma_kept_shape_trans(a: Seq<Order>, b: Seq<Order>, c: Seq<Order>)
    requires
        kept_shape(a, b),
        kept_shape(b, c),
    ensures
        kept_shape(a, c),
{
    assert forall|k: int| 0 <= k < a.len() implies {
        &&& #[trigger] c[k].id == a[k].id
        &&& c[k].order_type == a[k].order_type
        &&& c[k].price == a[k].price
        &&& c[k].quantity <= a[k].quantity
    } by {
        assert(b[k].id == a[k].id);
        assert(c[k].id == b[k].id);
    }
}

proof fn lemma_backed_weaker(t: Trade, buy: Order, later: Seq<Order>, earlier: Seq<Order>)
    requires
        backed_by(t, buy, later),
        kept_shape(earlier, later),
    ensures
        backed_by(t, buy, earlier),
{
    let c = choose|c: int|
        0 <= c < later.len() && #[trigger] later[c].id == t.sell_id && later[c].price == t.price
            && t.quantity_traded <= later[c].quantity;
    assert(earlier[c].id == later[c].id);
}

proof fn lemma_scan_shape(buy: Order, sells: Seq<Order>, j: nat)
    ensures
        kept_shape(sells, scan(buy, sells, j).1),
        scan(buy, sells, j).0.id == buy.id,
        scan(buy, sells, j).0.order_type == buy.order_type,
        scan(buy, sells, j).0.price == buy.price,
        scan(buy, sells, j).0.quantity <= buy.quantity,
        forall|q: int|
            0 <= q < scan(buy, sells, j).2.len() ==> backed_by(
                #[trigger] scan(buy, sells, j).2[q],
                buy,
                sells,
            ),
    decreases sells.len() - j,
{
    if j >= sells.len() || buy.quantity == 0 {
        assert(kept_shape(sells, sells));
    } else if crosses(buy, sells[j as int]) {
        let sell = sells[j as int];
        let b2 = buy_after(buy, sell);
        let s2 = sells.update(j as int, sell_after(buy, sell));
        lemma_scan_shape(b2, s2, j + 1);
        assert(kept_shape(sells, s2));
        lemma_kept_shape_trans(sells, s2, scan(b2, s2, j + 1).1);
        let r = scan(buy, sells, j).2;
        assert forall|q: int| 0 <= q < r.len() implies backed_by(#[trigger] r[q], buy, sells) by {
            if q == 0 {
                assert(sells[j as int].id == r[q].sell_id);
            } else {
                assert(r[q] == scan(b2, s2, j + 1).2[q - 1]);
                lemma_backed_weaker(r[q], b2, s2, sells);
            }
        }
    } else {
        lemma_scan_shape(buy, sells, j + 1);
    }
}

/// Every order keeps its place, id, side and price through a pass, and no
/// quantity grows. Every trade of the pass is between an order of the buy
/// side and an order of the sell side, at that sell order's price, at or
/// below the buy price, for a positive quantity that exceeds neither order's
/// quantity.
pub proof fn lemma_pass_shape(buys: Seq<Order>, sells: Seq<Order>, i: nat)
    ensures
        kept_shape(buys, matching_pass(buys, sells, i).0),
        kept_shape(sells, matching_pass(buys, sells, i).1),
        forall|q: int|
            0 <= q < matching_pass(buys, sells, i).2.len() ==> trade_backed(
                #[trigger] matching_pass(buys, sells, i).2[q],
                buys,
                sells,
            ),
    decreases buys.len() - i,
{
    if i >= buys.len() {
        assert(kept_shape(buys, buys));
        assert(kept_shape(sells, sells));
    } else {
        let s = scan(buys[i as int], sells, 0);
        let b2 = buys.update(i as int, with_quantity(s.0, 0));
        lemma_scan_shape(buys[i as int], sells, 0);
        lemma_pass_shape(b2, s.1, i + 1);
        let rest = matching_pass(b2, s.1, i + 1);
        assert(kept_shape(buys, b2));
        lemma_kept_shape_trans(buys, b2, rest.0);
        lemma_kept_shape_trans(sells, s.1, rest.1);
        let r = matching_pass(buys, sells, i).2;
        assert(r == s.2 + rest.2);
        assert forall|q: int| 0 <= q < r.len() implies trade_backed(#[trigger] r[q], buys, sells) by {
            if q < s.2.len() {
                assert(r[q] == s.2[q]);
                assert(backed_by(r[q], buys[i as int], sells));
            } else {
                let t = rest.2[q - s.2.len()];
                assert(r[q] == t);
                assert(trade_backed(t, b2, s.1));
                let a = choose|a: int| 0 <= a < b2.len() && backed_by(t, #[trigger] b2[a], s.1);
                assert(a != i);
                lemma_backed_weaker(t, b2[a], s.1, sells);
                assert(buys[a] == b2[a]);
            }
        }
    }
}

/// One crossing moves the smaller open quantity at the sell order's price,
/// never below it and never above the buy price. The quantity removed from
/// the two orders together is twice the quantity traded. Both orders are
/// exhausted exactly when their quantities were equal; otherwise exactly one
/// of them drops to zero and the other is reduced by the quantity traded.
pub proof fn lemma_crossing(buy: Order, sell: Order)
    requires
        crosses(buy, sell),
    ensures
        trade_of(buy, sell).price == sell.price,
        trade_of(buy, sell).price <= buy.price,
        0 < trade_of(buy, sell).quantity_traded <= buy.quantity,
        trade_of(buy, sell).quantity_traded <= sell.quantity,
        (buy.quantity - buy_after(buy, sell).quantity) + (sell.quantity - sell_after(
            buy,
            sell,
        ).quantity) == 2 * trade_of(buy, sell).quantity_traded,
        (buy_after(buy, sell).quantity == 0 && sell_after(buy, sell).quantity == 0) <==> buy.quantity
            == sell.quantity,
        buy.quantity != sell.quantity ==> {
            ||| buy_after(buy, sell).quantity == 0 && sell_after(buy, sell).quantity
                == sell.quantity - trade_of(buy, sell).quantity_traded
            ||| sell_after(buy, sell).quantity == 0 && buy_after(buy, sell).quantity
                == buy.quantity - trade_of(buy, sell).quantity_traded
        },
        buy.quantity != sell.quantity ==> !(buy_after(buy, sell).quantity > 0 && sell_after(
            buy,
            sell,
        ).quantity > 0),
{
}

/// The effect of a pass on a book: nothing at all when either side is
/// empty, otherwise `matching_pass` from the first buy order.
pub open spec fn book_pass(buys: Seq<Order>, sells: Seq<Order>) -> (
    Seq<Order>,
    Seq<Order>,
    Seq<Trade>,
) {
    if buys.len() == 0 || sells.len() == 0 {
        (buys, sells, Seq::empty())
    } else {
        matching_pass(buys, sells, 0)
    }
}

/// Runs one matching pass over the book. Trades are appended to `trades`
/// as they happen; the result tells whether any trade happened. A book with
/// an empty side is left as it is. Orders are never removed here: callers
/// prune the zero-quantity ones afterwards.
pub fn trade_between(
    buy_list: &mut Vec<Order>,
    sell_list: &mut Vec<Order>,
    trades: &mut Vec<Trade>,
) -> (traded: bool)
    ensures
        final(buy_list)@ == book_pass(old(buy_list)@, old(sell_list)@).0,
        final(sell_list)@ == book_pass(old(buy_list)@, old(sell_list)@).1,
        final(trades)@ == old(trades)@ + book_pass(old(buy_list)@, old(sell_list)@).2,
        traded == (book_pass(old(buy_list)@, old(sell_list)@).2.len() > 0),
        old(buy_list)@.len() == 0 || old(sell_list)@.len() == 0 ==> !traded && final(buy_list)@
            == old(buy_list)@ && final(sell_list)@ == old(sell_list)@ && final(trades)@ == old(
            trades,
        )@,
        kept_shape(old(buy_list)@, final(buy_list)@),
        kept_shape(old(sell_list)@, final(sell_list)@),
        forall|k: int|
            old(trades)@.len() <= k < final(trades)@.len() ==> trade_backed(
                #[trigger] final(trades)@[k],
                old(buy_list)@,
                old(sell_list)@,
            ),
{
    if buy_list.len() == 0 || sell_list.len() == 0 {
        assert(kept_shape(buy_list@, buy_list@));
        assert(kept_shape(sell_list@, sell_list@));
        assert(trades@ =~= trades@ + Seq::<Trade>::empty());
        return false;
    }
    proof {
        lemma_pass_shape(buy_list@, sell_list@, 0);
    }
    let ghost buys0 = buy_list@;
    let ghost sells0 = sell_list@;
    let ghost trades0 = trades@;
    let ghost mut emitted: Seq<Trade> = Seq::empty();
    let mut config: bool = false;
    let n = buy_list.len();
    let mut i: usize = 0;
    while i < n
        invariant
            n == buy_list.len(),
            i <= n,
            trades@ == trades0 + emitted,
            config == (emitted.len() > 0),
            matching_pass(buys0, sells0, 0) == after_pass_trades(
                emitted,
                matching_pass(buy_list@, sell_list@, i as nat),
            ),
        decreases n - i,
    {
        let mut buy = buy_list[i];
        let ghost sells_i = sell_list@;
        let ghost mut found: Seq<Trade> = Seq::empty();
        let m = sell_list.len();
        let mut j: usize = 0;
        proof {
            let r = scan(buy, sell_list@, 0);
            assert(Seq::<Trade>::empty() + r.2 =~= r.2);
            assert(trades@ =~= trades0 + emitted + found);
        }
        while j < m
            invariant
                m == sell_list.len(),
                n == buy_list.len(),
                i < n,
                j <= m,
                trades@ == trades0 + emitted + found,
                config == (emitted.len() + found.len() > 0),
                scan(buy_list@[i as int], sells_i, 0) == after_trades(
                    found,
                    scan(buy, sell_list@, j as nat),
                ),
            ensures
                trades@ == trades0 + emitted + found,
                config == (emitted.len() + found.len() > 0),
                scan(buy_list@[i as int], sells_i, 0) == (buy, sell_list@, found),
            decreases m - j,
        {
            let sell = sell_list[j];
            if sell.price <= buy.price && sell.quantity > 0 && buy.quantity > 0 {
                let quant = if sell.quantity <= buy.quantity {
                    sell.quantity
                } else {
                    buy.quantity
                };
                let trade_out = Trade {
                    buy_id: buy.id,
                    sell_id: sell.id,
                    quantity_traded: quant,
                    price: sell.price,
                };
                let ghost before = (buy, sell_list@);
                let mut sold = sell;
                if sell.quantity <= buy.quantity {
                    buy.quantity = buy.quantity - sell.quantity;
                    sold.quantity = 0;
                } else {
                    sold.quantity = sell.quantity - buy.quantity;
                    buy.quantity = 0;
                }
                sell_list.set(j, sold);
                trades.push(trade_out);
                proof {
                    assert(trade_out == trade_of(before.0, sell));
                    assert(buy == buy_after(before.0, sell));
                    assert(sold == sell_after(before.0, sell));
                    let r = scan(buy, sell_list@, (j + 1) as nat);
                    assert(scan(before.0, before.1, j as nat) == (r.0, r.1, seq![trade_out] + r.2));
                    assert(found + (seq![trade_out] + r.2) =~= found.push(trade_out) + r.2);
                    found = found.push(trade_out);
                    assert(trades@ =~= trades0 + emitted + found);
                    if buy.quantity == 0 {
                        assert(found + Seq::<Trade>::empty() =~= found);
                    }
                }
                config = true;
                if buy.quantity == 0 {
                    break;
                }
            }
            j = j + 1;
        }
        proof {
            let bl = buy_list@;
            let s = scan(bl[i as int], sells_i, 0);
            assert(matching_pass(bl, sells_i, i as nat) == after_pass_trades(
                s.2,
                matching_pass(bl.update(i as int, with_quantity(s.0, 0)), s.1, (i + 1) as nat),
            ));
        }
        buy.quantity = 0;
        buy_list.set(i, buy);
        proof {
            assert(emitted + found + matching_pass(buy_list@, sell_list@, (i + 1) as nat).2
                =~= emitted + (found + matching_pass(buy_list@, sell_list@, (i + 1) as nat).2));
            emitted = emitted + found;
        }
        i = i + 1;
    }
    proof {
        let mp = matching_pass(buys0, sells0, 0);
        assert(emitted =~= mp.2);
        assert forall|k: int| trades0.len() <= k < trades@.len() implies trade_backed(
            #[trigger] trades@[k],
            buys0,
            sells0,
        ) by {
            assert(trades@[k] == mp.2[k - trades0.len()]);
        }
    }
    config
}

} // verus!
