use trade::matching::trade_between;
use trade::order::{Order, OrderType, Trade};

fn buy(id: i32, quantity: u32, price: u32) -> Order {
    Order { id, order_type: OrderType::Buy, price, quantity }
}

fn sell(id: i32, quantity: u32, price: u32) -> Order {
    Order { id, order_type: OrderType::Sell, price, quantity }
}

fn trade(buy_id: i32, sell_id: i32, quantity_traded: u32, price: u32) -> Trade {
    Trade { buy_id, sell_id, quantity_traded, price }
}

#[test]
fn equal_quantities_fill_both() {
    let mut buys = vec![buy(1, 10, 100)];
    let mut sells = vec![sell(2, 10, 100)];
    let mut trades = Vec::new();
    assert!(trade_between(&mut buys, &mut sells, &mut trades));
    assert_eq!(trades, vec![trade(1, 2, 10, 100)]);
    assert_eq!(buys[0].quantity, 0);
    assert_eq!(sells[0].quantity, 0);
}

#[test]
fn smaller_buy_trades_at_sell_price() {
    let mut buys = vec![buy(1, 5, 100)];
    let mut sells = vec![sell(2, 10, 90)];
    let mut trades = Vec::new();
    assert!(trade_between(&mut buys, &mut sells, &mut trades));
    assert_eq!(trades, vec![trade(1, 2, 5, 90)]);
    assert_eq!(buys[0].quantity, 0);
    assert_eq!(sells[0].quantity, 5);
}

#[test]
fn sell_above_buy_does_not_cross() {
    let mut buys = vec![buy(1, 10, 50)];
    let mut sells = vec![sell(2, 10, 100)];
    let mut trades = Vec::new();
    assert!(!trade_between(&mut buys, &mut sells, &mut trades));
    assert!(trades.is_empty());
    assert_eq!(sells[0].quantity, 10);
    // The buy order is consumed by the pass even though it did not trade.
    assert_eq!(buys[0].quantity, 0);
}

#[test]
fn buy_remainder_is_discarded_after_a_pass() {
    let mut buys = vec![buy(1, 10, 100)];
    let mut sells = vec![sell(2, 4, 90), sell(3, 3, 95)];
    let mut trades = Vec::new();
    assert!(trade_between(&mut buys, &mut sells, &mut trades));
    assert_eq!(trades, vec![trade(1, 2, 4, 90), trade(1, 3, 3, 95)]);
    assert_eq!(sells[0].quantity, 0);
    assert_eq!(sells[1].quantity, 0);
    assert_eq!(buys[0].quantity, 0);
}

#[test]
fn empty_buy_side_changes_nothing() {
    let mut buys: Vec<Order> = Vec::new();
    let mut sells = vec![sell(2, 10, 100)];
    let mut trades = Vec::new();
    assert!(!trade_between(&mut buys, &mut sells, &mut trades));
    assert!(buys.is_empty());
    assert_eq!(sells, vec![sell(2, 10, 100)]);
    assert!(trades.is_empty());
}

#[test]
fn empty_sell_side_emits_nothing() {
    let mut buys = vec![buy(1, 0, 100)];
    let mut sells: Vec<Order> = Vec::new();
    let mut trades = Vec::new();
    assert!(!trade_between(&mut buys, &mut sells, &mut trades));
    assert_eq!(buys, vec![buy(1, 0, 100)]);
    assert!(sells.is_empty());
    assert!(trades.is_empty());
}

#[test]
fn open_buy_facing_empty_sell_side_is_kept() {
    let mut buys = vec![buy(1, 10, 100)];
    let mut sells: Vec<Order> = Vec::new();
    let mut trades = Vec::new();
    assert!(!trade_between(&mut buys, &mut sells, &mut trades));
    assert_eq!(buys, vec![buy(1, 10, 100)]);
    assert!(trades.is_empty());
}

#[test]
fn zero_quantity_orders_never_cross() {
    let mut buys = vec![buy(1, 0, 100), buy(3, 5, 100)];
    let mut sells = vec![sell(2, 0, 50), sell(4, 2, 60)];
    let mut trades = Vec::new();
    assert!(trade_between(&mut buys, &mut sells, &mut trades));
    assert_eq!(trades, vec![trade(3, 4, 2, 60)]);
    assert_eq!(sells[0].quantity, 0);
    assert_eq!(sells[1].quantity, 0);
}

#[test]
fn buys_are_served_in_insertion_order() {
    let mut buys = vec![buy(1, 3, 100), buy(2, 3, 100)];
    let mut sells = vec![sell(9, 4, 80)];
    let mut trades = Vec::new();
    assert!(trade_between(&mut buys, &mut sells, &mut trades));
    assert_eq!(trades, vec![trade(1, 9, 3, 80), trade(2, 9, 1, 80)]);
    assert_eq!(sells[0].quantity, 0);
    assert_eq!(buys, vec![buy(1, 0, 100), buy(2, 0, 100)]);
}

#[test]
fn trades_are_appended_to_the_sink() {
    let mut buys = vec![buy(5, 2, 10)];
    let mut sells = vec![sell(6, 2, 10)];
    let mut trades = vec![trade(0, 0, 1, 1)];
    assert!(trade_between(&mut buys, &mut sells, &mut trades));
    assert_eq!(trades, vec![trade(0, 0, 1, 1), trade(5, 6, 2, 10)]);
}

#[test]
fn quantities_never_grow_and_trades_stay_within_orders() {
    let before_buys = vec![buy(1, 7, 100), buy(2, 4, 95), buy(3, 9, 70)];
    let before_sells = vec![sell(4, 3, 60), sell(5, 5, 90), sell(6, 8, 99)];
    let mut buys = before_buys.clone();
    let mut sells = before_sells.clone();
    let mut trades = Vec::new();
    trade_between(&mut buys, &mut sells, &mut trades);
    for (a, b) in before_buys.iter().zip(buys.iter()) {
        assert_eq!(a.id, b.id);
        assert_eq!(a.price, b.price);
        assert!(b.quantity <= a.quantity);
    }
    for (a, b) in before_sells.iter().zip(sells.iter()) {
        assert_eq!(a.id, b.id);
        assert_eq!(a.price, b.price);
        assert!(b.quantity <= a.quantity);
    }
    assert!(!trades.is_empty());
    for t in &trades {
        let b = before_buys.iter().find(|o| o.id == t.buy_id).unwrap();
        let s = before_sells.iter().find(|o| o.id == t.sell_id).unwrap();
        assert_eq!(t.price, s.price);
        assert!(t.price <= b.price);
        assert!(t.quantity_traded > 0);
        assert!(t.quantity_traded <= b.quantity && t.quantity_traded <= s.quantity);
    }
}

#[test]
fn single_crossing_moves_twice_the_traded_quantity() {
    let mut buys = vec![buy(1, 4, 100)];
    let mut sells = vec![sell(2, 10, 100)];
    let mut trades = Vec::new();
    trade_between(&mut buys, &mut sells, &mut trades);
    let removed = (4 - buys[0].quantity) + (10 - sells[0].quantity);
    assert_eq!(removed, 2 * trades[0].quantity_traded);
    assert_eq!(sells[0].quantity, 10 - trades[0].quantity_traded);
}
