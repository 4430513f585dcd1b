use trade::book::{insert_sell, prune, submit, Prune, Submission};
use trade::input::{fault_of, input_check, input_fault, InputFault};
use trade::order::{Order, OrderType, Trade};
use trade::text::{ascii_lowercase, trimmer};

fn line(s: &str) -> String {
    s.to_string()
}

#[test]
fn new_reads_a_buy_line() {
    let o = Order::new(&line("12: buy 10 BTC @ 250")).unwrap();
    assert_eq!(o, Order { id: 12, order_type: OrderType::Buy, price: 250, quantity: 10 });
}

#[test]
fn new_reads_side_in_any_case() {
    let o = Order::new(&line("3. SeLL 4 BTC @ 7")).unwrap();
    assert_eq!(o.order_type, OrderType::Sell);
    assert_eq!(o.id, 3);
    assert!(Order::new(&line("3: hold 4 BTC @ 7")).is_none());
}

#[test]
fn new_reads_negative_and_extreme_ids() {
    assert_eq!(Order::new(&line("-2147483648: buy 1 BTC @ 1")).unwrap().id, i32::MIN);
    assert_eq!(Order::new(&line("+2147483647: buy 1 BTC @ 1")).unwrap().id, i32::MAX);
    assert!(Order::new(&line("2147483648: buy 1 BTC @ 1")).is_none());
}

#[test]
fn new_counts_unreadable_quantity_as_zero() {
    let o = Order::new(&line("1: buy ten BTC @ 7")).unwrap();
    assert_eq!(o.quantity, 0);
    assert_eq!(o.price, 7);
    assert!(Order::new(&line("1: buy 10 BTC @ 4294967296")).is_none());
    assert!(Order::new(&line("1: buy 10 btc @ x usd")).is_none());
    let o = Order::new(&line("1: buy +5 BTC @ 4294967295")).unwrap();
    assert_eq!(o.quantity, 5);
    assert_eq!(o.price, u32::MAX);
}

#[test]
fn new_refuses_lines_it_cannot_read() {
    assert!(Order::new(&line("1 buy 10 BTC @ 100")).is_none());
    assert!(Order::new(&line("x1: buy 10 BTC @ 100")).is_none());
    assert!(Order::new(&line(": buy 10 BTC @ 100")).is_none());
    assert!(Order::new(&line("1: buy 10 BTC @")).is_none());
    assert!(Order::new(&line("")).is_none());
}

#[test]
fn out_writes_price_then_quantity() {
    let o = Order { id: 7, order_type: OrderType::Buy, price: 100, quantity: 5 };
    assert_eq!(o.out(), "7: Buy 100 BTC @ 5");
    let o = Order { id: -30, order_type: OrderType::Sell, price: 0, quantity: 4294967295 };
    assert_eq!(o.out(), "-30: Sell 0 BTC @ 4294967295");
    let o = Order { id: 1, order_type: OrderType::Null, price: 1, quantity: 1 };
    assert_eq!(o.out(), "-1");
}

#[test]
fn trimmer_strips_one_line_ending() {
    let mut s = line("1: buy 1 BTC @ 1\r\n");
    assert_eq!(trimmer(&mut s), "1: buy 1 BTC @ 1");
    assert_eq!(s, "1: buy 1 BTC @ 1");
    let mut s = line("abc\n");
    assert_eq!(trimmer(&mut s), "abc");
    let mut s = line("abc\r");
    assert_eq!(trimmer(&mut s), "abc\r");
    let mut s = line("abc\n\n");
    assert_eq!(trimmer(&mut s), "abc\n");
    let mut s = line("");
    assert_eq!(trimmer(&mut s), "");
}

#[test]
fn lowercase_touches_ascii_letters_only() {
    assert_eq!(ascii_lowercase(&line("1: BUY 2 BTC @ 3 É")), "1: buy 2 btc @ 3 É");
}

#[test]
fn input_check_accepts_a_well_formed_line() {
    assert!(input_check(&line("1: buy 10 btc @ 100 usd")));
    assert!(input_check(&line("1. sell 10 btc @ 100 usd")));
    assert!(!input_check(&line("17 sell 10 btc @ 100 usd")));
    assert!(!input_check(&line(": buy 10 btc @ 100 usd")));
    assert!(!input_check(&line("1: buy 10 btc @ 4294967296 usd")));
    assert!(!input_check(&line("99999999999: buy 10 btc @ 1 usd")));
}

#[test]
fn input_fault_names_each_problem() {
    match input_fault(&line("1: buy 10 btc @")) {
        Some(InputFault::WordCount(n)) => assert_eq!(n, 5),
        other => panic!("unexpected {:?}", other),
    }
    match input_fault(&line("1a: buy 10 btc @ 100 usd")) {
        Some(InputFault::IdNotNumeric(t)) => assert_eq!(t, "1a"),
        other => panic!("unexpected {:?}", other),
    }
    assert!(matches!(input_fault(&line("1: BUY 10 btc @ 100 usd")), Some(InputFault::NoSide)));
    match input_fault(&line("1: sell 10 btc @ 1x0 usd")) {
        Some(InputFault::AmountNotNumeric(t)) => assert_eq!(t, "1x0"),
        other => panic!("unexpected {:?}", other),
    }
    assert!(input_fault(&line("1: buy 10 btc @ 100 usd")).is_none());
    assert!(!input_check(&line("1:  buy 10 btc @ 100 usd")));
}

#[test]
fn prune_drops_exhausted_orders() {
    let a = Order { id: 1, order_type: OrderType::Buy, price: 5, quantity: 0 };
    let b = Order { id: 2, order_type: OrderType::Buy, price: 6, quantity: 3 };
    let mut v = vec![a, b, a];
    prune(&mut v);
    assert_eq!(v, vec![b]);
}

#[test]
fn insert_sell_keeps_price_order_and_arrival_order() {
    let s = |id: i32, price: u32| Order { id, order_type: OrderType::Sell, price, quantity: 1 };
    let mut v = vec![s(1, 10), s(2, 20), s(3, 30)];
    insert_sell(&mut v, s(4, 20));
    assert_eq!(v.iter().map(|o| o.id).collect::<Vec<_>>(), vec![1, 2, 4, 3]);
    insert_sell(&mut v, s(5, 5));
    insert_sell(&mut v, s(6, 99));
    assert_eq!(v.iter().map(|o| o.id).collect::<Vec<_>>(), vec![5, 1, 2, 4, 3, 6]);
}

#[test]
fn submit_runs_a_session() {
    let mut buys = Vec::new();
    let mut sells = Vec::new();
    let mut trades: Vec<Trade> = Vec::new();
    let r = submit(&mut buys, &mut sells, &line("1: sell 5 btc @ 100 usd"), Prune::BuySide, &mut trades);
    assert!(matches!(r, Submission::Placed(false)));
    let r = submit(&mut buys, &mut sells, &line("2: sell 5 btc @ 90 usd"), Prune::BuySide, &mut trades);
    assert!(matches!(r, Submission::Placed(false)));
    assert_eq!(sells[0].id, 2);
    let r = submit(&mut buys, &mut sells, &line("3: buy 7 btc @ 100 usd"), Prune::BuySide, &mut trades);
    assert!(matches!(r, Submission::Placed(true)));
    assert_eq!(
        trades,
        vec![
            Trade { buy_id: 3, sell_id: 2, quantity_traded: 5, price: 90 },
            Trade { buy_id: 3, sell_id: 1, quantity_traded: 2, price: 100 },
        ]
    );
    assert!(buys.is_empty());
    assert_eq!(sells.len(), 2);
    assert_eq!(sells[1].quantity, 3);
}

#[test]
fn submit_refuses_bad_lines_without_touching_the_book() {
    let mut buys = Vec::new();
    let mut sells = Vec::new();
    let mut trades: Vec<Trade> = Vec::new();
    let r = submit(&mut buys, &mut sells, &line("1: buy 5 btc"), Prune::SellSide, &mut trades);
    assert!(matches!(r, Submission::Rejected(InputFault::WordCount(4))));
    let r = submit(&mut buys, &mut sells, &line("1 buy 5 btc @ 9 usd"), Prune::SellSide, &mut trades);
    assert!(matches!(r, Submission::Rejected(InputFault::IdNotNumeric(_))));
    let r = submit(&mut buys, &mut sells, &line("1: sell 5 btc @ 4294967296 usd"), Prune::SellSide, &mut trades);
    assert!(matches!(r, Submission::Rejected(InputFault::AmountNotNumeric(_))));
    assert!(buys.is_empty() && sells.is_empty() && trades.is_empty());
}

#[test]
fn submit_prunes_the_chosen_side() {
    let mut buys = Vec::new();
    let mut sells = Vec::new();
    let mut trades: Vec<Trade> = Vec::new();
    submit(&mut buys, &mut sells, &line("1: sell 5 btc @ 10 usd"), Prune::SellSide, &mut trades);
    let r = submit(&mut buys, &mut sells, &line("2: buy 5 btc @ 10 usd"), Prune::SellSide, &mut trades);
    assert!(matches!(r, Submission::Placed(true)));
    assert!(sells.is_empty());
    assert_eq!(buys.len(), 1);
    assert_eq!(buys[0].quantity, 0);
}

#[test]
fn fault_of_follows_the_numeric_answers() {
    let words: Vec<Vec<char>> =
        ["7:", "sell", "1", "btc", "@", "2", "usd"].iter().map(|w| w.chars().collect()).collect();
    assert!(fault_of(&words, true, true).is_none());
    match fault_of(&words, false, true) {
        Some(InputFault::IdNotNumeric(t)) => assert_eq!(t, "7"),
        other => panic!("unexpected {:?}", other),
    }
    match fault_of(&words, true, false) {
        Some(InputFault::AmountNotNumeric(t)) => assert_eq!(t, "2"),
        other => panic!("unexpected {:?}", other),
    }
}

#[test]
fn unicode_digits_are_refused() {
    let t = line("\u{0663}: buy 1 btc @ 2 usd");
    assert!(!input_check(&t));
    let mut buys = Vec::new();
    let mut sells = Vec::new();
    let mut trades: Vec<Trade> = Vec::new();
    let r = submit(&mut buys, &mut sells, &t, Prune::BuySide, &mut trades);
    assert!(matches!(r, Submission::Rejected(InputFault::IdNotNumeric(_))));
    assert!(buys.is_empty());
}
