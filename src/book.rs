use crate::input::{input_fault, line_ok, InputFault};
use crate::matching::{book_pass, kept_shape, matching_pass, trade_between};
use crate::order::{order_of_line, Order, Trade};
use crate::text::{chars_of, names_word, split_spaces};
use vstd::prelude::*;

verus! {

/// Which side of the book loses its exhausted orders after a pass that
/// traded.
#[derive(Clone, Copy, Debug, PartialEq, Eq, Structural)]
pub enum Prune {
    BuySide,
    SellSide,
}

/// What became of one order line.
#[derive(Debug, Clone)]
pub enum Submission {
    /// The line was refused; the book is untouched.
    Rejected(InputFault),
    /// The order joined the book and a pass ran where both sides were
    /// open; holds whether any trade happened.
    Placed(bool),
}

/// Sell orders in ascending order of price.
pub open spec fn sorted_by_price(s: Seq<Order>) -> bool {
    forall|a: int, b: int| 0 <= a < b < s.len() ==> #[trigger] s[a].price <= #[trigger] s[b].price
}

/// The first index from `k` on whose price is above `price`, or the length.
pub open spec fn first_above(s: Seq<Order>, price: u32, k: nat) -> nat
    decreases s.len() - k,
{
    if k >= s.len() || s[k as int].price > price {
        k
    } else {
        first_above(s, price, k + 1)
    }
}

/// `o` placed after every order of no higher price: where a stable sort by
/// price puts an order appended to a sorted side.
pub open spec fn insert_by_price(s: Seq<Order>, o: Order) -> Seq<Order> {
    s.insert(first_above(s, o.price, 0) as int, o)
}

/// The orders that still have quantity open, in their order.
pub open spec fn open_orders(s: Seq<Order>) -> Seq<Order> {
    s.filter(|o: Order| o.quantity != 0)
}

pub open spec fn has_text(s: Seq<char>, w: Seq<char>) -> bool {
    exists|i: int| 0 <= i && i + w.len() <= s.len() && #[trigger] s.subrange(i, i + w.len()) == w
}

/// The book after an accepted order `o` from line `t` is placed: on the buy
/// side when the line mentions `buy`, else on the sell side when it
/// mentions `sell`.
pub open spec fn placed(buys: Seq<Order>, sells: Seq<Order>, t: Seq<char>, o: Order) -> (
    Seq<Order>,
    Seq<Order>,
) {
    if has_text(t, seq!['b', 'u', 'y']) {
        (buys.push(o), sells)
    } else if has_text(t, seq!['s', 'e', 'l', 'l']) {
        (buys, insert_by_price(sells, o))
    } else {
        (buys, sells)
    }
}

/// The book and the trades after a pass where both sides are open, with
/// the exhausted orders of the `prune` side removed when something traded.
pub open spec fn settled(buys: Seq<Order>, sells: Seq<Order>, prune: Prune) -> (
    Seq<Order>,
    Seq<Order>,
    Seq<Trade>,
) {
    if buys.len() > 0 && sells.len() > 0 {
        let r = book_pass(buys, sells);
        if r.2.len() > 0 {
            match prune {
                Prune::BuySide => (open_orders(r.0), r.1, r.2),
                Prune::SellSide => (r.0, open_orders(r.1), r.2),
            }
        } else {
            r
        }
    } else {
        (buys, sells, Seq::empty())
    }
}

proof fn lemma_first_above(s: Seq<Order>, price: u32, k: nat)
    requires
        k <= s.len(),
    ensures
        k <= first_above(s, price, k) <= s.len(),
        forall|q: int| k <= q < first_above(s, price, k) ==> #[trigger] s[q].price <= price,
        first_above(s, price, k) < s.len() ==> s[first_above(s, price, k) as int].price > price,
    decreases s.len() - k,
{
    if k < s.len() && s[k as int].price <= price {
        lemma_first_above(s, price, k + 1);
    }
}

/// Placing an order by price keeps a sorted side sorted.
pub proof fn lemma_insert_keeps_sorted(s: Seq<Order>, o: Order)
    requires
        sorted_by_price(s),
    ensures
        sorted_by_price(insert_by_price(s, o)),
        insert_by_price(s, o).len() == s.len() + 1,
{
    let p = first_above(s, o.price, 0);
    lemma_first_above(s, o.price, 0);
    let r = insert_by_price(s, o);
    assert forall|a: int, b: int| 0 <= a < b < r.len() implies #[trigger] r[a].price
        <= #[trigger] r[b].price by {
        if b < p {
        } else if b == p {
            assert(r[a] == s[a]);
        } else if a < p {
            assert(r[b] == s[b - 1]);
            assert(s[p as int].price <= s[b - 1].price);
        } else if a == p {
            assert(r[b] == s[b - 1]);
            assert(s[p as int].price <= s[b - 1].price);
        } else {
            assert(r[a] == s[a - 1]);
            assert(r[b] == s[b - 1]);
        }
    }
}

/// A pass keeps a sorted sell side sorted, and so does pruning it.
pub proof fn lemma_settle_keeps_sorted(buys: Seq<Order>, sells: Seq<Order>, prune: Prune)
    requires
        sorted_by_price(sells),
    ensures
        sorted_by_price(settled(buys, sells, prune).1),
{
    if buys.len() > 0 && sells.len() > 0 {
        crate::matching::lemma_pass_shape(buys, sells, 0);
        let r = matching_pass(buys, sells, 0);
        assert(kept_shape(sells, r.1));
        assert forall|a: int, b: int| 0 <= a < b < r.1.len() implies #[trigger] r.1[a].price
            <= #[trigger] r.1[b].price by {
            assert(r.1[a].id == sells[a].id);
            assert(r.1[b].id == sells[b].id);
        }
        if r.2.len() > 0 && prune == Prune::SellSide {
            lemma_open_orders_sorted(r.1);
        }
    }
}

proof fn lemma_open_orders_sorted(s: Seq<Order>)
    requires
        sorted_by_price(s),
    ensures
        sorted_by_price(open_orders(s)),
        forall|k: int|
            0 <= k < open_orders(s).len() ==> exists|q: int|
                0 <= q < s.len() && s[q] == #[trigger] open_orders(s)[k],
    decreases s.len(),
{
    reveal(Seq::filter);
    if s.len() > 0 {
        let t = s.drop_last();
        assert(sorted_by_price(t));
        lemma_open_orders_sorted(t);
        let f = open_orders(t);
        if s.last().quantity != 0 {
            let g = f.push(s.last());
            assert(open_orders(s) == g);
            assert forall|k: int| 0 <= k < f.len() implies #[trigger] f[k].price
                <= s.last().price && exists|q: int| 0 <= q < s.len() && s[q] == f[k] by {
                let q = choose|q: int| 0 <= q < t.len() && t[q] == f[k];
                assert(s[q] == t[q]);
                assert(s[q].price <= s[s.len() - 1].price);
            }
            assert forall|k: int| 0 <= k < g.len() implies exists|q: int|
                0 <= q < s.len() && s[q] == #[trigger] g[k] by {
                if k == f.len() {
                    assert(s[s.len() - 1] == g[k]);
                } else {
                    assert(g[k] == f[k]);
                }
            }
            assert forall|a: int, b: int| 0 <= a < b < g.len() implies #[trigger] g[a].price
                <= #[trigger] g[b].price by {
                if b == f.len() {
                    assert(g[a] == f[a]);
                } else {
                    assert(g[a] == f[a]);
                    assert(g[b] == f[b]);
                }
            }
        } else {
            assert(open_orders(s) == f);
            assert forall|k: int| 0 <= k < f.len() implies exists|q: int|
                0 <= q < s.len() && s[q] == #[trigger] f[k] by {
                let q = choose|q: int| 0 <= q < t.len() && t[q] == f[k];
                assert(s[q] == t[q]);
            }
        }
    }
}

/// Removes the orders whose quantity is zero, keeping the others in order.
pub fn prune(list: &mut Vec<Order>)
    ensures
        final(list)@ == open_orders(old(list)@),
{
    let mut kept: Vec<Order> = Vec::new();
    let mut k: usize = 0;
    while k < list.len()
        invariant
            k <= list.len(),
            kept@ == open_orders(list@.subrange(0, k as int)),
        decreases list.len() - k,
    {
        let o = list[k];
        proof {
            reveal(Seq::filter);
            assert(list@.subrange(0, k + 1).drop_last() =~= list@.subrange(0, k as int));
        }
        if o.quantity != 0 {
            kept.push(o);
        }
        k = k + 1;
    }
    assert(list@.subrange(0, k as int) =~= list@);
    *list = kept;
}

/// Places `o` on a sorted sell side after every order of no higher price.
pub fn insert_sell(sell_list: &mut Vec<Order>, o: Order)
    requires
        sorted_by_price(old(sell_list)@),
    ensures
        final(sell_list)@ == insert_by_price(old(sell_list)@, o),
        sorted_by_price(final(sell_list)@),
{
    proof {
        lemma_insert_keeps_sorted(sell_list@, o);
    }
    let mut p: usize = 0;
    while p < sell_list.len() && sell_list[p].price <= o.price
        invariant
            p <= sell_list.len(),
            first_above(sell_list@, o.price, 0) == first_above(sell_list@, o.price, p as nat),
        decreases sell_list.len() - p,
    {
        p = p + 1;
    }
    sell_list.insert(p, o);
}

fn text_at(s: &Vec<char>, w: &Vec<char>, i: usize) -> (r: bool)
    requires
        i + w.len() <= s.len(),
    ensures
        r == (s@.subrange(i as int, i + w.len()) == w@),
{
    let mut k: usize = 0;
    while k < w.len()
        invariant
            i + w.len() <= s.len(),
            k <= w.len(),
            forall|q: int| 0 <= q < k ==> s@[i + q] == w@[q],
        decreases w.len() - k,
    {
        if s[i + k] != w[k] {
            assert(s@.subrange(i as int, i + w.len())[k as int] != w@[k as int]);
            return false;
        }
        k = k + 1;
    }
    assert(s@.subrange(i as int, i + w.len()) =~= w@);
    true
}

/// Whether `w` occurs in `s`.
fn contains_text(s: &Vec<char>, w: &Vec<char>) -> (r: bool)
    ensures
        r == has_text(s@, w@),
{
    if w.len() > s.len() {
        return false;
    }
    let last = s.len() - w.len();
    let mut i: usize = 0;
    while i <= last
        invariant
            w.len() <= s.len(),
            last == s.len() - w.len(),
            i <= last + 1,
            forall|q: int|
                0 <= q < i && q + w.len() <= s.len() ==> #[trigger] s@.subrange(q, q + w.len())
                    != w@,
        decreases last + 1 - i,
    {
        if text_at(s, w, i) {
            return true;
        }
        if i == last {
            return false;
        }
        i = i + 1;
    }
    false
}

/// An accepted line always describes an order.
pub proof fn lemma_accepted_line_reads(t: Seq<char>)
    requires
        line_ok(t),
    ensures
        order_of_line(t) is Some,
{
    let w = split_spaces(t);
    if w[1] == seq!['b', 'u', 'y'] {
        assert(names_word(w[1], seq!['b', 'u', 'y']));
    } else {
        assert(names_word(w[1], seq!['s', 'e', 'l', 'l']));
    }
}

/// Handles one order line `t` (already trimmed and lowercased): checks it,
/// places its order, runs a pass when both sides are open, and prunes the
/// `prune` side when that pass traded. Trades are appended to `trades`.
pub fn submit(
    buy_list: &mut Vec<Order>,
    sell_list: &mut Vec<Order>,
    t: &String,
    prune_side: Prune,
    trades: &mut Vec<Trade>,
) -> (r: Submission)
    requires
        sorted_by_price(old(sell_list)@),
    ensures
        sorted_by_price(final(sell_list)@),
        r is Rejected <==> !line_ok(t@),
        r is Rejected ==> final(buy_list)@ == old(buy_list)@ && final(sell_list)@
            == old(sell_list)@ && final(trades)@ == old(trades)@,
        r is Placed ==> {
            let b = placed(old(buy_list)@, old(sell_list)@, t@, order_of_line(t@)->0);
            let s = settled(b.0, b.1, prune_side);
            &&& final(buy_list)@ == s.0
            &&& final(sell_list)@ == s.1
            &&& final(trades)@ == old(trades)@ + s.2
            &&& r == Submission::Placed(s.2.len() > 0)
        },
{
    match input_fault(t) {
        Some(f) => {
            return Submission::Rejected(f);
        },
        None => {},
    }
    proof {
        lemma_accepted_line_reads(t@);
    }
    let chars = chars_of(t);
    let buy_word: Vec<char> = vec!['b', 'u', 'y'];
    let sell_word: Vec<char> = vec!['s', 'e', 'l', 'l'];
    assert(buy_word@ =~= seq!['b', 'u', 'y']);
    assert(sell_word@ =~= seq!['s', 'e', 'l', 'l']);
    if contains_text(&chars, &buy_word) {
        match Order::new(t) {
            Some(o) => buy_list.push(o),
            None => {},
        }
    } else if contains_text(&chars, &sell_word) {
        match Order::new(t) {
            Some(o) => insert_sell(sell_list, o),
            None => {},
        }
    }
    let ghost b = buy_list@;
    let ghost s = sell_list@;
    proof {
        lemma_settle_keeps_sorted(b, s, prune_side);
    }
    let mut traded: bool = false;
    if sell_list.len() > 0 && buy_list.len() > 0 {
        traded = trade_between(buy_list, sell_list, trades);
        if traded {
            match prune_side {
                Prune::BuySide => prune(buy_list),
                Prune::SellSide => prune(sell_list),
            }
        }
    } else {
        assert(trades@ =~= trades@ + Seq::<Trade>::empty());
    }
    Submission::Placed(traded)
}

} // verus!
