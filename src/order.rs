use crate::text::{
    chars_of, is_word, names_word, parse_i32, parse_u32, push_char, read_i32, read_u32,
    split_spaces, split_words,
};
use vstd::prelude::*;

verus! {

/// Which side of the book an order belongs to.
#[derive(Clone, Copy, Debug, PartialEq, Eq, Structural)]
pub enum OrderType {
    Buy,
    Sell,
    /// The side word was not recognised.
    Null,
}

/// One submitted order. `quantity` is the amount that remains open.
#[derive(Clone, Copy, Debug, PartialEq, Eq, Structural)]
pub struct Order {
    pub id: i32,
    pub order_type: OrderType,
    pub price: u32,
    pub quantity: u32,
}

/// One crossing event between a buy order and a sell order.
#[derive(Clone, Copy, Debug, PartialEq, Eq, Structural)]
pub struct Trade {
    pub buy_id: i32,
    pub sell_id: i32,
    pub quantity_traded: u32,
    pub price: u32,
}

pub open spec fn or_zero(v: Option<u32>) -> u32 {
    match v {
        Some(x) => x,
        None => 0,
    }
}

/// The id text of the first word: the word without its closing `:` or
/// `.`; a word without one gives no id text at all.
pub open spec fn id_text(w: Seq<char>) -> Seq<char> {
    if w.len() > 0 && (w.last() == ':' || w.last() == '.') {
        w.drop_last()
    } else {
        Seq::empty()
    }
}

/// The side named by the second word, in any letter case.
pub open spec fn side_of(w: Seq<char>) -> OrderType {
    if names_word(w, seq!['b', 'u', 'y']) {
        OrderType::Buy
    } else if names_word(w, seq!['s', 'e', 'l', 'l']) {
        OrderType::Sell
    } else {
        OrderType::Null
    }
}

/// The order that a line `id: side quantity BTC @ price` describes. There is
/// none when the line has fewer than six words, its id is not a 32-bit
/// integer, its side is neither buy nor sell, or its price is not a 32-bit
/// unsigned integer; an unreadable quantity counts as zero.
pub open spec fn order_of_line(s: Seq<char>) -> Option<Order> {
    let w = split_spaces(s);
    if w.len() < 6 || side_of(w[1]) == OrderType::Null {
        None
    } else {
        match (parse_i32(id_text(w[0])), parse_u32(w[5])) {
            (Some(id), Some(price)) => Some(
                Order { id, order_type: side_of(w[1]), price, quantity: or_zero(parse_u32(w[2])) },
            ),
            _ => None,
        }
    }
}

pub open spec fn digit_char(d: int) -> char {
    seq!['0', '1', '2', '3', '4', '5', '6', '7', '8', '9'][d]
}

/// The decimal digits of `n`, without leading zeros.
pub open spec fn decimal(n: nat) -> Seq<char>
    decreases n,
{
    if n < 10 {
        seq![digit_char(n as int)]
    } else {
        decimal(n / 10).push(digit_char((n % 10) as int))
    }
}

pub open spec fn signed_decimal(i: int) -> Seq<char> {
    if i < 0 {
        seq!['-'] + decimal((-i) as nat)
    } else {
        decimal(i as nat)
    }
}

/// The text of an order: `id: Buy a BTC @ b` with `a` its price and `b`
/// its quantity (or `Sell` likewise), and `-1` for an unrecognised side.
pub open spec fn order_text(o: Order) -> Seq<char> {
    match o.order_type {
        OrderType::Buy => signed_decimal(o.id as int) + ": Buy "@ + decimal(o.price as nat)
            + " BTC @ "@ + decimal(o.quantity as nat),
        OrderType::Sell => signed_decimal(o.id as int) + ": Sell "@ + decimal(o.price as nat)
            + " BTC @ "@ + decimal(o.quantity as nat),
        OrderType::Null => "-1"@,
    }
}

fn digit_of(d: u64) -> (c: char)
    requires
        d < 10,
    ensures
        c == digit_char(d as int),
{
    match d {
        0 => '0',
        1 => '1',
        2 => '2',
        3 => '3',
        4 => '4',
        5 => '5',
        6 => '6',
        7 => '7',
        8 => '8',
        _ => '9',
    }
}

fn push_decimal(s: &mut String, n: u64)
    ensures
        final(s)@ == old(s)@ + decimal(n as nat),
    decreases n,
{
    let ghost start = s@;
    if n >= 10 {
        push_decimal(s, n / 10);
    }
    push_char(s, digit_of(n % 10));
    proof {
        if n >= 10 {
            assert(start + decimal(n as nat) =~= start + decimal((n / 10) as nat) + seq![
                digit_char((n % 10) as int),
            ]);
        }
        assert(s@ =~= start + decimal(n as nat));
    }
}

fn push_signed(s: &mut String, i: i32)
    ensures
        final(s)@ == old(s)@ + signed_decimal(i as int),
{
    let ghost start = s@;
    if i < 0 {
        push_char(s, '-');
        push_decimal(s, (-(i as i64)) as u64);
        assert(s@ =~= start + signed_decimal(i as int));
    } else {
        push_decimal(s, i as u64);
    }
}

fn without_last(v: &Vec<char>) -> (r: Vec<char>)
    requires
        v.len() > 0,
    ensures
        r@ == v@.drop_last(),
{
    let mut r: Vec<char> = Vec::new();
    let mut k: usize = 0;
    while k + 1 < v.len()
        invariant
            v.len() > 0,
            k < v.len(),
            r@ == v@.subrange(0, k as int),
        decreases v.len() - k,
    {
        r.push(v[k]);
        k = k + 1;
        assert(r@ =~= v@.subrange(0, k as int));
    }
    assert(r@ =~= v@.drop_last());
    r
}

proof fn lemma_word_view(words: Vec<Vec<char>>, k: int)
    requires
        0 <= k < words.len(),
    ensures
        words@[k]@ == words.deep_view()[k],
{
    assert(words@[k].deep_view() =~= words@[k]@);
}

impl Order {
    /// Reads an order from a line `id: side quantity BTC @ price`; see
    /// `order_of_line`.
    pub fn new(s_in: &String) -> (r: Option<Order>)
        ensures
            r == order_of_line(s_in@),
    {
        let chars = chars_of(s_in);
        let words = split_words(&chars);
        if words.len() < 6 {
            return None;
        }
        proof {
            lemma_word_view(words, 0);
            lemma_word_view(words, 1);
            lemma_word_view(words, 2);
            lemma_word_view(words, 5);
        }
        let w0 = &words[0];
        let tmp: Vec<char> = if w0.len() > 0 && (w0[w0.len() - 1] == ':' || w0[w0.len() - 1]
            == '.') {
            without_last(w0)
        } else {
            Vec::new()
        };
        assert(tmp@ =~= id_text(split_spaces(s_in@)[0]));
        let id_no = match read_i32(&tmp) {
            Some(v) => v,
            None => {
                return None;
            },
        };
        let order = if is_word(&words[1], &vec!['b', 'u', 'y']) {
            OrderType::Buy
        } else if is_word(&words[1], &vec!['s', 'e', 'l', 'l']) {
            OrderType::Sell
        } else {
            return None;
        };
        let quantity = match read_u32(&words[2]) {
            Some(q) => q,
            None => 0,
        };
        let price = match read_u32(&words[5]) {
            Some(p) => p,
            None => {
                return None;
            },
        };
        Some(Order { id: id_no, order_type: order, quantity: quantity, price: price })
    }

    /// The order as text; see `order_text`.
    pub fn out(&self) -> (r: String)
        ensures
            r@ == order_text(*self),
    {
        match self.order_type {
            OrderType::Buy => {
                let mut s = String::new();
                push_signed(&mut s, self.id);
                s.append(": Buy ");
                push_decimal(&mut s, self.price as u64);
                s.append(" BTC @ ");
                push_decimal(&mut s, self.quantity as u64);
                s
            },
            OrderType::Sell => {
                let mut s = String::new();
                push_signed(&mut s, self.id);
                s.append(": Sell ");
                push_decimal(&mut s, self.price as u64);
                s.append(" BTC @ ");
                push_decimal(&mut s, self.quantity as u64);
                s
            },
            OrderType::Null => String::from_str("-1"),
        }
    }
}

} // verus!
