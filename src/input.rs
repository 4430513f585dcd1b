use crate::order::id_text;
use crate::text::{
    chars_of, is_digit, parse_i32, parse_u32, read_i32, read_u32, split_spaces, split_words,
    string_of,
};
use vstd::prelude::*;

verus! {

/// Whether `char::is_numeric` holds of `c`, that is whether `c` is in one of
/// Unicode's number categories.
pub uninterp spec fn numeric_char(c: char) -> bool;

/// Relies on `char::is_numeric`: the answer depends on the character alone;
/// among ASCII characters exactly the digits are numeric.
#[verifier::external_body]
fn char_is_numeric(c: char) -> (r: bool)
    ensures
        r == numeric_char(c),
        '0' <= c && c <= '9' ==> r,
        (c as u32) < 128 && !('0' <= c && c <= '9') ==> !r,
{
    c.is_numeric()
}

pub open spec fn all_numeric(s: Seq<char>) -> bool {
    forall|k: int| 0 <= k < s.len() ==> numeric_char(#[trigger] s[k])
}

pub open spec fn all_digits(s: Seq<char>) -> bool {
    forall|k: int| 0 <= k < s.len() ==> is_digit(#[trigger] s[k])
}

/// Some character of `s` is ASCII but not a digit.
pub open spec fn has_ascii_non_digit(s: Seq<char>) -> bool {
    exists|k: int| 0 <= k < s.len() && (s[k] as u32) < 128 && !is_digit(#[trigger] s[k])
}

/// The first word carries a usable id: numeric, closed by `:` or `.`, and a
/// 32-bit integer.
pub open spec fn id_ok(w0: Seq<char>) -> bool {
    all_numeric(id_part(w0)) && parse_i32(id_text(w0)) is Some
}

/// The sixth word is a usable price: numeric and a 32-bit unsigned integer.
pub open spec fn amount_ok(w5: Seq<char>) -> bool {
    all_numeric(w5) && parse_u32(w5) is Some
}

/// The id part of the first word: the word without a closing `:` or `.`.
pub open spec fn id_part(w: Seq<char>) -> Seq<char> {
    if w.len() > 0 && (w.last() == ':' || w.last() == '.') {
        w.drop_last()
    } else {
        w
    }
}

pub open spec fn is_side_word(w: Seq<char>) -> bool {
    w == seq!['b', 'u', 'y'] || w == seq!['s', 'e', 'l', 'l']
}

/// What is wrong with an order line, checked in this order.
#[derive(Debug, Clone)]
pub enum InputFault {
    /// The line does not have seven words; holds the count it has.
    WordCount(usize),
    /// The id is not numeric, not closed by `:` or `.`, or not a 32-bit
    /// integer; holds the id.
    IdNotNumeric(String),
    /// The second word is neither `buy` nor `sell`.
    NoSide,
    /// The price is not numeric or not a 32-bit unsigned integer; holds the
    /// price.
    AmountNotNumeric(String),
}

/// A line is accepted when it has seven words, a usable id, `buy` or `sell`
/// as its second word, and a usable price as its sixth word.
pub open spec fn line_ok(s: Seq<char>) -> bool {
    let w = split_spaces(s);
    &&& w.len() == 7
    &&& id_ok(w[0])
    &&& is_side_word(w[1])
    &&& amount_ok(w[5])
}

/// `line_ok` with ASCII digits in place of numeric characters: such a line
/// is accepted.
pub open spec fn plain_line_ok(s: Seq<char>) -> bool {
    let w = split_spaces(s);
    &&& w.len() == 7
    &&& all_digits(id_part(w[0]))
    &&& parse_i32(id_text(w[0])) is Some
    &&& is_side_word(w[1])
    &&& all_digits(w[5])
    &&& parse_u32(w[5]) is Some
}

fn numeric_text(t: &Vec<char>) -> (r: bool)
    ensures
        r == all_numeric(t@),
        all_digits(t@) ==> r,
        has_ascii_non_digit(t@) ==> !r,
{
    let mut k: usize = 0;
    while k < t.len()
        invariant
            k <= t.len(),
            forall|q: int| 0 <= q < k ==> numeric_char(#[trigger] t@[q]),
            forall|q: int|
                0 <= q < k ==> !((t@[q] as u32) < 128 && !is_digit(#[trigger] t@[q])),
        decreases t.len() - k,
    {
        let c = t[k];
        if !char_is_numeric(c) {
            assert(!is_digit(t@[k as int]));
            return false;
        }
        k = k + 1;
    }
    true
}

fn same_text(a: &Vec<char>, b: &Vec<char>) -> (r: bool)
    ensures
        r == (a@ == b@),
{
    if a.len() != b.len() {
        return false;
    }
    let mut k: usize = 0;
    while k < a.len()
        invariant
            a.len() == b.len(),
            k <= a.len(),
            forall|q: int| 0 <= q < k ==> a@[q] == b@[q],
        decreases a.len() - k,
    {
        if a[k] != b[k] {
            return false;
        }
        k = k + 1;
    }
    assert(a@ =~= b@);
    true
}

/// `r` is the first fault of a line split into the words `w`, where `id_ok`
/// and `amount_ok` tell whether its id and its sixth word are usable.
pub open spec fn fault_fits(r: Option<InputFault>, w: Seq<Seq<char>>, id_ok: bool, amount_ok: bool) -> bool {
    match r {
        None => w.len() == 7 && id_ok && is_side_word(w[1]) && amount_ok,
        Some(InputFault::WordCount(n)) => n == w.len() && n != 7,
        Some(InputFault::IdNotNumeric(t)) => w.len() == 7 && !id_ok && t@ == id_part(w[0]),
        Some(InputFault::NoSide) => w.len() == 7 && id_ok && !is_side_word(w[1]),
        Some(InputFault::AmountNotNumeric(t)) => {
            &&& w.len() == 7
            &&& id_ok
            &&& is_side_word(w[1])
            &&& !amount_ok
            &&& t@ == w[5]
        },
    }
}

/// The id part of a word, as a new vector.
fn id_part_of(w0: &Vec<char>) -> (r: Vec<char>)
    ensures
        r@ == id_part(w0@),
{
    let n0 = w0.len();
    let keep = if n0 > 0 && (w0[n0 - 1] == ':' || w0[n0 - 1] == '.') {
        n0 - 1
    } else {
        n0
    };
    let mut t: Vec<char> = Vec::new();
    let mut k: usize = 0;
    while k < keep
        invariant
            keep <= n0,
            n0 == w0.len(),
            k <= keep,
            t@ == w0@.subrange(0, k as int),
        decreases keep - k,
    {
        t.push(w0[k]);
        k = k + 1;
        assert(t@ =~= w0@.subrange(0, k as int));
    }
    assert(t@ =~= id_part(w0@));
    t
}

/// The first fault of the seven words `words`, given whether the id and the
/// sixth word are usable.
pub fn fault_of(words: &Vec<Vec<char>>, id_ok: bool, amount_ok: bool) -> (r: Option<InputFault>)
    requires
        words.len() == 7,
    ensures
        fault_fits(r, words.deep_view(), id_ok, amount_ok),
{
    proof {
        assert(words@[0].deep_view() =~= words@[0]@);
        assert(words@[1].deep_view() =~= words@[1]@);
        assert(words@[5].deep_view() =~= words@[5]@);
    }
    if !id_ok {
        let tmp = id_part_of(&words[0]);
        return Some(InputFault::IdNotNumeric(string_of(&tmp)));
    }
    let buy_word: Vec<char> = vec!['b', 'u', 'y'];
    let sell_word: Vec<char> = vec!['s', 'e', 'l', 'l'];
    assert(buy_word@ =~= seq!['b', 'u', 'y']);
    assert(sell_word@ =~= seq!['s', 'e', 'l', 'l']);
    if !(same_text(&words[1], &buy_word) || same_text(&words[1], &sell_word)) {
        return Some(InputFault::NoSide);
    }
    if !amount_ok {
        return Some(InputFault::AmountNotNumeric(string_of(&words[5])));
    }
    None
}

/// The first fault of an order line, or `None` when it is accepted.
pub fn input_fault(s: &String) -> (r: Option<InputFault>)
    ensures
        r is None <==> line_ok(s@),
        fault_fits(r, split_spaces(s@), id_ok(split_spaces(s@)[0]), amount_ok(split_spaces(s@)[5])),
        plain_line_ok(s@) ==> r is None,
{
    let chars = chars_of(s);
    let words = split_words(&chars);
    if words.len() != 7 {
        return Some(InputFault::WordCount(words.len()));
    }
    proof {
        assert(words@[0].deep_view() =~= words@[0]@);
        assert(words@[5].deep_view() =~= words@[5]@);
    }
    let w0 = &words[0];
    let n0 = w0.len();
    let closed = n0 > 0 && (w0[n0 - 1] == ':' || w0[n0 - 1] == '.');
    let id = id_part_of(w0);
    let id_good = closed && numeric_text(&id) && read_i32(&id).is_some();
    assert(closed ==> id_text(w0@) == id_part(w0@));
    assert(!closed ==> id_text(w0@) == Seq::<char>::empty());
    let amount_good = numeric_text(&words[5]) && read_u32(&words[5]).is_some();
    fault_of(&words, id_good, amount_good)
}

/// Whether an order line is accepted; see `line_ok`.
pub fn input_check(s: &String) -> (r: bool)
    ensures
        r == line_ok(s@),
        plain_line_ok(s@) ==> r,
{
    input_fault(s).is_none()
}

} // verus!
