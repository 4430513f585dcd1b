use vstd::prelude::*;

verus! {

/// Relies on `String::push`: the character is appended at the end.
#[verifier::external_body]
pub(crate) fn push_char(s: &mut String, c: char)
    ensures
        final(s)@ == old(s)@.push(c),
{
    s.push(c)
}

/// The code of `c` after ASCII lowercasing: `A`..`Z` move to `a`..`z`,
/// every other character stays.
pub open spec fn lower_code(c: char) -> u32 {
    if 'A' <= c && c <= 'Z' {
        (c as u32 + 32) as u32
    } else {
        c as u32
    }
}

/// `c` with an ASCII upper-case letter mapped to its lower-case letter.
fn lower_char(c: char) -> (r: char)
    ensures
        r as u32 == lower_code(c),
{
    if 'A' <= c && c <= 'Z' {
        ((c as u8) + 32) as char
    } else {
        c
    }
}

/// `t` is `s` with its ASCII letters lowercased.
pub open spec fn is_lowered(s: Seq<char>, t: Seq<char>) -> bool {
    &&& t.len() == s.len()
    &&& forall|k: int| 0 <= k < s.len() ==> #[trigger] t[k] as u32 == lower_code(s[k])
}

/// `t` spells the lower-case word `w` once ASCII letters are lowercased.
pub open spec fn names_word(t: Seq<char>, w: Seq<char>) -> bool {
    &&& t.len() == w.len()
    &&& forall|k: int| 0 <= k < t.len() ==> lower_code(#[trigger] t[k]) == w[k] as u32
}

/// The characters of `s`, in order.
pub fn chars_of(s: &String) -> (r: Vec<char>)
    ensures
        r@ == s@,
{
    let n = s.as_str().unicode_len();
    let mut r: Vec<char> = Vec::new();
    let mut i: usize = 0;
    while i < n
        invariant
            n == s@.len(),
            i <= n,
            r@ == s@.subrange(0, i as int),
        decreases n - i,
    {
        r.push(s.as_str().get_char(i));
        i = i + 1;
        assert(r@ =~= s@.subrange(0, i as int));
    }
    assert(r@ =~= s@);
    r
}

/// A string holding exactly the characters of `v`.
pub fn string_of(v: &Vec<char>) -> (r: String)
    ensures
        r@ == v@,
{
    let mut r = String::new();
    let mut i: usize = 0;
    while i < v.len()
        invariant
            i <= v.len(),
            r@ == v@.subrange(0, i as int),
        decreases v.len() - i,
    {
        push_char(&mut r, v[i]);
        i = i + 1;
        assert(r@ =~= v@.subrange(0, i as int));
    }
    assert(r@ =~= v@);
    r
}

/// `s` with every ASCII letter lowercased.
pub fn ascii_lowercase(s: &String) -> (r: String)
    ensures
        is_lowered(s@, r@),
{
    let v = chars_of(s);
    let mut r = String::new();
    let mut i: usize = 0;
    while i < v.len()
        invariant
            v@ == s@,
            i <= v.len(),
            r@.len() == i,
            forall|k: int| 0 <= k < i ==> #[trigger] r@[k] as u32 == lower_code(s@[k]),
        decreases v.len() - i,
    {
        push_char(&mut r, lower_char(v[i]));
        i = i + 1;
    }
    r
}

/// Whether `t` spells the lower-case word `w` once lowercased.
pub fn is_word(t: &Vec<char>, w: &Vec<char>) -> (r: bool)
    ensures
        r == names_word(t@, w@),
{
    if t.len() != w.len() {
        return false;
    }
    let mut k: usize = 0;
    while k < t.len()
        invariant
            t.len() == w.len(),
            k <= t.len(),
            forall|q: int| 0 <= q < k ==> lower_code(#[trigger] t@[q]) == w@[q] as u32,
        decreases t.len() - k,
    {
        if lower_char(t[k]) as u32 != w[k] as u32 {
            return false;
        }
        k = k + 1;
    }
    true
}

/// What `split(" ")` yields: the pieces between single spaces, so that two
/// spaces in a row give an empty piece, and the empty text gives one empty
/// piece.
pub open spec fn split_spaces(s: Seq<char>) -> Seq<Seq<char>>
    decreases s.len(),
{
    if s.len() == 0 {
        seq![Seq::empty()]
    } else {
        let r = split_spaces(s.drop_last());
        if s.last() == ' ' {
            r.push(Seq::empty())
        } else {
            r.update(r.len() - 1, r.last().push(s.last()))
        }
    }
}

/// Splits `s` at each single space.
pub fn split_words(s: &Vec<char>) -> (r: Vec<Vec<char>>)
    ensures
        r.deep_view() == split_spaces(s@),
{
    let mut done: Vec<Vec<char>> = Vec::new();
    let mut cur: Vec<char> = Vec::new();
    let mut i: usize = 0;
    assert(done.deep_view().push(cur@) =~= split_spaces(s@.subrange(0, 0)));
    while i < s.len()
        invariant
            i <= s.len(),
            done.deep_view().push(cur@) == split_spaces(s@.subrange(0, i as int)),
        decreases s.len() - i,
    {
        let c = s[i];
        let ghost before = done.deep_view();
        let ghost cur0 = cur@;
        assert(s@.subrange(0, i + 1).drop_last() =~= s@.subrange(0, i as int));
        if c == ' ' {
            let ghost done0 = done@;
            let ghost kept = cur;
            done.push(cur);
            cur = Vec::new();
            assert(kept.deep_view() =~= cur0);
            assert(done@ == done0.push(kept));
            assert(done.deep_view() =~= before.push(cur0));
            assert(done.deep_view().push(cur@) =~= before.push(cur0).push(Seq::empty()));
        } else {
            cur.push(c);
            assert(done.deep_view() =~= before);
            assert(done.deep_view().push(cur@) =~= before.push(cur0).update(
                before.len() as int,
                cur0.push(c),
            ));
        }
        i = i + 1;
    }
    let ghost before = done.deep_view();
    let ghost cur0 = cur@;
    let ghost done0 = done@;
    let ghost kept = cur;
    done.push(cur);
    assert(kept.deep_view() =~= cur0);
    assert(done@ == done0.push(kept));
    assert(done.deep_view() =~= before.push(cur0));
    assert(s@.subrange(0, s.len() as int) =~= s@);
    done
}

pub open spec fn is_digit(c: char) -> bool {
    '0' <= c && c <= '9'
}

pub open spec fn digit_value(c: char) -> int {
    c as u32 - '0' as u32
}

/// The value of a run of decimal digits, most significant first.
pub open spec fn digits_value(s: Seq<char>) -> int
    decreases s.len(),
{
    if s.len() == 0 {
        0
    } else {
        10 * digits_value(s.drop_last()) + digit_value(s.last())
    }
}

/// One or more ASCII digits and nothing else.
pub open spec fn digit_run(s: Seq<char>) -> bool {
    s.len() > 0 && forall|k: int| 0 <= k < s.len() ==> is_digit(#[trigger] s[k])
}

/// The digits of `s` after an optional leading `+`.
pub open spec fn unsigned_part(s: Seq<char>) -> Seq<char> {
    if s.len() > 0 && s[0] == '+' {
        s.drop_first()
    } else {
        s
    }
}

/// What `str::parse::<u32>` gives: an optional `+`, then decimal digits
/// whose value fits in 32 bits.
pub open spec fn parse_u32(s: Seq<char>) -> Option<u32> {
    let d = unsigned_part(s);
    if digit_run(d) && digits_value(d) <= u32::MAX {
        Some(digits_value(d) as u32)
    } else {
        None
    }
}

/// What `str::parse::<i32>` gives: an optional `+` or `-`, then decimal
/// digits whose signed value fits in 32 bits.
pub open spec fn parse_i32(s: Seq<char>) -> Option<i32> {
    if s.len() > 0 && s[0] == '-' {
        let d = s.drop_first();
        if digit_run(d) && digits_value(d) <= 0x8000_0000 {
            Some((-digits_value(d)) as i32)
        } else {
            None
        }
    } else {
        let d = unsigned_part(s);
        if digit_run(d) && digits_value(d) <= i32::MAX {
            Some(digits_value(d) as i32)
        } else {
            None
        }
    }
}

proof fn lemma_digits_prefix(s: Seq<char>, k: int)
    requires
        0 <= k <= s.len(),
        forall|q: int| 0 <= q < s.len() ==> is_digit(#[trigger] s[q]),
    ensures
        0 <= digits_value(s.subrange(0, k)) <= digits_value(s),
    decreases s.len(),
{
    if k < s.len() {
        let t = s.drop_last();
        assert(t.subrange(0, k) =~= s.subrange(0, k));
        lemma_digits_prefix(t, k);
        lemma_digits_prefix(t, t.len() as int);
        assert(t.subrange(0, t.len() as int) =~= t);
    } else {
        assert(s.subrange(0, k) =~= s);
        if s.len() > 0 {
            let t = s.drop_last();
            lemma_digits_prefix(t, t.len() as int);
            assert(t.subrange(0, t.len() as int) =~= t);
        }
    }
}

/// The value of the digits of `s` from `start` on, when they are one or
/// more digits whose value is at most `limit`.
fn digits_from(s: &Vec<char>, start: usize, limit: u64) -> (r: Option<u64>)
    requires
        start <= s.len(),
        limit <= 0x1_0000_0000,
    ensures
        r == (if digit_run(s@.subrange(start as int, s.len() as int)) && digits_value(
            s@.subrange(start as int, s.len() as int),
        ) <= limit {
            Some(digits_value(s@.subrange(start as int, s.len() as int)) as u64)
        } else {
            None
        }),
        r matches Some(v) ==> v <= limit && v == digits_value(
            s@.subrange(start as int, s.len() as int),
        ),
{
    let ghost d = s@.subrange(start as int, s.len() as int);
    if start == s.len() {
        return None;
    }
    let mut acc: u64 = 0;
    let mut k: usize = start;
    while k < s.len()
        invariant
            start <= k <= s.len(),
            d == s@.subrange(start as int, s.len() as int),
            limit <= 0x1_0000_0000,
            acc <= limit,
            forall|q: int| start <= q < k ==> is_digit(#[trigger] s@[q]),
            acc == digits_value(s@.subrange(start as int, k as int)),
        decreases s.len() - k,
    {
        let c = s[k];
        if !('0' <= c && c <= '9') {
            assert(d[k - start] == c);
            return None;
        }
        let ghost p = s@.subrange(start as int, k + 1);
        assert(p.drop_last() =~= s@.subrange(start as int, k as int));
        let next = acc * 10 + (c as u64 - '0' as u64);
        if next > limit {
            proof {
                if digit_run(d) {
                    assert(d.subrange(0, k + 1 - start) =~= p);
                    lemma_digits_prefix(d, k + 1 - start);
                }
            }
            return None;
        }
        acc = next;
        k = k + 1;
    }
    assert(s@.subrange(start as int, k as int) =~= d);
    Some(acc)
}

/// Parses `t` as `str::parse::<u32>` does.
pub fn read_u32(t: &Vec<char>) -> (r: Option<u32>)
    ensures
        r == parse_u32(t@),
{
    let start: usize = if t.len() > 0 && t[0] == '+' {
        1
    } else {
        0
    };
    assert(unsigned_part(t@) =~= t@.subrange(start as int, t.len() as int));
    match digits_from(t, start, 0xffff_ffff) {
        Some(v) => Some(v as u32),
        None => None,
    }
}

/// Parses `t` as `str::parse::<i32>` does.
pub fn read_i32(t: &Vec<char>) -> (r: Option<i32>)
    ensures
        r == parse_i32(t@),
{
    if t.len() > 0 && t[0] == '-' {
        assert(t@.drop_first() =~= t@.subrange(1, t.len() as int));
        match digits_from(t, 1, 0x8000_0000) {
            Some(v) => Some((-(v as i64)) as i32),
            None => None,
        }
    } else {
        let start: usize = if t.len() > 0 && t[0] == '+' {
            1
        } else {
            0
        };
        assert(unsigned_part(t@) =~= t@.subrange(start as int, t.len() as int));
        match digits_from(t, start, 0x7fff_ffff) {
            Some(v) => Some(v as i32),
            None => None,
        }
    }
}

/// `s` with one trailing line feed removed, and then one carriage return
/// before it, if there are.
pub open spec fn trimmed(s: Seq<char>) -> Seq<char> {
    if s.len() > 0 && s.last() == '\n' {
        let t = s.drop_last();
        if t.len() > 0 && t.last() == '\r' {
            t.drop_last()
        } else {
            t
        }
    } else {
        s
    }
}

/// Strips a trailing `\n` or `\r\n` from `s_in` in place, and returns a
/// copy of the result.
pub fn trimmer(s_in: &mut String) -> (r: String)
    ensures
        final(s_in)@ == trimmed(old(s_in)@),
        r@ == final(s_in)@,
{
    let n = s_in.as_str().unicode_len();
    if n > 0 && s_in.as_str().get_char(n - 1) == '\n' {
        let mut m = n - 1;
        if m > 0 && s_in.as_str().get_char(m - 1) == '\r' {
            m = m - 1;
        }
        let t = String::from_str(s_in.as_str().substring_char(0, m));
        *s_in = t;
        assert(s_in@ =~= trimmed(old(s_in)@));
    }
    s_in.clone()
}

} // verus!
