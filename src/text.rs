use vstd::prelude::*;
use vstd::std_specs::iter::IteratorSpec;

verus! {

/// The characters of `s`, in order.
pub fn chars_of(s: &str) -> (r: Vec<char>)
    ensures
        r@ == s@,
{
    broadcast use vstd::string::axiom_spec_iter, vstd::string::next_postcondition;

    let mut it = s.chars();
    let mut out: Vec<char> = Vec::new();
    loop
        invariant
            out@ + it.remaining() == s@,
            it.decrease() is Some,
        decreases it.decrease()->0,
    {
        match it.next() {
            Some(c) => {
                assert(out@.push(c) + it.remaining() =~= s@);
                out.push(c);
            },
            None => {
                assert(out@ + it.remaining() =~= out@);
                return out;
            },
        }
    }
}

/// Splits `s` on every `sep`: the pieces in order, with an empty piece
/// before a leading separator, between two adjacent ones and after a
/// trailing one. Always at least one piece.
pub open spec fn split(s: Seq<char>, sep: char) -> Seq<Seq<char>>
    decreases s.len(),
{
    if s.len() == 0 {
        seq![Seq::empty()]
    } else {
        let p = split(s.drop_last(), sep);
        if s.last() == sep {
            p.push(Seq::empty())
        } else {
            p.update(p.len() - 1, p.last().push(s.last()))
        }
    }
}

pub proof fn lemma_split_nonempty(s: Seq<char>, sep: char)
    ensures
        split(s, sep).len() >= 1,
    decreases s.len(),
{
    if s.len() > 0 {
        lemma_split_nonempty(s.drop_last(), sep);
    }
}

pub open spec fn views(v: Seq<Vec<char>>) -> Seq<Seq<char>> {
    v.map_values(|x: Vec<char>| x@)
}

/// Splits `s` on `sep` (see `split`).
pub fn split_on(s: &Vec<char>, sep: char) -> (r: Vec<Vec<char>>)
    ensures
        views(r@) == split(s@, sep),
{
    assert(s@.take(s@.len() as int) =~= s@);
    split_prefix(s, s.len(), sep)
}

/// Splits the first `end` characters of `s` on `sep`.
pub fn split_prefix(s: &Vec<char>, end: usize, sep: char) -> (r: Vec<Vec<char>>)
    requires
        end <= s@.len(),
    ensures
        views(r@) == split(s@.take(end as int), sep),
{
    let mut pieces: Vec<Vec<char>> = Vec::new();
    let mut cur: Vec<char> = Vec::new();
    let mut i: usize = 0;
    while i < end
        invariant
            i <= end <= s@.len(),
            views(pieces@).push(cur@) == split(s@.take(i as int), sep),
        decreases end - i,
    {
        let c = s[i];
        proof {
            assert(s@.take(i + 1).drop_last() == s@.take(i as int));
            lemma_split_nonempty(s@.take(i as int), sep);
        }
        if c == sep {
            let ghost prev = pieces@;
            let ghost done = cur@;
            pieces.push(cur);
            cur = Vec::new();
            assert(views(pieces@) =~= views(prev).push(done));
            assert(views(pieces@).push(cur@) =~= split(s@.take(i + 1), sep));
        } else {
            cur.push(c);
            assert(views(pieces@).push(cur@) =~= split(s@.take(i + 1), sep));
        }
        i = i + 1;
    }
    let ghost prev = pieces@;
    let ghost fin = cur@;
    pieces.push(cur);
    assert(views(pieces@) =~= views(prev).push(fin));
    pieces
}


pub open spec fn is_digit(c: char) -> bool {
    '0' <= c && c <= '9'
}

pub open spec fn all_digits(s: Seq<char>) -> bool {
    forall|i: int| 0 <= i < s.len() ==> is_digit(#[trigger] s[i])
}

pub open spec fn digit_value(c: char) -> nat {
    (c as u32 - '0' as u32) as nat
}

/// The number written by the decimal digits `s`, most significant first.
pub open spec fn digits_value(s: Seq<char>) -> nat
    decreases s.len(),
{
    if s.len() == 0 {
        0
    } else {
        digits_value(s.drop_last()) * 10 + digit_value(s.last())
    }
}

pub proof fn lemma_digits_value_grows(a: Seq<char>, b: Seq<char>)
    ensures
        digits_value(a + b) >= digits_value(a),
    decreases b.len(),
{
    if b.len() == 0 {
        assert(a + b =~= a);
    } else {
        assert((a + b).drop_last() =~= a + b.drop_last());
        lemma_digits_value_grows(a, b.drop_last());
    }
}

/// The digits of an unsigned number: an optional leading `+` is dropped.
pub open spec fn unsigned_body(s: Seq<char>) -> Seq<char> {
    if s.len() > 0 && s[0] == '+' {
        s.skip(1)
    } else {
        s
    }
}

/// An identifier field: one or more digits after an optional `+`, at most 65535.
pub open spec fn id_of(s: Seq<char>) -> Option<u16> {
    let d = unsigned_body(s);
    if d.len() > 0 && all_digits(d) && digits_value(d) <= u16::MAX {
        Some(digits_value(d) as u16)
    } else {
        None
    }
}

/// Accumulates the digits `s[lo..hi]` onto `acc`, the value of `prefix`;
/// `None` when the value of `prefix` followed by them exceeds `u64::MAX`.
fn push_digits(s: &Vec<char>, lo: usize, hi: usize, acc: u64, Ghost(prefix): Ghost<Seq<char>>) -> (r:
    Option<u64>)
    requires
        lo <= hi <= s@.len(),
        acc == digits_value(prefix),
        all_digits(s@.subrange(lo as int, hi as int)),
    ensures
        r == (if digits_value(prefix + s@.subrange(lo as int, hi as int)) <= u64::MAX {
            Some(digits_value(prefix + s@.subrange(lo as int, hi as int)) as u64)
        } else {
            None
        }),
{
    let mut v: u64 = acc;
    let mut i: usize = lo;
    while i < hi
        invariant
            lo <= i <= hi <= s@.len(),
            all_digits(s@.subrange(lo as int, hi as int)),
            v == digits_value(prefix + s@.subrange(lo as int, i as int)),
        decreases hi - i,
    {
        let c = s[i];
        assert(s@.subrange(lo as int, hi as int)[i - lo] == c);
        let d = (c as u32 - '0' as u32) as u64;
        let ghost next = prefix + s@.subrange(lo as int, i + 1);
        assert(next.drop_last() =~= prefix + s@.subrange(lo as int, i as int));
        assert(digits_value(next) == v * 10 + d);
        if v > (u64::MAX - d) / 10 {
            proof {
                assert(v * 10 + d > u64::MAX) by (nonlinear_arith)
                    requires v > (u64::MAX - d) / 10, d <= 9;
                assert(prefix + s@.subrange(lo as int, hi as int) =~= next + s@.subrange(i + 1, hi as int));
                lemma_digits_value_grows(next, s@.subrange(i + 1, hi as int));
            }
            return None;
        }
        assert(v * 10 + d <= u64::MAX) by (nonlinear_arith)
            requires v <= (u64::MAX - d) / 10, d <= 9;
        v = v * 10 + d;
        i = i + 1;
    }
    Some(v)
}

/// Reads an identifier field (see `id_of`).
pub fn parse_id(s: &Vec<char>) -> (r: Option<u16>)
    ensures
        r == id_of(s@),
{
    let lo: usize = if s.len() > 0 && s[0] == '+' { 1 } else { 0 };
    let ghost d = unsigned_body(s@);
    assert(d =~= s@.subrange(lo as int, s@.len() as int));
    if lo == s.len() {
        return None;
    }
    let mut i: usize = lo;
    while i < s.len()
        invariant
            lo <= i <= s@.len(),
            lo < s@.len(),
            d == s@.subrange(lo as int, s@.len() as int),
            d == unsigned_body(s@),
            all_digits(s@.subrange(lo as int, i as int)),
        decreases s@.len() - i,
    {
        if !('0' <= s[i] && s[i] <= '9') {
            assert(d[(i - lo) as int] == s@[i as int]);
            assert(!is_digit(d[(i - lo) as int]));
            return None;
        }
        assert(s@.subrange(lo as int, i + 1) =~= s@.subrange(lo as int, i as int).push(s@[i as int]));
        i = i + 1;
    }
    assert(Seq::<char>::empty() + d =~= d);
    match push_digits(s, lo, s.len(), 0, Ghost(Seq::empty())) {
        Some(v) => {
            if v <= 0xffff {
                Some(v as u16)
            } else {
                None
            }
        },
        None => None,
    }
}


/// A non-negative decimal number: `mantissa / 10^scale`.
#[derive(Clone, Copy, Debug, PartialEq, Eq)]
pub struct Decimal {
    pub mantissa: u64,
    pub scale: u32,
}

/// `d` is a decimal with its point at `p`: digits, `.`, digits, neither part empty.
pub open spec fn point_at(d: Seq<char>, p: int) -> bool {
    &&& 0 < p
    &&& p + 1 < d.len()
    &&& d[p] == '.'
    &&& all_digits(d.take(p))
    &&& all_digits(d.skip(p + 1))
}

pub open spec fn decimal_from(m: nat, scale: int) -> Option<Decimal> {
    if m <= u64::MAX && scale <= u32::MAX {
        Some(Decimal { mantissa: m as u64, scale: scale as u32 })
    } else {
        None
    }
}

/// A decimal field: after an optional `+`, either digits alone or digits,
/// one `.` and digits. `None` when it is not of that form or its digits
/// do not fit in a `u64`; so a sign `-`, an exponent, `inf`, `NaN`, and a
/// `.` without digits on both sides are refused.
pub open spec fn decimal_of(s: Seq<char>) -> Option<Decimal> {
    let d = unsigned_body(s);
    if d.len() > 0 && all_digits(d) {
        decimal_from(digits_value(d), 0)
    } else if exists|p: int| point_at(d, p) {
        let p = choose|p: int| point_at(d, p);
        decimal_from(digits_value(d.take(p) + d.skip(p + 1)), d.len() - p - 1)
    } else {
        None
    }
}

proof fn lemma_point_digits(d: Seq<char>, q: int, k: int)
    requires
        point_at(d, q),
        0 <= k < d.len(),
        k != q,
    ensures
        is_digit(d[k]),
{
    if k < q {
        assert(d.take(q)[k] == d[k]);
    } else {
        assert(d.skip(q + 1)[k - q - 1] == d[k]);
    }
}

/// Reads a decimal field (see `decimal_of`).
pub fn parse_decimal(s: &Vec<char>) -> (r: Option<Decimal>)
    ensures
        r == decimal_of(s@),
{
    let lo: usize = if s.len() > 0 && s[0] == '+' { 1 } else { 0 };
    let n = s.len();
    let ghost d = unsigned_body(s@);
    assert(d =~= s@.subrange(lo as int, n as int));
    let mut p: usize = lo;
    while p < n && s[p] != '.'
        invariant
            lo <= p <= n == s@.len(),
            d == s@.subrange(lo as int, n as int),
            d == unsigned_body(s@),
            forall|k: int| lo <= k < p ==> s@[k] != '.',
        decreases n - p,
    {
        p = p + 1;
    }
    let mut i: usize = lo;
    while i < n
        invariant
            lo <= i <= n == s@.len(),
            lo <= p <= n,
            d == s@.subrange(lo as int, n as int),
            d == unsigned_body(s@),
            p < n ==> s@[p as int] == '.',
            forall|k: int| lo <= k < p ==> s@[k] != '.',
            forall|k: int| lo <= k < i && k != p ==> is_digit(#[trigger] s@[k]),
        decreases n - i,
    {
        if i != p && !('0' <= s[i] && s[i] <= '9') {
            proof {
                let k = i - lo;
                assert(d[k] == s@[i as int]);
                assert(!all_digits(d));
                assert forall|q: int| !point_at(d, q) by {
                    if point_at(d, q) {
                        if k != q {
                            lemma_point_digits(d, q, k);
                        } else {
                            assert(d[p - lo] == s@[p as int]);
                            lemma_point_digits(d, q, p - lo);
                        }
                    }
                }
            }
            return None;
        }
        i = i + 1;
    }
    if p == n {
        if n == lo {
            return None;
        }
        assert(all_digits(d)) by {
            assert forall|k: int| 0 <= k < d.len() implies is_digit(#[trigger] d[k]) by {
                assert(d[k] == s@[k + lo]);
            }
        }
        assert(Seq::<char>::empty() + d =~= d);
        match push_digits(s, lo, n, 0, Ghost(Seq::empty())) {
            Some(m) => {
                return Some(Decimal { mantissa: m, scale: 0 });
            },
            None => {
                return None;
            },
        }
    }
    let ghost q = p - lo;
    assert(d[q] == '.');
    assert(!all_digits(d));
    if p == lo || p + 1 == n {
        assert forall|x: int| !point_at(d, x) by {
            if point_at(d, x) && x != q {
                lemma_point_digits(d, x, q);
            }
        }
        return None;
    }
    assert(all_digits(d.take(q))) by {
        assert forall|k: int| 0 <= k < q implies is_digit(#[trigger] d.take(q)[k]) by {
            assert(d.take(q)[k] == s@[k + lo]);
        }
    }
    assert(all_digits(d.skip(q + 1))) by {
        assert forall|k: int| 0 <= k < d.len() - q - 1 implies is_digit(#[trigger] d.skip(q + 1)[k]) by {
            assert(d.skip(q + 1)[k] == s@[k + p + 1]);
        }
    }
    assert(point_at(d, q));
    assert forall|x: int| point_at(d, x) implies x == q by {
        if x != q {
            lemma_point_digits(d, x, q);
        }
    }
    assert(s@.subrange(lo as int, p as int) =~= d.take(q));
    assert(s@.subrange(p + 1, n as int) =~= d.skip(q + 1));
    assert(Seq::<char>::empty() + d.take(q) =~= d.take(q));
    if n - p - 1 > u32::MAX as usize {
        return None;
    }
    match push_digits(s, lo, p, 0, Ghost(Seq::empty())) {
        Some(whole) => {
            match push_digits(s, p + 1, n, whole, Ghost(d.take(q))) {
                Some(m) => Some(Decimal { mantissa: m, scale: (n - p - 1) as u32 }),
                None => None,
            }
        },
        None => {
            proof {
                lemma_digits_value_grows(d.take(q), d.skip(q + 1));
            }
            None
        },
    }
}

} // verus!
