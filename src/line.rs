//! Tab-separated fields and decimal integers of one record line.
use vstd::prelude::*;

verus! {

/// The tab-separated fields of `s`; a line without tabs is one field.
pub open spec fn split_tabs(s: Seq<char>) -> Seq<Seq<char>>
    decreases s.len(),
{
    if s.len() == 0 {
        seq![Seq::empty()]
    } else {
        let p = split_tabs(s.drop_last());
        if s.last() == '\t' {
            p.push(Seq::empty())
        } else {
            p.update(p.len() - 1, p.last().push(s.last()))
        }
    }
}

pub proof fn lemma_split_nonempty(s: Seq<char>)
    ensures
        split_tabs(s).len() >= 1,
    decreases s.len(),
{
    if s.len() > 0 {
        lemma_split_nonempty(s.drop_last());
    }
}

pub open spec fn is_digit(c: char) -> bool {
    '0' <= c <= '9'
}

pub open spec fn digits_value(d: Seq<char>) -> int
    decreases d.len(),
{
    if d.len() == 0 {
        0
    } else {
        digits_value(d.drop_last()) * 10 + (d.last() as int - '0' as int)
    }
}

pub open spec fn negative(s: Seq<char>) -> bool {
    s.len() > 0 && s[0] == '-'
}

/// `s` without its leading `-`, if it has one.
pub open spec fn magnitude(s: Seq<char>) -> Seq<char> {
    if negative(s) { s.subrange(1, s.len() as int) } else { s }
}

pub open spec fn all_digits(d: Seq<char>) -> bool {
    forall|i: int| 0 <= i < d.len() ==> is_digit(#[trigger] d[i])
}

/// The value of `s` read as an optional `-` and one or more decimal digits.
pub open spec fn decimal(s: Seq<char>) -> Option<int> {
    if magnitude(s).len() > 0 && all_digits(magnitude(s)) {
        Some(if negative(s) { -digits_value(magnitude(s)) } else { digits_value(magnitude(s)) })
    } else {
        None
    }
}

/// Field bounds of `s`: field `k` is `s[bounds[k].0 .. bounds[k].1]`.
pub fn split_fields(s: &str) -> (bounds: Vec<(usize, usize)>)
    ensures
        bounds.len() == split_tabs(s@).len(),
        forall|k: int| 0 <= k < bounds.len() ==> {
            &&& (#[trigger] bounds[k]).0 <= bounds[k].1 <= s@.len()
            &&& s@.subrange(bounds[k].0 as int, bounds[k].1 as int) == split_tabs(s@)[k]
        },
{
    let n = s.unicode_len();
    let mut bounds: Vec<(usize, usize)> = Vec::new();
    let mut start: usize = 0;
    let mut i: usize = 0;
    proof {
        assert(s@.subrange(0, 0) =~= Seq::<char>::empty());
    }
    while i < n
        invariant
            n == s@.len(),
            start <= i <= n,
            bounds.len() + 1 == split_tabs(s@.subrange(0, i as int)).len(),
            forall|k: int| 0 <= k < bounds.len() ==> {
                &&& (#[trigger] bounds[k]).0 <= bounds[k].1 <= i
                &&& s@.subrange(bounds[k].0 as int, bounds[k].1 as int) == split_tabs(s@.subrange(0, i as int))[k]
            },
            s@.subrange(start as int, i as int) == split_tabs(s@.subrange(0, i as int)).last(),
        decreases n - i,
    {
        let ghost pre = s@.subrange(0, i as int);
        let ghost next = s@.subrange(0, i as int + 1);
        assert(next.drop_last() =~= pre);
        let c = s.get_char(i);
        if c == '\t' {
            bounds.push((start, i));
            start = i + 1;
            assert(s@.subrange(start as int, i as int + 1) =~= Seq::<char>::empty());
        } else {
            assert(s@.subrange(start as int, i as int + 1) =~= s@.subrange(start as int, i as int).push(c));
        }
        i = i + 1;
    }
    bounds.push((start, n));
    assert(s@.subrange(0, n as int) =~= s@);
    proof {
        lemma_split_nonempty(s@);
    }
    bounds
}

/// Reads `s` as a decimal `i64`: `None` unless it is an optional `-` and
/// one or more digits whose value fits.
pub fn parse_i64(s: &str) -> (r: Option<i64>)
    ensures
        match r {
            Some(v) => decimal(s@) == Some(v as int),
            None => decimal(s@) is None || decimal(s@)->0 < i64::MIN || decimal(s@)->0 > i64::MAX,
        },
{
    let n = s.unicode_len();
    let neg = n > 0 && s.get_char(0) == '-';
    let first: usize = if neg { 1 } else { 0 };
    let ghost d = magnitude(s@);
    if first >= n {
        assert(d.len() == 0);
        return None;
    }
    assert(!neg ==> d =~= s@.subrange(0, n as int));
    let mut value: i64 = 0;
    let mut i: usize = first;
    while i < n
        invariant
            n == s@.len(),
            first <= i <= n,
            first == (if neg { 1usize } else { 0usize }),
            neg == (s@.len() > 0 && s@[0] == '-'),
            d == magnitude(s@),
            d == s@.subrange(first as int, n as int),
            forall|j: int| 0 <= j < i - first ==> is_digit(#[trigger] d[j]),
            value as int == (if neg { -digits_value(d.subrange(0, i - first)) } else { digits_value(d.subrange(0, i - first)) }),
            neg ==> value <= 0,
            !neg ==> value >= 0,
        decreases n - i,
    {
        let c = s.get_char(i);
        assert(d[i - first] == c);
        if !('0' <= c && c <= '9') {
            assert(!is_digit(d[i - first]));
            assert(decimal(s@) is None);
            return None;
        }
        let digit = (c as u32 - '0' as u32) as i64;
        assert(d.subrange(0, i - first + 1).drop_last() =~= d.subrange(0, i - first));
        let step = if neg { value.checked_mul(10) } else { value.checked_mul(10) };
        let scaled = match step {
            Some(v) => v,
            None => {
                assert(decimal(s@) is Some ==> decimal(s@)->0 < i64::MIN || decimal(s@)->0 > i64::MAX) by {
                    if decimal(s@) is Some {
                        lemma_digits_grow(d, (i - first) as int);
                    }
                }
                return None;
            },
        };
        let moved = if neg { scaled.checked_sub(digit) } else { scaled.checked_add(digit) };
        match moved {
            Some(v) => {
                value = v;
            },
            None => {
                assert(decimal(s@) is Some ==> decimal(s@)->0 < i64::MIN || decimal(s@)->0 > i64::MAX) by {
                    if decimal(s@) is Some {
                        lemma_digits_grow(d, (i - first + 1) as int);
                    }
                }
                return None;
            },
        }
        i = i + 1;
    }
    assert(d.subrange(0, n - first) =~= d);
    Some(value)
}

/// A longer run of digits is worth at least as much as its prefix.
proof fn lemma_digits_grow(d: Seq<char>, m: int)
    requires
        0 <= m <= d.len(),
        all_digits(d),
    ensures
        digits_value(d) >= digits_value(d.subrange(0, m)),
        m < d.len() ==> digits_value(d) >= digits_value(d.subrange(0, m)) * 10,
        digits_value(d) >= 0,
    decreases d.len(),
{
    if d.len() == 0 {
        assert(d.subrange(0, m) =~= d);
    } else if m == d.len() {
        assert(d.subrange(0, m) =~= d);
        lemma_digits_grow(d.drop_last(), 0);
    } else {
        let p = d.drop_last();
        assert forall|i: int| 0 <= i < p.len() implies is_digit(#[trigger] p[i]) by {
            assert(p[i] == d[i]);
        }
        lemma_digits_grow(p, m);
        assert(p.subrange(0, m) =~= d.subrange(0, m));
        assert(is_digit(d[d.len() - 1]));
        if m < p.len() {
            assert(digits_value(p) >= digits_value(d.subrange(0, m)) * 10);
        } else {
            assert(m == p.len());
            assert(p.subrange(0, m) =~= p);
        }
    }
}

} // verus!
