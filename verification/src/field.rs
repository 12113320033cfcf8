//! The `port/protocol` field of an entry: where it divides, and the value of
//! its port.

use vstd::prelude::*;

verus! {

/// The number of characters before the first `/` of `t`: its length where it
/// holds none.
pub open spec fn slash_index(t: Seq<char>) -> nat
    decreases t.len(),
{
    if t.len() > 0 && t[0] != '/' {
        1 + slash_index(t.drop_first())
    } else {
        0
    }
}

/// `slash_index(t)` is the one position that no `/` precedes and where `t`
/// ends or a `/` stands.
pub proof fn lemma_slash_index_is(t: Seq<char>, n: int)
    requires
        0 <= n <= t.len(),
        forall|i: int| 0 <= i < n ==> t[i] != '/',
        n == t.len() || t[n] == '/',
    ensures
        slash_index(t) == n,
    decreases n,
{
    if n > 0 {
        let u = t.drop_first();
        assert(t[0] != '/');
        assert forall|i: int| 0 <= i < n - 1 implies u[i] != '/' by {
            assert(u[i] == t[i + 1]);
        }
        lemma_slash_index_is(u, n - 1);
    }
}

/// The first `/` of `t` lies within `t`, unless it holds none.
pub proof fn lemma_slash_index_bounds(t: Seq<char>)
    ensures
        slash_index(t) <= t.len(),
        forall|i: int| 0 <= i < slash_index(t) ==> t[i] != '/',
        slash_index(t) == t.len() || t[slash_index(t) as int] == '/',
    decreases t.len(),
{
    if t.len() > 0 && t[0] != '/' {
        let u = t.drop_first();
        lemma_slash_index_bounds(u);
        assert forall|i: int| 0 <= i < slash_index(t) implies t[i] != '/' by {
            if i > 0 {
                assert(t[i] == u[i - 1]);
            }
        }
    }
}

/// A decimal digit, `0` to `9`.
pub open spec fn is_digit(c: char) -> bool {
    '0' <= c <= '9'
}

/// The value of a decimal digit.
pub open spec fn digit_value(c: char) -> nat {
    (c as int - '0' as int) as nat
}

/// A non-empty sequence of decimal digits: no sign, no separator, no space.
pub open spec fn is_decimal(t: Seq<char>) -> bool {
    t.len() > 0 && forall|i: int| 0 <= i < t.len() ==> is_digit(#[trigger] t[i])
}

/// The number that the digits of `t` write in base ten.
pub open spec fn decimal_value(t: Seq<char>) -> nat
    decreases t.len(),
{
    if t.len() == 0 {
        0
    } else {
        decimal_value(t.drop_last()) * 10 + digit_value(t.last())
    }
}

/// The port that `t` writes: a decimal number within the range of `usize`.
pub open spec fn port_of(t: Seq<char>) -> Option<usize> {
    if is_decimal(t) && decimal_value(t) <= usize::MAX {
        Some(decimal_value(t) as usize)
    } else {
        None
    }
}

/// More digits never write a smaller number.
pub proof fn lemma_decimal_value_grows(t: Seq<char>, n: int)
    requires
        0 <= n <= t.len(),
    ensures
        decimal_value(t.take(n)) <= decimal_value(t),
    decreases t.len(),
{
    if n < t.len() {
        lemma_decimal_value_grows(t.drop_last(), n);
        assert(t.drop_last().take(n) =~= t.take(n));
    } else {
        assert(t.take(n) =~= t);
    }
}

/// The position of the first `/` among `chars[begin..end]`, or `end` where
/// there is none.
pub fn find_slash(chars: &Vec<char>, begin: usize, end: usize) -> (at: usize)
    requires
        begin <= end <= chars@.len(),
    ensures
        begin <= at <= end,
        at == begin + slash_index(chars@.subrange(begin as int, end as int)),
{
    let mut at: usize = begin;
    while at < end && chars[at] != '/'
        invariant
            begin <= at <= end <= chars@.len(),
            forall|k: int| begin <= k < at ==> chars@[k] != '/',
        decreases end - at,
    {
        at += 1;
    }
    proof {
        lemma_slash_index_is(chars@.subrange(begin as int, end as int), at - begin);
    }
    at
}

/// The port written by `chars[begin..end]`, where that is a decimal number
/// that fits `usize`.
pub fn parse_port(chars: &Vec<char>, begin: usize, end: usize) -> (r: Option<usize>)
    requires
        begin <= end <= chars@.len(),
    ensures
        r == port_of(chars@.subrange(begin as int, end as int)),
{
    let ghost text = chars@.subrange(begin as int, end as int);
    if begin == end {
        return None;
    }
    let mut value: usize = 0;
    let mut i: usize = begin;
    while i < end
        invariant
            begin <= i <= end <= chars@.len(),
            text == chars@.subrange(begin as int, end as int),
            forall|k: int| 0 <= k < i - begin ==> is_digit(#[trigger] text[k]),
            value == decimal_value(text.take(i - begin)),
        decreases end - i,
    {
        let c = chars[i];
        if c < '0' || c > '9' {
            proof {
                assert(text[i - begin] == c);
            }
            return None;
        }
        let digit: usize = (c as u32 - '0' as u32) as usize;
        proof {
            let next = text.take(i - begin + 1);
            assert(next.drop_last() =~= text.take(i - begin));
            assert(next.last() == c);
            assert(decimal_value(next) == value * 10 + digit);
            lemma_decimal_value_grows(text, i - begin + 1);
        }
        if value > (usize::MAX - digit) / 10 {
            return None;
        }
        value = value * 10 + digit;
        i += 1;
    }
    proof {
        assert(text.take(end - begin) =~= text);
    }
    Some(value)
}

} // verus!
