//! Text as sequences of characters: conversion between strings and character
//! vectors, white space, and signed decimal literals.

use vstd::prelude::*;

verus! {

/// `String::push` appends the character to the end of the string.
pub assume_specification[ String::push ](s: &mut String, c: char)
    ensures
        final(s)@ == old(s)@.push(c),
;

/// The characters of `s`, in order.
pub fn chars_of(s: &str) -> (v: Vec<char>)
    ensures
        v@ == s@,
{
    let mut v: Vec<char> = Vec::new();
    let it = s.chars();
    for c in iter: it
        invariant
            iter.seq() == s@,
            v@ == iter.history(),
    {
        v.push(c);
    }
    assert(v@ =~= s@);
    v
}

/// The string made of the characters `v[from..to]`.
pub fn string_of(v: &Vec<char>, from: usize, to: usize) -> (s: String)
    requires
        from <= to <= v.len(),
    ensures
        s@ == v@.subrange(from as int, to as int),
{
    let mut s = String::new();
    let mut i: usize = from;
    while i < to
        invariant
            from <= i <= to <= v.len(),
            s@ == v@.subrange(from as int, i as int),
        decreases to - i,
    {
        s.push(v[i]);
        i += 1;
        assert(s@ =~= v@.subrange(from as int, i as int));
    }
    s
}

/// White space: the characters with the Unicode property `White_Space`.
pub open spec fn is_space(c: char) -> bool {
    let u = c as u32;
    ||| 0x09 <= u <= 0x0d
    ||| u == 0x20
    ||| u == 0x85
    ||| u == 0xa0
    ||| u == 0x1680
    ||| 0x2000 <= u <= 0x200a
    ||| u == 0x2028
    ||| u == 0x2029
    ||| u == 0x202f
    ||| u == 0x205f
    ||| u == 0x3000
}

pub fn is_whitespace(c: char) -> (r: bool)
    ensures
        r == is_space(c),
{
    let u: u32 = c as u32;
    (0x09 <= u && u <= 0x0d) || u == 0x20 || u == 0x85 || u == 0xa0 || u == 0x1680 || (0x2000 <= u
        && u <= 0x200a) || u == 0x2028 || u == 0x2029 || u == 0x202f || u == 0x205f || u == 0x3000
}

/// The first position at or after `i` that holds no white space.
pub open spec fn skip_spaces(s: Seq<char>, i: int) -> int
    decreases s.len() - i,
{
    if 0 <= i < s.len() && is_space(s[i]) {
        skip_spaces(s, i + 1)
    } else {
        i
    }
}

/// Finds the first position at or after `i` that holds no white space.
pub fn scan_spaces(v: &Vec<char>, i: usize) -> (r: usize)
    requires
        i <= v.len(),
    ensures
        r == skip_spaces(v@, i as int),
        i <= r <= v.len(),
{
    let mut r: usize = i;
    while r < v.len() && is_whitespace(v[r])
        invariant
            i <= r <= v.len(),
            skip_spaces(v@, i as int) == skip_spaces(v@, r as int),
        decreases v.len() - r,
    {
        r += 1;
    }
    r
}

/// The position after the last character before `n` that is no white space.
pub open spec fn trim_end_pos(s: Seq<char>, n: int) -> int
    decreases n,
{
    if 0 < n <= s.len() && is_space(s[n - 1]) {
        trim_end_pos(s, n - 1)
    } else {
        n
    }
}

/// `s` without the white space at its start and at its end.
pub open spec fn trim(s: Seq<char>) -> Seq<char> {
    let start = skip_spaces(s, 0);
    let end = trim_end_pos(s, s.len() as int);
    if start < end {
        s.subrange(start, end)
    } else {
        Seq::empty()
    }
}

/// Copies `v[from..to]` without the white space at its start and end.
pub fn trimmed(v: &Vec<char>, from: usize, to: usize) -> (out: Vec<char>)
    requires
        from <= to <= v.len(),
    ensures
        out@ == trim(v@.subrange(from as int, to as int)),
{
    let ghost s = v@.subrange(from as int, to as int);
    let mut start: usize = from;
    while start < to && is_whitespace(v[start])
        invariant
            from <= start <= to <= v.len(),
            s == v@.subrange(from as int, to as int),
            skip_spaces(s, 0) == skip_spaces(s, start - from),
        decreases to - start,
    {
        start += 1;
    }
    let mut end: usize = to;
    while end > from && is_whitespace(v[end - 1])
        invariant
            from <= end <= to <= v.len(),
            s == v@.subrange(from as int, to as int),
            trim_end_pos(s, s.len() as int) == trim_end_pos(s, end - from),
        decreases end,
    {
        end -= 1;
    }
    let mut out: Vec<char> = Vec::new();
    if start < end {
        let mut i: usize = start;
        while i < end
            invariant
                from <= start <= i <= end <= to <= v.len(),
                out@ == v@.subrange(start as int, i as int),
            decreases end - i,
        {
            out.push(v[i]);
            i += 1;
            assert(out@ =~= v@.subrange(start as int, i as int));
        }
        assert(out@ =~= s.subrange(start - from, end - from));
    } else {
        assert(out@ =~= Seq::empty());
    }
    out
}

/// True when `c` is one of the ten ASCII decimal digits.
pub open spec fn is_digit(c: char) -> bool {
    '0' <= c <= '9'
}

/// The number written by a sequence of decimal digits, most significant first.
pub open spec fn digits_value(s: Seq<char>) -> int
    decreases s.len(),
{
    if s.len() == 0 {
        0
    } else {
        digits_value(s.drop_last()) * 10 + (s.last() as u32 - '0' as u32)
    }
}

pub open spec fn all_digits(s: Seq<char>) -> bool {
    forall|i: int| 0 <= i < s.len() ==> is_digit(#[trigger] s[i])
}

/// The digits of a literal: what follows its sign, if it has one.
pub open spec fn literal_digits(s: Seq<char>) -> Seq<char> {
    if s.len() > 0 && (s[0] == '-' || s[0] == '+') {
        s.skip(1)
    } else {
        s
    }
}

/// The number written by a literal, whatever its size: an optional sign `+`
/// or `-` followed by decimal digits.
pub open spec fn literal_value(s: Seq<char>) -> int {
    if s.len() > 0 && s[0] == '-' {
        -digits_value(literal_digits(s))
    } else {
        digits_value(literal_digits(s))
    }
}

/// The 32-bit signed integer that `s` writes: an optional sign, then at least
/// one decimal digit and nothing else, with a value in the range of `i32`.
pub open spec fn int_literal(s: Seq<char>) -> Option<i32> {
    let digits = literal_digits(s);
    if digits.len() > 0 && all_digits(digits) && i32::MIN <= literal_value(s) <= i32::MAX {
        Some(literal_value(s) as i32)
    } else {
        None
    }
}

/// The value of a digit string is at least the value of each of its prefixes.
pub proof fn lemma_digits_value_prefix(s: Seq<char>, n: int)
    requires
        all_digits(s),
        0 <= n <= s.len(),
    ensures
        0 <= digits_value(s.subrange(0, n)) <= digits_value(s),
    decreases s.len() - n,
{
    lemma_digits_value_nonneg(s.subrange(0, n));
    if n == s.len() {
        assert(s.subrange(0, n) =~= s);
    } else {
        let t = s.subrange(0, n + 1);
        assert(t.drop_last() =~= s.subrange(0, n));
        assert(is_digit(t.last()));
        lemma_digits_value_prefix(s, n + 1);
    }
}

/// The value of a digit string is not negative.
pub proof fn lemma_digits_value_nonneg(s: Seq<char>)
    requires
        all_digits(s),
    ensures
        0 <= digits_value(s),
    decreases s.len(),
{
    if s.len() > 0 {
        assert(is_digit(s.last()));
        lemma_digits_value_nonneg(s.drop_last());
    }
}

/// Reads `v[from..to]` as a signed decimal literal.
pub fn parse_int(v: &Vec<char>, from: usize, to: usize) -> (r: Option<i32>)
    requires
        from <= to <= v.len(),
    ensures
        r == int_literal(v@.subrange(from as int, to as int)),
{
    let ghost s = v@.subrange(from as int, to as int);
    let mut i: usize = from;
    let mut negative = false;
    if from < to && (v[from] == '-' || v[from] == '+') {
        negative = v[from] == '-';
        i = from + 1;
    }
    let start: usize = i;
    let ghost digits = literal_digits(s);
    assert(digits =~= v@.subrange(start as int, to as int));
    if start == to {
        return None;
    }
    let mut acc: i64 = 0;
    while i < to
        invariant
            from <= start <= i <= to <= v.len(),
            s == v@.subrange(from as int, to as int),
            digits == literal_digits(s),
            digits == v@.subrange(start as int, to as int),
            negative == (s.len() > 0 && s[0] == '-'),
            all_digits(digits.subrange(0, i - start)),
            acc == digits_value(digits.subrange(0, i - start)),
            0 <= acc <= 0x8000_0000,
        decreases to - i,
    {
        let c = v[i];
        let ghost next = digits.subrange(0, i - start + 1);
        assert(next.drop_last() =~= digits.subrange(0, i - start));
        assert(next.last() == c);
        if !('0' <= c && c <= '9') {
            assert(!is_digit(digits[i - start]));
            return None;
        }
        assert(all_digits(next)) by {
            assert forall|k: int| 0 <= k < next.len() implies is_digit(#[trigger] next[k]) by {
                if k < next.len() - 1 {
                    assert(next[k] == digits.subrange(0, i - start)[k]);
                }
            }
        }
        let d: i64 = (c as u32 - '0' as u32) as i64;
        let wide: i64 = acc * 10 + d;
        assert(wide == digits_value(next));
        if wide > 0x8000_0000 {
            proof {
                if all_digits(digits) {
                    lemma_digits_value_prefix(digits, i - start + 1);
                }
            }
            return None;
        }
        acc = wide;
        i += 1;
    }
    assert(digits.subrange(0, i - start) =~= digits);
    if negative {
        Some((-acc) as i32)
    } else if acc == 0x8000_0000 {
        None
    } else {
        Some(acc as i32)
    }
}

} // verus!
