//! Character-level helpers shared by the parsers and formatters: conversion
//! between strings and character vectors, number formatting and parsing, and
//! the lexicographic order on names.

use vstd::prelude::*;

verus! {

/// `String::push` appends exactly one character at the end.
pub assume_specification[ String::push ](s: &mut String, c: char)
    ensures
        final(s)@ == old(s)@.push(c),
;

/// The characters of `s`, in order.
pub fn chars_of(s: &str) -> (v: Vec<char>)
    ensures
        v@ == s@,
{
    let mut v: Vec<char> = Vec::new();
    for c in iter: s.chars()
        invariant
            iter.seq() == s@,
            v@ == iter.seq().take(iter.index()),
    {
        v.push(c);
        assert(iter.seq().take(iter.index() + 1) == iter.seq().take(iter.index()).push(c));
    }
    assert(s@.take(s@.len() as int) == s@);
    v
}

/// The string made of the characters of `v`, in order.
pub fn string_of(v: &Vec<char>) -> (s: String)
    ensures
        s@ == v@,
{
    let mut s = String::new();
    let mut i: usize = 0;
    while i < v.len()
        invariant
            i <= v.len(),
            s@ == v@.take(i as int),
        decreases v.len() - i,
    {
        s.push(v[i]);
        i += 1;
        assert(v@.take(i as int) == v@.take(i - 1).push(v@[i - 1]));
    }
    assert(v@.take(v.len() as int) == v@);
    s
}

/// Whether two strings hold the same characters.
pub fn str_equal(a: &str, b: &str) -> (r: bool)
    ensures
        r == (a@ == b@),
{
    let x = chars_of(a);
    let y = chars_of(b);
    chars_equal(&x, &y)
}

/// Whether two character vectors hold the same characters.
pub fn chars_equal(a: &Vec<char>, b: &Vec<char>) -> (r: bool)
    ensures
        r == (a@ == b@),
{
    if a.len() != b.len() {
        return false;
    }
    let mut i: usize = 0;
    while i < a.len()
        invariant
            i <= a.len(),
            a.len() == b.len(),
            a@.take(i as int) == b@.take(i as int),
        decreases a.len() - i,
    {
        if a[i] != b[i] {
            return false;
        }
        i += 1;
        assert(a@.take(i as int) == a@.take(i - 1).push(a@[i - 1]));
        assert(b@.take(i as int) == b@.take(i - 1).push(b@[i - 1]));
    }
    assert(a@.take(a.len() as int) == a@);
    assert(b@.take(b.len() as int) == b@);
    true
}

/// Appends the characters of `tail` to `out`.
pub fn push_all(out: &mut Vec<char>, tail: &Vec<char>)
    ensures
        final(out)@ == old(out)@ + tail@,
{
    let mut i: usize = 0;
    while i < tail.len()
        invariant
            i <= tail.len(),
            out@ == old(out)@ + tail@.take(i as int),
        decreases tail.len() - i,
    {
        out.push(tail[i]);
        i += 1;
        assert(tail@.take(i as int) == tail@.take(i - 1).push(tail@[i - 1]));
    }
    assert(tail@.take(tail.len() as int) == tail@);
}

/// The characters of `v` from position `from` up to, not including, `to`.
pub fn slice_of(v: &Vec<char>, from: usize, to: usize) -> (r: Vec<char>)
    requires
        from <= to <= v.len(),
    ensures
        r@ == v@.subrange(from as int, to as int),
{
    let mut r: Vec<char> = Vec::new();
    let mut i: usize = from;
    while i < to
        invariant
            from <= i <= to <= v.len(),
            r@ == v@.subrange(from as int, i as int),
        decreases to - i,
    {
        r.push(v[i]);
        i += 1;
        assert(v@.subrange(from as int, i as int) == v@.subrange(from as int, i - 1).push(
            v@[i - 1],
        ));
    }
    r
}

/// The character that stands for the digit `d` in bases up to sixteen, in
/// lower case.
pub open spec fn digit_char(d: int) -> char {
    if d < 10 {
        (48 + d) as char
    } else {
        (87 + d) as char
    }
}

/// The digits of `n` in base sixteen, lower case, most significant first,
/// without leading zeros (`0` is the single digit `0`).
pub open spec fn hex_digits(n: nat) -> Seq<char>
    decreases n,
{
    if n < 16 {
        seq![digit_char(n as int)]
    } else {
        hex_digits(n / 16).push(digit_char((n % 16) as int))
    }
}

/// The digits of `n` in base ten, most significant first, without leading
/// zeros.
pub open spec fn dec_digits(n: nat) -> Seq<char>
    decreases n,
{
    if n < 10 {
        seq![digit_char(n as int)]
    } else {
        dec_digits(n / 10).push(digit_char((n % 10) as int))
    }
}

fn digit_to_char(d: u8) -> (c: char)
    requires
        d < 16,
    ensures
        c == digit_char(d as int),
{
    if d < 10 {
        (48u8 + d) as char
    } else {
        (87u8 + d) as char
    }
}

/// Formats `v` in base sixteen.
pub fn to_hex(v: u64) -> (r: Vec<char>)
    ensures
        r@ == hex_digits(v as nat),
{
    let mut rev: Vec<char> = Vec::new();
    let mut n: u64 = v;
    while n >= 16
        invariant
            hex_digits(v as nat) == hex_digits(n as nat) + rev@.reverse(),
        decreases n,
    {
        let d: u8 = (n % 16) as u8;
        let ghost before = rev@;
        rev.push(digit_to_char(d));
        assert(rev@.reverse() == seq![digit_char(d as int)] + before.reverse());
        assert(hex_digits(n as nat) == hex_digits((n / 16) as nat).push(digit_char(d as int)));
        assert(hex_digits(n as nat) + before.reverse() == hex_digits((n / 16) as nat) + rev@.reverse());
        n = n / 16;
    }
    let ghost before = rev@;
    rev.push(digit_to_char(n as u8));
    assert(rev@.reverse() == seq![digit_char(n as int)] + before.reverse());
    assert(hex_digits(v as nat) == rev@.reverse());
    reversed(&rev)
}

/// Formats `v` in base ten.
pub fn to_dec(v: u64) -> (r: Vec<char>)
    ensures
        r@ == dec_digits(v as nat),
{
    let mut rev: Vec<char> = Vec::new();
    let mut n: u64 = v;
    while n >= 10
        invariant
            dec_digits(v as nat) == dec_digits(n as nat) + rev@.reverse(),
        decreases n,
    {
        let d: u8 = (n % 10) as u8;
        let ghost before = rev@;
        rev.push(digit_to_char(d));
        assert(rev@.reverse() == seq![digit_char(d as int)] + before.reverse());
        assert(dec_digits(n as nat) == dec_digits((n / 10) as nat).push(digit_char(d as int)));
        assert(dec_digits(n as nat) + before.reverse() == dec_digits((n / 10) as nat) + rev@.reverse());
        n = n / 10;
    }
    let ghost before = rev@;
    rev.push(digit_to_char(n as u8));
    assert(rev@.reverse() == seq![digit_char(n as int)] + before.reverse());
    assert(dec_digits(v as nat) == rev@.reverse());
    reversed(&rev)
}

/// The characters of `v` in the opposite order.
pub fn reversed(v: &Vec<char>) -> (r: Vec<char>)
    ensures
        r@ == v@.reverse(),
{
    let mut r: Vec<char> = Vec::new();
    let mut i: usize = v.len();
    while i > 0
        invariant
            i <= v.len(),
            r.len() == v.len() - i,
            forall|k: int| 0 <= k < r.len() ==> r@[k] == v@[v.len() - 1 - k],
        decreases i,
    {
        i -= 1;
        r.push(v[i]);
    }
    assert(r@ =~= v@.reverse());
    r
}

/// The value of a digit of base sixteen, in either case.
pub open spec fn hex_value(c: char) -> Option<int> {
    let n = c as int;
    if 48 <= n <= 57 {
        Some(n - 48)
    } else if 97 <= n <= 102 {
        Some(n - 87)
    } else if 65 <= n <= 70 {
        Some(n - 55)
    } else {
        None
    }
}

/// Whether `c` is one of `0`-`9` or `a`-`f`.
pub open spec fn is_lower_hex(c: char) -> bool {
    let n = c as int;
    48 <= n <= 57 || 97 <= n <= 102
}

/// Whether every character of `s` is a digit of base sixteen.
pub open spec fn all_hex(s: Seq<char>) -> bool {
    forall|i: int| 0 <= i < s.len() ==> (#[trigger] hex_value(s[i])) is Some
}

/// The number that the digits `s` denote in base sixteen (a character that
/// is no digit counts as zero).
pub open spec fn hex_number(s: Seq<char>) -> nat
    decreases s.len(),
{
    if s.len() == 0 {
        0
    } else {
        let d = match hex_value(s.last()) {
            Some(d) => d as nat,
            None => 0,
        };
        hex_number(s.drop_last()) * 16 + d
    }
}

/// What a text denotes as an unsigned 64-bit number in base sixteen: an
/// optional `+`, then at least one digit, in either case, and nothing else;
/// the number must fit.
pub open spec fn parse_radix16(s: Seq<char>) -> Option<u64> {
    let body = if s.len() > 0 && s[0] == '+' {
        s.skip(1)
    } else {
        s
    };
    if body.len() > 0 && all_hex(body) && hex_number(body) <= u64::MAX {
        Some(hex_number(body) as u64)
    } else {
        None
    }
}

fn hex_digit_value(c: char) -> (r: Option<u8>)
    ensures
        match r {
            Some(d) => hex_value(c) == Some(d as int) && d < 16,
            None => hex_value(c) is None,
        },
{
    let n: u32 = c as u32;
    if 48 <= n && n <= 57 {
        Some((n - 48) as u8)
    } else if 97 <= n && n <= 102 {
        Some((n - 87) as u8)
    } else if 65 <= n && n <= 70 {
        Some((n - 55) as u8)
    } else {
        None
    }
}

/// Whether `c` is one of `0`-`9` or `a`-`f`.
pub fn lower_hex(c: char) -> (r: bool)
    ensures
        r == is_lower_hex(c),
{
    let n: u32 = c as u32;
    (48 <= n && n <= 57) || (97 <= n && n <= 102)
}

/// Reads an unsigned 64-bit number in base sixteen.
pub fn parse_hex_u64(s: &Vec<char>) -> (r: Option<u64>)
    ensures
        r == parse_radix16(s@),
{
    let start: usize = if s.len() > 0 && s[0] == '+' {
        1
    } else {
        0
    };
    let ghost body = s@.skip(start as int);
    if s.len() == start {
        return None;
    }
    let mut acc: u64 = 0;
    let mut overflow: bool = false;
    let mut i: usize = start;
    while i < s.len()
        invariant
            start <= i <= s.len(),
            start < s.len(),
            body == s@.skip(start as int),
            body == if s@.len() > 0 && s@[0] == '+' {
                s@.skip(1)
            } else {
                s@
            },
            all_hex(body.take(i - start)),
            !overflow ==> hex_number(body.take(i - start)) == acc,
            overflow ==> hex_number(body.take(i - start)) > u64::MAX,
        decreases s.len() - i,
    {
        let ghost prev = body.take(i - start);
        let ghost next = body.take(i - start + 1);
        assert(next.drop_last() == prev);
        assert(next.last() == s@[i as int]);
        match hex_digit_value(s[i]) {
            None => {
                assert(hex_value(body[i - start]) is None);
                assert(!all_hex(body));
                return None;
            },
            Some(d) => {
                assert forall|k: int| 0 <= k < next.len() implies (#[trigger] hex_value(
                    next[k],
                )) is Some by {
                    if k < prev.len() {
                        assert(next[k] == prev[k]);
                    }
                }
                if !overflow {
                    if acc > (u64::MAX - (d as u64)) / 16 {
                        overflow = true;
                    } else {
                        acc = acc * 16 + (d as u64);
                    }
                }
            },
        }
        i += 1;
    }
    assert(body.take(s.len() - start) == body);
    if overflow {
        None
    } else {
        Some(acc)
    }
}

/// Whether `c` is white space: the characters of the Unicode property of
/// that name.
pub open spec fn is_whitespace(c: char) -> bool {
    let n = c as int;
    ||| 9 <= n <= 13
    ||| n == 0x20
    ||| n == 0x85
    ||| n == 0xA0
    ||| n == 0x1680
    ||| 0x2000 <= n <= 0x200A
    ||| n == 0x2028
    ||| n == 0x2029
    ||| n == 0x202F
    ||| n == 0x205F
    ||| n == 0x3000
}

/// Whether `c` is white space.
pub fn whitespace(c: char) -> (r: bool)
    ensures
        r == is_whitespace(c),
{
    let n: u32 = c as u32;
    (9 <= n && n <= 13) || n == 0x20 || n == 0x85 || n == 0xA0 || n == 0x1680 || (0x2000 <= n
        && n <= 0x200A) || n == 0x2028 || n == 0x2029 || n == 0x202F || n == 0x205F || n
        == 0x3000
}

/// `s` without the white space at its start.
pub open spec fn trim_start(s: Seq<char>) -> Seq<char>
    decreases s.len(),
{
    if s.len() > 0 && is_whitespace(s[0]) {
        trim_start(s.skip(1))
    } else {
        s
    }
}

/// `s` without the white space at its end.
pub open spec fn trim_end(s: Seq<char>) -> Seq<char>
    decreases s.len(),
{
    if s.len() > 0 && is_whitespace(s.last()) {
        trim_end(s.drop_last())
    } else {
        s
    }
}

/// `s` without the white space at either end.
pub open spec fn trimmed(s: Seq<char>) -> Seq<char> {
    trim_end(trim_start(s))
}

/// `s` without the run of `c` at its end.
pub open spec fn strip_trailing(s: Seq<char>, c: char) -> Seq<char>
    decreases s.len(),
{
    if s.len() > 0 && s.last() == c {
        strip_trailing(s.drop_last(), c)
    } else {
        s
    }
}

/// `s` without the run of `c` at its start.
pub open spec fn strip_leading(s: Seq<char>, c: char) -> Seq<char>
    decreases s.len(),
{
    if s.len() > 0 && s[0] == c {
        strip_leading(s.skip(1), c)
    } else {
        s
    }
}

/// `s` without its white space, wherever it stands.
pub open spec fn without_whitespace(s: Seq<char>) -> Seq<char> {
    s.filter(|c: char| !is_whitespace(c))
}

/// Removes the white space at both ends.
pub fn trim(s: &Vec<char>) -> (r: Vec<char>)
    ensures
        r@ == trimmed(s@),
{
    let mut a: usize = 0;
    assert(s@.skip(0) == s@);
    while a < s.len() && whitespace(s[a])
        invariant
            a <= s.len(),
            trim_start(s@) == trim_start(s@.skip(a as int)),
        decreases s.len() - a,
    {
        assert(s@.skip(a as int).skip(1) == s@.skip(a + 1));
        a += 1;
    }
    let mut b: usize = s.len();
    assert(s@.skip(a as int).take(b - a) == s@.skip(a as int));
    while b > a && whitespace(s[b - 1])
        invariant
            a <= b <= s.len(),
            trim_start(s@) == s@.skip(a as int),
            trimmed(s@) == trim_end(s@.skip(a as int).take(b - a)),
        decreases b,
    {
        assert(s@.skip(a as int).take(b - a).drop_last() == s@.skip(a as int).take(b - a - 1));
        b -= 1;
    }
    assert(s@.skip(a as int).take(b - a) == s@.subrange(a as int, b as int));
    slice_of(s, a, b)
}

/// Removes the run of `c` at the end.
pub fn trim_trailing(s: &Vec<char>, c: char) -> (r: Vec<char>)
    ensures
        r@ == strip_trailing(s@, c),
{
    let mut b: usize = s.len();
    assert(s@.take(b as int) == s@);
    while b > 0 && s[b - 1] == c
        invariant
            b <= s.len(),
            strip_trailing(s@, c) == strip_trailing(s@.take(b as int), c),
        decreases b,
    {
        assert(s@.take(b as int).drop_last() == s@.take(b - 1));
        b -= 1;
    }
    assert(s@.take(b as int) == s@.subrange(0, b as int));
    slice_of(s, 0, b)
}

/// Removes the run of `c` at the start.
pub fn trim_leading(s: &Vec<char>, c: char) -> (r: Vec<char>)
    ensures
        r@ == strip_leading(s@, c),
{
    let mut a: usize = 0;
    assert(s@.skip(0) == s@);
    while a < s.len() && s[a] == c
        invariant
            a <= s.len(),
            strip_leading(s@, c) == strip_leading(s@.skip(a as int), c),
        decreases s.len() - a,
    {
        assert(s@.skip(a as int).skip(1) == s@.skip(a + 1));
        a += 1;
    }
    assert(s@.skip(a as int) == s@.subrange(a as int, s.len() as int));
    slice_of(s, a, s.len())
}

/// Removes all white space.
pub fn remove_whitespace(s: &Vec<char>) -> (r: Vec<char>)
    ensures
        r@ == without_whitespace(s@),
{
    let mut r: Vec<char> = Vec::new();
    let mut i: usize = 0;
    let ghost keep = |c: char| !is_whitespace(c);
    assert(s@.take(0).filter(keep) == Seq::<char>::empty());
    while i < s.len()
        invariant
            i <= s.len(),
            keep == |c: char| !is_whitespace(c),
            r@ == s@.take(i as int).filter(keep),
        decreases s.len() - i,
    {
        let c = s[i];
        proof {
            assert(s@.take(i + 1).drop_last() == s@.take(i as int));
            reveal(Seq::filter);
        }
        if !whitespace(c) {
            r.push(c);
        }
        i += 1;
    }
    assert(s@.take(s.len() as int) == s@);
    r
}

/// The lexicographic order on texts, character by character by code point:
/// whether `a` comes strictly before `b`.
pub open spec fn lex_lt(a: Seq<char>, b: Seq<char>) -> bool
    decreases a.len(),
{
    if b.len() == 0 {
        false
    } else if a.len() == 0 {
        true
    } else if a[0] != b[0] {
        (a[0] as int) < (b[0] as int)
    } else {
        lex_lt(a.skip(1), b.skip(1))
    }
}

/// Whether `a` comes before `b` or equals it.
pub open spec fn lex_le(a: Seq<char>, b: Seq<char>) -> bool {
    a == b || lex_lt(a, b)
}

/// No text comes before itself.
pub proof fn lemma_lex_irreflexive(a: Seq<char>)
    ensures
        !lex_lt(a, a),
    decreases a.len(),
{
    if a.len() > 0 {
        lemma_lex_irreflexive(a.skip(1));
    }
}

/// The order is transitive.
pub proof fn lemma_lex_transitive(a: Seq<char>, b: Seq<char>, c: Seq<char>)
    requires
        lex_lt(a, b),
        lex_lt(b, c),
    ensures
        lex_lt(a, c),
    decreases a.len(),
{
    if a.len() > 0 && a[0] == b[0] && b[0] == c[0] {
        lemma_lex_transitive(a.skip(1), b.skip(1), c.skip(1));
    }
}

/// Of two different texts one comes before the other.
pub proof fn lemma_lex_total(a: Seq<char>, b: Seq<char>)
    ensures
        lex_lt(a, b) || a == b || lex_lt(b, a),
    decreases a.len(),
{
    if a.len() > 0 && b.len() > 0 {
        if a[0] == b[0] {
            lemma_lex_total(a.skip(1), b.skip(1));
            if a.skip(1) == b.skip(1) {
                assert(a =~= seq![a[0]] + a.skip(1));
                assert(b =~= seq![b[0]] + b.skip(1));
            }
        }
    } else if a.len() == 0 && b.len() == 0 {
        assert(a =~= b);
    }
}

/// Two texts are never each before the other.
pub proof fn lemma_lex_asymmetric(a: Seq<char>, b: Seq<char>)
    requires
        lex_lt(a, b),
    ensures
        !lex_lt(b, a),
        a != b,
{
    lemma_lex_irreflexive(a);
    if lex_lt(b, a) {
        lemma_lex_transitive(a, b, a);
    }
}

/// The code point of a character.
pub fn code_point(c: char) -> (n: u32)
    ensures
        n as int == c as int,
{
    c as u32
}

/// How one text stands to another in the lexicographic order.
#[derive(Clone, Copy, PartialEq, Eq, Structural, Debug)]
pub enum Placement {
    Before,
    Same,
    After,
}

/// Places `a` relative to `b` in the lexicographic order.
pub fn lex_place(a: &Vec<char>, b: &Vec<char>) -> (r: Placement)
    ensures
        r == Placement::Before <==> lex_lt(a@, b@),
        r == Placement::Same <==> a@ == b@,
        r == Placement::After <==> lex_lt(b@, a@),
{
    let mut i: usize = 0;
    assert(a@.skip(0) == a@ && b@.skip(0) == b@);
    while i < a.len() && i < b.len()
        invariant
            i <= a.len(),
            i <= b.len(),
            a@.take(i as int) == b@.take(i as int),
            lex_lt(a@, b@) == lex_lt(a@.skip(i as int), b@.skip(i as int)),
            lex_lt(b@, a@) == lex_lt(b@.skip(i as int), a@.skip(i as int)),
        decreases a.len() - i,
    {
        let ca: char = a[i];
        let cb: char = b[i];
        let x: u32 = code_point(ca);
        let y: u32 = code_point(cb);
        if ca != cb {
            proof {
                assert(a@.skip(i as int)[0] == a@[i as int]);
                assert(b@.skip(i as int)[0] == b@[i as int]);
                assert(a@.skip(i as int).len() > 0 && b@.skip(i as int).len() > 0);
                assert(x != y);
                if a@ == b@ {
                    assert(a@[i as int] == b@[i as int]);
                }
            }
            if x < y {
                return Placement::Before;
            } else {
                return Placement::After;
            }
        }
        proof {
            assert(a@[i as int] == b@[i as int]);
            assert(a@.skip(i as int).skip(1) == a@.skip(i + 1));
            assert(b@.skip(i as int).skip(1) == b@.skip(i + 1));
            assert(a@.take(i + 1) == a@.take(i as int).push(a@[i as int]));
            assert(b@.take(i + 1) == b@.take(i as int).push(b@[i as int]));
        }
        i += 1;
    }
    proof {
        lemma_lex_total(a@, b@);
        if a.len() == b.len() {
            assert(a@.take(i as int) == a@ && b@.take(i as int) == b@);
            lemma_lex_irreflexive(a@);
        } else if a.len() < b.len() {
            assert(a@.skip(i as int).len() == 0);
            assert(b@.skip(i as int).len() > 0);
        } else {
            assert(b@.skip(i as int).len() == 0);
            assert(a@.skip(i as int).len() > 0);
        }
    }
    if a.len() == b.len() {
        Placement::Same
    } else if a.len() < b.len() {
        Placement::Before
    } else {
        Placement::After
    }
}

/// The value of a digit of base ten.
pub open spec fn dec_value(c: char) -> Option<int> {
    let n = c as int;
    if 48 <= n <= 57 {
        Some(n - 48)
    } else {
        None
    }
}

/// Whether every character of `s` is a digit of base ten.
pub open spec fn all_dec(s: Seq<char>) -> bool {
    forall|i: int| 0 <= i < s.len() ==> (#[trigger] dec_value(s[i])) is Some
}

/// The number that the digits `s` denote in base ten (a character that is
/// no digit counts as zero).
pub open spec fn dec_number(s: Seq<char>) -> nat
    decreases s.len(),
{
    if s.len() == 0 {
        0
    } else {
        let d = match dec_value(s.last()) {
            Some(d) => d as nat,
            None => 0,
        };
        dec_number(s.drop_last()) * 10 + d
    }
}

/// What a text denotes as an unsigned 64-bit number in base ten: an
/// optional `+`, then at least one digit, and nothing else; the number must
/// fit.
pub open spec fn parse_radix10(s: Seq<char>) -> Option<u64> {
    let body = if s.len() > 0 && s[0] == '+' {
        s.skip(1)
    } else {
        s
    };
    if body.len() > 0 && all_dec(body) && dec_number(body) <= u64::MAX {
        Some(dec_number(body) as u64)
    } else {
        None
    }
}

/// Reads an unsigned 64-bit number in base ten.
pub fn parse_dec_u64(s: &Vec<char>) -> (r: Option<u64>)
    ensures
        r == parse_radix10(s@),
{
    let start: usize = if s.len() > 0 && s[0] == '+' {
        1
    } else {
        0
    };
    let ghost body = s@.skip(start as int);
    if s.len() == start {
        return None;
    }
    let mut acc: u64 = 0;
    let mut overflow: bool = false;
    let mut i: usize = start;
    while i < s.len()
        invariant
            start <= i <= s.len(),
            start < s.len(),
            body == s@.skip(start as int),
            body == if s@.len() > 0 && s@[0] == '+' {
                s@.skip(1)
            } else {
                s@
            },
            all_dec(body.take(i - start)),
            !overflow ==> dec_number(body.take(i - start)) == acc,
            overflow ==> dec_number(body.take(i - start)) > u64::MAX,
        decreases s.len() - i,
    {
        let ghost prev = body.take(i - start);
        let ghost next = body.take(i - start + 1);
        assert(next.drop_last() == prev);
        assert(next.last() == s@[i as int]);
        let n: u32 = code_point(s[i]);
        if !(48 <= n && n <= 57) {
            assert(dec_value(body[i - start]) is None);
            assert(!all_dec(body));
            return None;
        }
        let d: u64 = (n - 48) as u64;
        assert forall|k: int| 0 <= k < next.len() implies (#[trigger] dec_value(next[k])) is Some by {
            if k < prev.len() {
                assert(next[k] == prev[k]);
            }
        }
        if !overflow {
            if acc > (u64::MAX - d) / 10 {
                overflow = true;
            } else {
                acc = acc * 10 + d;
            }
        }
        i += 1;
    }
    assert(body.take(s.len() - start) == body);
    if overflow {
        None
    } else {
        Some(acc)
    }
}

/// The lower-case form of a letter `A`-`Z`; any other character is left as
/// it is.
pub open spec fn ascii_lower(c: char) -> char {
    if 65 <= c as int <= 90 {
        ((c as int) + 32) as char
    } else {
        c
    }
}

/// The lower-case form of a letter `A`-`Z`.
pub fn lower(c: char) -> (r: char)
    ensures
        r == ascii_lower(c),
{
    let n: u32 = code_point(c);
    if 65 <= n && n <= 90 {
        ((n + 32) as u8) as char
    } else {
        c
    }
}

/// The digits of a number in base ten are digits, none of them white space
/// or a sign, and they denote the number: what is formatted reads back.
pub proof fn lemma_dec_digits(n: nat)
    ensures
        dec_digits(n).len() >= 1,
        all_dec(dec_digits(n)),
        dec_number(dec_digits(n)) == n,
        forall|i: int|
            0 <= i < dec_digits(n).len() ==> !is_whitespace(#[trigger] dec_digits(n)[i])
                && dec_digits(n)[i] != '+',
        n <= u64::MAX ==> parse_radix10(dec_digits(n)) == Some(n as u64),
    decreases n,
{
    let s = dec_digits(n);
    if n < 10 {
        assert(s.drop_last() =~= Seq::<char>::empty());
        assert(dec_number(s.drop_last()) == 0);
        assert(dec_value(s.last()) == Some(n as int));
    } else {
        lemma_dec_digits(n / 10);
        let front = dec_digits(n / 10);
        assert(s.drop_last() =~= front);
        assert(dec_value(s.last()) == Some((n % 10) as int));
        assert forall|i: int| 0 <= i < s.len() implies (#[trigger] dec_value(s[i])) is Some by {
            if i < front.len() {
                assert(s[i] == front[i]);
            }
        }
        assert forall|i: int| 0 <= i < s.len() implies !is_whitespace(#[trigger] s[i]) && s[i]
            != '+' by {
            if i < front.len() {
                assert(s[i] == front[i]);
            }
        }
    }
}

/// The digits of a number in base sixteen denote the number: what is
/// formatted reads back.
pub proof fn lemma_hex_digits(n: nat)
    ensures
        hex_digits(n).len() >= 1,
        all_hex(hex_digits(n)),
        hex_number(hex_digits(n)) == n,
        hex_digits(n)[0] != '+',
        n <= u64::MAX ==> parse_radix16(hex_digits(n)) == Some(n as u64),
    decreases n,
{
    let s = hex_digits(n);
    if n < 16 {
        assert(s.drop_last() =~= Seq::<char>::empty());
        assert(hex_number(s.drop_last()) == 0);
        assert(hex_value(s.last()) == Some(n as int));
    } else {
        lemma_hex_digits(n / 16);
        let front = hex_digits(n / 16);
        assert(s.drop_last() =~= front);
        assert(hex_value(s.last()) == Some((n % 16) as int));
        assert(s[0] == front[0]);
        assert forall|i: int| 0 <= i < s.len() implies (#[trigger] hex_value(s[i])) is Some by {
            if i < front.len() {
                assert(s[i] == front[i]);
            }
        }
    }
}

/// An address as messages give it: `0x` and the digits in base sixteen.
pub open spec fn hex_address(address: u64) -> Seq<char> {
    seq!['0', 'x'] + hex_digits(address as nat)
}

/// Formats an address for a message.
pub fn hex_address_text(address: u64) -> (r: String)
    ensures
        r@ == hex_address(address),
{
    let mut out: Vec<char> = Vec::new();
    out.push('0');
    out.push('x');
    push_all(&mut out, &to_hex(address));
    assert(out@ =~= hex_address(address));
    string_of(&out)
}

} // verus!
