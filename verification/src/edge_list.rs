//! The edge-list line format: two whitespace-separated non-negative decimal
//! integers, with anything after them ignored.

use vstd::prelude::*;

verus! {

/// Whether `c` is a whitespace character: one with the Unicode property
/// `White_Space`.
pub open spec fn is_space(c: char) -> bool {
    let u = c as u32;
    ||| 0x09 <= u <= 0x0d
    ||| u == 0x20
    ||| u == 0x85
    ||| u == 0xa0
    ||| u == 0x1680
    ||| 0x2000 <= u <= 0x200a
    ||| u == 0x2028
    ||| u == 0x2029
    ||| u == 0x202f
    ||| u == 0x205f
    ||| u == 0x3000
}

/// Whether `c` is one of the digits `0` to `9`.
pub open spec fn is_digit(c: char) -> bool {
    0x30 <= c as u32 <= 0x39
}

/// The first index at or after `from` whose character is not whitespace
/// (with `spaces`) or is whitespace (without), or the length of `s`.
pub open spec fn scan(s: Seq<char>, from: int, spaces: bool) -> int
    decreases s.len() - from,
{
    if from < 0 || from >= s.len() || is_space(s[from]) != spaces {
        from
    } else {
        scan(s, from + 1, spaces)
    }
}

/// The number that a sequence of digits denotes in base 10.
pub open spec fn decimal(s: Seq<char>) -> nat
    decreases s.len(),
{
    if s.len() == 0 {
        0
    } else {
        decimal(s.drop_last()) * 10 + (s.last() as u32 - 0x30) as nat
    }
}

/// Whether every character of `s` is a digit.
pub open spec fn all_digits(s: Seq<char>) -> bool {
    forall|i: int| 0 <= i < s.len() ==> is_digit(#[trigger] s[i])
}

/// The number that a non-empty run of digits denotes, if it fits a machine
/// word.
pub open spec fn number_of(digits: Seq<char>) -> Option<usize> {
    if digits.len() > 0 && all_digits(digits) && decimal(digits) <= usize::MAX {
        Some(decimal(digits) as usize)
    } else {
        None
    }
}

/// The node ID that a token denotes: an optional `+`, then at least one
/// digit, with a value that fits a machine word.
pub open spec fn id_of(token: Seq<char>) -> Option<usize> {
    if token.len() > 0 && token[0] == '+' {
        number_of(token.drop_first())
    } else {
        number_of(token)
    }
}

/// The edge that a line denotes: the IDs of its first two tokens.
pub open spec fn edge_of(line: Seq<char>) -> Option<(usize, usize)> {
    let a0 = scan(line, 0, true);
    let a1 = scan(line, a0, false);
    let b0 = scan(line, a1, true);
    let b1 = scan(line, b0, false);
    match (id_of(line.subrange(a0, a1)), id_of(line.subrange(b0, b1))) {
        (Some(a), Some(b)) => Some((a, b)),
        _ => None,
    }
}

proof fn lemma_scan_bounds(s: Seq<char>, from: int, spaces: bool)
    requires
        0 <= from <= s.len(),
    ensures
        from <= scan(s, from, spaces) <= s.len(),
    decreases s.len() - from,
{
    if from < s.len() && is_space(s[from]) == spaces {
        lemma_scan_bounds(s, from + 1, spaces);
    }
}

proof fn lemma_decimal_prefix(s: Seq<char>, n: int)
    requires
        0 <= n <= s.len(),
    ensures
        decimal(s.take(n)) <= decimal(s),
    decreases s.len(),
{
    if n < s.len() {
        lemma_decimal_prefix(s.drop_last(), n);
        assert(s.drop_last().take(n) == s.take(n));
    } else {
        assert(s.take(n) == s);
    }
}

fn space(c: char) -> (r: bool)
    ensures
        r == is_space(c),
{
    let u = c as u32;
    (0x09 <= u && u <= 0x0d) || u == 0x20 || u == 0x85 || u == 0xa0 || u == 0x1680 || (0x2000 <= u
        && u <= 0x200a) || u == 0x2028 || u == 0x2029 || u == 0x202f || u == 0x205f || u == 0x3000
}

/// The characters of a string, one by one.
fn chars_of(line: &str) -> (chars: Vec<char>)
    ensures
        chars@ == line@,
{
    let mut chars: Vec<char> = Vec::new();
    for c in it: line.chars()
        invariant
            it.seq() == line@,
            chars@ == line@.take(it.index() as int),
    {
        chars.push(c);
    }
    chars
}

/// Steps over whitespace (with `spaces`) or over a token (without).
fn skip(chars: &Vec<char>, from: usize, spaces: bool) -> (to: usize)
    requires
        from <= chars@.len(),
    ensures
        to == scan(chars@, from as int, spaces),
        from <= to <= chars@.len(),
{
    let mut i = from;
    while i < chars.len() && space(chars[i]) == spaces
        invariant
            from <= i <= chars@.len(),
            scan(chars@, i as int, spaces) == scan(chars@, from as int, spaces),
        decreases chars@.len() - i,
    {
        i += 1;
    }
    i
}

/// Reads the digits that fill `chars[from..to]` as a number.
fn read_number(chars: &Vec<char>, from: usize, to: usize) -> (r: Option<usize>)
    requires
        from <= to <= chars@.len(),
    ensures
        r == number_of(chars@.subrange(from as int, to as int)),
{
    let ghost digits = chars@.subrange(from as int, to as int);
    if from == to {
        return None;
    }
    let mut value: usize = 0;
    let mut i = from;
    while i < to
        invariant
            from <= i <= to <= chars@.len(),
            digits == chars@.subrange(from as int, to as int),
            value == decimal(digits.take(i - from)),
            forall|j: int| 0 <= j < i - from ==> is_digit(#[trigger] digits[j]),
        decreases to - i,
    {
        let u = chars[i] as u32;
        assert(digits[i - from] == chars@[i as int]);
        if u < 0x30 || u > 0x39 {
            assert(!is_digit(digits[i - from]));
            return None;
        }
        let d = (u - 0x30) as usize;
        proof {
            let next = digits.take(i - from + 1);
            assert(next.drop_last() == digits.take(i - from));
            assert(next.last() == chars@[i as int]);
            lemma_decimal_prefix(digits, i - from + 1);
        }
        if value > (usize::MAX - d) / 10 {
            return None;
        }
        value = value * 10 + d;
        i += 1;
    }
    assert(digits.take(to - from) == digits);
    Some(value)
}

/// Reads the token that fills `chars[from..to]` as a node ID.
fn read_id(chars: &Vec<char>, from: usize, to: usize) -> (r: Option<usize>)
    requires
        from <= to <= chars@.len(),
    ensures
        r == id_of(chars@.subrange(from as int, to as int)),
{
    let ghost token = chars@.subrange(from as int, to as int);
    if from < to && chars[from] == '+' {
        assert(token.drop_first() == chars@.subrange(from + 1, to as int));
        read_number(chars, from + 1, to)
    } else {
        read_number(chars, from, to)
    }
}

/// Reads one line of an edge list: `Some` of the two node IDs that it starts
/// with, `None` when it does not start with two.
pub fn parse_edge(line: &str) -> (r: Option<(usize, usize)>)
    ensures
        r == edge_of(line@),
{
    let chars = chars_of(line);
    let a0 = skip(&chars, 0, true);
    let a1 = skip(&chars, a0, false);
    let b0 = skip(&chars, a1, true);
    let b1 = skip(&chars, b0, false);
    match read_id(&chars, a0, a1) {
        None => None,
        Some(a) => match read_id(&chars, b0, b1) {
            None => None,
            Some(b) => Some((a, b)),
        },
    }
}

} // verus!
