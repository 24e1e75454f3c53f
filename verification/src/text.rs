//! Texts: numbers, whitespace and pieces.

use vstd::prelude::*;

verus! {

// ---------------------------------------------------------------------------
// Numbers
// ---------------------------------------------------------------------------

/// The value of a digit, at most a hexadecimal one.
pub open spec fn digit_value(b: u8) -> nat {
    if 48 <= b <= 57 {
        (b - 48) as nat
    } else if 97 <= b <= 102 {
        (b - 87) as nat
    } else if 65 <= b <= 70 {
        (b - 55) as nat
    } else {
        16
    }
}

/// The number that digits stand for, if all of them are digits.
pub open spec fn digits_value(digits: Seq<u8>, radix: nat) -> Option<nat>
    decreases digits.len(),
{
    if digits.len() == 0 {
        Some(0)
    } else {
        match digits_value(digits.drop_last(), radix) {
            None => None,
            Some(value) => if digit_value(digits.last()) < radix {
                Some(value * radix + digit_value(digits.last()))
            } else {
                None
            },
        }
    }
}

/// A number of at least one digit.
pub open spec fn number(digits: Seq<u8>, radix: nat) -> Option<nat> {
    if digits.len() == 0 {
        None
    } else {
        digits_value(digits, radix)
    }
}

/// A number that may have a plus sign.
pub open spec fn unsigned_number(digits: Seq<u8>, radix: nat) -> Option<nat> {
    if digits.len() > 0 && digits[0] == 43 {
        number(digits.skip(1), radix)
    } else {
        number(digits, radix)
    }
}

fn digit(b: u8) -> (r: u8)
    ensures
        r == digit_value(b),
{
    if b >= 48 && b <= 57 {
        b - 48
    } else if b >= 97 && b <= 102 {
        b - 87
    } else if b >= 65 && b <= 70 {
        b - 55
    } else {
        16
    }
}

proof fn lemma_digits_prefix(digits: Seq<u8>, radix: nat, n: int)
    requires
        0 <= n <= digits.len(),
        radix >= 1,
    ensures
        digits_value(digits.take(n), radix) is None ==> digits_value(digits, radix) is None,
        digits_value(digits, radix) matches Some(value) ==> digits_value(
            digits.take(n),
            radix,
        )->Some_0 <= value,
    decreases digits.len() - n,
{
    if n < digits.len() {
        lemma_digits_prefix(digits, radix, n + 1);
        assert(digits.take(n + 1).drop_last() =~= digits.take(n));
        let value = digits_value(digits.take(n), radix)->Some_0;
        assert(value * radix >= value) by (nonlinear_arith)
            requires
                radix >= 1,
                value >= 0,
        ;
    } else {
        assert(digits.take(n) =~= digits);
    }
}

/// The number in `digits` from `from` on, if it is one and at most `max`.
pub fn parse_number(digits: &[u8], from: usize, radix: u8, max: u64) -> (r: Option<u64>)
    requires
        from <= digits@.len(),
        2 <= radix <= 16,
        max <= i64::MAX,
    ensures
        match r {
            Some(value) => number(digits@.skip(from as int), radix as nat) == Some(value as nat)
                && value <= max,
            None => match number(digits@.skip(from as int), radix as nat) {
                Some(value) => value > max,
                None => true,
            },
        },
{
    let ghost all = digits@.skip(from as int);
    if from == digits.len() {
        return None;
    }
    let mut value: u64 = 0;
    let mut i: usize = from;
    assert(all.take(0) =~= Seq::empty());
    while i < digits.len()
        invariant
            from <= i <= digits@.len(),
            from < digits@.len(),
            all == digits@.skip(from as int),
            2 <= radix <= 16,
            max <= i64::MAX,
            value <= max,
            digits_value(all.take(i - from), radix as nat) == Some(value as nat),
        decreases digits@.len() - i,
    {
        proof {
            assert(all.take(i - from + 1).drop_last() =~= all.take(i - from));
            assert(all.take(i - from + 1).last() == digits@[i as int]);
            lemma_digits_prefix(all, radix as nat, i - from + 1);
            assert(value * radix <= i64::MAX * 16) by (nonlinear_arith)
                requires
                    value <= i64::MAX,
                    radix <= 16,
            ;
        }
        let next: u8 = digit(digits[i]);
        if next >= radix {
            return None;
        }
        let wide: u128 = value as u128 * radix as u128 + next as u128;
        if wide > max as u128 {
            return None;
        }
        value = wide as u64;
        i = i + 1;
    }
    assert(all.take(i - from) =~= all);
    Some(value)
}

/// The number in `digits`, if it is one and at most `max`.
pub fn parse_unsigned(digits: &[u8], radix: u8, max: u64) -> (r: Option<u64>)
    requires
        2 <= radix <= 16,
        max <= i64::MAX,
    ensures
        match r {
            Some(value) => unsigned_number(digits@, radix as nat) == Some(value as nat) && value
                <= max,
            None => match unsigned_number(digits@, radix as nat) {
                Some(value) => value > max,
                None => true,
            },
        },
{
    assert(digits@.skip(0) =~= digits@);
    let from: usize = if digits.len() > 0 && digits[0] == 43 {
        1
    } else {
        0
    };
    parse_number(digits, from, radix, max)
}

// ---------------------------------------------------------------------------
// Characters
// ---------------------------------------------------------------------------

/// The characters of a text.
pub fn chars_of(s: &str) -> (r: Vec<char>)
    ensures
        r@ == s@,
{
    let mut chars: Vec<char> = Vec::new();
    for c in it: s.chars()
        invariant
            chars@ == s@.take(it.index()),
            it.seq() == s@,
    {
        chars.push(c);
    }
    assert(chars@ =~= s@);
    chars
}

/// `String::from_iter`: the text of these characters.
#[verifier::external_body]
pub(crate) fn string_of(chars: Vec<char>) -> (r: String)
    ensures
        r@ == chars@,
{
    String::from_iter(chars)
}

/// Whether a character is white space in Unicode.
pub open spec fn white_space(c: char) -> bool {
    ||| '\u{9}' <= c <= '\u{d}'
    ||| c == ' '
    ||| c == '\u{85}'
    ||| c == '\u{a0}'
    ||| c == '\u{1680}'
    ||| '\u{2000}' <= c <= '\u{200a}'
    ||| c == '\u{2028}'
    ||| c == '\u{2029}'
    ||| c == '\u{202f}'
    ||| c == '\u{205f}'
    ||| c == '\u{3000}'
}

fn is_white_space(c: char) -> (r: bool)
    ensures
        r == white_space(c),
{
    (c >= '\u{9}' && c <= '\u{d}') || c == ' ' || c == '\u{85}' || c == '\u{a0}' || c == '\u{1680}'
        || (c >= '\u{2000}' && c <= '\u{200a}') || c == '\u{2028}' || c == '\u{2029}' || c
        == '\u{202f}' || c == '\u{205f}' || c == '\u{3000}'
}

/// A text without the white space before it.
pub open spec fn trim_start(s: Seq<char>) -> Seq<char>
    decreases s.len(),
{
    if s.len() > 0 && white_space(s[0]) {
        trim_start(s.skip(1))
    } else {
        s
    }
}

/// A text without the white space behind it.
pub open spec fn trim_end(s: Seq<char>) -> Seq<char>
    decreases s.len(),
{
    if s.len() > 0 && white_space(s.last()) {
        trim_end(s.drop_last())
    } else {
        s
    }
}

/// A text without the white space around it.
pub open spec fn trimmed(s: Seq<char>) -> Seq<char> {
    trim_end(trim_start(s))
}

/// The characters from `from` to `to`.
pub fn part(chars: &Vec<char>, from: usize, to: usize) -> (r: Vec<char>)
    requires
        from <= to <= chars@.len(),
    ensures
        r@ == chars@.subrange(from as int, to as int),
{
    let mut r: Vec<char> = Vec::new();
    let mut i: usize = from;
    while i < to
        invariant
            from <= i <= to <= chars@.len(),
            r@ =~= chars@.subrange(from as int, i as int),
        decreases to - i,
    {
        r.push(chars[i]);
        i = i + 1;
    }
    r
}

pub fn trim(chars: &Vec<char>) -> (r: Vec<char>)
    ensures
        r@ == trimmed(chars@),
{
    let mut from: usize = 0;
    assert(chars@.skip(0) =~= chars@);
    while from < chars.len() && is_white_space(chars[from])
        invariant
            from <= chars@.len(),
            trim_start(chars@) == trim_start(chars@.skip(from as int)),
        decreases chars@.len() - from,
    {
        assert(chars@.skip(from as int).skip(1) =~= chars@.skip(from + 1));
        from = from + 1;
    }
    let mut to: usize = chars.len();
    let ghost start = chars@.skip(from as int);
    assert(chars@.subrange(from as int, to as int) =~= start);
    while to > from && is_white_space(chars[to - 1])
        invariant
            from <= to <= chars@.len(),
            trim_end(start) == trim_end(chars@.subrange(from as int, to as int)),
        decreases to,
    {
        assert(chars@.subrange(from as int, to as int).drop_last() =~= chars@.subrange(
            from as int,
            to - 1,
        ));
        to = to - 1;
    }
    part(chars, from, to)
}

/// What follows a prefix.
pub open spec fn after_prefix(s: Seq<char>, prefix: Seq<char>) -> Option<Seq<char>> {
    if s.len() >= prefix.len() && s.take(prefix.len() as int) == prefix {
        Some(s.skip(prefix.len() as int))
    } else {
        None
    }
}

pub fn strip_prefix(chars: &Vec<char>, prefix: &Vec<char>) -> (r: Option<Vec<char>>)
    ensures
        match r {
            Some(rest) => after_prefix(chars@, prefix@) == Some(rest@),
            None => after_prefix(chars@, prefix@) is None,
        },
{
    if chars.len() < prefix.len() {
        return None;
    }
    let mut i: usize = 0;
    while i < prefix.len()
        invariant
            i <= prefix@.len() <= chars@.len(),
            forall|j: int| 0 <= j < i ==> chars@[j] == prefix@[j],
        decreases prefix@.len() - i,
    {
        if chars[i] != prefix[i] {
            assert(chars@.take(prefix@.len() as int)[i as int] != prefix@[i as int]);
            return None;
        }
        i = i + 1;
    }
    assert(chars@.take(prefix@.len() as int) =~= prefix@);
    let rest = part(chars, prefix.len(), chars.len());
    assert(rest@ =~= chars@.skip(prefix@.len() as int));
    Some(rest)
}

/// Where a character stands last.
pub open spec fn last_index(s: Seq<char>, c: char) -> Option<int>
    decreases s.len(),
{
    if s.len() == 0 {
        None
    } else if s.last() == c {
        Some(s.len() - 1)
    } else {
        last_index(s.drop_last(), c)
    }
}

/// The parts before and behind the last occurrence of a character.
pub open spec fn split_last(s: Seq<char>, c: char) -> Option<(Seq<char>, Seq<char>)> {
    match last_index(s, c) {
        Some(at) => Some((s.take(at), s.skip(at + 1))),
        None => None,
    }
}

proof fn lemma_last_index(s: Seq<char>, c: char)
    ensures
        last_index(s, c) matches Some(at) ==> 0 <= at < s.len() && s[at] == c,
    decreases s.len(),
{
    if s.len() > 0 && s.last() != c {
        lemma_last_index(s.drop_last(), c);
    }
}

pub fn split_at_last(chars: &Vec<char>, c: char) -> (r: Option<(Vec<char>, Vec<char>)>)
    ensures
        match r {
            Some(parts) => split_last(chars@, c) == Some((parts.0@, parts.1@)),
            None => split_last(chars@, c) is None,
        },
{
    let mut at: usize = chars.len();
    assert(chars@.take(at as int) =~= chars@);
    while at > 0
        invariant
            at <= chars@.len(),
            last_index(chars@, c) == last_index(chars@.take(at as int), c),
        decreases at,
    {
        assert(chars@.take(at as int).drop_last() =~= chars@.take(at - 1));
        if chars[at - 1] == c {
            let before = part(chars, 0, at - 1);
            let behind = part(chars, at, chars.len());
            assert(before@ =~= chars@.take(at - 1));
            assert(behind@ =~= chars@.skip(at as int));
            return Some((before, behind));
        }
        at = at - 1;
    }
    None
}

/// Whether a character is in a text.
pub fn contains_char(chars: &Vec<char>, c: char) -> (r: bool)
    ensures
        r == chars@.contains(c),
{
    let mut i: usize = 0;
    while i < chars.len()
        invariant
            i <= chars@.len(),
            forall|j: int| 0 <= j < i ==> chars@[j] != c,
        decreases chars@.len() - i,
    {
        if chars[i] == c {
            assert(chars@.contains(c));
            return true;
        }
        i = i + 1;
    }
    false
}

/// A text without the dot at its end.
pub open spec fn undotted(s: Seq<char>) -> Seq<char> {
    if s.len() > 0 && s.last() == '.' {
        s.drop_last()
    } else {
        s
    }
}

pub fn strip_dot(chars: Vec<char>) -> (r: Vec<char>)
    ensures
        r@ == undotted(chars@),
{
    let mut chars = chars;
    let length: usize = chars.len();
    if length > 0 && chars[length - 1] == '.' {
        let ghost before = chars@;
        chars.pop();
        assert(chars@ =~= before.drop_last());
    }
    chars
}

/// Characters as bytes, for those that are digits or signs. All others become a byte that is not.
pub open spec fn narrowed(s: Seq<char>) -> Seq<u8> {
    Seq::new(
        s.len(),
        |i: int|
            if s[i] <= '\u{7f}' {
                s[i] as u8
            } else {
                0xffu8
            },
    )
}

fn narrow(chars: &Vec<char>) -> (r: Vec<u8>)
    ensures
        r@ == narrowed(chars@),
{
    let mut r: Vec<u8> = Vec::new();
    let mut i: usize = 0;
    while i < chars.len()
        invariant
            i <= chars@.len(),
            r@ =~= narrowed(chars@).take(i as int),
        decreases chars@.len() - i,
    {
        let c: char = chars[i];
        r.push(
            if c <= '\u{7f}' {
                c as u8
            } else {
                0xff
            },
        );
        i = i + 1;
    }
    assert(r@ =~= narrowed(chars@));
    r
}

/// The decimal number that a text is, if it is one and at most `max`.
pub open spec fn decimal_value(s: Seq<char>, max: nat) -> Option<nat> {
    match unsigned_number(narrowed(s), 10) {
        Some(value) => if value <= max {
            Some(value)
        } else {
            None
        },
        None => None,
    }
}

pub fn parse_decimal(chars: &Vec<char>, max: u32) -> (r: Option<u32>)
    ensures
        match r {
            Some(value) => decimal_value(chars@, max as nat) == Some(value as nat),
            None => decimal_value(chars@, max as nat) is None,
        },
{
    let bytes = narrow(chars);
    match parse_unsigned(bytes.as_slice(), 10, max as u64) {
        Some(value) => Some(value as u32),
        None => None,
    }
}

} // verus!
