//! What numbers are written as, and what is read of texts.

use crate::text::{
    after_prefix, decimal_value, digit_value, digits_value, narrowed, number, split_last,
    trim_end, trim_start, trimmed, unsigned_number, white_space,
};
use crate::wire::{
    bool_byte, decimal, from_le16, from_le32, from_le64, le16, le32, le64, signed16, signed32,
    signed64, signed8, unsigned16, unsigned32, unsigned64, unsigned8,
};
use vstd::prelude::*;

verus! {

// ---------------------------------------------------------------------------
// Bytes of numbers
// ---------------------------------------------------------------------------

/// Numbers are written with their least significant byte first.
pub proof fn law_numbers_are_little_endian(x: u16, y: u32, z: u64)
    ensures
        le16(x).len() == 2 && le16(x)[0] + le16(x)[1] * 0x100 == x,
        le32(y).len() == 4 && le32(y)[0] + le32(y)[1] * 0x100 + le32(y)[2] * 0x1_0000 + le32(y)[3]
            * 0x100_0000 == y,
        ({
            let b = le64(z);
            &&& b.len() == 8
            &&& b[0] + b[1] * 0x100 + b[2] * 0x1_0000 + b[3] * 0x100_0000 + b[4] * 0x1_0000_0000
                + b[5] * 0x100_0000_0000 + b[6] * 0x1_0000_0000_0000 + b[7]
                * 0x100_0000_0000_0000 == z
        }),
{
    reveal(le16);
    reveal(le32);
    reveal(le64);
    let low = (z % 0x1_0000_0000) as u32;
    let high = (z / 0x1_0000_0000) as u32;
    assert(z == low + high * 0x1_0000_0000);
    assert(low == low % 256 + low / 256 % 256 * 256 + low / 65536 % 256 * 65536 + low / 16777216
        * 16777216);
    assert(high == high % 256 + high / 256 % 256 * 256 + high / 65536 % 256 * 65536 + high
        / 16777216 * 16777216);
    let b = le64(z);
    assert(b[4] == le32(high)[0] && b[5] == le32(high)[1] && b[6] == le32(high)[2] && b[7]
        == le32(high)[3]);
}

/// Bytes are read as the number whose least significant byte is first.
pub proof fn law_numbers_are_read_little_endian(b: Seq<u8>)
    ensures
        b.len() == 2 ==> from_le16(b) == b[0] + b[1] * 0x100,
        b.len() == 4 ==> from_le32(b) == b[0] + b[1] * 0x100 + b[2] * 0x1_0000 + b[3]
            * 0x100_0000,
        b.len() == 8 ==> from_le64(b) == b[0] + b[1] * 0x100 + b[2] * 0x1_0000 + b[3] * 0x100_0000
            + b[4] * 0x1_0000_0000 + b[5] * 0x100_0000_0000 + b[6] * 0x1_0000_0000_0000 + b[7]
            * 0x100_0000_0000_0000,
{
    reveal(from_le16);
    reveal(from_le32);
    reveal(from_le64);
    if b.len() == 8 {
        let low = b.subrange(0, 4);
        let high = b.subrange(4, 8);
        assert(low[0] == b[0] && low[1] == b[1] && low[2] == b[2] && low[3] == b[3]);
        assert(high[0] == b[4] && high[1] == b[5] && high[2] == b[6] && high[3] == b[7]);
        assert(from_le32(low) == low[0] + low[1] * 256 + low[2] * 65536 + low[3] * 16777216);
        assert(from_le32(high) == high[0] + high[1] * 256 + high[2] * 65536 + high[3] * 16777216);
    }
}

/// Negative numbers are written as what is left of the next power of two, and read back.
pub proof fn law_negative_numbers_are_complements(a: i8, b: i16, c: i32, d: i64)
    ensures
        unsigned8(a) == a || unsigned8(a) == a + 0x100,
        unsigned16(b) == b || unsigned16(b) == b + 0x1_0000,
        unsigned32(c) == c || unsigned32(c) == c + 0x1_0000_0000,
        unsigned64(d) == d || unsigned64(d) == d + 0x1_0000_0000_0000_0000,
        signed8(unsigned8(a)) == a,
        signed16(unsigned16(b)) == b,
        signed32(unsigned32(c)) == c,
        signed64(unsigned64(d)) == d,
        bool_byte(true) == seq![1u8],
        bool_byte(false) == seq![0u8],
{
}

// ---------------------------------------------------------------------------
// Digits
// ---------------------------------------------------------------------------

/// The digits are those of ASCII, and the letters of either case that follow on nine.
pub proof fn law_digits_have_their_values(b: u8)
    ensures
        digit_value(b) < 10 <==> '0' as int <= b <= '9' as int,
        '0' as int <= b <= '9' as int ==> digit_value(b) == b - '0' as int,
        'a' as int <= b <= 'f' as int ==> digit_value(b) == 10 + b - 'a' as int,
        'A' as int <= b <= 'F' as int ==> digit_value(b) == 10 + b - 'A' as int,
        digit_value(b) < 16 ==> ('0' as int <= b <= '9' as int || 'a' as int <= b <= 'f' as int
            || 'A' as int <= b <= 'F' as int),
{
}

/// A digit more makes a number the radix times as large, and adds its value. A byte that is no digit
/// makes it none, and no digits are none.
pub proof fn law_digits_are_read_in_order(digits: Seq<u8>, b: u8, radix: nat)
    requires
        2 <= radix <= 16,
    ensures
        number(Seq::empty(), radix) is None,
        digit_value(b) < radix ==> number(seq![b], radix) == Some(digit_value(b)),
        digit_value(b) >= radix ==> number(digits.push(b), radix) is None,
        digits.len() > 0 && digit_value(b) < radix ==> match number(digits, radix) {
            Some(value) => number(digits.push(b), radix) == Some(value * radix + digit_value(b)),
            None => number(digits.push(b), radix) is None,
        },
{
    assert(digits.push(b).drop_last() =~= digits);
    reveal_with_fuel(digits_value, 2);
    assert(seq![b].drop_last() =~= Seq::<u8>::empty());
    assert(seq![b].last() == b);
    assert(digits_value(Seq::<u8>::empty(), radix) == Some(0nat));
    assert(0 * radix == 0);
}

/// A number that is written in decimal reads back, with or without a plus sign.
pub proof fn law_decimals_read_back(n: nat)
    ensures
        number(decimal(n), 10) == Some(n),
        unsigned_number(decimal(n), 10) == Some(n),
        unsigned_number(seq!['+' as u8] + decimal(n), 10) == Some(n),
        decimal(n).len() > 1 ==> decimal(n)[0] != '0' as u8,
    decreases n,
{
    reveal_with_fuel(digits_value, 2);
    lemma_decimal(n);
    let signed = seq!['+' as u8] + decimal(n);
    assert(signed.skip(1) =~= decimal(n));
    assert(signed[0] == 43);
}

proof fn lemma_decimal(n: nat)
    ensures
        digits_value(decimal(n), 10) == Some(n),
        decimal(n).len() > 0,
        48 <= decimal(n)[0] <= 57,
        n > 0 ==> decimal(n)[0] != 48,
        n == 0 ==> decimal(n).len() == 1,
    decreases n,
{
    reveal_with_fuel(digits_value, 2);
    if n >= 10 {
        lemma_decimal(n / 10);
        assert(decimal(n).drop_last() =~= decimal(n / 10));
    } else {
        assert(decimal(n).drop_last() =~= Seq::<u8>::empty());
        assert(decimal(n).len() == 1);
    }
}

/// A text is a number if it is one in decimal, of ASCII digits, and no larger than allowed.
pub proof fn law_text_numbers_read_back(n: nat, max: nat)
    ensures
        ({
            let chars = crate::wire::ascii_chars(decimal(n));
            &&& n <= max ==> decimal_value(chars, max) == Some(n)
            &&& n > max ==> decimal_value(chars, max) is None
        }),
{
    law_decimals_read_back(n);
    lemma_decimal_digits(n);
    let chars = crate::wire::ascii_chars(decimal(n));
    assert(narrowed(chars) =~= decimal(n));
}

proof fn lemma_decimal_digits(n: nat)
    ensures
        forall|i: int| 0 <= i < decimal(n).len() ==> 48 <= #[trigger] decimal(n)[i] <= 57,
    decreases n,
{
    if n >= 10 {
        lemma_decimal_digits(n / 10);
        assert forall|i: int| 0 <= i < decimal(n).len() implies 48 <= #[trigger] decimal(n)[i]
            <= 57 by {
            if i < decimal(n / 10).len() {
                assert(decimal(n)[i] == decimal(n / 10)[i]);
            }
        }
    } else {
        assert(decimal(n).len() == 1);
    }
}

// ---------------------------------------------------------------------------
// Parts of texts
// ---------------------------------------------------------------------------

/// Blanks, tabs and line ends are white space, and visible ASCII characters are not.
pub proof fn law_blanks_are_white_space(c: char)
    ensures
        white_space(' ') && white_space('\t') && white_space('\n') && white_space('\r'),
        '!' <= c <= '~' ==> !white_space(c),
{
}

/// What is trimmed begins and ends with no white space, and only white space was taken from its ends.
pub proof fn law_trimming_takes_white_space_alone(s: Seq<char>)
    ensures
        trimmed(s).len() > 0 ==> !white_space(trimmed(s)[0]) && !white_space(trimmed(s).last()),
        exists|from: int, to: int|
            0 <= from <= to <= s.len() && trimmed(s) == #[trigger] s.subrange(from, to) && (forall|
                i: int,
            |
                0 <= i < from || to <= i < s.len() ==> white_space(#[trigger] s[i])),
{
    let from = lemma_trim_start(s);
    let started = trim_start(s);
    let kept = lemma_trim_end(started);
    let to = from + kept;
    assert(trimmed(s) =~= s.subrange(from, to));
    assert forall|i: int| 0 <= i < from || to <= i < s.len() implies white_space(
        #[trigger] s[i],
    ) by {
        if i >= to {
            assert(started[i - from] == s[i]);
        }
    }
}

proof fn lemma_trim_start(s: Seq<char>) -> (from: int)
    ensures
        0 <= from <= s.len(),
        trim_start(s) == s.skip(from),
        forall|i: int| 0 <= i < from ==> white_space(#[trigger] s[i]),
        from < s.len() ==> !white_space(s[from]),
    decreases s.len(),
{
    if s.len() > 0 && white_space(s[0]) {
        let rest = s.skip(1);
        let more = lemma_trim_start(rest);
        assert(rest.skip(more) =~= s.skip(more + 1));
        assert forall|i: int| 0 <= i < more + 1 implies white_space(#[trigger] s[i]) by {
            if i > 0 {
                assert(rest[i - 1] == s[i]);
            }
        }
        more + 1
    } else {
        assert(s.skip(0) =~= s);
        0
    }
}

proof fn lemma_trim_end(s: Seq<char>) -> (to: int)
    ensures
        0 <= to <= s.len(),
        trim_end(s) == s.take(to),
        forall|i: int| to <= i < s.len() ==> white_space(#[trigger] s[i]),
        to > 0 ==> !white_space(s[to - 1]),
    decreases s.len(),
{
    if s.len() > 0 && white_space(s.last()) {
        let rest = s.drop_last();
        let to = lemma_trim_end(rest);
        assert(rest.take(to) =~= s.take(to));
        assert forall|i: int| to <= i < s.len() implies white_space(#[trigger] s[i]) by {
            if i < s.len() - 1 {
                assert(rest[i] == s[i]);
            }
        }
        to
    } else {
        assert(s.take(s.len() as int) =~= s);
        s.len() as int
    }
}

/// What follows a prefix is the rest, and a text that does not begin with it has none.
pub proof fn law_rest_follows_its_prefix(prefix: Seq<char>, rest: Seq<char>, s: Seq<char>)
    ensures
        after_prefix(prefix + rest, prefix) == Some(rest),
        after_prefix(s, prefix) matches Some(left) ==> s == prefix + left,
{
    assert((prefix + rest).take(prefix.len() as int) =~= prefix);
    assert((prefix + rest).skip(prefix.len() as int) =~= rest);
    if after_prefix(s, prefix) is Some {
        assert(s =~= s.take(prefix.len() as int) + s.skip(prefix.len() as int));
    }
}

/// A text is split where a character stands last: what follows does not hold it, and both parts with
/// it between them are the text.
pub proof fn law_text_is_split_at_the_last(s: Seq<char>, c: char)
    ensures
        split_last(s, c) is Some <==> s.contains(c),
        split_last(s, c) matches Some((before, after)) ==> s == before.push(c) + after
            && !after.contains(c),
    decreases s.len(),
{
    if s.len() > 0 {
        let shorter = s.drop_last();
        law_text_is_split_at_the_last(shorter, c);
        if s.last() == c {
            assert(s[s.len() - 1] == c);
            assert(s.skip(s.len() as int) =~= Seq::<char>::empty());
            assert(s =~= s.take(s.len() - 1).push(c) + s.skip(s.len() as int));
        } else {
            if s.contains(c) {
                let k = choose|k: int| 0 <= k < s.len() && s[k] == c;
                assert(shorter[k] == c);
            }
            if shorter.contains(c) {
                let k = choose|k: int| 0 <= k < shorter.len() && shorter[k] == c;
                assert(s[k] == c);
            }
            if split_last(shorter, c) is Some {
                let (before, after) = split_last(shorter, c)->0;
                let whole = split_last(s, c)->0;
                lemma_last_index_is_inside(shorter, c);
                assert(whole.0 =~= before);
                assert(whole.1 =~= after.push(s.last()));
                assert(s =~= shorter.push(s.last()));
                assert(s =~= before.push(c) + after.push(s.last()));
                assert forall|k: int| 0 <= k < whole.1.len() implies whole.1[k] != c by {
                    if k < after.len() {
                        assert(after[k] == whole.1[k]);
                        assert(!after.contains(c));
                    }
                }
            }
        }
    }
}

proof fn lemma_last_index_is_inside(s: Seq<char>, c: char)
    ensures
        crate::text::last_index(s, c) matches Some(at) ==> 0 <= at < s.len(),
    decreases s.len(),
{
    if s.len() > 0 && s.last() != c {
        lemma_last_index_is_inside(s.drop_last(), c);
    }
}

} // verus!
