//! Random numbers.

use crate::wire::{from_le32, from_le64, read_le32, read_le64};
use vstd::prelude::*;

verus! {

/// `getrandom::fill`: fills the buffer with bytes of the system's random source, and says whether
/// it could. Nothing is known of the bytes.
#[verifier::external_body]
fn fill_random(buffer: &mut Vec<u8>) -> (r: bool)
    ensures
        final(buffer)@.len() == old(buffer)@.len(),
{
    getrandom::fill(buffer.as_mut_slice()).is_ok()
}

/// The number in eight bytes, if they were filled.
pub fn number_from(filled: bool, bytes: &[u8]) -> (r: Option<u64>)
    requires
        bytes@.len() == 8,
    ensures
        r == if filled {
            Some(from_le64(bytes@))
        } else {
            None
        },
{
    if filled {
        Some(read_le64(bytes))
    } else {
        None
    }
}

/// A random number, if the system has one. It is the one that `bytes` hold afterwards.
fn random_u64(bytes: &mut Vec<u8>) -> (r: Option<u64>)
    requires
        old(bytes)@.len() == 8,
    ensures
        final(bytes)@.len() == 8,
        r matches Some(value) ==> value == from_le64(final(bytes)@),
{
    let filled: bool = fill_random(bytes);
    number_from(filled, bytes.as_slice())
}

/// A number as one that is not zero.
pub fn nonzero(value: u64) -> (r: u64)
    ensures
        r == if value == 0 {
            1
        } else {
            value
        },
{
    if value == 0 {
        1
    } else {
        value
    }
}

/// A random number that is not zero, if the system has one.
pub fn random_nonzero() -> (r: Option<u64>)
    ensures
        r matches Some(value) ==> value != 0,
{
    let mut bytes: Vec<u8> = vec![0, 0, 0, 0, 0, 0, 0, 0];
    match random_u64(&mut bytes) {
        Some(value) => Some(nonzero(value)),
        None => None,
    }
}

/// A number as that of an incarnation: positive and odd.
pub open spec fn incarnation(value: u32) -> i32 {
    ((value & 0x7fff_ffff) | 1) as i32
}

pub fn incarnation_of(value: u32) -> (r: i32)
    ensures
        r == incarnation(value),
        r > 0,
        r % 2 == 1,
{
    let bits: u32 = (value & 0x7fff_ffff) | 1;
    assert(0 < bits <= 0x7fff_ffff && bits % 2 == 1) by (bit_vector)
        requires
            bits == (value & 0x7fff_ffff) | 1,
    ;
    bits as i32
}

/// The number for an incarnation that four bytes stand for, if they were filled.
pub fn incarnation_from(filled: bool, bytes: &[u8]) -> (r: Option<i32>)
    requires
        bytes@.len() == 4,
    ensures
        r == if filled {
            Some(incarnation(from_le32(bytes@)))
        } else {
            None
        },
        r matches Some(value) ==> value > 0 && value % 2 == 1,
{
    if filled {
        Some(incarnation_of(read_le32(bytes)))
    } else {
        None
    }
}

/// A random number for an incarnation, if the system has one.
pub fn random_incarnation() -> (r: Option<i32>)
    ensures
        r matches Some(value) ==> value > 0 && value % 2 == 1,
{
    let mut bytes: Vec<u8> = vec![0, 0, 0, 0];
    let filled: bool = fill_random(&mut bytes);
    incarnation_from(filled, bytes.as_slice())
}

/// How many of the smallest numbers are not used to draw one below `upper`.
pub open spec fn unused(upper: u64) -> int {
    (0x1_0000_0000_0000_0000 - upper) % (upper as int)
}

/// The number below `upper` that a random number stands for, unless it is one of the unused.
pub open spec fn drawn(value: u64, upper: u64) -> Option<u64> {
    if value >= unused(upper) {
        Some((value % upper) as u64)
    } else {
        None
    }
}

pub fn draw(value: u64, upper: u64) -> (r: Option<u64>)
    requires
        upper > 0,
    ensures
        r == drawn(value, upper),
        r matches Some(number) ==> number < upper,
{
    let rest: u128 = 0x1_0000_0000_0000_0000 - upper as u128;
    let threshold: u128 = rest % (upper as u128);
    if value as u128 >= threshold {
        Some(value % upper)
    } else {
        None
    }
}

/// What comes of a random number: there is none, it is one of the unused, or it stands for one.
#[derive(Clone, Copy, Debug, PartialEq, Eq, Structural)]
pub enum Drawing {
    Failed,
    Again,
    Drawn(u64),
}

/// What comes of a random number, if there is one, where a number below `upper` is wanted.
pub fn draw_next(value: Option<u64>, upper: u64) -> (r: Drawing)
    requires
        upper > 0,
    ensures
        r == match value {
            None => Drawing::Failed,
            Some(value) => match drawn(value, upper) {
                None => Drawing::Again,
                Some(number) => Drawing::Drawn(number),
            },
        },
        r matches Drawing::Drawn(number) ==> number < upper,
{
    match value {
        None => Drawing::Failed,
        Some(value) => match draw(value, upper) {
            None => Drawing::Again,
            Some(number) => Drawing::Drawn(number),
        },
    }
}

/// A random number below `upper`, if the system has one. It draws until a number stands for one,
/// which every draw does with a chance of at least one half.
pub fn random_below(upper: u64) -> (r: Option<u64>)
    requires
        upper > 0,
    ensures
        r matches Some(number) ==> number < upper,
{
    let mut bytes: Vec<u8> = vec![0, 0, 0, 0, 0, 0, 0, 0];
    let mut left: u64 = u64::MAX;
    while left > 0
        invariant
            upper > 0,
            bytes@.len() == 8,
        decreases left,
    {
        match draw_next(random_u64(&mut bytes), upper) {
            Drawing::Failed => {
                return None;
            },
            Drawing::Again => {},
            Drawing::Drawn(number) => {
                return Some(number);
            },
        }
        left = left - 1;
    }
    None
}

/// All numbers below `upper` are drawn equally often: the numbers that are used are a multiple of
/// `upper`, and at least half of all.
pub proof fn law_draws_are_fair(upper: u64)
    requires
        upper > 0,
    ensures
        (0x1_0000_0000_0000_0000 - unused(upper)) % (upper as int) == 0,
        2 * unused(upper) <= 0x1_0000_0000_0000_0000,
{
    let n: int = 0x1_0000_0000_0000_0000;
    let u = upper as int;
    let rest = n - u;
    vstd::arithmetic::div_mod::lemma_fundamental_div_mod(rest, u);
    let q = rest / u;
    assert(n - unused(upper) == (q + 1) * u) by (nonlinear_arith)
        requires
            rest == u * q + unused(upper),
            rest == n - u,
    ;
    vstd::arithmetic::div_mod::lemma_mod_multiples_basic(q + 1, u);
    vstd::arithmetic::div_mod::lemma_mod_bound(rest, u);
    if 2 * unused(upper) > n {
        assert(q >= 1) by (nonlinear_arith)
            requires
                rest == u * q + unused(upper),
                unused(upper) < u,
                2 * u > n,
                q >= 0,
                rest == n - u,
                2 * unused(upper) > n,
        ;
    }
}

} // verus!
