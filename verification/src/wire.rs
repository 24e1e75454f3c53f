//! Bounded little-endian encoding and decoding of the wire formats.

use vstd::prelude::*;
use vstd::slice::slice_subrange;
use vstd::slice::slice_to_vec;
use vstd::utf8::{decode_utf8, encode_utf8, valid_utf8};

verus! {

/// Why a value could not be encoded or decoded.
#[derive(Clone, Copy, Debug, PartialEq, Eq, Structural)]
pub enum WireError {
    /// A configured or built-in bound was exceeded.
    LimitExceeded,
    /// The bytes do not form a value.
    Malformed,
    /// The sender demands version `required` and this side knows up to `local`.
    UnsupportedVersion { local: u8, required: u8 },
}

// ---------------------------------------------------------------------------
// Integers as bytes
// ---------------------------------------------------------------------------

/// The two bytes of `x`, least significant first.
#[verifier::opaque]
pub open spec fn le16(x: u16) -> Seq<u8> {
    seq![(x % 256) as u8, (x / 256) as u8]
}

/// The four bytes of `x`, least significant first.
#[verifier::opaque]
pub open spec fn le32(x: u32) -> Seq<u8> {
    seq![
        (x % 256) as u8,
        (x / 256 % 256) as u8,
        (x / 65536 % 256) as u8,
        (x / 16777216) as u8,
    ]
}

/// The eight bytes of `x`, least significant first.
#[verifier::opaque]
pub open spec fn le64(x: u64) -> Seq<u8> {
    le32((x % 0x1_0000_0000) as u32) + le32((x / 0x1_0000_0000) as u32)
}

/// The integer whose two bytes are `b`, least significant first.
#[verifier::opaque]
pub open spec fn from_le16(b: Seq<u8>) -> u16 {
    (b[0] + b[1] * 256) as u16
}

/// The integer whose four bytes are `b`, least significant first.
#[verifier::opaque]
pub open spec fn from_le32(b: Seq<u8>) -> u32 {
    (b[0] + b[1] * 256 + b[2] * 65536 + b[3] * 16777216) as u32
}

/// The integer whose eight bytes are `b`, least significant first.
#[verifier::opaque]
pub open spec fn from_le64(b: Seq<u8>) -> u64 {
    (from_le32(b.subrange(0, 4)) + from_le32(b.subrange(4, 8)) * 0x1_0000_0000) as u64
}

/// The two's complement of `x` in eight bits.
pub open spec fn unsigned8(x: i8) -> u8 {
    if x < 0 {
        (x + 0x100) as u8
    } else {
        x as u8
    }
}

/// The two's complement of `x` in sixteen bits.
pub open spec fn unsigned16(x: i16) -> u16 {
    if x < 0 {
        (x + 0x1_0000) as u16
    } else {
        x as u16
    }
}

/// The two's complement of `x` in thirty-two bits.
pub open spec fn unsigned32(x: i32) -> u32 {
    if x < 0 {
        (x + 0x1_0000_0000) as u32
    } else {
        x as u32
    }
}

/// The two's complement of `x` in sixty-four bits.
pub open spec fn unsigned64(x: i64) -> u64 {
    if x < 0 {
        (x + 0x1_0000_0000_0000_0000) as u64
    } else {
        x as u64
    }
}

/// The signed integer whose two's complement is `x`.
pub open spec fn signed8(x: u8) -> i8 {
    if x >= 0x80 {
        (x - 0x100) as i8
    } else {
        x as i8
    }
}

/// The signed integer whose two's complement is `x`.
pub open spec fn signed16(x: u16) -> i16 {
    if x >= 0x8000 {
        (x - 0x1_0000) as i16
    } else {
        x as i16
    }
}

/// The signed integer whose two's complement is `x`.
pub open spec fn signed32(x: u32) -> i32 {
    if x >= 0x8000_0000 {
        (x - 0x1_0000_0000) as i32
    } else {
        x as i32
    }
}

/// The signed integer whose two's complement is `x`.
pub open spec fn signed64(x: u64) -> i64 {
    if x >= 0x8000_0000_0000_0000 {
        (x - 0x1_0000_0000_0000_0000) as i64
    } else {
        x as i64
    }
}

pub fn to_unsigned8(x: i8) -> (r: u8)
    ensures
        r == unsigned8(x),
        signed8(r) == x,
{
    if x < 0 {
        (x as i16 + 0x100) as u8
    } else {
        x as u8
    }
}

pub fn to_unsigned16(x: i16) -> (r: u16)
    ensures
        r == unsigned16(x),
        signed16(r) == x,
{
    if x < 0 {
        (x as i32 + 0x1_0000) as u16
    } else {
        x as u16
    }
}

pub fn to_unsigned32(x: i32) -> (r: u32)
    ensures
        r == unsigned32(x),
        signed32(r) == x,
{
    if x < 0 {
        (x as i64 + 0x1_0000_0000) as u32
    } else {
        x as u32
    }
}

pub fn to_unsigned64(x: i64) -> (r: u64)
    ensures
        r == unsigned64(x),
        signed64(r) == x,
{
    if x < 0 {
        (x as i128 + 0x1_0000_0000_0000_0000) as u64
    } else {
        x as u64
    }
}

pub fn to_signed8(x: u8) -> (r: i8)
    ensures
        r == signed8(x),
{
    if x >= 0x80 {
        (x as i16 - 0x100) as i8
    } else {
        x as i8
    }
}

pub fn to_signed16(x: u16) -> (r: i16)
    ensures
        r == signed16(x),
{
    if x >= 0x8000 {
        (x as i32 - 0x1_0000) as i16
    } else {
        x as i16
    }
}

pub fn to_signed32(x: u32) -> (r: i32)
    ensures
        r == signed32(x),
{
    if x >= 0x8000_0000 {
        (x as i64 - 0x1_0000_0000) as i32
    } else {
        x as i32
    }
}

pub fn to_signed64(x: u64) -> (r: i64)
    ensures
        r == signed64(x),
{
    if x >= 0x8000_0000_0000_0000 {
        (x as i128 - 0x1_0000_0000_0000_0000) as i64
    } else {
        x as i64
    }
}

pub broadcast proof fn lemma_le16(x: u16)
    ensures
        (#[trigger] le16(x)).len() == 2,
        from_le16(le16(x)) == x,
{
    reveal(le16);
    reveal(from_le16);
}

pub broadcast proof fn lemma_le32(x: u32)
    ensures
        (#[trigger] le32(x)).len() == 4,
        from_le32(le32(x)) == x,
{
    reveal(le32);
    reveal(from_le32);
}

pub broadcast proof fn lemma_le64(x: u64)
    ensures
        (#[trigger] le64(x)).len() == 8,
        from_le64(le64(x)) == x,
{
    reveal(le64);
    reveal(from_le64);
    reveal(from_le32);
    let low = (x % 0x1_0000_0000) as u32;
    let high = (x / 0x1_0000_0000) as u32;
    lemma_le32(low);
    lemma_le32(high);
    assert(le64(x).subrange(0, 4) =~= le32(low));
    assert(le64(x).subrange(4, 8) =~= le32(high));
}

/// Integers take as many bytes as they have, and read back.
pub broadcast group group_integers {
    lemma_le16,
    lemma_le32,
    lemma_le64,
}

pub fn read_le16(b: &[u8]) -> (x: u16)
    requires
        b@.len() == 2,
    ensures
        x == from_le16(b@),
{
    proof {
        reveal(from_le16);
    }
    b[0] as u16 + b[1] as u16 * 256
}

pub fn read_le32(b: &[u8]) -> (x: u32)
    requires
        b@.len() == 4,
    ensures
        x == from_le32(b@),
{
    proof {
        reveal(from_le32);
    }
    b[0] as u32 + b[1] as u32 * 256 + b[2] as u32 * 65536 + b[3] as u32 * 16777216
}

pub fn read_le64(b: &[u8]) -> (x: u64)
    requires
        b@.len() == 8,
    ensures
        x == from_le64(b@),
{
    proof {
        reveal(from_le64);
        reveal(from_le32);
    }
    let low = read_le32(slice_subrange(b, 0, 4));
    let high = read_le32(slice_subrange(b, 4, 8));
    low as u64 + high as u64 * 0x1_0000_0000
}

pub fn push_le16(out: &mut Vec<u8>, x: u16)
    ensures
        final(out)@ == old(out)@ + le16(x),
{
    proof {
        reveal(le16);
    }
    out.push((x % 256) as u8);
    out.push((x / 256) as u8);
    assert(out@ =~= old(out)@ + le16(x));
}

pub fn push_le32(out: &mut Vec<u8>, x: u32)
    ensures
        final(out)@ == old(out)@ + le32(x),
{
    proof {
        reveal(le32);
    }
    out.push((x % 256) as u8);
    out.push((x / 256 % 256) as u8);
    out.push((x / 65536 % 256) as u8);
    out.push((x / 16777216) as u8);
    assert(out@ =~= old(out)@ + le32(x));
}

pub fn push_le64(out: &mut Vec<u8>, x: u64)
    ensures
        final(out)@ == old(out)@ + le64(x),
{
    proof {
        reveal(le64);
    }
    push_le32(out, (x % 0x1_0000_0000) as u32);
    push_le32(out, (x / 0x1_0000_0000) as u32);
    assert(out@ =~= old(out)@ + le64(x));
}

// ---------------------------------------------------------------------------
// Byte strings
// ---------------------------------------------------------------------------

/// Whether two byte strings are the same.
pub fn same_bytes(a: &[u8], b: &[u8]) -> (r: bool)
    ensures
        r == (a@ == b@),
{
    if a.len() != b.len() {
        return false;
    }
    let mut i: usize = 0;
    while i < a.len()
        invariant
            i <= a@.len(),
            a@.len() == b@.len(),
            forall|k: int| 0 <= k < i ==> a@[k] == b@[k],
        decreases a@.len() - i,
    {
        if a[i] != b[i] {
            return false;
        }
        i = i + 1;
    }
    assert(a@ =~= b@);
    true
}

/// Whether `a` precedes `b` in the lexicographic order of byte strings.
pub open spec fn bytes_less(a: Seq<u8>, b: Seq<u8>) -> bool
    decreases a.len(),
{
    if b.len() == 0 {
        false
    } else if a.len() == 0 {
        true
    } else if a[0] != b[0] {
        a[0] < b[0]
    } else {
        bytes_less(a.drop_first(), b.drop_first())
    }
}

/// Compares two byte strings in lexicographic order.
pub fn is_bytes_less(a: &[u8], b: &[u8]) -> (r: bool)
    ensures
        r == bytes_less(a@, b@),
{
    let mut i: usize = 0;
    proof {
        assert(a@.skip(0) =~= a@);
        assert(b@.skip(0) =~= b@);
    }
    while i < a.len() && i < b.len()
        invariant
            i <= a@.len(),
            i <= b@.len(),
            bytes_less(a@, b@) == bytes_less(a@.skip(i as int), b@.skip(i as int)),
        decreases a@.len() - i,
    {
        if a[i] != b[i] {
            return a[i] < b[i];
        }
        proof {
            assert(a@.skip(i as int).drop_first() =~= a@.skip(i + 1));
            assert(b@.skip(i as int).drop_first() =~= b@.skip(i + 1));
        }
        i = i + 1;
    }
    i < b.len()
}

/// The order on byte strings is irreflexive.
pub proof fn lemma_bytes_less_irreflexive(a: Seq<u8>)
    ensures
        !bytes_less(a, a),
    decreases a.len(),
{
    if a.len() > 0 {
        lemma_bytes_less_irreflexive(a.drop_first());
    }
}

/// The order on byte strings is transitive.
pub proof fn lemma_bytes_less_transitive(a: Seq<u8>, b: Seq<u8>, c: Seq<u8>)
    requires
        bytes_less(a, b),
        bytes_less(b, c),
    ensures
        bytes_less(a, c),
    decreases a.len(),
{
    if a.len() > 0 && a[0] == b[0] && b[0] == c[0] {
        lemma_bytes_less_transitive(a.drop_first(), b.drop_first(), c.drop_first());
    }
}

/// Of two different byte strings one precedes the other.
pub proof fn lemma_bytes_less_total(a: Seq<u8>, b: Seq<u8>)
    ensures
        a == b || bytes_less(a, b) || bytes_less(b, a),
    decreases a.len(),
{
    if a.len() > 0 && b.len() > 0 && a[0] == b[0] {
        lemma_bytes_less_total(a.drop_first(), b.drop_first());
        if a.drop_first() == b.drop_first() {
            assert(a =~= seq![a[0]] + a.drop_first());
            assert(b =~= seq![b[0]] + b.drop_first());
        }
    } else if a.len() == 0 && b.len() == 0 {
        assert(a =~= b);
    }
}

/// Appends `data` to `out`.
pub fn append_bytes(out: &mut Vec<u8>, data: &[u8])
    ensures
        final(out)@ == old(out)@ + data@,
{
    out.extend_from_slice(data);
    assert(out@ =~= old(out)@ + data@);
}

/// The contents of a byte vector in a result.
pub open spec fn bytes_result<E>(r: Result<Vec<u8>, E>) -> Result<Seq<u8>, E> {
    match r {
        Ok(bytes) => Ok(bytes@),
        Err(error) => Err(error),
    }
}

/// `String::from_utf8`: the text that the bytes encode, if they are valid UTF-8.
#[verifier::external_body]
pub(crate) fn string_from_utf8(bytes: Vec<u8>) -> (r: Option<String>)
    ensures
        r is Some <==> valid_utf8(bytes@),
        r is Some ==> r->Some_0@ == decode_utf8(bytes@),
{
    String::from_utf8(bytes).ok()
}

/// The text whose characters are these bytes.
pub open spec fn ascii_chars(bytes: Seq<u8>) -> Seq<char> {
    Seq::new(bytes.len(), |i: int| bytes[i] as char)
}

/// The text of bytes that are all ASCII.
pub fn ascii_string(bytes: Vec<u8>) -> (r: String)
    requires
        forall|i: int| 0 <= i < bytes@.len() ==> #[trigger] bytes@[i] < 128,
    ensures
        r@ == ascii_chars(bytes@),
{
    proof {
        let chars = ascii_chars(bytes@);
        assert(vstd::utf8::is_ascii_chars(chars)) by {
            assert forall|i: int| 0 <= i < chars.len() implies '\0' <= #[trigger] chars[i]
                <= '\u{7f}' by {
                assert(bytes@[i] < 128);
            }
        }
        vstd::utf8::is_ascii_chars_encode_utf8(chars);
        assert(encode_utf8(chars) =~= bytes@) by {
            assert forall|i: int| 0 <= i < bytes@.len() implies encode_utf8(chars)[i]
                == bytes@[i] by {
                assert(chars[i] as u8 == bytes@[i]);
            }
        }
        vstd::utf8::encode_utf8_valid_utf8(chars);
        vstd::utf8::encode_utf8_decode_utf8(chars);
    }
    match string_from_utf8(bytes) {
        Some(value) => value,
        None => String::new(),
    }
}

/// Whether a text is empty.
pub fn is_empty_text(value: &str) -> (r: bool)
    ensures
        r == (value@.len() == 0),
{
    proof {
        let chars = value@;
        if chars.len() > 0 {
            vstd::utf8::encode_utf8_first_scalar(chars);
        }
        vstd::utf8::encode_utf8_valid_utf8(chars);
        vstd::utf8::encode_utf8_decode_utf8(chars);
    }
    value.as_bytes().len() == 0
}

/// A number in decimal digits.
pub open spec fn decimal(n: nat) -> Seq<u8>
    decreases n,
{
    if n < 10 {
        seq![(48 + n) as u8]
    } else {
        decimal(n / 10).push((48 + n % 10) as u8)
    }
}

/// Appends a number in decimal digits.
pub fn push_decimal(out: &mut Vec<u8>, n: u64)
    ensures
        final(out)@ == old(out)@ + decimal(n as nat),
        forall|i: int|
            0 <= i < decimal(n as nat).len() ==> 48 <= #[trigger] decimal(n as nat)[i] <= 57,
    decreases n,
{
    if n >= 10 {
        push_decimal(out, n / 10);
    }
    out.push(48 + (n % 10) as u8);
    assert(out@ =~= old(out)@ + decimal(n as nat));
}

// ---------------------------------------------------------------------------
// Encoding
// ---------------------------------------------------------------------------

/// The longest encoding: every length on the wire is a `u32`.
pub const MAX_ENCODING: u32 = u32::MAX;

/// `bytes` if they fit in `max` bytes and in the longest encoding.
pub open spec fn bounded(bytes: Seq<u8>, max: nat) -> Result<Seq<u8>, WireError> {
    if bytes.len() <= max && bytes.len() <= MAX_ENCODING {
        Ok(bytes)
    } else {
        Err(WireError::LimitExceeded)
    }
}

/// A boolean as one byte.
pub open spec fn bool_byte(x: bool) -> Seq<u8> {
    seq![if x { 1u8 } else { 0u8 }]
}

/// A byte string behind its length.
pub open spec fn prefixed(data: Seq<u8>) -> Seq<u8> {
    le32(data.len() as u32) + data
}

/// A text as its UTF-8 bytes behind their length.
pub open spec fn text(chars: Seq<char>) -> Seq<u8> {
    prefixed(encode_utf8(chars))
}

/// A payload in its version envelope: version, oldest compatible version, length.
pub open spec fn versioned(version: u8, compat: u8, payload: Seq<u8>) -> Seq<u8> {
    seq![version, compat] + prefixed(payload)
}

/// `count` zero bytes.
pub open spec fn zeros(count: nat) -> Seq<u8> {
    Seq::new(count, |i: int| 0u8)
}

/// Collects an encoding and keeps no more than its limit.
///
/// Its view is everything that was written to it, whether or not it fits.
pub struct Encoder {
    max: usize,
    bytes: Vec<u8>,
    overflow: bool,
    written: Ghost<Seq<u8>>,
}

impl View for Encoder {
    type V = Seq<u8>;

    closed spec fn view(&self) -> Seq<u8> {
        self.written@
    }
}

impl Encoder {
    /// The largest encoding that this encoder yields.
    pub closed spec fn limit(&self) -> nat {
        self.max as nat
    }

    /// What is kept is what was written, up to the first write that did not fit.
    pub closed spec fn wf(&self) -> bool {
        &&& self.max <= MAX_ENCODING
        &&& !self.overflow ==> self.bytes@ == self.written@ && self.written@.len() <= self.max
        &&& self.overflow ==> self.written@.len() > self.max
    }

    /// An empty encoder for at most `max` bytes.
    pub fn new(max: usize) -> (r: Self)
        ensures
            r.wf(),
            r@ == Seq::<u8>::empty(),
            r.limit() == if max <= MAX_ENCODING { max as nat } else { MAX_ENCODING as nat },
    {
        let max: usize = if max as u64 > MAX_ENCODING as u64 { MAX_ENCODING as usize } else { max };
        Encoder { max, bytes: Vec::new(), overflow: false, written: Ghost(Seq::empty()) }
    }

    /// An empty encoder with the limit of this one, for a nested payload.
    pub fn nested(&self) -> (r: Self)
        requires
            self.wf(),
        ensures
            r.wf(),
            r@ == Seq::<u8>::empty(),
            r.limit() == self.limit(),
    {
        Encoder { max: self.max, bytes: Vec::new(), overflow: false, written: Ghost(Seq::empty()) }
    }

    pub fn raw(&mut self, data: &[u8])
        requires
            old(self).wf(),
        ensures
            final(self).wf(),
            final(self).limit() == old(self).limit(),
            final(self)@ == old(self)@ + data@,
    {
        if !self.overflow {
            if data.len() > self.max - self.bytes.len() {
                self.overflow = true;
            } else {
                append_bytes(&mut self.bytes, data);
            }
        }
        self.written = Ghost(self.written@ + data@);
    }

    pub fn u8(&mut self, x: u8)
        requires
            old(self).wf(),
        ensures
            final(self).wf(),
            final(self).limit() == old(self).limit(),
            final(self)@ == old(self)@ + seq![x],
    {
        let mut data: Vec<u8> = Vec::new();
        data.push(x);
        assert(data@ =~= seq![x]);
        self.raw(data.as_slice());
    }

    pub fn u16(&mut self, x: u16)
        requires
            old(self).wf(),
        ensures
            final(self).wf(),
            final(self).limit() == old(self).limit(),
            final(self)@ == old(self)@ + le16(x),
    {
        let mut data: Vec<u8> = Vec::new();
        push_le16(&mut data, x);
        assert(data@ =~= le16(x));
        self.raw(data.as_slice());
    }

    pub fn u32(&mut self, x: u32)
        requires
            old(self).wf(),
        ensures
            final(self).wf(),
            final(self).limit() == old(self).limit(),
            final(self)@ == old(self)@ + le32(x),
    {
        let mut data: Vec<u8> = Vec::new();
        push_le32(&mut data, x);
        assert(data@ =~= le32(x));
        self.raw(data.as_slice());
    }

    pub fn u64(&mut self, x: u64)
        requires
            old(self).wf(),
        ensures
            final(self).wf(),
            final(self).limit() == old(self).limit(),
            final(self)@ == old(self)@ + le64(x),
    {
        let mut data: Vec<u8> = Vec::new();
        push_le64(&mut data, x);
        assert(data@ =~= le64(x));
        self.raw(data.as_slice());
    }

    pub fn i8(&mut self, x: i8)
        requires
            old(self).wf(),
        ensures
            final(self).wf(),
            final(self).limit() == old(self).limit(),
            final(self)@ == old(self)@ + seq![unsigned8(x)],
    {
        self.u8(to_unsigned8(x));
    }

    pub fn i16(&mut self, x: i16)
        requires
            old(self).wf(),
        ensures
            final(self).wf(),
            final(self).limit() == old(self).limit(),
            final(self)@ == old(self)@ + le16(unsigned16(x)),
    {
        self.u16(to_unsigned16(x));
    }

    pub fn i32(&mut self, x: i32)
        requires
            old(self).wf(),
        ensures
            final(self).wf(),
            final(self).limit() == old(self).limit(),
            final(self)@ == old(self)@ + le32(unsigned32(x)),
    {
        self.u32(to_unsigned32(x));
    }

    pub fn i64(&mut self, x: i64)
        requires
            old(self).wf(),
        ensures
            final(self).wf(),
            final(self).limit() == old(self).limit(),
            final(self)@ == old(self)@ + le64(unsigned64(x)),
    {
        self.u64(to_unsigned64(x));
    }

    pub fn bool(&mut self, x: bool)
        requires
            old(self).wf(),
        ensures
            final(self).wf(),
            final(self).limit() == old(self).limit(),
            final(self)@ == old(self)@ + bool_byte(x),
    {
        self.u8(if x { 1 } else { 0 });
    }

    /// Writes a byte string behind its length.
    pub fn bytes(&mut self, data: &[u8])
        requires
            old(self).wf(),
        ensures
            final(self).wf(),
            final(self).limit() == old(self).limit(),
            final(self)@ == old(self)@ + prefixed(data@),
    {
        if data.len() as u64 > MAX_ENCODING as u64 {
            self.overflow = true;
            self.written = Ghost(self.written@ + prefixed(data@));
        } else {
            self.u32(data.len() as u32);
            self.raw(data);
            assert(self@ =~= old(self)@ + prefixed(data@));
        }
    }

    /// Writes a text as its UTF-8 bytes behind their length.
    pub fn string(&mut self, data: &str)
        requires
            old(self).wf(),
        ensures
            final(self).wf(),
            final(self).limit() == old(self).limit(),
            final(self)@ == old(self)@ + text(data@),
    {
        self.bytes(data.as_bytes());
    }

    /// Writes a nested payload in its version envelope.
    pub fn versioned(&mut self, version: u8, compat: u8, payload: Encoder)
        requires
            old(self).wf(),
            payload.wf(),
            payload.limit() == old(self).limit(),
        ensures
            final(self).wf(),
            final(self).limit() == old(self).limit(),
            final(self)@ == old(self)@ + versioned(version, compat, payload@),
    {
        if payload.overflow {
            self.overflow = true;
            self.written = Ghost(self.written@ + versioned(version, compat, payload@));
        } else {
            self.u8(version);
            self.u8(compat);
            self.bytes(payload.bytes.as_slice());
            assert(self@ =~= old(self)@ + versioned(version, compat, payload@));
        }
    }

    /// The encoding, if everything that was written fits.
    pub fn finish(self) -> (r: Result<Vec<u8>, WireError>)
        requires
            self.wf(),
        ensures
            bytes_result(r) == bounded(self@, self.limit()),
    {
        if self.overflow {
            Err(WireError::LimitExceeded)
        } else {
            Ok(self.bytes)
        }
    }
}

// ---------------------------------------------------------------------------
// Decoding
// ---------------------------------------------------------------------------

/// What is left to decode, and the first error.
pub struct Input {
    pub rest: Seq<u8>,
    pub error: Option<WireError>,
}

/// Input without an error.
pub open spec fn input(rest: Seq<u8>) -> Input {
    Input { rest, error: None }
}

/// The input of a decoder for `data` that takes at most `limit` bytes.
pub open spec fn limited_input(data: Seq<u8>, limit: nat) -> Input {
    if data.len() > limit {
        Input { rest: Seq::empty(), error: Some(WireError::LimitExceeded) }
    } else {
        input(data)
    }
}

/// `d` with `error`, unless there was an error before.
pub open spec fn failed(d: Input, error: WireError) -> Input {
    if d.error is Some {
        d
    } else {
        Input { rest: d.rest, error: Some(error) }
    }
}

/// Whether every read succeeded.
pub open spec fn finished(d: Input) -> Result<(), WireError> {
    match d.error {
        Some(error) => Err(error),
        None => Ok(()),
    }
}

/// The next `count` bytes; none where there are fewer or an error came before.
pub open spec fn get_raw(d: Input, count: nat) -> (Seq<u8>, Input) {
    if d.error is Some {
        (Seq::empty(), d)
    } else if count > d.rest.len() {
        (Seq::empty(), failed(d, WireError::Malformed))
    } else {
        (d.rest.take(count as int), input(d.rest.skip(count as int)))
    }
}

/// The next byte; zero where there is none.
#[verifier::opaque]
pub open spec fn get_u8(d: Input) -> (u8, Input) {
    let (b, d2) = get_raw(d, 1);
    (if b.len() == 1 { b[0] } else { 0 }, d2)
}

#[verifier::opaque]
pub open spec fn get_u16(d: Input) -> (u16, Input) {
    let (b, d2) = get_raw(d, 2);
    (if b.len() == 2 { from_le16(b) } else { 0 }, d2)
}

#[verifier::opaque]
pub open spec fn get_u32(d: Input) -> (u32, Input) {
    let (b, d2) = get_raw(d, 4);
    (if b.len() == 4 { from_le32(b) } else { 0 }, d2)
}

#[verifier::opaque]
pub open spec fn get_u64(d: Input) -> (u64, Input) {
    let (b, d2) = get_raw(d, 8);
    (if b.len() == 8 { from_le64(b) } else { 0 }, d2)
}

#[verifier::opaque]
pub open spec fn get_i8(d: Input) -> (i8, Input) {
    let (x, d2) = get_u8(d);
    (signed8(x), d2)
}

#[verifier::opaque]
pub open spec fn get_i16(d: Input) -> (i16, Input) {
    let (x, d2) = get_u16(d);
    (signed16(x), d2)
}

#[verifier::opaque]
pub open spec fn get_i32(d: Input) -> (i32, Input) {
    let (x, d2) = get_u32(d);
    (signed32(x), d2)
}

#[verifier::opaque]
pub open spec fn get_i64(d: Input) -> (i64, Input) {
    let (x, d2) = get_u64(d);
    (signed64(x), d2)
}

/// The next byte as a boolean: everything but zero is true.
#[verifier::opaque]
pub open spec fn get_bool(d: Input) -> (bool, Input) {
    let (x, d2) = get_u8(d);
    (x != 0, d2)
}

/// A byte string behind its length.
#[verifier::opaque]
pub open spec fn get_bytes(d: Input) -> (Seq<u8>, Input) {
    let (count, d2) = get_u32(d);
    get_raw(d2, count as nat)
}

/// A text behind its length; an error where the bytes are not UTF-8.
#[verifier::opaque]
pub open spec fn get_text(d: Input) -> (Seq<char>, Input) {
    let (b, d2) = get_bytes(d);
    if valid_utf8(b) {
        (decode_utf8(b), d2)
    } else {
        (Seq::empty(), failed(d2, WireError::Malformed))
    }
}

/// A version envelope for a reader that knows versions up to `local`: the version, the payload
/// and what follows. The sender's oldest compatible version must not be above `local`.
#[verifier::opaque]
pub open spec fn get_versioned(d: Input, local: u8) -> (u8, Input, Input) {
    let (version, d2) = get_u8(d);
    let (compat, d3) = get_u8(d2);
    if d3.error is None && compat > local {
        let error = WireError::UnsupportedVersion { local, required: compat };
        (0, failed(input(Seq::empty()), error), failed(d3, error))
    } else {
        let (payload, d4) = get_bytes(d3);
        if d4.error is Some {
            (0, Input { rest: Seq::empty(), error: d4.error }, d4)
        } else {
            (version, input(payload), d4)
        }
    }
}

/// Takes values off the front of a byte string. After the first error every read yields zero or
/// nothing, and the error stays.
pub struct Decoder<'a> {
    rest: &'a [u8],
    error: Option<WireError>,
}

impl<'a> View for Decoder<'a> {
    type V = Input;

    closed spec fn view(&self) -> Input {
        Input { rest: self.rest@, error: self.error }
    }
}

impl<'a> Decoder<'a> {
    /// A decoder for `data`, which must not be longer than `limit`.
    pub fn new(data: &'a [u8], limit: usize) -> (r: Self)
        ensures
            r@ == limited_input(data@, limit as nat),
    {
        if data.len() > limit {
            let rest = slice_subrange(data, 0, 0);
            assert(rest@ =~= Seq::<u8>::empty());
            Decoder { rest, error: Some(WireError::LimitExceeded) }
        } else {
            Decoder { rest: data, error: None }
        }
    }

    /// How many bytes are left.
    pub fn remaining(&self) -> (r: usize)
        ensures
            r == self@.rest.len(),
    {
        self.rest.len()
    }

    /// Whether every read succeeded.
    pub fn finish(&self) -> (r: Result<(), WireError>)
        ensures
            r == finished(self@),
    {
        match self.error {
            Some(error) => Err(error),
            None => Ok(()),
        }
    }

    fn fail(&mut self, error: WireError)
        ensures
            final(self)@ == failed(old(self)@, error),
    {
        if self.error.is_none() {
            self.error = Some(error);
        }
    }

    fn take(&mut self, count: usize) -> (r: &'a [u8])
        ensures
            r@ == get_raw(old(self)@, count as nat).0,
            final(self)@ == get_raw(old(self)@, count as nat).1,
    {
        let all = self.rest;
        if self.error.is_some() || count > all.len() {
            self.fail(WireError::Malformed);
            let nothing = slice_subrange(all, 0, 0);
            assert(nothing@ =~= Seq::<u8>::empty());
            nothing
        } else {
            let taken = slice_subrange(all, 0, count);
            let rest = slice_subrange(all, count, all.len());
            self.rest = rest;
            assert(taken@ =~= all@.take(count as int));
            assert(rest@ =~= all@.skip(count as int));
            taken
        }
    }

    pub fn raw(&mut self, count: usize) -> (r: Vec<u8>)
        ensures
            r@ == get_raw(old(self)@, count as nat).0,
            final(self)@ == get_raw(old(self)@, count as nat).1,
    {
        slice_to_vec(self.take(count))
    }

    pub fn u8(&mut self) -> (r: u8)
        ensures
            r == get_u8(old(self)@).0,
            final(self)@ == get_u8(old(self)@).1,
    {
        proof {
            reveal(get_u8);
        }
        let b = self.take(1);
        if b.len() == 1 {
            b[0]
        } else {
            0
        }
    }

    pub fn u16(&mut self) -> (r: u16)
        ensures
            r == get_u16(old(self)@).0,
            final(self)@ == get_u16(old(self)@).1,
    {
        proof {
            reveal(get_u16);
        }
        let b = self.take(2);
        if b.len() == 2 {
            read_le16(b)
        } else {
            0
        }
    }

    pub fn u32(&mut self) -> (r: u32)
        ensures
            r == get_u32(old(self)@).0,
            final(self)@ == get_u32(old(self)@).1,
    {
        proof {
            reveal(get_u32);
        }
        let b = self.take(4);
        if b.len() == 4 {
            read_le32(b)
        } else {
            0
        }
    }

    pub fn u64(&mut self) -> (r: u64)
        ensures
            r == get_u64(old(self)@).0,
            final(self)@ == get_u64(old(self)@).1,
    {
        proof {
            reveal(get_u64);
        }
        let b = self.take(8);
        if b.len() == 8 {
            read_le64(b)
        } else {
            0
        }
    }

    pub fn i8(&mut self) -> (r: i8)
        ensures
            r == get_i8(old(self)@).0,
            final(self)@ == get_i8(old(self)@).1,
    {
        proof {
            reveal(get_i8);
        }
        to_signed8(self.u8())
    }

    pub fn i16(&mut self) -> (r: i16)
        ensures
            r == get_i16(old(self)@).0,
            final(self)@ == get_i16(old(self)@).1,
    {
        proof {
            reveal(get_i16);
        }
        to_signed16(self.u16())
    }

    pub fn i32(&mut self) -> (r: i32)
        ensures
            r == get_i32(old(self)@).0,
            final(self)@ == get_i32(old(self)@).1,
    {
        proof {
            reveal(get_i32);
        }
        to_signed32(self.u32())
    }

    pub fn i64(&mut self) -> (r: i64)
        ensures
            r == get_i64(old(self)@).0,
            final(self)@ == get_i64(old(self)@).1,
    {
        proof {
            reveal(get_i64);
        }
        to_signed64(self.u64())
    }

    pub fn bool(&mut self) -> (r: bool)
        ensures
            r == get_bool(old(self)@).0,
            final(self)@ == get_bool(old(self)@).1,
    {
        proof {
            reveal(get_bool);
        }
        self.u8() != 0
    }

    fn take_bytes(&mut self) -> (r: &'a [u8])
        ensures
            r@ == get_bytes(old(self)@).0,
            final(self)@ == get_bytes(old(self)@).1,
    {
        proof {
            reveal(get_bytes);
        }
        let count: u32 = self.u32();
        self.take(count as usize)
    }

    pub fn bytes(&mut self) -> (r: Vec<u8>)
        ensures
            r@ == get_bytes(old(self)@).0,
            final(self)@ == get_bytes(old(self)@).1,
    {
        slice_to_vec(self.take_bytes())
    }

    pub fn string(&mut self) -> (r: String)
        ensures
            r@ == get_text(old(self)@).0,
            final(self)@ == get_text(old(self)@).1,
    {
        proof {
            reveal(get_text);
        }
        let bytes = self.bytes();
        match string_from_utf8(bytes) {
            Some(value) => value,
            None => {
                self.fail(WireError::Malformed);
                String::new()
            },
        }
    }

    pub fn versioned(&mut self, local: u8) -> (r: (u8, Decoder<'a>))
        ensures
            r.0 == get_versioned(old(self)@, local).0,
            r.1@ == get_versioned(old(self)@, local).1,
            final(self)@ == get_versioned(old(self)@, local).2,
    {
        proof {
            reveal(get_versioned);
        }
        let version: u8 = self.u8();
        let compat: u8 = self.u8();
        if self.error.is_none() && compat > local {
            self.fail(WireError::UnsupportedVersion { local, required: compat });
        } else {
            let payload = self.take_bytes();
            if self.error.is_none() {
                return (version, Decoder { rest: payload, error: None });
            }
        }
        let nothing = slice_subrange(self.rest, 0, 0);
        assert(nothing@ =~= Seq::<u8>::empty());
        (0, Decoder { rest: nothing, error: self.error })
    }
}

// ---------------------------------------------------------------------------
// Reading what was written
// ---------------------------------------------------------------------------

/// Reading as many bytes as were written gives them back.
pub broadcast proof fn law_raw(b: Seq<u8>, tail: Seq<u8>)
    ensures
        #[trigger] get_raw(input(b + tail), b.len()) == (b, input(tail)),
{
    assert((b + tail).take(b.len() as int) =~= b);
    assert((b + tail).skip(b.len() as int) =~= tail);
}

pub broadcast proof fn law_u8(x: u8, tail: Seq<u8>)
    ensures
        #[trigger] get_u8(input(seq![x] + tail)) == (x, input(tail)),
{
    reveal(get_u8);
    law_raw(seq![x], tail);
}

pub broadcast proof fn law_u16(x: u16, tail: Seq<u8>)
    ensures
        #[trigger] get_u16(input(le16(x) + tail)) == (x, input(tail)),
{
    reveal(get_u16);
    lemma_le16(x);
    law_raw(le16(x), tail);
}

pub broadcast proof fn law_u32(x: u32, tail: Seq<u8>)
    ensures
        #[trigger] get_u32(input(le32(x) + tail)) == (x, input(tail)),
{
    reveal(get_u32);
    lemma_le32(x);
    law_raw(le32(x), tail);
}

pub broadcast proof fn law_u64(x: u64, tail: Seq<u8>)
    ensures
        #[trigger] get_u64(input(le64(x) + tail)) == (x, input(tail)),
{
    reveal(get_u64);
    lemma_le64(x);
    law_raw(le64(x), tail);
}

pub broadcast proof fn law_i8(x: i8, tail: Seq<u8>)
    ensures
        #[trigger] get_i8(input(seq![unsigned8(x)] + tail)) == (x, input(tail)),
{
    reveal(get_i8);
    law_u8(unsigned8(x), tail);
}

pub broadcast proof fn law_i16(x: i16, tail: Seq<u8>)
    ensures
        #[trigger] get_i16(input(le16(unsigned16(x)) + tail)) == (x, input(tail)),
{
    reveal(get_i16);
    law_u16(unsigned16(x), tail);
}

pub broadcast proof fn law_i32(x: i32, tail: Seq<u8>)
    ensures
        #[trigger] get_i32(input(le32(unsigned32(x)) + tail)) == (x, input(tail)),
{
    reveal(get_i32);
    law_u32(unsigned32(x), tail);
}

pub broadcast proof fn law_i64(x: i64, tail: Seq<u8>)
    ensures
        #[trigger] get_i64(input(le64(unsigned64(x)) + tail)) == (x, input(tail)),
{
    reveal(get_i64);
    law_u64(unsigned64(x), tail);
}

pub broadcast proof fn law_bool(x: bool, tail: Seq<u8>)
    ensures
        #[trigger] get_bool(input(bool_byte(x) + tail)) == (x, input(tail)),
{
    reveal(get_bool);
    law_u8(if x { 1 } else { 0 }, tail);
}

pub broadcast proof fn law_bytes(b: Seq<u8>, tail: Seq<u8>)
    requires
        b.len() <= MAX_ENCODING,
    ensures
        #[trigger] get_bytes(input(prefixed(b) + tail)) == (b, input(tail)),
{
    reveal(get_bytes);
    assert(prefixed(b) + tail =~= le32(b.len() as u32) + (b + tail));
    law_u32(b.len() as u32, b + tail);
    law_raw(b, tail);
}

pub broadcast proof fn law_text(t: Seq<char>, tail: Seq<u8>)
    requires
        encode_utf8(t).len() <= MAX_ENCODING,
    ensures
        #[trigger] get_text(input(text(t) + tail)) == (t, input(tail)),
{
    reveal(get_text);
    law_bytes(encode_utf8(t), tail);
    vstd::utf8::encode_utf8_valid_utf8(t);
    vstd::utf8::encode_utf8_decode_utf8(t);
}

/// A reader that knows at least the oldest compatible version gets the version and the payload.
pub broadcast proof fn law_versioned(version: u8, compat: u8, payload: Seq<u8>, local: u8, tail: Seq<u8>)
    requires
        payload.len() <= MAX_ENCODING,
        compat <= local,
    ensures
        #[trigger] get_versioned(input(versioned(version, compat, payload) + tail), local) == (
            version,
            input(payload),
            input(tail),
        ),
{
    reveal(get_versioned);
    let all = versioned(version, compat, payload) + tail;
    let after = prefixed(payload) + tail;
    assert(all =~= seq![version] + (seq![compat] + after));
    law_u8(version, seq![compat] + after);
    law_u8(compat, after);
    law_bytes(payload, tail);
}

pub broadcast group group_reads {
    law_u8,
    law_u16,
    law_u32,
    law_u64,
    law_i8,
    law_i16,
    law_i32,
    law_i64,
    law_bool,
    law_bytes,
    law_text,
    law_versioned,
}

// ---------------------------------------------------------------------------
// Repetition
// ---------------------------------------------------------------------------

/// The encodings of `items`, one after the other.
pub open spec fn concatenated<T>(items: Seq<T>, encode: spec_fn(T) -> Seq<u8>) -> Seq<u8>
    decreases items.len(),
{
    if items.len() == 0 {
        Seq::empty()
    } else {
        concatenated(items.drop_last(), encode) + encode(items.last())
    }
}

/// `count` items that `decode` takes off the input one after the other, up to the first error.
pub open spec fn get_many<T, E>(
    d: Input,
    count: nat,
    decode: spec_fn(Input) -> Result<(T, Input), E>,
) -> Result<(Seq<T>, Input), E>
    decreases count,
{
    if count == 0 {
        Ok((Seq::empty(), d))
    } else {
        match get_many(d, (count - 1) as nat, decode) {
            Err(error) => Err(error),
            Ok((items, rest)) => match decode(rest) {
                Err(error) => Err(error),
                Ok((item, after)) => Ok((items.push(item), after)),
            },
        }
    }
}

pub proof fn lemma_get_many_error<T, E>(
    d: Input,
    part: nat,
    count: nat,
    decode: spec_fn(Input) -> Result<(T, Input), E>,
)
    requires
        part <= count,
        get_many(d, part, decode) is Err,
    ensures
        get_many(d, count, decode) == get_many(d, part, decode),
    decreases count,
{
    if part < count {
        lemma_get_many_error(d, part, (count - 1) as nat, decode);
    }
}

pub proof fn lemma_get_many_len<T, E>(
    d: Input,
    count: nat,
    decode: spec_fn(Input) -> Result<(T, Input), E>,
)
    ensures
        get_many(d, count, decode) matches Ok((items, _)) ==> items.len() == count,
    decreases count,
{
    if count > 0 {
        lemma_get_many_len(d, (count - 1) as nat, decode);
    }
}

/// Where every item reads back, so does their concatenation.
pub proof fn law_many<T, E>(
    items: Seq<T>,
    encode: spec_fn(T) -> Seq<u8>,
    decode: spec_fn(Input) -> Result<(T, Input), E>,
    tail: Seq<u8>,
)
    requires
        forall|i: int, rest: Seq<u8>|
            0 <= i < items.len() ==> #[trigger] decode(input(encode(items[i]) + rest)) == Ok::<
                (T, Input),
                E,
            >((items[i], input(rest))),
    ensures
        get_many(input(concatenated(items, encode) + tail), items.len(), decode) == Ok::<
            (Seq<T>, Input),
            E,
        >((items, input(tail))),
    decreases items.len(),
{
    if items.len() == 0 {
        assert(concatenated(items, encode) + tail =~= tail);
        assert(items =~= Seq::empty());
    } else {
        let shorter = items.drop_last();
        let last = encode(items.last());
        assert forall|i: int, rest: Seq<u8>| 0 <= i < shorter.len() implies #[trigger] decode(
            input(encode(shorter[i]) + rest),
        ) == Ok::<(T, Input), E>((shorter[i], input(rest))) by {
            assert(shorter[i] == items[i]);
        }
        law_many(shorter, encode, decode, last + tail);
        assert(concatenated(items, encode) + tail =~= concatenated(shorter, encode) + (last
            + tail));
        assert(items.last() == items[items.len() - 1]);
        assert(decode(input(encode(items[items.len() - 1]) + tail)) == Ok::<(T, Input), E>(
            (items[items.len() - 1], input(tail)),
        ));
        assert(shorter.push(items.last()) =~= items);
    }
}

// ---------------------------------------------------------------------------
// Checksum
// ---------------------------------------------------------------------------

/// One step of the reflected Castagnoli polynomial division.
pub open spec fn crc_shift(c: u32) -> u32 {
    if c % 2 == 1 {
        (c / 2) as u32 ^ 0x82f6_3b78
    } else {
        (c / 2) as u32
    }
}

pub open spec fn crc_shifts(c: u32, count: nat) -> u32
    decreases count,
{
    if count == 0 {
        c
    } else {
        crc_shift(crc_shifts(c, (count - 1) as nat))
    }
}

/// The CRC-32C register after `data`, from `seed`; there is no final inversion.
pub open spec fn checksum(seed: u32, data: Seq<u8>) -> u32
    decreases data.len(),
{
    if data.len() == 0 {
        seed
    } else {
        crc_shifts(checksum(seed, data.drop_last()) ^ (data.last() as u32), 8)
    }
}

/// The CRC-32C register after `data`, from `seed`; there is no final inversion.
pub fn crc32c(seed: u32, data: &[u8]) -> (r: u32)
    ensures
        r == checksum(seed, data@),
{
    let mut c: u32 = seed;
    let mut i: usize = 0;
    while i < data.len()
        invariant
            i <= data@.len(),
            c == checksum(seed, data@.take(i as int)),
        decreases data@.len() - i,
    {
        let ghost before = c;
        c = c ^ (data[i] as u32);
        let ghost start = c;
        let mut k: u32 = 0;
        while k < 8
            invariant
                k <= 8,
                c == crc_shifts(start, k as nat),
            decreases 8 - k,
        {
            c = if c % 2 == 1 { (c / 2) ^ 0x82f6_3b78 } else { c / 2 };
            k = k + 1;
        }
        assert(data@.take(i + 1).drop_last() =~= data@.take(i as int));
        i = i + 1;
    }
    assert(data@.take(i as int) =~= data@);
    c
}

/// A checksum can be continued: that of a concatenation is that of its second part from that of
/// its first.
pub proof fn law_checksum_continues(seed: u32, a: Seq<u8>, b: Seq<u8>)
    ensures
        checksum(seed, a + b) == checksum(checksum(seed, a), b),
    decreases b.len(),
{
    if b.len() == 0 {
        assert(a + b =~= a);
    } else {
        assert((a + b).drop_last() =~= a + b.drop_last());
        law_checksum_continues(seed, a, b.drop_last());
    }
}

} // verus!
