//! Frames that are encrypted and authenticated.

use super::frame::{
    decode_preamble, descriptor_of, descriptors_in, descriptors_of, encode_preamble,
    law_preamble, lemma_preamble_len, lengths_fit, normalized, normalized_segments, power_of_two,
    preamble_bytes, preamble_fault, segments_view, tag_code, tag_of, valid_alignment, Descriptor,
    Frame, FrameError, FrameView, Limits, Reader, Segment, SegmentView, Tag, LAST_TAG_CODE,
    LATE_STATUS_ABORTED, LATE_STATUS_COMPLETE, MAX_SEGMENTS, PREAMBLE_SIZE,
};
use crate::wire::{
    append_bytes, bytes_result, from_le32, from_le64, le32, le64, push_le32, push_le64, read_le32,
    read_le64, zeros,
};
use aes_gcm::aead::{Aead, KeyInit};
use vstd::prelude::*;
use vstd::slice::{slice_subrange, slice_to_vec};

verus! {

broadcast use crate::wire::group_integers;

pub const SECRET_SIZE: usize = 64;

pub const KEY_SIZE: usize = 16;

pub const NONCE_SIZE: usize = 12;

/// The size of the authentication tag behind each record.
pub const TAG_SIZE: usize = 16;

pub const BLOCK_SIZE: usize = 16;

/// How much of the first segment travels with the preamble.
pub const INLINE_SIZE: usize = 48;

/// The first record in the clear: preamble and the front of the first segment.
pub const FIRST_RECORD_SIZE: usize = 80;

/// The first record on the wire.
pub const SECURE_PREAMBLE_SIZE: usize = 96;

/// The longest plaintext of one record.
pub const MAX_PLAINTEXT: u64 = 68_719_476_704;

// ---------------------------------------------------------------------------
// Records
// ---------------------------------------------------------------------------

/// What AES-128-GCM makes of `plaintext` with this key and nonce: the ciphertext and its tag.
pub uninterp spec fn sealed(key: Seq<u8>, nonce: Seq<u8>, plaintext: Seq<u8>) -> Seq<u8>;

/// What AES-128-GCM makes of a record with this key and nonce: the plaintext, unless the tag does
/// not fit.
pub uninterp spec fn opened(key: Seq<u8>, nonce: Seq<u8>, record: Seq<u8>) -> Option<Seq<u8>>;

/// Whether a record opens with this key and nonce to what it was sealed from: it opens if it was
/// sealed, and what it opens to is sealed to it.
pub open spec fn opens_to_what_was_sealed(key: Seq<u8>, nonce: Seq<u8>, record: Seq<u8>) -> bool {
    &&& forall|plaintext: Seq<u8>|
        plaintext.len() <= MAX_PLAINTEXT && #[trigger] sealed(key, nonce, plaintext) == record
            ==> opened(key, nonce, record) == Some(plaintext)
    &&& opened(key, nonce, record) matches Some(plaintext) ==> sealed(key, nonce, plaintext)
        == record
}

/// `aes_gcm::Aes128Gcm::encrypt` without associated data: a function of key, nonce and plaintext,
/// whose result is the plaintext's length and a tag of 16 bytes long. It fails only on a plaintext
/// of more than 2^36 - 32 bytes, which is left out.
#[verifier::external_body]
fn seal_record(key: &[u8], nonce: &[u8], plaintext: &[u8]) -> (r: Option<Vec<u8>>)
    requires
        key@.len() == KEY_SIZE,
        nonce@.len() == NONCE_SIZE,
        plaintext@.len() <= MAX_PLAINTEXT,
    ensures
        r is Some,
        r->Some_0@ == sealed(key@, nonce@, plaintext@),
        r->Some_0@.len() == plaintext@.len() + TAG_SIZE,
{
    let cipher = aes_gcm::Aes128Gcm::new_from_slice(key).ok()?;
    let nonce = aes_gcm::Nonce::try_from(nonce).ok()?;
    cipher.encrypt(&nonce, plaintext).ok()
}

/// `aes_gcm::Aes128Gcm::decrypt` without associated data: a function of key, nonce and record. A
/// record that opens is what its plaintext is sealed to, and a record that was sealed with this
/// key and nonce opens to what was sealed. That nobody without the key can make a record that
/// opens is not stated.
#[verifier::external_body]
fn open_record(key: &[u8], nonce: &[u8], record: &[u8]) -> (r: Option<Vec<u8>>)
    requires
        key@.len() == KEY_SIZE,
        nonce@.len() == NONCE_SIZE,
    ensures
        r is Some <==> opened(key@, nonce@, record@) is Some,
        r is Some ==> opened(key@, nonce@, record@) == Some(r->Some_0@),
        r is Some ==> r->Some_0@.len() + TAG_SIZE == record@.len(),
        r is Some ==> sealed(key@, nonce@, r->Some_0@) == record@,
        forall|plaintext: Seq<u8>|
            plaintext.len() <= MAX_PLAINTEXT && #[trigger] sealed(key@, nonce@, plaintext)
                == record@ ==> r is Some && r->Some_0@ == plaintext,
{
    let cipher = aes_gcm::Aes128Gcm::new_from_slice(key).ok()?;
    let nonce = aes_gcm::Nonce::try_from(nonce).ok()?;
    cipher.decrypt(&nonce, record).ok()
}

/// One direction of a connection: the key, and the nonce of the next record.
pub struct Direction {
    key: Vec<u8>,
    fixed: u32,
    counter: u64,
    exhausted: bool,
}

pub struct DirectionView {
    pub key: Seq<u8>,
    pub fixed: u32,
    pub counter: u64,
    pub exhausted: bool,
}

impl View for Direction {
    type V = DirectionView;

    closed spec fn view(&self) -> DirectionView {
        DirectionView {
            key: self.key@,
            fixed: self.fixed,
            counter: self.counter,
            exhausted: self.exhausted,
        }
    }
}

impl Clone for Direction {
    fn clone(&self) -> (r: Self)
        ensures
            r@ == self@,
    {
        Direction {
            key: slice_to_vec(self.key.as_slice()),
            fixed: self.fixed,
            counter: self.counter,
            exhausted: self.exhausted,
        }
    }
}

/// Whether `count` more records have nonces of their own.
pub open spec fn has_nonces(d: DirectionView, count: nat) -> bool {
    count == 0 || (!d.exhausted && d.counter + count - 1 <= u64::MAX)
}

/// The nonce of the next record.
pub open spec fn next_nonce(d: DirectionView) -> Seq<u8> {
    le32(d.fixed) + le64(d.counter)
}

/// The direction after one more record. No nonce is ever used again: the last one is not left.
pub open spec fn advanced(d: DirectionView) -> DirectionView {
    if d.counter == u64::MAX {
        DirectionView { exhausted: true, ..d }
    } else {
        DirectionView { counter: (d.counter + 1) as u64, ..d }
    }
}

/// The direction when all its nonces are used.
pub open spec fn spent(d: DirectionView) -> DirectionView {
    if d.exhausted {
        d
    } else {
        DirectionView { counter: u64::MAX, exhausted: true, ..d }
    }
}

/// The direction with this key whose first nonce is `seed`.
pub open spec fn direction_from(key: Seq<u8>, seed: Seq<u8>) -> DirectionView {
    DirectionView {
        key,
        fixed: from_le32(seed.subrange(0, 4)),
        counter: from_le64(seed.subrange(4, 12)),
        exhausted: false,
    }
}

impl Direction {
    fn new(key: &[u8], seed: &[u8]) -> (r: Self)
        requires
            seed@.len() == NONCE_SIZE,
        ensures
            r@ == direction_from(key@, seed@),
    {
        Direction {
            key: slice_to_vec(key),
            fixed: read_le32(slice_subrange(seed, 0, 4)),
            counter: read_le64(slice_subrange(seed, 4, 12)),
            exhausted: false,
        }
    }

    fn available(&self, count: u64) -> (r: bool)
        ensures
            r == has_nonces(self@, count as nat),
    {
        count == 0 || (!self.exhausted && count - 1 <= u64::MAX - self.counter)
    }

    fn nonce(&mut self) -> (r: Result<Vec<u8>, FrameError>)
        ensures
            r is Ok <==> has_nonces(old(self)@, 1),
            r matches Ok(nonce) ==> nonce@ == next_nonce(old(self)@) && nonce@.len() == NONCE_SIZE
                && final(self)@ == advanced(old(self)@),
            r matches Err(error) ==> error == FrameError::CounterExhausted && final(self)@ == old(self)@,
    {
        if !self.available(1) {
            return Err(FrameError::CounterExhausted);
        }
        let mut nonce: Vec<u8> = Vec::new();
        push_le32(&mut nonce, self.fixed);
        push_le64(&mut nonce, self.counter);
        assert(nonce@ =~= next_nonce(self@));
        if self.counter == u64::MAX {
            self.exhausted = true;
        } else {
            self.counter = self.counter + 1;
        }
        Ok(nonce)
    }

    /// Encrypts one record under the next nonce.
    pub fn seal(&mut self, plaintext: &[u8]) -> (r: Result<Vec<u8>, FrameError>)
        requires
            old(self)@.key.len() == KEY_SIZE,
            plaintext@.len() <= MAX_PLAINTEXT,
        ensures
            r is Ok <==> has_nonces(old(self)@, 1),
            r matches Ok(record) ==> record@ == sealed(
                old(self)@.key,
                next_nonce(old(self)@),
                plaintext@,
            ) && record@.len() == plaintext@.len() + TAG_SIZE && final(self)@ == advanced(
                old(self)@,
            ),
            r matches Err(error) ==> error == FrameError::CounterExhausted && final(self)@ == old(self)@,
    {
        let nonce = self.nonce()?;
        match seal_record(self.key.as_slice(), nonce.as_slice(), plaintext) {
            Some(record) => Ok(record),
            None => Err(FrameError::LimitExceeded),
        }
    }

    /// Opens one record under the next nonce, which is used up whether or not the record opens.
    fn open(&mut self, record: &[u8]) -> (r: Result<Vec<u8>, FrameError>)
        requires
            old(self)@.key.len() == KEY_SIZE,
        ensures
            has_nonces(old(self)@, 1) ==> {
                &&& final(self)@ == advanced(old(self)@)
                &&& r is Ok <==> opened(old(self)@.key, next_nonce(old(self)@), record@) is Some
                &&& r matches Ok(plaintext) ==> opened(
                    old(self)@.key,
                    next_nonce(old(self)@),
                    record@,
                ) == Some(plaintext@) && plaintext@.len() + TAG_SIZE == record@.len()
                &&& r matches Err(error) ==> error == FrameError::Integrity
                &&& opens_to_what_was_sealed(old(self)@.key, next_nonce(old(self)@), record@)
            },
            !has_nonces(old(self)@, 1) ==> final(self)@ == old(self)@ && r == Err::<
                Vec<u8>,
                FrameError,
            >(FrameError::CounterExhausted),
    {
        let nonce = self.nonce()?;
        match open_record(self.key.as_slice(), nonce.as_slice(), record) {
            Some(plaintext) => Ok(plaintext),
            None => Err(FrameError::Integrity),
        }
    }
}

// ---------------------------------------------------------------------------
// Sizes
// ---------------------------------------------------------------------------

/// `length` rounded up to whole blocks.
pub open spec fn padded(length: nat) -> nat {
    (length + 15) / 16 * 16
}

pub open spec fn secure_descriptor_fault(d: Descriptor, limits: Limits) -> Option<FrameError> {
    if !power_of_two(d.alignment as nat) {
        Some(FrameError::Malformed)
    } else if d.length > limits.max_segment_bytes {
        Some(FrameError::LimitExceeded)
    } else {
        None
    }
}

/// What is wrong with the first descriptor that is not acceptable.
pub open spec fn first_secure_fault(descriptors: Seq<Descriptor>, limits: Limits) -> Option<
    FrameError,
>
    decreases descriptors.len(),
{
    if descriptors.len() == 0 {
        None
    } else {
        match first_secure_fault(descriptors.drop_last(), limits) {
            Some(error) => Some(error),
            None => secure_descriptor_fault(descriptors.last(), limits),
        }
    }
}

/// Whether the first segment continues in a record of its own.
pub open spec fn has_remainder(descriptors: Seq<Descriptor>) -> bool {
    padded(descriptors[0].length as nat) > INLINE_SIZE
}

/// The size in the clear of the record that continues the first segment.
pub open spec fn remainder_size(descriptors: Seq<Descriptor>) -> nat {
    (padded(descriptors[0].length as nat) - INLINE_SIZE) as nat
}

/// The sum of the padded lengths.
pub open spec fn padded_size(descriptors: Seq<Descriptor>) -> nat
    decreases descriptors.len(),
{
    if descriptors.len() == 0 {
        0
    } else {
        padded_size(descriptors.drop_last()) + padded(descriptors.last().length as nat)
    }
}

/// The size in the clear of the record with the segments after the first and the late status.
pub open spec fn later_size(descriptors: Seq<Descriptor>) -> nat {
    padded_size(descriptors.skip(1)) + BLOCK_SIZE as nat
}

/// The size of a frame on the wire.
pub open spec fn secure_total(descriptors: Seq<Descriptor>) -> nat {
    SECURE_PREAMBLE_SIZE as nat + (if has_remainder(descriptors) {
        remainder_size(descriptors) + TAG_SIZE as nat
    } else {
        0
    }) + (if descriptors.len() > 1 {
        later_size(descriptors) + TAG_SIZE as nat
    } else {
        0
    })
}

/// The number of records of a frame.
pub open spec fn record_count(descriptors: Seq<Descriptor>) -> nat {
    1 + (if has_remainder(descriptors) {
        1nat
    } else {
        0
    }) + (if descriptors.len() > 1 {
        1nat
    } else {
        0
    })
}

/// Why a frame with these descriptors is not acceptable.
pub open spec fn secure_fault(descriptors: Seq<Descriptor>, limits: Limits) -> Option<
    FrameError,
> {
    match first_secure_fault(descriptors, limits) {
        Some(error) => Some(error),
        None => if secure_total(descriptors) > limits.max_frame_bytes || secure_total(descriptors)
            > usize::MAX {
            Some(FrameError::LimitExceeded)
        } else {
            None
        },
    }
}

fn padded_length(length: u64) -> (r: u64)
    requires
        length <= u64::MAX - 15,
    ensures
        r == padded(length as nat),
        length <= r <= length + 15,
{
    (length + 15) / 16 * 16
}

proof fn lemma_secure_fault_prefix(descriptors: Seq<Descriptor>, limits: Limits, count: int)
    requires
        0 <= count <= descriptors.len(),
        first_secure_fault(descriptors.take(count), limits) is Some,
    ensures
        first_secure_fault(descriptors, limits) == first_secure_fault(
            descriptors.take(count),
            limits,
        ),
    decreases descriptors.len(),
{
    if count == descriptors.len() {
        assert(descriptors.take(count) =~= descriptors);
    } else {
        assert(descriptors.drop_last().take(count) =~= descriptors.take(count));
        lemma_secure_fault_prefix(descriptors.drop_last(), limits, count);
    }
}

proof fn lemma_padded_size_bound(descriptors: Seq<Descriptor>)
    ensures
        padded_size(descriptors) <= descriptors.len() * 0x1_0000_0000,
    decreases descriptors.len(),
{
    if descriptors.len() > 0 {
        lemma_padded_size_bound(descriptors.drop_last());
        assert(descriptors.len() * 0x1_0000_0000 == (descriptors.len() - 1) * 0x1_0000_0000
            + 0x1_0000_0000) by (nonlinear_arith);
    }
}

/// Size on the wire and number of records of a frame with these descriptors.
pub fn validate_descriptors(descriptors: &[Descriptor], limits: Limits) -> (r: Result<
    (u64, u64),
    FrameError,
>)
    requires
        1 <= descriptors@.len() <= MAX_SEGMENTS,
    ensures
        r matches Ok(found) ==> secure_fault(descriptors@, limits) is None && found.0
            == secure_total(descriptors@) && found.1 == record_count(descriptors@),
        r matches Err(error) ==> secure_fault(descriptors@, limits) == Some(error),
{
    let mut i: usize = 0;
    assert(descriptors@.take(0) =~= Seq::<Descriptor>::empty());
    while i < descriptors.len()
        invariant
            i <= descriptors@.len(),
            first_secure_fault(descriptors@.take(i as int), limits) is None,
        decreases descriptors@.len() - i,
    {
        let d = descriptors[i];
        proof {
            let next = descriptors@.take(i + 1);
            assert(next.drop_last() =~= descriptors@.take(i as int));
            assert(next.last() == d);
            if first_secure_fault(next, limits) is Some {
                lemma_secure_fault_prefix(descriptors@, limits, i + 1);
            }
        }
        if !valid_alignment(d.alignment) {
            return Err(FrameError::Malformed);
        }
        if d.length > limits.max_segment_bytes {
            return Err(FrameError::LimitExceeded);
        }
        i = i + 1;
    }
    assert(descriptors@.take(i as int) =~= descriptors@);
    let mut wire_size: u64 = SECURE_PREAMBLE_SIZE as u64;
    let mut records: u64 = 1;
    let first: u64 = padded_length(descriptors[0].length as u64);
    if first > INLINE_SIZE as u64 {
        wire_size = wire_size + (first - INLINE_SIZE as u64 + TAG_SIZE as u64);
        records = records + 1;
    }
    if descriptors.len() > 1 {
        wire_size = wire_size + (BLOCK_SIZE + TAG_SIZE) as u64;
        let ghost start = wire_size;
        let ghost later = descriptors@.skip(1);
        let mut k: usize = 1;
        assert(later.take(0) =~= Seq::<Descriptor>::empty());
        while k < descriptors.len()
            invariant
                1 <= k <= descriptors@.len() <= MAX_SEGMENTS,
                later == descriptors@.skip(1),
                start <= 0x2_0000_0000,
                wire_size == start + padded_size(later.take(k - 1)),
            decreases descriptors@.len() - k,
        {
            proof {
                assert(later.take(k as int).drop_last() =~= later.take(k - 1));
                lemma_padded_size_bound(later.take(k - 1));
            }
            wire_size = wire_size + padded_length(descriptors[k].length as u64);
            k = k + 1;
        }
        assert(later.take(k - 1) =~= later);
        records = records + 1;
    }
    if wire_size > limits.max_frame_bytes || wire_size > usize::MAX as u64 {
        return Err(FrameError::LimitExceeded);
    }
    Ok((wire_size, records))
}

// ---------------------------------------------------------------------------
// Frames as records
// ---------------------------------------------------------------------------

/// `data` and zero bytes up to `size`.
pub open spec fn filled(data: Seq<u8>, size: nat) -> Seq<u8> {
    data + zeros((size - data.len()) as nat)
}

/// The front of the first segment that travels with the preamble.
pub open spec fn inline_part(data: Seq<u8>) -> Seq<u8> {
    if data.len() > INLINE_SIZE {
        data.take(INLINE_SIZE as int)
    } else {
        data
    }
}

/// The first record in the clear.
pub open spec fn first_record(tag: Tag, segments: Seq<SegmentView>) -> Seq<u8> {
    preamble_bytes(tag, descriptors_of(segments)) + filled(
        inline_part(segments[0].data),
        INLINE_SIZE as nat,
    )
}

/// The record in the clear that continues the first segment.
pub open spec fn remainder_record(segments: Seq<SegmentView>) -> Seq<u8> {
    filled(segments[0].data.skip(INLINE_SIZE as int), remainder_size(descriptors_of(segments)))
}

/// Segments in whole blocks, one after the other.
pub open spec fn padded_segments(segments: Seq<SegmentView>) -> Seq<u8>
    decreases segments.len(),
{
    if segments.len() == 0 {
        Seq::empty()
    } else {
        padded_segments(segments.drop_last()) + filled(
            segments.last().data,
            padded(segments.last().data.len()),
        )
    }
}

/// The block with the late status of a complete frame.
pub open spec fn status_block() -> Seq<u8> {
    seq![LATE_STATUS_COMPLETE] + zeros(15)
}

/// The record in the clear with the segments after the first and the late status.
pub open spec fn later_record(segments: Seq<SegmentView>) -> Seq<u8> {
    padded_segments(segments.skip(1)) + status_block()
}

/// The records of a frame in the clear.
pub open spec fn plain_records(tag: Tag, segments: Seq<SegmentView>) -> Seq<Seq<u8>> {
    let first = seq![first_record(tag, segments)];
    let second = if has_remainder(descriptors_of(segments)) {
        first.push(remainder_record(segments))
    } else {
        first
    };
    if segments.len() > 1 {
        second.push(later_record(segments))
    } else {
        second
    }
}

/// What is wrong with the first segment that no descriptor can state.
pub open spec fn segment_fault(segments: Seq<SegmentView>) -> Option<FrameError>
    decreases segments.len(),
{
    if segments.len() == 0 {
        None
    } else {
        match segment_fault(segments.drop_last()) {
            Some(error) => Some(error),
            None => if !power_of_two(segments.last().alignment as nat) {
                Some(FrameError::Malformed)
            } else if segments.last().data.len() > u32::MAX {
                Some(FrameError::LimitExceeded)
            } else {
                None
            },
        }
    }
}

/// Why a frame cannot be sent.
pub open spec fn frame_fault(frame: FrameView, limits: Limits) -> Option<FrameError> {
    let segments = normalized(frame.segments);
    if frame.segments.len() == 0 || frame.segments.len() > MAX_SEGMENTS {
        Some(FrameError::Malformed)
    } else if tag_code(frame.tag) > LAST_TAG_CODE {
        Some(FrameError::Malformed)
    } else if segment_fault(segments) is Some {
        segment_fault(segments)
    } else {
        secure_fault(descriptors_of(segments), limits)
    }
}

proof fn lemma_segment_fault_prefix(segments: Seq<SegmentView>, count: int)
    requires
        0 <= count <= segments.len(),
        segment_fault(segments.take(count)) is Some,
    ensures
        segment_fault(segments) == segment_fault(segments.take(count)),
    decreases segments.len(),
{
    if count == segments.len() {
        assert(segments.take(count) =~= segments);
    } else {
        assert(segments.drop_last().take(count) =~= segments.take(count));
        lemma_segment_fault_prefix(segments.drop_last(), count);
    }
}

proof fn lemma_segments_fit(segments: Seq<SegmentView>)
    requires
        segment_fault(segments) is None,
    ensures
        lengths_fit(segments),
    decreases segments.len(),
{
    if segments.len() > 0 {
        lemma_segments_fit(segments.drop_last());
        assert forall|i: int| 0 <= i < segments.len() implies (
        #[trigger] segments[i]).data.len() <= u32::MAX by {
            if i < segments.len() - 1 {
                assert(segments.drop_last()[i] == segments[i]);
            }
        }
    }
}

/// A frame that is ready to be sent.
pub struct PreparedFrame<'a> {
    pub descriptors: Vec<Descriptor>,
    pub segments: &'a [Segment],
    pub wire_size: u64,
    pub records: u64,
}

impl<'a> PreparedFrame<'a> {
    /// The parts are those of one frame within some limits.
    pub open spec fn wf(&self) -> bool {
        let segments = segments_view(self.segments@);
        &&& 1 <= segments.len() <= MAX_SEGMENTS
        &&& lengths_fit(segments)
        &&& self.descriptors@ == descriptors_of(segments)
        &&& self.wire_size == secure_total(self.descriptors@)
        &&& self.records == record_count(self.descriptors@)
        &&& secure_total(self.descriptors@) <= usize::MAX
    }

    pub fn new(frame: &'a Frame, limits: Limits) -> (r: Result<Self, FrameError>)
        ensures
            r matches Ok(prepared) ==> frame_fault(frame@, limits) is None && prepared.wf()
                && segments_view(prepared.segments@) == normalized(frame@.segments),
            r matches Err(error) ==> frame_fault(frame@, limits) == Some(error),
    {
        let segments = normalized_segments(frame.segments.as_slice())?;
        if frame.tag.code() > LAST_TAG_CODE {
            return Err(FrameError::Malformed);
        }
        let ghost all = segments_view(segments@);
        let mut descriptors: Vec<Descriptor> = Vec::new();
        let mut i: usize = 0;
        assert(all.take(0) =~= Seq::<SegmentView>::empty());
        while i < segments.len()
            invariant
                i <= segments@.len(),
                all == segments_view(segments@),
                all == normalized(frame@.segments),
                1 <= frame@.segments.len() <= MAX_SEGMENTS,
                tag_code(frame.tag) <= LAST_TAG_CODE,
                segment_fault(all.take(i as int)) is None,
                descriptors@.len() == i,
                forall|k: int| 0 <= k < i ==> #[trigger] descriptors@[k] == descriptor_of(all[k]),
            decreases segments@.len() - i,
        {
            proof {
                let next = all.take(i + 1);
                assert(next.drop_last() =~= all.take(i as int));
                assert(next.last() == segments@[i as int]@);
                if segment_fault(next) is Some {
                    lemma_segment_fault_prefix(all, i + 1);
                }
            }
            let length: usize = segments[i].data.len();
            if !valid_alignment(segments[i].alignment) {
                return Err(FrameError::Malformed);
            }
            if length as u64 > u32::MAX as u64 {
                return Err(FrameError::LimitExceeded);
            }
            descriptors.push(
                Descriptor { length: length as u32, alignment: segments[i].alignment },
            );
            i = i + 1;
        }
        proof {
            assert(all.take(i as int) =~= all);
            assert(descriptors@ =~= descriptors_of(all));
            lemma_segments_fit(all);
        }
        let (wire_size, records) = validate_descriptors(descriptors.as_slice(), limits)?;
        Ok(PreparedFrame { descriptors, segments, wire_size, records })
    }
}

/// Whether a frame can be sent encrypted within the limits.
pub fn validate_frame_size(frame: &Frame, limits: Limits) -> (r: Result<(), FrameError>)
    ensures
        r matches Ok(_) ==> frame_fault(frame@, limits) is None,
        r matches Err(error) ==> frame_fault(frame@, limits) == Some(error),
{
    match PreparedFrame::new(frame, limits) {
        Ok(_) => Ok(()),
        Err(error) => Err(error),
    }
}

pub open spec fn records_view(records: Seq<Vec<u8>>) -> Seq<Seq<u8>> {
    Seq::new(records.len(), |i: int| records[i]@)
}

fn push_zeros(out: &mut Vec<u8>, count: u64)
    ensures
        final(out)@ == old(out)@ + zeros(count as nat),
{
    let mut i: u64 = 0;
    assert(out@ =~= old(out)@ + zeros(0));
    while i < count
        invariant
            i <= count,
            out@ =~= old(out)@ + zeros(i as nat),
        decreases count - i,
    {
        out.push(0);
        i = i + 1;
    }
}

proof fn lemma_padded_segments_len(segments: Seq<SegmentView>)
    requires
        lengths_fit(segments),
    ensures
        padded_segments(segments).len() == padded_size(descriptors_of(segments)),
        padded_segments(segments).len() <= segments.len() * 0x1_0000_0000,
    decreases segments.len(),
{
    if segments.len() > 0 {
        let shorter = segments.drop_last();
        assert forall|i: int| 0 <= i < shorter.len() implies (
        #[trigger] shorter[i]).data.len() <= u32::MAX by {
            assert(shorter[i] == segments[i]);
        }
        assert(segments.last() == segments[segments.len() - 1]);
        lemma_padded_segments_len(shorter);
        assert(descriptors_of(segments).drop_last() =~= descriptors_of(shorter));
        assert(segments.len() * 0x1_0000_0000 == (segments.len() - 1) * 0x1_0000_0000
            + 0x1_0000_0000) by (nonlinear_arith);
    }
}

proof fn lemma_skip_fits(segments: Seq<SegmentView>)
    requires
        segments.len() >= 1,
        lengths_fit(segments),
    ensures
        lengths_fit(segments.skip(1)),
        descriptors_of(segments.skip(1)) == descriptors_of(segments).skip(1),
{
    assert forall|i: int| 0 <= i < segments.skip(1).len() implies (
    #[trigger] segments.skip(1)[i]).data.len() <= u32::MAX by {
        assert(segments.skip(1)[i] == segments[i + 1]);
    }
    assert(descriptors_of(segments.skip(1)) =~= descriptors_of(segments).skip(1));
}

/// The records of a frame in the clear have the sizes that its descriptors give.
pub proof fn lemma_record_sizes(tag: Tag, segments: Seq<SegmentView>)
    requires
        1 <= segments.len() <= MAX_SEGMENTS,
        lengths_fit(segments),
    ensures
        first_record(tag, segments).len() == FIRST_RECORD_SIZE,
        has_remainder(descriptors_of(segments)) ==> remainder_record(segments).len()
            == remainder_size(descriptors_of(segments)) && remainder_record(segments).len()
            <= MAX_PLAINTEXT,
        segments.len() > 1 ==> later_record(segments).len() == later_size(
            descriptors_of(segments),
        ) && later_record(segments).len() <= MAX_PLAINTEXT,
        plain_records(tag, segments).len() == record_count(descriptors_of(segments)),
{
    lemma_preamble_len(tag, descriptors_of(segments));
    lemma_skip_fits(segments);
    lemma_padded_segments_len(segments.skip(1));
    assert(segments[0].data.len() <= u32::MAX);
}

impl<'a> PreparedFrame<'a> {
    fn first_plain(&self, tag: Tag) -> (r: Vec<u8>)
        requires
            self.wf(),
        ensures
            r@ == first_record(tag, segments_view(self.segments@)),
    {
        let mut first = encode_preamble(tag, self.descriptors.as_slice());
        let data = &self.segments[0].data;
        let inline: usize = if data.len() > INLINE_SIZE { INLINE_SIZE } else { data.len() };
        let ghost all = segments_view(self.segments@);
        assert(all[0].data == data@);
        assert(data@.subrange(0, inline as int) =~= inline_part(all[0].data));
        append_bytes(&mut first, slice_subrange(data.as_slice(), 0, inline));
        push_zeros(&mut first, (INLINE_SIZE - inline) as u64);
        assert(first@ =~= first_record(tag, all));
        first
    }

    fn later_plain(&self) -> (r: Vec<u8>)
        requires
            self.wf(),
            self.segments@.len() > 1,
        ensures
            r@ == later_record(segments_view(self.segments@)),
    {
        let ghost all = segments_view(self.segments@);
        let ghost later = all.skip(1);
        let mut rest: Vec<u8> = Vec::new();
        let mut i: usize = 1;
        assert(rest@ =~= padded_segments(later.take(0)));
        while i < self.segments.len()
            invariant
                1 <= i <= self.segments@.len(),
                all == segments_view(self.segments@),
                later == all.skip(1),
                lengths_fit(all),
                rest@ == padded_segments(later.take(i - 1)),
            decreases self.segments@.len() - i,
        {
            let data = &self.segments[i].data;
            assert(all[i as int].data == data@);
            append_bytes(&mut rest, data.as_slice());
            let size: u64 = padded_length(data.len() as u64);
            push_zeros(&mut rest, size - data.len() as u64);
            proof {
                assert(later.take(i as int).drop_last() =~= later.take(i - 1));
                assert(later.take(i as int).last() == all[i as int]);
                assert(rest@ =~= padded_segments(later.take(i as int)));
            }
            i = i + 1;
        }
        assert(later.take(i - 1) =~= later);
        rest.push(LATE_STATUS_COMPLETE);
        push_zeros(&mut rest, 15);
        assert(rest@ =~= later_record(all));
        rest
    }

    /// The records of the frame in the clear.
    pub fn plaintext_records(&self, tag: Tag) -> (r: Vec<Vec<u8>>)
        requires
            self.wf(),
        ensures
            records_view(r@) == plain_records(tag, segments_view(self.segments@)),
    {
        let ghost all = segments_view(self.segments@);
        let mut records: Vec<Vec<u8>> = Vec::new();
        records.push(self.first_plain(tag));
        assert(records_view(records@) =~= seq![first_record(tag, all)]);
        let data = &self.segments[0].data;
        assert(all[0].data == data@);
        assert(all[0].data.len() <= u32::MAX);
        let size: u64 = padded_length(data.len() as u64);
        if size > INLINE_SIZE as u64 {
            let mut remainder: Vec<u8> = Vec::new();
            append_bytes(
                &mut remainder,
                slice_subrange(data.as_slice(), INLINE_SIZE, data.len()),
            );
            push_zeros(&mut remainder, size - data.len() as u64);
            assert(remainder@ =~= remainder_record(all));
            records.push(remainder);
            assert(records_view(records@) =~= seq![first_record(tag, all)].push(
                remainder_record(all),
            ));
        }
        if self.segments.len() > 1 {
            let ghost before = records_view(records@);
            records.push(self.later_plain());
            assert(records_view(records@) =~= before.push(later_record(all)));
        }
        assert(records_view(records@) =~= plain_records(tag, all));
        records
    }
}

// ---------------------------------------------------------------------------
// Writing
// ---------------------------------------------------------------------------

/// The direction after `count` more records.
pub open spec fn advanced_by(d: DirectionView, count: nat) -> DirectionView
    decreases count,
{
    if count == 0 {
        d
    } else {
        advanced(advanced_by(d, (count - 1) as nat))
    }
}

/// Records on the wire, each sealed under the next nonce.
pub open spec fn sealed_records(d: DirectionView, records: Seq<Seq<u8>>) -> Seq<u8>
    decreases records.len(),
{
    if records.len() == 0 {
        Seq::empty()
    } else {
        let before = advanced_by(d, (records.len() - 1) as nat);
        sealed_records(d, records.drop_last()) + sealed(
            before.key,
            next_nonce(before),
            records.last(),
        )
    }
}

/// Whether sealing adds a tag, and no more, to each of these records.
pub open spec fn well_sized(d: DirectionView, records: Seq<Seq<u8>>) -> bool {
    forall|i: int|
        0 <= i < records.len() ==> sealed(
            advanced_by(d, i as nat).key,
            next_nonce(advanced_by(d, i as nat)),
            #[trigger] records[i],
        ).len() == records[i].len() + TAG_SIZE
}

/// Whether `wire` starts with a frame that was sent in this direction, and goes on with `tail`.
pub open spec fn starts_with_frame(
    d: DirectionView,
    frame: FrameView,
    wire: Seq<u8>,
    tail: Seq<u8>,
) -> bool {
    &&& wire == secure_wire(d, frame) + tail
    &&& well_sized(d, plain_records(frame.tag, normalized(frame.segments)))
}

/// A frame on the wire in this direction.
pub open spec fn secure_wire(d: DirectionView, frame: FrameView) -> Seq<u8> {
    sealed_records(d, plain_records(frame.tag, normalized(frame.segments)))
}

/// The number of records of a frame.
pub open spec fn frame_records(frame: FrameView) -> nat {
    record_count(descriptors_of(normalized(frame.segments)))
}

pub proof fn lemma_advanced_by(d: DirectionView, count: nat)
    requires
        has_nonces(d, count),
    ensures
        advanced_by(d, count).key == d.key,
        advanced_by(d, count).fixed == d.fixed,
        d.counter + count <= u64::MAX ==> advanced_by(d, count).counter == d.counter + count
            && advanced_by(d, count).exhausted == d.exhausted,
        d.counter + count > u64::MAX && count > 0 ==> advanced_by(d, count).counter == u64::MAX
            && advanced_by(d, count).exhausted,
    decreases count,
{
    if count > 0 {
        lemma_advanced_by(d, (count - 1) as nat);
    }
}

/// No two records of a direction are sealed under the same nonce.
pub proof fn law_nonces_are_never_reused(d: DirectionView, i: nat, j: nat)
    requires
        i < j,
        has_nonces(d, j + 1),
    ensures
        next_nonce(advanced_by(d, i)) != next_nonce(advanced_by(d, j)),
{
    lemma_advanced_by(d, i);
    lemma_advanced_by(d, j);
    let a = advanced_by(d, i);
    let b = advanced_by(d, j);
    assert(next_nonce(a).skip(4) =~= le64(a.counter));
    assert(next_nonce(b).skip(4) =~= le64(b.counter));
    assert(a.counter != b.counter);
}

/// The direction in which one side sends at the start. The secret holds a key, the first nonce of
/// what the client receives and the first nonce of what it sends.
pub open spec fn sending(secret: Seq<u8>, server: bool) -> DirectionView {
    let key = secret.subrange(0, 16);
    if server {
        direction_from(key, secret.subrange(16, 28))
    } else {
        direction_from(key, secret.subrange(28, 40))
    }
}

/// The direction in which one side receives at the start.
pub open spec fn receiving(secret: Seq<u8>, server: bool) -> DirectionView {
    let key = secret.subrange(0, 16);
    if server {
        direction_from(key, secret.subrange(28, 40))
    } else {
        direction_from(key, secret.subrange(16, 28))
    }
}

/// Reads and writes encrypted frames: one direction to send and one to receive.
pub struct SecureCodec {
    pub tx: Direction,
    pub rx: Direction,
}

impl SecureCodec {
    /// Both keys have the size of a key.
    pub open spec fn wf(&self) -> bool {
        &&& self.tx@.key.len() == KEY_SIZE
        &&& self.rx@.key.len() == KEY_SIZE
    }

    /// The codec of one side of a connection.
    pub fn new(secret: &[u8], server: bool) -> (r: Result<Self, FrameError>)
        ensures
            r is Ok <==> secret@.len() == SECRET_SIZE,
            r matches Err(error) ==> error == FrameError::InvalidSecret,
            r matches Ok(codec) ==> {
                &&& codec.wf()
                &&& codec.tx@ == sending(secret@, server)
                &&& codec.rx@ == receiving(secret@, server)
            },
    {
        if secret.len() != SECRET_SIZE {
            return Err(FrameError::InvalidSecret);
        }
        let key = slice_subrange(secret, 0, KEY_SIZE);
        let client_rx = slice_subrange(secret, 16, 28);
        let client_tx = slice_subrange(secret, 28, 40);
        if server {
            Ok(SecureCodec { tx: Direction::new(key, client_rx), rx: Direction::new(key, client_tx) })
        } else {
            Ok(SecureCodec { tx: Direction::new(key, client_tx), rx: Direction::new(key, client_rx) })
        }
    }

    fn seal_all(&mut self, records: &Vec<Vec<u8>>) -> (r: Result<Vec<u8>, FrameError>)
        requires
            old(self).wf(),
            forall|i: int| 0 <= i < records@.len() ==> (#[trigger] records@[i])@.len()
                <= MAX_PLAINTEXT,
        ensures
            final(self).wf(),
            final(self).rx@ == old(self).rx@,
            r is Ok <==> has_nonces(old(self).tx@, records@.len()),
            r matches Ok(wire) ==> wire@ == sealed_records(old(self).tx@, records_view(records@))
                && well_sized(old(self).tx@, records_view(records@)) && final(self).tx@
                == advanced_by(old(self).tx@, records@.len()),
            r matches Err(error) ==> error == FrameError::CounterExhausted && final(self).tx@
                == spent(old(self).tx@),
    {
        let ghost all = records_view(records@);
        let ghost start = self.tx@;
        let mut output: Vec<u8> = Vec::new();
        let mut i: usize = 0;
        assert(output@ =~= sealed_records(start, all.take(0)));
        while i < records.len()
            invariant
                i <= records@.len(),
                self.wf(),
                self.rx@ == old(self).rx@,
                all == records_view(records@),
                start == old(self).tx@,
                forall|k: int| 0 <= k < records@.len() ==> (#[trigger] records@[k])@.len()
                    <= MAX_PLAINTEXT,
                has_nonces(start, i as nat),
                self.tx@ == advanced_by(start, i as nat),
                well_sized(start, all.take(i as int)),
                output@ == sealed_records(start, all.take(i as int)),
            decreases records@.len() - i,
        {
            proof {
                lemma_advanced_by(start, i as nat);
            }
            let record = self.tx.seal(records[i].as_slice())?;
            append_bytes(&mut output, record.as_slice());
            proof {
                assert(all.take(i + 1).drop_last() =~= all.take(i as int));
                assert(all.take(i + 1).last() == records@[i as int]@);
                assert forall|k: int| 0 <= k < i + 1 implies sealed(
                    advanced_by(start, k as nat).key,
                    next_nonce(advanced_by(start, k as nat)),
                    #[trigger] all.take(i + 1)[k],
                ).len() == all.take(i + 1)[k].len() + TAG_SIZE by {
                    if k < i {
                        assert(all.take(i as int)[k] == all.take(i + 1)[k]);
                    }
                }
            }
            i = i + 1;
        }
        assert(all.take(i as int) =~= all);
        Ok(output)
    }

    /// The frame on the wire. Either all its records have nonces, or none is used.
    pub fn encode(&mut self, frame: &Frame, limits: Limits) -> (r: Result<Vec<u8>, FrameError>)
        requires
            old(self).wf(),
        ensures
            final(self).wf(),
            final(self).rx@ == old(self).rx@,
            bytes_result(r) == secure_encoding(old(self).tx@, frame@, limits),
            r matches Ok(wire) ==> starts_with_frame(
                old(self).tx@,
                frame@,
                wire@,
                Seq::<u8>::empty(),
            ),
            final(self).tx@ == if r is Ok {
                advanced_by(old(self).tx@, frame_records(frame@))
            } else {
                old(self).tx@
            },
    {
        let prepared = PreparedFrame::new(frame, limits)?;
        if !self.tx.available(prepared.records) {
            return Err(FrameError::CounterExhausted);
        }
        let records = prepared.plaintext_records(frame.tag);
        proof {
            let all = segments_view(prepared.segments@);
            lemma_record_sizes(frame.tag, all);
            assert forall|i: int| 0 <= i < records@.len() implies (
            #[trigger] records@[i])@.len() <= MAX_PLAINTEXT by {
                assert(records_view(records@)[i] == records@[i]@);
            }
            assert(records@.len() == records_view(records@).len());
        }
        let wire = self.seal_all(&records)?;
        assert(wire@ =~= wire@ + Seq::<u8>::empty());
        Ok(wire)
    }
}

/// What `SecureCodec::encode` yields.
pub open spec fn secure_encoding(d: DirectionView, frame: FrameView, limits: Limits) -> Result<
    Seq<u8>,
    FrameError,
> {
    match frame_fault(frame, limits) {
        Some(error) => Err(error),
        None => if !has_nonces(d, frame_records(frame)) {
            Err(FrameError::CounterExhausted)
        } else {
            Ok(secure_wire(d, frame))
        },
    }
}

// ---------------------------------------------------------------------------
// Reading
// ---------------------------------------------------------------------------

/// Whether all bytes from `at` on are zero.
pub open spec fn zero_from(data: Seq<u8>, at: int) -> bool {
    forall|i: int| at <= i < data.len() ==> data[i] == 0
}

fn all_zero(data: &[u8], at: usize) -> (r: bool)
    ensures
        r == zero_from(data@, at as int),
{
    let mut i: usize = at;
    while i < data.len()
        invariant
            at <= i,
            forall|k: int| at <= k < i && k < data@.len() ==> data@[k] == 0,
        decreases data@.len() - i,
    {
        if data[i] != 0 {
            return false;
        }
        i = i + 1;
    }
    true
}

/// The tag and the descriptors that a first record states.
pub open spec fn first_in(first: Seq<u8>, limits: Limits) -> Result<
    (Tag, Seq<Descriptor>),
    FrameError,
> {
    let preamble = first.take(PREAMBLE_SIZE as int);
    let descriptors = descriptors_in(preamble);
    if preamble_fault(preamble) is Some {
        Err(preamble_fault(preamble)->Some_0)
    } else if secure_fault(descriptors, limits) is Some {
        Err(secure_fault(descriptors, limits)->Some_0)
    } else {
        Ok((tag_of(preamble[0]), descriptors))
    }
}

/// The segment that `data` holds; what follows it must be zero.
pub open spec fn segment_in(descriptor: Descriptor, data: Seq<u8>) -> Result<
    SegmentView,
    FrameError,
> {
    if zero_from(data, descriptor.length as int) {
        Ok(
            SegmentView {
                alignment: descriptor.alignment,
                data: data.take(descriptor.length as int),
            },
        )
    } else {
        Err(FrameError::Malformed)
    }
}

/// The segments that a record holds in whole blocks.
pub open spec fn padded_segments_in(descriptors: Seq<Descriptor>, data: Seq<u8>) -> Result<
    Seq<SegmentView>,
    FrameError,
>
    decreases descriptors.len(),
{
    if descriptors.len() == 0 {
        Ok(Seq::empty())
    } else {
        let last = descriptors.last();
        let at = padded_size(descriptors.drop_last()) as int;
        match padded_segments_in(descriptors.drop_last(), data) {
            Err(error) => Err(error),
            Ok(segments) => match segment_in(
                last,
                data.subrange(at, at + padded(last.length as nat)),
            ) {
                Err(error) => Err(error),
                Ok(segment) => Ok(segments.push(segment)),
            },
        }
    }
}

/// What the late status and the zero bytes behind it say.
pub open spec fn status_fault(block: Seq<u8>) -> Option<FrameError> {
    if !zero_from(block, 1) {
        Some(FrameError::Malformed)
    } else if block[0] % 16 == LATE_STATUS_COMPLETE {
        None
    } else if block[0] % 16 == LATE_STATUS_ABORTED {
        Some(FrameError::Aborted)
    } else {
        Some(FrameError::Malformed)
    }
}

/// The segments after the first, from the record that holds them.
pub open spec fn later_in(descriptors: Seq<Descriptor>, data: Seq<u8>) -> Result<
    Seq<SegmentView>,
    FrameError,
> {
    let block = data.skip(padded_size(descriptors) as int);
    match padded_segments_in(descriptors, data) {
        Err(error) => Err(error),
        Ok(segments) => match status_fault(block) {
            Some(error) => Err(error),
            None => Ok(segments),
        },
    }
}

/// What a first record states of its frame.
pub struct FirstRecord {
    pub tag: Tag,
    pub descriptors: Vec<Descriptor>,
    pub wire_size: u64,
    pub records: u64,
}

/// Reads a first record in the clear.
pub fn parse_first(first: &[u8], limits: Limits) -> (r: Result<FirstRecord, FrameError>)
    requires
        first@.len() == FIRST_RECORD_SIZE,
    ensures
        r matches Ok(found) ==> first_in(first@, limits) == Ok::<
            (Tag, Seq<Descriptor>),
            FrameError,
        >((found.tag, found.descriptors@)) && 1 <= found.descriptors@.len() <= MAX_SEGMENTS
            && secure_fault(found.descriptors@, limits) is None && found.wire_size
            == secure_total(found.descriptors@) && found.records == record_count(
            found.descriptors@,
        ),
        r matches Err(error) ==> first_in(first@, limits) == Err::<
            (Tag, Seq<Descriptor>),
            FrameError,
        >(error),
{
    let preamble = slice_subrange(first, 0, PREAMBLE_SIZE);
    assert(preamble@ =~= first@.take(PREAMBLE_SIZE as int));
    let (tag, descriptors) = decode_preamble(preamble)?;
    let (wire_size, records) = validate_descriptors(descriptors.as_slice(), limits)?;
    Ok(FirstRecord { tag, descriptors, wire_size, records })
}

/// Reads a segment in the clear; what follows it must be zero.
pub fn parse_segment(descriptor: Descriptor, data: &[u8]) -> (r: Result<Segment, FrameError>)
    requires
        data@.len() >= descriptor.length,
    ensures
        r matches Ok(segment) ==> segment_in(descriptor, data@) == Ok::<SegmentView, FrameError>(
            segment@,
        ),
        r matches Err(error) ==> segment_in(descriptor, data@) == Err::<SegmentView, FrameError>(
            error,
        ),
{
    let length: usize = descriptor.length as usize;
    if !all_zero(data, length) {
        return Err(FrameError::Malformed);
    }
    let kept = slice_subrange(data, 0, length);
    assert(kept@ =~= data@.take(length as int));
    Ok(Segment { alignment: descriptor.alignment, data: slice_to_vec(kept) })
}

proof fn lemma_padded_in_prefix(descriptors: Seq<Descriptor>, data: Seq<u8>, count: int)
    requires
        0 <= count <= descriptors.len(),
        padded_segments_in(descriptors.take(count), data) is Err,
    ensures
        padded_segments_in(descriptors, data) == padded_segments_in(descriptors.take(count), data),
    decreases descriptors.len(),
{
    if count == descriptors.len() {
        assert(descriptors.take(count) =~= descriptors);
    } else {
        assert(descriptors.drop_last().take(count) =~= descriptors.take(count));
        lemma_padded_in_prefix(descriptors.drop_last(), data, count);
    }
}

proof fn lemma_padded_size_prefix(descriptors: Seq<Descriptor>, count: int)
    requires
        0 <= count <= descriptors.len(),
    ensures
        padded_size(descriptors.take(count)) <= padded_size(descriptors),
    decreases descriptors.len(),
{
    if count == descriptors.len() {
        assert(descriptors.take(count) =~= descriptors);
    } else {
        assert(descriptors.drop_last().take(count) =~= descriptors.take(count));
        lemma_padded_size_prefix(descriptors.drop_last(), count);
    }
}

/// Reads the segments after the first in the clear.
pub fn parse_later(descriptors: &[Descriptor], data: &[u8]) -> (r: Result<
    Vec<Segment>,
    FrameError,
>)
    requires
        data@.len() == padded_size(descriptors@) + BLOCK_SIZE,
    ensures
        r matches Ok(segments) ==> later_in(descriptors@, data@) == Ok::<
            Seq<SegmentView>,
            FrameError,
        >(segments_view(segments@)),
        r matches Err(error) ==> later_in(descriptors@, data@) == Err::<
            Seq<SegmentView>,
            FrameError,
        >(error),
{
    let total: usize = data.len();
    let mut segments: Vec<Segment> = Vec::new();
    let mut at: usize = 0;
    let mut i: usize = 0;
    assert(descriptors@.take(0) =~= Seq::<Descriptor>::empty());
    assert(segments_view(segments@) =~= Seq::<SegmentView>::empty());
    while i < descriptors.len()
        invariant
            i <= descriptors@.len(),
            total == data@.len(),
            data@.len() == padded_size(descriptors@) + BLOCK_SIZE,
            at == padded_size(descriptors@.take(i as int)),
            at <= data@.len(),
            padded_segments_in(descriptors@.take(i as int), data@) == Ok::<
                Seq<SegmentView>,
                FrameError,
            >(segments_view(segments@)),
        decreases descriptors@.len() - i,
    {
        let descriptor = descriptors[i];
        let ghost before = segments_view(segments@);
        let ghost next = descriptors@.take(i + 1);
        proof {
            assert(next.drop_last() =~= descriptors@.take(i as int));
            assert(next.last() == descriptor);
            lemma_padded_size_prefix(descriptors@, i + 1);
            if padded_segments_in(next, data@) is Err {
                lemma_padded_in_prefix(descriptors@, data@, i + 1);
            }
        }
        let size: usize = padded_length(descriptor.length as u64) as usize;
        let segment = parse_segment(descriptor, slice_subrange(data, at, at + size))?;
        segments.push(segment);
        assert(segments_view(segments@) =~= before.push(segment@));
        at = at + size;
        i = i + 1;
    }
    assert(descriptors@.take(i as int) =~= descriptors@);
    let block = slice_subrange(data, at, total);
    assert(block@ =~= data@.skip(at as int));
    if !all_zero(block, 1) {
        return Err(FrameError::Malformed);
    }
    let status: u8 = block[0] % 16;
    if status == LATE_STATUS_COMPLETE {
        Ok(segments)
    } else if status == LATE_STATUS_ABORTED {
        Err(FrameError::Aborted)
    } else {
        Err(FrameError::Malformed)
    }
}

/// The frame at the front of `data`, what comes behind it, and the direction after the records
/// that were opened. A record that does not open uses up its nonce.
pub open spec fn secure_decoding(d: DirectionView, data: Seq<u8>, limits: Limits) -> (
    Result<(FrameView, Seq<u8>), FrameError>,
    DirectionView,
) {
    if !has_nonces(d, 1) {
        (Err(FrameError::CounterExhausted), d)
    } else if limits.max_frame_bytes < SECURE_PREAMBLE_SIZE {
        (Err(FrameError::LimitExceeded), d)
    } else if data.len() < SECURE_PREAMBLE_SIZE {
        (Err(FrameError::Malformed), d)
    } else {
        let d1 = advanced(d);
        match opened(d.key, next_nonce(d), data.take(SECURE_PREAMBLE_SIZE as int)) {
            None => (Err(FrameError::Integrity), d1),
            Some(first) => match first_in(first, limits) {
                Err(error) => (Err(error), d1),
                Ok((tag, descriptors)) => if !has_nonces(
                    d1,
                    (record_count(descriptors) - 1) as nat,
                ) {
                    (Err(FrameError::CounterExhausted), d1)
                } else {
                    secure_rest(
                        d1,
                        tag,
                        descriptors,
                        first.skip(PREAMBLE_SIZE as int),
                        data.skip(SECURE_PREAMBLE_SIZE as int),
                    )
                },
            },
        }
    }
}

/// What follows a first record, whose part of the first segment is `inline`.
pub open spec fn secure_rest(
    d: DirectionView,
    tag: Tag,
    descriptors: Seq<Descriptor>,
    inline: Seq<u8>,
    data: Seq<u8>,
) -> (Result<(FrameView, Seq<u8>), FrameError>, DirectionView) {
    if has_remainder(descriptors) {
        let size = (remainder_size(descriptors) + TAG_SIZE) as int;
        if data.len() < size {
            (Err(FrameError::Malformed), d)
        } else {
            match opened(d.key, next_nonce(d), data.take(size)) {
                None => (Err(FrameError::Integrity), advanced(d)),
                Some(remainder) => secure_later(
                    advanced(d),
                    tag,
                    descriptors,
                    inline + remainder,
                    data.skip(size),
                ),
            }
        }
    } else {
        secure_later(d, tag, descriptors, inline, data)
    }
}

/// What follows a first segment, whose padded data is `first`.
pub open spec fn secure_later(
    d: DirectionView,
    tag: Tag,
    descriptors: Seq<Descriptor>,
    first: Seq<u8>,
    data: Seq<u8>,
) -> (Result<(FrameView, Seq<u8>), FrameError>, DirectionView) {
    match segment_in(descriptors[0], first) {
        Err(error) => (Err(error), d),
        Ok(segment) => if descriptors.len() == 1 {
            (Ok((FrameView { tag, segments: seq![segment] }, data)), d)
        } else {
            let size = (later_size(descriptors) + TAG_SIZE) as int;
            if data.len() < size {
                (Err(FrameError::Malformed), d)
            } else {
                match opened(d.key, next_nonce(d), data.take(size)) {
                    None => (Err(FrameError::Integrity), advanced(d)),
                    Some(later) => match later_in(descriptors.skip(1), later) {
                        Err(error) => (Err(error), advanced(d)),
                        Ok(segments) => (
                            Ok(
                                (
                                    FrameView { tag, segments: seq![segment] + segments },
                                    data.skip(size),
                                ),
                            ),
                            advanced(d),
                        ),
                    },
                }
            }
        },
    }
}

/// What is left after a frame was read. Where the frame is refused, that is what comes behind the
/// record by which it is refused, or a record that is too short.
pub open spec fn secure_left(d: DirectionView, data: Seq<u8>, limits: Limits) -> Seq<u8> {
    if !has_nonces(d, 1) || limits.max_frame_bytes < SECURE_PREAMBLE_SIZE || data.len()
        < SECURE_PREAMBLE_SIZE {
        data
    } else {
        let rest = data.skip(SECURE_PREAMBLE_SIZE as int);
        match opened(d.key, next_nonce(d), data.take(SECURE_PREAMBLE_SIZE as int)) {
            None => rest,
            Some(first) => match first_in(first, limits) {
                Err(_) => rest,
                Ok((_, descriptors)) => if !has_nonces(
                    advanced(d),
                    (record_count(descriptors) - 1) as nat,
                ) {
                    rest
                } else {
                    rest_left(advanced(d), descriptors, first.skip(PREAMBLE_SIZE as int), rest)
                },
            },
        }
    }
}

/// What is left after the records that follow a first record.
pub open spec fn rest_left(
    d: DirectionView,
    descriptors: Seq<Descriptor>,
    inline: Seq<u8>,
    data: Seq<u8>,
) -> Seq<u8> {
    if has_remainder(descriptors) {
        let size = (remainder_size(descriptors) + TAG_SIZE) as int;
        if data.len() < size {
            data
        } else {
            match opened(d.key, next_nonce(d), data.take(size)) {
                None => data.skip(size),
                Some(remainder) => later_left(descriptors, inline + remainder, data.skip(size)),
            }
        }
    } else {
        later_left(descriptors, inline, data)
    }
}

/// What is left after the record that follows a first segment, whose padded data is `first`.
pub open spec fn later_left(
    descriptors: Seq<Descriptor>,
    first: Seq<u8>,
    data: Seq<u8>,
) -> Seq<u8> {
    let size = (later_size(descriptors) + TAG_SIZE) as int;
    if segment_in(descriptors[0], first) is Err || descriptors.len() == 1 || data.len() < size {
        data
    } else {
        data.skip(size)
    }
}

/// Every record that reading a frame in this direction would open opens to what was sealed.
pub open spec fn honest(d: DirectionView, data: Seq<u8>, limits: Limits) -> bool {
    let record = data.take(SECURE_PREAMBLE_SIZE as int);
    has_nonces(d, 1) && limits.max_frame_bytes >= SECURE_PREAMBLE_SIZE && data.len()
        >= SECURE_PREAMBLE_SIZE ==> {
        &&& opens_to_what_was_sealed(d.key, next_nonce(d), record)
        &&& match opened(d.key, next_nonce(d), record) {
            None => true,
            Some(first) => match first_in(first, limits) {
                Err(_) => true,
                Ok((tag, descriptors)) => has_nonces(
                    advanced(d),
                    (record_count(descriptors) - 1) as nat,
                ) ==> honest_rest(
                    advanced(d),
                    descriptors,
                    first.skip(PREAMBLE_SIZE as int),
                    data.skip(SECURE_PREAMBLE_SIZE as int),
                ),
            },
        }
    }
}

pub open spec fn honest_rest(
    d: DirectionView,
    descriptors: Seq<Descriptor>,
    inline: Seq<u8>,
    data: Seq<u8>,
) -> bool {
    if has_remainder(descriptors) {
        let size = (remainder_size(descriptors) + TAG_SIZE) as int;
        data.len() >= size ==> {
            &&& opens_to_what_was_sealed(d.key, next_nonce(d), data.take(size))
            &&& match opened(d.key, next_nonce(d), data.take(size)) {
                None => true,
                Some(remainder) => honest_later(
                    advanced(d),
                    descriptors,
                    inline + remainder,
                    data.skip(size),
                ),
            }
        }
    } else {
        honest_later(d, descriptors, inline, data)
    }
}

pub open spec fn honest_later(
    d: DirectionView,
    descriptors: Seq<Descriptor>,
    first: Seq<u8>,
    data: Seq<u8>,
) -> bool {
    let size = (later_size(descriptors) + TAG_SIZE) as int;
    segment_in(descriptors[0], first) is Ok && descriptors.len() > 1 && data.len() >= size
        ==> opens_to_what_was_sealed(d.key, next_nonce(d), data.take(size))
}

impl SecureCodec {
    fn read_later(
        &mut self,
        reader: &mut Reader<'_>,
        tag: Tag,
        descriptors: &Vec<Descriptor>,
        first: &[u8],
    ) -> (r: Result<Frame, FrameError>)
        requires
            old(self).wf(),
            1 <= descriptors@.len() <= MAX_SEGMENTS,
            first@.len() >= descriptors@[0].length,
            has_nonces(old(self).rx@, if descriptors@.len() > 1 { 1 } else { 0 }),
            secure_total(descriptors@) <= usize::MAX,
        ensures
            final(self).wf(),
            final(self).tx@ == old(self).tx@,
            ({
                let found = secure_later(
                    old(self).rx@,
                    tag,
                    descriptors@,
                    first@,
                    old(reader)@,
                );
                &&& final(self).rx@ == found.1
                &&& r matches Ok(frame) ==> found.0 == Ok::<(FrameView, Seq<u8>), FrameError>(
                    (frame@, final(reader)@),
                )
                &&& r matches Err(error) ==> found.0 == Err::<(FrameView, Seq<u8>), FrameError>(
                    error,
                )
            }),
            honest_later(old(self).rx@, descriptors@, first@, old(reader)@),
            final(reader)@ == later_left(descriptors@, first@, old(reader)@),
    {
        let segment = parse_segment(descriptors[0], first)?;
        let mut segments: Vec<Segment> = Vec::new();
        segments.push(segment);
        assert(segments_view(segments@) =~= seq![segment@]);
        if descriptors.len() == 1 {
            return Ok(Frame { tag, segments });
        }
        let later = slice_subrange(descriptors.as_slice(), 1, descriptors.len());
        assert(later@ =~= descriptors@.skip(1));
        let size: usize = padded_total(later) + BLOCK_SIZE + TAG_SIZE;
        let record = reader.read_exact(size)?;
        let data = self.rx.open(record)?;
        let mut rest = parse_later(later, data.as_slice())?;
        let ghost tail = segments_view(rest@);
        segments.append(&mut rest);
        assert(segments_view(segments@) =~= seq![segment@] + tail);
        Ok(Frame { tag, segments })
    }

    fn read_rest(
        &mut self,
        reader: &mut Reader<'_>,
        tag: Tag,
        descriptors: &Vec<Descriptor>,
        inline: &[u8],
    ) -> (r: Result<Frame, FrameError>)
        requires
            old(self).wf(),
            1 <= descriptors@.len() <= MAX_SEGMENTS,
            inline@.len() == INLINE_SIZE,
            has_nonces(old(self).rx@, (record_count(descriptors@) - 1) as nat),
            secure_total(descriptors@) <= usize::MAX,
        ensures
            final(self).wf(),
            final(self).tx@ == old(self).tx@,
            ({
                let found = secure_rest(
                    old(self).rx@,
                    tag,
                    descriptors@,
                    inline@,
                    old(reader)@,
                );
                &&& final(self).rx@ == found.1
                &&& r matches Ok(frame) ==> found.0 == Ok::<(FrameView, Seq<u8>), FrameError>(
                    (frame@, final(reader)@),
                )
                &&& r matches Err(error) ==> found.0 == Err::<(FrameView, Seq<u8>), FrameError>(
                    error,
                )
            }),
            honest_rest(old(self).rx@, descriptors@, inline@, old(reader)@),
            final(reader)@ == rest_left(old(self).rx@, descriptors@, inline@, old(reader)@),
    {
        let size: u64 = padded_length(descriptors[0].length as u64);
        if size > INLINE_SIZE as u64 {
            let record = reader.read_exact((size - INLINE_SIZE as u64) as usize + TAG_SIZE)?;
            let remainder = self.rx.open(record)?;
            let mut first: Vec<u8> = slice_to_vec(inline);
            append_bytes(&mut first, remainder.as_slice());
            self.read_later(reader, tag, descriptors, first.as_slice())
        } else {
            self.read_later(reader, tag, descriptors, inline)
        }
    }

    /// Reads one frame. A frame that the peer sealed in this direction is read as it was sent.
    pub fn read(&mut self, reader: &mut Reader<'_>, limits: Limits) -> (r: Result<
        Frame,
        FrameError,
    >)
        requires
            old(self).wf(),
        ensures
            final(self).wf(),
            final(self).tx@ == old(self).tx@,
            final(self).rx@ == secure_decoding(old(self).rx@, old(reader)@, limits).1,
            r matches Ok(frame) ==> secure_decoding(old(self).rx@, old(reader)@, limits).0 == Ok::<
                (FrameView, Seq<u8>),
                FrameError,
            >((frame@, final(reader)@)),
            r matches Err(error) ==> secure_decoding(old(self).rx@, old(reader)@, limits).0
                == Err::<(FrameView, Seq<u8>), FrameError>(error),
            forall|frame: FrameView, tail: Seq<u8>|
                frame_fault(frame, limits) is None && has_nonces(
                    old(self).rx@,
                    frame_records(frame),
                ) && #[trigger] starts_with_frame(old(self).rx@, frame, old(reader)@, tail) ==> {
                    &&& r is Ok
                    &&& r->Ok_0@ == (FrameView {
                        tag: frame.tag,
                        segments: normalized(frame.segments),
                    })
                    &&& final(reader)@ == tail
                    &&& final(self).rx@ == advanced_by(old(self).rx@, frame_records(frame))
                },
            honest(old(self).rx@, old(reader)@, limits),
            final(reader)@ == secure_left(old(self).rx@, old(reader)@, limits),
    {
        let ghost d = self.rx@;
        let ghost data = reader@;
        let found = self.read_frame(reader, limits);
        proof {
            assert forall|frame: FrameView, tail: Seq<u8>|
                frame_fault(frame, limits) is None && has_nonces(d, frame_records(frame))
                    && #[trigger] starts_with_frame(d, frame, data, tail) implies secure_decoding(
                d,
                data,
                limits,
            ) == (
                Ok::<(FrameView, Seq<u8>), FrameError>(
                    (
                        FrameView { tag: frame.tag, segments: normalized(frame.segments) },
                        tail,
                    ),
                ),
                advanced_by(d, frame_records(frame)),
            ) by {
                lemma_sent_frame_reads_back(d, frame, limits, data, tail);
            }
        }
        found
    }

    fn read_frame(&mut self, reader: &mut Reader<'_>, limits: Limits) -> (r: Result<
        Frame,
        FrameError,
    >)
        requires
            old(self).wf(),
        ensures
            final(self).wf(),
            final(self).tx@ == old(self).tx@,
            final(self).rx@ == secure_decoding(old(self).rx@, old(reader)@, limits).1,
            r matches Ok(frame) ==> secure_decoding(old(self).rx@, old(reader)@, limits).0 == Ok::<
                (FrameView, Seq<u8>),
                FrameError,
            >((frame@, final(reader)@)),
            r matches Err(error) ==> secure_decoding(old(self).rx@, old(reader)@, limits).0
                == Err::<(FrameView, Seq<u8>), FrameError>(error),
            honest(old(self).rx@, old(reader)@, limits),
            final(reader)@ == secure_left(old(self).rx@, old(reader)@, limits),
    {
        self.may_read(limits)?;
        let record = reader.read_exact(SECURE_PREAMBLE_SIZE)?;
        let started = self.read_start(record, limits)?;
        self.read_rest(
            reader,
            started.first.tag,
            &started.first.descriptors,
            started.inline.as_slice(),
        )
    }

    /// Whether a frame can be received at all.
    pub fn may_read(&self, limits: Limits) -> (r: Result<(), FrameError>)
        ensures
            r == (if !has_nonces(self.rx@, 1) {
                Err::<(), FrameError>(FrameError::CounterExhausted)
            } else if limits.max_frame_bytes < SECURE_PREAMBLE_SIZE {
                Err(FrameError::LimitExceeded)
            } else {
                Ok(())
            }),
    {
        if !self.rx.available(1) {
            return Err(FrameError::CounterExhausted);
        }
        if limits.max_frame_bytes < SECURE_PREAMBLE_SIZE as u64 {
            return Err(FrameError::LimitExceeded);
        }
        Ok(())
    }

    /// Opens the first record of a frame. The rest of the frame has the size that is left of its
    /// size on the wire.
    pub fn read_start(&mut self, record: &[u8], limits: Limits) -> (r: Result<Started, FrameError>)
        requires
            old(self).wf(),
            has_nonces(old(self).rx@, 1),
            record@.len() == SECURE_PREAMBLE_SIZE,
        ensures
            final(self).wf(),
            final(self).tx@ == old(self).tx@,
            final(self).rx@ == advanced(old(self).rx@),
            opens_to_what_was_sealed(old(self).rx@.key, next_nonce(old(self).rx@), record@),
            r matches Ok(started) ==> started.wf() && has_nonces(
                final(self).rx@,
                (record_count(started.first.descriptors@) - 1) as nat,
            ),
            match opened(old(self).rx@.key, next_nonce(old(self).rx@), record@) {
                None => r == Err::<Started, FrameError>(FrameError::Integrity),
                Some(first) => match first_in(first, limits) {
                    Err(error) => r == Err::<Started, FrameError>(error),
                    Ok((tag, descriptors)) => if !has_nonces(
                        advanced(old(self).rx@),
                        (record_count(descriptors) - 1) as nat,
                    ) {
                        r == Err::<Started, FrameError>(FrameError::CounterExhausted)
                    } else {
                        &&& r is Ok
                        &&& r->Ok_0.first.tag == tag
                        &&& r->Ok_0.first.descriptors@ == descriptors
                        &&& r->Ok_0.inline@ == first.skip(PREAMBLE_SIZE as int)
                    },
                },
            },
    {
        let first = self.rx.open(record)?;
        let found = parse_first(first.as_slice(), limits)?;
        if !self.rx.available(found.records - 1) {
            return Err(FrameError::CounterExhausted);
        }
        let inline = slice_subrange(first.as_slice(), PREAMBLE_SIZE, first.len());
        assert(inline@ =~= first@.skip(PREAMBLE_SIZE as int));
        Ok(Started { first: found, inline: slice_to_vec(inline) })
    }

    /// Opens the rest of a frame whose first record was opened.
    pub fn read_remaining(&mut self, started: &Started, reader: &mut Reader<'_>) -> (r: Result<
        Frame,
        FrameError,
    >)
        requires
            old(self).wf(),
            started.wf(),
            has_nonces(
                old(self).rx@,
                (record_count(started.first.descriptors@) - 1) as nat,
            ),
        ensures
            final(self).wf(),
            final(self).tx@ == old(self).tx@,
            ({
                let found = secure_rest(
                    old(self).rx@,
                    started.first.tag,
                    started.first.descriptors@,
                    started.inline@,
                    old(reader)@,
                );
                &&& final(self).rx@ == found.1
                &&& r matches Ok(frame) ==> found.0 == Ok::<(FrameView, Seq<u8>), FrameError>(
                    (frame@, final(reader)@),
                )
                &&& r matches Err(error) ==> found.0 == Err::<(FrameView, Seq<u8>), FrameError>(
                    error,
                )
            }),
            final(reader)@ == rest_left(
                old(self).rx@,
                started.first.descriptors@,
                started.inline@,
                old(reader)@,
            ),
    {
        self.read_rest(
            reader,
            started.first.tag,
            &started.first.descriptors,
            started.inline.as_slice(),
        )
    }

    /// A half that sends and a half that receives.
    pub fn split(self) -> (r: (SecureEncoder, SecureDecoder))
        ensures
            r.0.0.tx@ == self.tx@,
            r.0.0.rx@ == self.rx@,
            r.1.0.tx@ == self.tx@,
            r.1.0.rx@ == self.rx@,
    {
        let decoder = SecureCodec { tx: self.tx.clone(), rx: self.rx.clone() };
        (SecureEncoder(self), SecureDecoder(decoder))
    }

    /// The frame on the wire with bit `bit` of byte `offset` of its plaintext inverted before it
    /// is sealed. Both count around. Where nonces run out, those that are left are used up.
    pub fn encode_with_authenticated_mutation(
        &mut self,
        frame: &Frame,
        limits: Limits,
        offset: usize,
        bit: u8,
    ) -> (r: Result<Vec<u8>, FrameError>)
        requires
            old(self).wf(),
        ensures
            final(self).wf(),
            final(self).rx@ == old(self).rx@,
            match frame_fault(frame@, limits) {
                Some(error) => r == Err::<Vec<u8>, FrameError>(error) && final(self).tx@ == old(self).tx@,
                None => {
                    let plain = plain_records(frame.tag, normalized(frame@.segments));
                    let records = mutated(plain, offset as int % total_size(plain) as int, bit);
                    &&& r is Ok <==> has_nonces(old(self).tx@, records.len())
                    &&& r matches Ok(wire) ==> wire@ == sealed_records(old(self).tx@, records)
                        && final(self).tx@ == advanced_by(old(self).tx@, records.len())
                    &&& r matches Err(error) ==> error == FrameError::CounterExhausted
                        && final(self).tx@ == spent(old(self).tx@)
                },
            },
    {
        let prepared = PreparedFrame::new(frame, limits)?;
        let mut records = prepared.plaintext_records(frame.tag);
        let ghost plain = records_view(records@);
        proof {
            let all = segments_view(prepared.segments@);
            lemma_record_sizes(frame.tag, all);
            assert forall|i: int| 0 <= i < records@.len() implies (
            #[trigger] records@[i])@.len() <= MAX_PLAINTEXT by {
                assert(plain[i] == records@[i]@);
            }
            assert(records@.len() == plain.len());
            assert(plain[0].len() == FIRST_RECORD_SIZE);
        }
        invert_bit(&mut records, offset, bit);
        self.seal_all(&records)
    }
}

/// A frame whose first record was opened.
pub struct Started {
    pub first: FirstRecord,
    pub inline: Vec<u8>,
}

impl Started {
    /// The descriptors passed the limits, and the part of the first segment has its size.
    pub open spec fn wf(&self) -> bool {
        &&& 1 <= self.first.descriptors@.len() <= MAX_SEGMENTS
        &&& self.first.wire_size == secure_total(self.first.descriptors@)
        &&& secure_total(self.first.descriptors@) <= usize::MAX
        &&& self.inline@.len() == INLINE_SIZE
    }

    /// How many bytes of the frame follow its first record.
    pub fn remaining_size(&self) -> (r: usize)
        requires
            self.wf(),
        ensures
            r == secure_total(self.first.descriptors@) - SECURE_PREAMBLE_SIZE,
    {
        self.first.wire_size as usize - SECURE_PREAMBLE_SIZE
    }
}

/// The sending half of a codec.
pub struct SecureEncoder(pub SecureCodec);

/// The receiving half of a codec.
pub struct SecureDecoder(pub SecureCodec);

impl SecureEncoder {
    pub fn encode(&mut self, frame: &Frame, limits: Limits) -> (r: Result<Vec<u8>, FrameError>)
        requires
            old(self).0.wf(),
        ensures
            final(self).0.wf(),
            final(self).0.rx@ == old(self).0.rx@,
            bytes_result(r) == secure_encoding(old(self).0.tx@, frame@, limits),
            final(self).0.tx@ == if r is Ok {
                advanced_by(old(self).0.tx@, frame_records(frame@))
            } else {
                old(self).0.tx@
            },
    {
        self.0.encode(frame, limits)
    }
}

/// The number of bytes in all records.
pub open spec fn total_size(records: Seq<Seq<u8>>) -> nat
    decreases records.len(),
{
    if records.len() == 0 {
        0
    } else {
        records[0].len() + total_size(records.skip(1))
    }
}

/// Records with one bit inverted in byte `at` of all their bytes.
pub open spec fn mutated(records: Seq<Seq<u8>>, at: int, bit: u8) -> Seq<Seq<u8>>
    decreases records.len(),
{
    if records.len() == 0 {
        records
    } else if at < records[0].len() {
        records.update(0, records[0].update(at, records[0][at] ^ (1u8 << (bit % 8))))
    } else {
        seq![records[0]] + mutated(records.skip(1), at - records[0].len(), bit)
    }
}

fn padded_total(descriptors: &[Descriptor]) -> (r: usize)
    requires
        padded_size(descriptors@) <= usize::MAX,
    ensures
        r == padded_size(descriptors@),
{
    let mut total: usize = 0;
    let mut i: usize = 0;
    assert(descriptors@.take(0) =~= Seq::<Descriptor>::empty());
    while i < descriptors.len()
        invariant
            i <= descriptors@.len(),
            padded_size(descriptors@) <= usize::MAX,
            total == padded_size(descriptors@.take(i as int)),
        decreases descriptors@.len() - i,
    {
        proof {
            assert(descriptors@.take(i + 1).drop_last() =~= descriptors@.take(i as int));
            lemma_padded_size_prefix(descriptors@, i + 1);
        }
        total = total + padded_length(descriptors[i].length as u64) as usize;
        i = i + 1;
    }
    assert(descriptors@.take(i as int) =~= descriptors@);
    total
}

proof fn lemma_padded_reads_back(segments: Seq<SegmentView>, suffix: Seq<u8>)
    requires
        lengths_fit(segments),
    ensures
        padded_segments_in(descriptors_of(segments), padded_segments(segments) + suffix) == Ok::<
            Seq<SegmentView>,
            FrameError,
        >(segments),
    decreases segments.len(),
{
    let descriptors = descriptors_of(segments);
    if segments.len() == 0 {
        assert(segments =~= Seq::empty());
    } else {
        let shorter = segments.drop_last();
        let last = segments.last();
        let size = padded(last.data.len());
        let part = filled(last.data, size);
        let data = padded_segments(segments) + suffix;
        let at = padded_size(descriptors_of(shorter)) as int;
        assert forall|i: int| 0 <= i < shorter.len() implies (
        #[trigger] shorter[i]).data.len() <= u32::MAX by {
            assert(shorter[i] == segments[i]);
        }
        assert(last == segments[segments.len() - 1]);
        assert(descriptors.drop_last() =~= descriptors_of(shorter));
        assert(descriptors.last() == descriptor_of(last));
        lemma_padded_reads_back(shorter, part + suffix);
        lemma_padded_segments_len(shorter);
        assert(data =~= padded_segments(shorter) + (part + suffix));
        assert(data.subrange(at, at + size) =~= part);
        assert(part.take(last.data.len() as int) =~= last.data);
        assert(shorter.push(last) =~= segments);
    }
}

proof fn lemma_later_reads_back(segments: Seq<SegmentView>)
    requires
        1 < segments.len() <= MAX_SEGMENTS,
        lengths_fit(segments),
    ensures
        later_in(descriptors_of(segments).skip(1), later_record(segments)) == Ok::<
            Seq<SegmentView>,
            FrameError,
        >(segments.skip(1)),
{
    let later = segments.skip(1);
    lemma_skip_fits(segments);
    lemma_padded_reads_back(later, status_block());
    lemma_padded_segments_len(later);
    assert(later_record(segments).skip(padded_size(descriptors_of(later)) as int)
        =~= status_block());
}

proof fn lemma_first_reads_back(segments: Seq<SegmentView>)
    requires
        1 <= segments.len() <= MAX_SEGMENTS,
        lengths_fit(segments),
    ensures
        ({
            let inline = filled(inline_part(segments[0].data), INLINE_SIZE as nat);
            let first = if has_remainder(descriptors_of(segments)) {
                inline + remainder_record(segments)
            } else {
                inline
            };
            segment_in(descriptors_of(segments)[0], first) == Ok::<SegmentView, FrameError>(
                segments[0],
            )
        }),
{
    let data = segments[0].data;
    let inline = filled(inline_part(data), INLINE_SIZE as nat);
    assert(data.len() <= u32::MAX);
    if has_remainder(descriptors_of(segments)) {
        let first = inline + remainder_record(segments);
        assert(first.take(data.len() as int) =~= data);
    } else {
        assert(inline.take(data.len() as int) =~= data);
    }
}

proof fn lemma_first_record_parses(frame: FrameView, limits: Limits)
    requires
        frame_fault(frame, limits) is None,
    ensures
        ({
            let segments = normalized(frame.segments);
            let first = first_record(frame.tag, segments);
            &&& 1 <= segments.len() <= MAX_SEGMENTS
            &&& lengths_fit(segments)
            &&& first_in(first, limits) == Ok::<(Tag, Seq<Descriptor>), FrameError>(
                (frame.tag, descriptors_of(segments)),
            )
            &&& first.skip(PREAMBLE_SIZE as int) == filled(
                inline_part(segments[0].data),
                INLINE_SIZE as nat,
            )
            &&& limits.max_frame_bytes >= SECURE_PREAMBLE_SIZE
        }),
{
    let segments = normalized(frame.segments);
    let descriptors = descriptors_of(segments);
    let first = first_record(frame.tag, segments);
    super::frame::lemma_normalized(frame.segments);
    lemma_segments_fit(segments);
    assert(segments.last() == segments[segments.len() - 1]);
    law_preamble(frame.tag, descriptors);
    lemma_preamble_len(frame.tag, descriptors);
    assert(first.take(PREAMBLE_SIZE as int) =~= preamble_bytes(frame.tag, descriptors));
    assert(first.skip(PREAMBLE_SIZE as int) =~= filled(
        inline_part(segments[0].data),
        INLINE_SIZE as nat,
    ));
}

proof fn lemma_later_part_reads_back(
    d: DirectionView,
    tag: Tag,
    segments: Seq<SegmentView>,
    first: Seq<u8>,
    data: Seq<u8>,
    tail: Seq<u8>,
)
    requires
        1 <= segments.len() <= MAX_SEGMENTS,
        lengths_fit(segments),
        segment_in(descriptors_of(segments)[0], first) == Ok::<SegmentView, FrameError>(
            segments[0],
        ),
        honest_later(d, descriptors_of(segments), first, data),
        segments.len() == 1 ==> data == tail,
        segments.len() > 1 ==> {
            let record = sealed(d.key, next_nonce(d), later_record(segments));
            record.len() == later_record(segments).len() + TAG_SIZE && data == record + tail
        },
    ensures
        secure_later(d, tag, descriptors_of(segments), first, data) == (
            Ok::<(FrameView, Seq<u8>), FrameError>((FrameView { tag, segments }, tail)),
            if segments.len() > 1 {
                advanced(d)
            } else {
                d
            },
        ),
{
    let descriptors = descriptors_of(segments);
    if segments.len() == 1 {
        assert(seq![segments[0]] =~= segments);
    } else {
        let size = (later_size(descriptors) + TAG_SIZE) as int;
        let record = sealed(d.key, next_nonce(d), later_record(segments));
        lemma_record_sizes(tag, segments);
        lemma_later_reads_back(segments);
        assert(data.take(size) =~= record);
        assert(data.skip(size) =~= tail);
        assert(seq![segments[0]] + segments.skip(1) =~= segments);
    }
}

#[verifier::rlimit(40)]
#[verifier::spinoff_prover]
proof fn lemma_one_record_reads_back(
    d: DirectionView,
    frame: FrameView,
    limits: Limits,
    data: Seq<u8>,
    tail: Seq<u8>,
)
    requires
        frame_fault(frame, limits) is None,
        has_nonces(d, frame_records(frame)),
        starts_with_frame(d, frame, data, tail),
        honest(d, data, limits),
        plain_records(frame.tag, normalized(frame.segments)).len() == 1,
    ensures
        secure_decoding(d, data, limits) == (
            Ok::<(FrameView, Seq<u8>), FrameError>(
                (FrameView { tag: frame.tag, segments: normalized(frame.segments) }, tail),
            ),
            advanced_by(d, frame_records(frame)),
        ),
{
    let segments = normalized(frame.segments);
    let records = plain_records(frame.tag, segments);
    let first = records[0];
    let d1 = advanced(d);
    lemma_first_record_parses(frame, limits);
    lemma_record_sizes(frame.tag, segments);
    lemma_first_reads_back(segments);
    reveal_with_fuel(sealed_records, 3);
    reveal_with_fuel(advanced_by, 3);
    let s0 = sealed(d.key, next_nonce(d), first);
    assert(advanced_by(d, 0) == d);
    assert(advanced_by(d, 1) == d1);
    assert(s0.len() == SECURE_PREAMBLE_SIZE);
    let inline = filled(inline_part(segments[0].data), INLINE_SIZE as nat);
    let rest = data.skip(SECURE_PREAMBLE_SIZE as int);
    assert(records.drop_last() =~= Seq::<Seq<u8>>::empty());
    assert(data =~= s0 + tail);
    assert(data.take(SECURE_PREAMBLE_SIZE as int) =~= s0);
    assert(rest =~= tail);
    lemma_later_part_reads_back(d1, frame.tag, segments, inline, rest, tail);
}

#[verifier::rlimit(60)]
#[verifier::spinoff_prover]
proof fn lemma_two_records_read_back(
    d: DirectionView,
    frame: FrameView,
    limits: Limits,
    data: Seq<u8>,
    tail: Seq<u8>,
)
    requires
        frame_fault(frame, limits) is None,
        has_nonces(d, frame_records(frame)),
        starts_with_frame(d, frame, data, tail),
        honest(d, data, limits),
        plain_records(frame.tag, normalized(frame.segments)).len() == 2,
    ensures
        secure_decoding(d, data, limits) == (
            Ok::<(FrameView, Seq<u8>), FrameError>(
                (FrameView { tag: frame.tag, segments: normalized(frame.segments) }, tail),
            ),
            advanced_by(d, frame_records(frame)),
        ),
{
    let segments = normalized(frame.segments);
    let records = plain_records(frame.tag, segments);
    let first = records[0];
    let d1 = advanced(d);
    lemma_first_record_parses(frame, limits);
    lemma_record_sizes(frame.tag, segments);
    lemma_first_reads_back(segments);
    reveal_with_fuel(sealed_records, 3);
    reveal_with_fuel(advanced_by, 3);
    let s0 = sealed(d.key, next_nonce(d), first);
    assert(advanced_by(d, 0) == d);
    assert(advanced_by(d, 1) == d1);
    assert(s0.len() == SECURE_PREAMBLE_SIZE);
    let inline = filled(inline_part(segments[0].data), INLINE_SIZE as nat);
    let rest = data.skip(SECURE_PREAMBLE_SIZE as int);
    let descriptors = descriptors_of(segments);
    let d2 = advanced(d1);
    assert(advanced_by(d, 2) == d2);
    let s1 = sealed(d1.key, next_nonce(d1), records[1]);
    assert(records.drop_last() =~= seq![first]);
    assert(seq![first].drop_last() =~= Seq::<Seq<u8>>::empty());
    assert(s1.len() == records[1].len() + TAG_SIZE);
    assert(data =~= s0 + (s1 + tail));
    assert(data.take(SECURE_PREAMBLE_SIZE as int) =~= s0);
    assert(rest =~= s1 + tail);
    if has_remainder(descriptors) {
        let size = (remainder_size(descriptors) + TAG_SIZE) as int;
        assert(rest.take(size) =~= s1);
        assert(rest.skip(size) =~= tail);
        lemma_later_part_reads_back(
            d2,
            frame.tag,
            segments,
            inline + remainder_record(segments),
            tail,
            tail,
        );
    } else {
        lemma_later_part_reads_back(d1, frame.tag, segments, inline, rest, tail);
    }
}

#[verifier::rlimit(60)]
#[verifier::spinoff_prover]
proof fn lemma_three_records_read_back(
    d: DirectionView,
    frame: FrameView,
    limits: Limits,
    data: Seq<u8>,
    tail: Seq<u8>,
)
    requires
        frame_fault(frame, limits) is None,
        has_nonces(d, frame_records(frame)),
        starts_with_frame(d, frame, data, tail),
        honest(d, data, limits),
        plain_records(frame.tag, normalized(frame.segments)).len() == 3,
    ensures
        secure_decoding(d, data, limits) == (
            Ok::<(FrameView, Seq<u8>), FrameError>(
                (FrameView { tag: frame.tag, segments: normalized(frame.segments) }, tail),
            ),
            advanced_by(d, frame_records(frame)),
        ),
{
    let segments = normalized(frame.segments);
    let records = plain_records(frame.tag, segments);
    let first = records[0];
    let d1 = advanced(d);
    lemma_first_record_parses(frame, limits);
    lemma_record_sizes(frame.tag, segments);
    lemma_first_reads_back(segments);
    reveal_with_fuel(sealed_records, 4);
    reveal_with_fuel(advanced_by, 4);
    let s0 = sealed(d.key, next_nonce(d), first);
    assert(advanced_by(d, 0) == d);
    assert(advanced_by(d, 1) == d1);
    assert(s0.len() == SECURE_PREAMBLE_SIZE);
    let inline = filled(inline_part(segments[0].data), INLINE_SIZE as nat);
    let rest = data.skip(SECURE_PREAMBLE_SIZE as int);
    let descriptors = descriptors_of(segments);
    let d2 = advanced(d1);
    assert(advanced_by(d, 2) == d2);
    let s1 = sealed(d1.key, next_nonce(d1), records[1]);
    let s2 = sealed(d2.key, next_nonce(d2), records[2]);
    assert(records.drop_last() =~= seq![first, records[1]]);
    assert(seq![first, records[1]].drop_last() =~= seq![first]);
    assert(seq![first].drop_last() =~= Seq::<Seq<u8>>::empty());
    assert(s1.len() == records[1].len() + TAG_SIZE);
    assert(s2.len() == records[2].len() + TAG_SIZE);
    assert(data =~= s0 + (s1 + (s2 + tail)));
    assert(data.take(SECURE_PREAMBLE_SIZE as int) =~= s0);
    assert(rest =~= s1 + (s2 + tail));
    let size = (remainder_size(descriptors) + TAG_SIZE) as int;
    assert(rest.take(size) =~= s1);
    assert(rest.skip(size) =~= s2 + tail);
    lemma_later_part_reads_back(
        d2,
        frame.tag,
        segments,
        inline + remainder_record(segments),
        s2 + tail,
        tail,
    );
}

proof fn lemma_sent_frame_reads_back(
    d: DirectionView,
    frame: FrameView,
    limits: Limits,
    data: Seq<u8>,
    tail: Seq<u8>,
)
    requires
        frame_fault(frame, limits) is None,
        has_nonces(d, frame_records(frame)),
        starts_with_frame(d, frame, data, tail),
        honest(d, data, limits),
    ensures
        secure_decoding(d, data, limits) == (
            Ok::<(FrameView, Seq<u8>), FrameError>(
                (FrameView { tag: frame.tag, segments: normalized(frame.segments) }, tail),
            ),
            advanced_by(d, frame_records(frame)),
        ),
{
    let records = plain_records(frame.tag, normalized(frame.segments));
    if records.len() == 1 {
        lemma_one_record_reads_back(d, frame, limits, data, tail);
    } else if records.len() == 2 {
        lemma_two_records_read_back(d, frame, limits, data, tail);
    } else {
        lemma_three_records_read_back(d, frame, limits, data, tail);
    }
}

proof fn lemma_mutated_split(records: Seq<Seq<u8>>, i: int, at: int, bit: u8)
    requires
        0 <= i <= records.len(),
        at >= 0,
    ensures
        mutated(records, total_size(records.take(i)) + at, bit) == records.take(i) + mutated(
            records.skip(i),
            at,
            bit,
        ),
        total_size(records) == total_size(records.take(i)) + total_size(records.skip(i)),
    decreases i,
{
    if i == 0 {
        assert(records.take(0) =~= Seq::<Seq<u8>>::empty());
        assert(records.skip(0) =~= records);
        assert(records.take(0) + mutated(records, at, bit) =~= mutated(records, at, bit));
    } else {
        let rest = records.skip(1);
        lemma_mutated_split(rest, i - 1, at, bit);
        assert(records.take(i)[0] == records[0]);
        assert(records.take(i).skip(1) =~= rest.take(i - 1));
        assert(rest.skip(i - 1) =~= records.skip(i));
        let size = total_size(records.take(i)) + at;
        assert(size - records[0].len() == total_size(rest.take(i - 1)) + at);
        assert(seq![records[0]] + (rest.take(i - 1) + mutated(records.skip(i), at, bit))
            =~= records.take(i) + mutated(records.skip(i), at, bit));
    }
}

proof fn lemma_total_size_next(records: Seq<Seq<u8>>, i: int)
    requires
        0 <= i < records.len(),
    ensures
        total_size(records.take(i + 1)) == total_size(records.take(i)) + records[i].len(),
{
    let part = records.take(i + 1);
    let one = seq![records[i]];
    lemma_mutated_split(part, i, 0, 0);
    assert(part.take(i) =~= records.take(i));
    assert(part.skip(i) =~= one);
    assert(total_size(one.skip(1)) == 0);
    assert(total_size(one) == one[0].len() + total_size(one.skip(1)));
}

fn invert_bit(records: &mut Vec<Vec<u8>>, offset: usize, bit: u8)
    requires
        old(records)@.len() >= 1,
        old(records)@.len() <= 3,
        old(records)@[0]@.len() > 0,
        forall|i: int| 0 <= i < old(records)@.len() ==> (#[trigger] old(records)@[i])@.len()
            <= MAX_PLAINTEXT,
    ensures
        records_view(final(records)@) == mutated(
            records_view(old(records)@),
            offset as int % total_size(records_view(old(records)@)) as int,
            bit,
        ),
        final(records)@.len() == old(records)@.len(),
        forall|i: int| 0 <= i < final(records)@.len() ==> (#[trigger] final(records)@[i])@.len()
            <= MAX_PLAINTEXT,
{
    let ghost all = records_view(records@);
    let mut total: u64 = 0;
    let mut k: usize = 0;
    proof {
        lemma_mutated_split(all, 0, 0, bit);
    }
    while k < records.len()
        invariant
            k <= records@.len() <= 3,
            records@ == old(records)@,
            all == records_view(records@),
            forall|i: int| 0 <= i < records@.len() ==> (#[trigger] records@[i])@.len()
                <= MAX_PLAINTEXT,
            total == total_size(all.take(k as int)),
            total <= k * MAX_PLAINTEXT,
        decreases records@.len() - k,
    {
        proof {
            lemma_total_size_next(all, k as int);
            assert(records@[k as int]@.len() <= MAX_PLAINTEXT);
        }
        total = total + records[k].len() as u64;
        k = k + 1;
    }
    assert(all.take(k as int) =~= all);
    proof {
        assert(total_size(all) >= all[0].len());
    }
    let at: u64 = offset as u64 % total;
    let mut rest: u64 = at;
    let mut i: usize = 0;
    while i < records.len()
        invariant
            i <= records@.len(),
            records@ == old(records)@,
            all == records_view(records@),
            total == total_size(all),
            at < total,
            at == offset as int % total as int,
            at == total_size(all.take(i as int)) + rest,
            forall|i: int| 0 <= i < records@.len() ==> (#[trigger] records@[i])@.len()
                <= MAX_PLAINTEXT,
        decreases records@.len() - i,
    {
        proof {
            lemma_mutated_split(all, i as int, rest as int, bit);
            lemma_total_size_next(all, i as int);
            assert(all.skip(i as int)[0] == all[i as int]);
        }
        if rest < records[i].len() as u64 {
            let mut record = slice_to_vec(records[i].as_slice());
            let value: u8 = record[rest as usize] ^ (1u8 << (bit % 8));
            record.set(rest as usize, value);
            records.set(i, record);
            proof {
                let changed = all[i as int].update(rest as int, value);
                assert(records_view(records@) =~= all.take(i as int) + all.skip(i as int).update(
                    0,
                    changed,
                ));
                assert forall|j: int| 0 <= j < records@.len() implies (
                #[trigger] records@[j])@.len() <= MAX_PLAINTEXT by {
                    if j != i {
                        assert(records@[j] == old(records)@[j]);
                    } else {
                        assert(all[j].len() <= MAX_PLAINTEXT);
                    }
                }
            }
            return;
        }
        rest = rest - records[i].len() as u64;
        i = i + 1;
    }
    assert(all.take(i as int) =~= all);
}

// ---------------------------------------------------------------------------
// Laws
// ---------------------------------------------------------------------------

/// The direction after frames were sent.
pub open spec fn after_frames(d: DirectionView, frames: Seq<FrameView>) -> DirectionView
    decreases frames.len(),
{
    if frames.len() == 0 {
        d
    } else {
        after_frames(advanced_by(d, frame_records(frames[0])), frames.skip(1))
    }
}

/// Frames on the wire, one after the other.
pub open spec fn frames_wire(d: DirectionView, frames: Seq<FrameView>) -> Seq<u8>
    decreases frames.len(),
{
    if frames.len() == 0 {
        Seq::empty()
    } else {
        secure_wire(d, frames[0]) + frames_wire(
            advanced_by(d, frame_records(frames[0])),
            frames.skip(1),
        )
    }
}

/// Whether frames were sent in this direction, one after the other: each could be encoded, and
/// sealing added a tag to each of its records.
pub open spec fn frames_sent(d: DirectionView, frames: Seq<FrameView>, limits: Limits) -> bool
    decreases frames.len(),
{
    frames.len() > 0 ==> {
        &&& secure_encoding(d, frames[0], limits) is Ok
        &&& well_sized(d, plain_records(frames[0].tag, normalized(frames[0].segments)))
        &&& frames_sent(advanced_by(d, frame_records(frames[0])), frames.skip(1), limits)
    }
}

/// The next `count` frames of `data`, what comes behind them, and the direction after them.
pub open spec fn frames_decoding(
    d: DirectionView,
    data: Seq<u8>,
    limits: Limits,
    count: nat,
) -> (Result<(Seq<FrameView>, Seq<u8>), FrameError>, DirectionView)
    decreases count,
{
    if count == 0 {
        (Ok((Seq::empty(), data)), d)
    } else {
        match secure_decoding(d, data, limits) {
            (Err(error), d1) => (Err(error), d1),
            (Ok((frame, rest)), d1) => match frames_decoding(
                d1,
                rest,
                limits,
                (count - 1) as nat,
            ) {
                (Err(error), d2) => (Err(error), d2),
                (Ok((frames, tail)), d2) => (Ok((seq![frame] + frames, tail)), d2),
            },
        }
    }
}

/// Whether each of the next `count` reads was made, and so opened records to what was sealed.
pub open spec fn all_honest(d: DirectionView, data: Seq<u8>, limits: Limits, count: nat) -> bool
    decreases count,
{
    count > 0 ==> {
        &&& honest(d, data, limits)
        &&& secure_decoding(d, data, limits) matches (Ok((_, rest)), d1) ==> all_honest(
            d1,
            rest,
            limits,
            (count - 1) as nat,
        )
    }
}

/// Frames without the empty segments at their ends.
pub open spec fn all_normalized(frames: Seq<FrameView>) -> Seq<FrameView> {
    Seq::new(
        frames.len(),
        |i: int| FrameView { tag: frames[i].tag, segments: normalized(frames[i].segments) },
    )
}

/// Frames that one side sent in order are read by the other side in that order, as they were sent but
/// for empty segments at their ends. Then both sides have used the same nonces, and what follows the
/// frames is left.
pub proof fn law_sealed_frames_read_back_in_order(
    d: DirectionView,
    frames: Seq<FrameView>,
    limits: Limits,
    tail: Seq<u8>,
)
    requires
        frames_sent(d, frames, limits),
        all_honest(d, frames_wire(d, frames) + tail, limits, frames.len()),
    ensures
        frames_decoding(d, frames_wire(d, frames) + tail, limits, frames.len()) == (
            Ok::<(Seq<FrameView>, Seq<u8>), FrameError>((all_normalized(frames), tail)),
            after_frames(d, frames),
        ),
    decreases frames.len(),
{
    let data = frames_wire(d, frames) + tail;
    if frames.len() == 0 {
        assert(data =~= tail);
        assert(all_normalized(frames) =~= Seq::empty());
    } else {
        let d1 = advanced_by(d, frame_records(frames[0]));
        let rest = frames_wire(d1, frames.skip(1)) + tail;
        let first = FrameView { tag: frames[0].tag, segments: normalized(frames[0].segments) };
        assert(data =~= secure_wire(d, frames[0]) + rest);
        assert(starts_with_frame(d, frames[0], data, rest));
        lemma_sent_frame_reads_back(d, frames[0], limits, data, rest);
        law_sealed_frames_read_back_in_order(d1, frames.skip(1), limits, tail);
        assert(seq![first] + all_normalized(frames.skip(1)) =~= all_normalized(frames));
    }
}

/// The two sides of a connection cross: what one of them sends in, the other receives in, from the
/// first record on.
pub proof fn law_directions_cross(secret: Seq<u8>)
    requires
        secret.len() == SECRET_SIZE,
    ensures
        sending(secret, true) == receiving(secret, false),
        sending(secret, false) == receiving(secret, true),
{
}

/// Reading a frame goes forward, whether or not the frame is refused: what is left is the end of what
/// there was, and nonces are used up, at most one for each record of a frame.
pub proof fn law_sealed_reading_goes_forward(d: DirectionView, data: Seq<u8>, limits: Limits)
    ensures
        secure_left(d, data, limits).len() <= data.len(),
        secure_left(d, data, limits) == data.skip(
            data.len() - secure_left(d, data, limits).len(),
        ),
        secure_decoding(d, data, limits).0 matches Ok((_, rest)) ==> rest == secure_left(
            d,
            data,
            limits,
        ),
        exists|count: nat|
            count <= 3 && secure_decoding(d, data, limits).1 == #[trigger] advanced_by(d, count)
                && (secure_decoding(d, data, limits).0 is Ok || secure_decoding(d, data, limits).0
                == Err::<(FrameView, Seq<u8>), FrameError>(FrameError::Integrity) ==> count >= 1),
{
    reveal_with_fuel(advanced_by, 4);
    assert(advanced_by(d, 0) == d);
    assert(advanced_by(d, 1) == advanced(d));
    assert(advanced_by(d, 2) == advanced(advanced(d)));
    assert(advanced_by(d, 3) == advanced(advanced(advanced(d))));
    assert(data.skip(0) =~= data);
    if has_nonces(d, 1) && limits.max_frame_bytes >= SECURE_PREAMBLE_SIZE && data.len()
        >= SECURE_PREAMBLE_SIZE {
        let rest = data.skip(SECURE_PREAMBLE_SIZE as int);
        match opened(d.key, next_nonce(d), data.take(SECURE_PREAMBLE_SIZE as int)) {
            None => {},
            Some(first) => match first_in(first, limits) {
                Err(_) => {},
                Ok((_, descriptors)) => {
                    lemma_rest_goes_forward(
                        advanced(d),
                        descriptors,
                        first.skip(PREAMBLE_SIZE as int),
                        rest,
                    );
                    let left = rest_left(
                        advanced(d),
                        descriptors,
                        first.skip(PREAMBLE_SIZE as int),
                        rest,
                    );
                    assert(rest.skip(rest.len() - left.len()) =~= data.skip(
                        data.len() - left.len(),
                    ));
                },
            },
        }
    }
}

proof fn lemma_rest_goes_forward(
    d: DirectionView,
    descriptors: Seq<Descriptor>,
    inline: Seq<u8>,
    data: Seq<u8>,
)
    ensures
        rest_left(d, descriptors, inline, data).len() <= data.len(),
        rest_left(d, descriptors, inline, data) == data.skip(
            data.len() - rest_left(d, descriptors, inline, data).len(),
        ),
{
    assert(data.skip(0) =~= data);
    let size = (later_size(descriptors) + TAG_SIZE) as int;
    if has_remainder(descriptors) {
        let first = (remainder_size(descriptors) + TAG_SIZE) as int;
        if data.len() >= first + size {
            assert(data.skip(first).skip(size) =~= data.skip(first + size));
        }
    }
}

/// A record that does not open is refused, and its nonce is used up all the same.
pub proof fn law_refused_record_uses_its_nonce(d: DirectionView, data: Seq<u8>, limits: Limits)
    requires
        has_nonces(d, 1),
        limits.max_frame_bytes >= SECURE_PREAMBLE_SIZE,
        data.len() >= SECURE_PREAMBLE_SIZE,
        opened(d.key, next_nonce(d), data.take(SECURE_PREAMBLE_SIZE as int)) is None,
    ensures
        secure_decoding(d, data, limits) == (
            Err::<(FrameView, Seq<u8>), FrameError>(FrameError::Integrity),
            advanced(d),
        ),
{
}

/// A record that was changed on the way does not open to what was sealed.
pub proof fn law_changed_record_does_not_open_as_sent(
    key: Seq<u8>,
    nonce: Seq<u8>,
    plaintext: Seq<u8>,
    record: Seq<u8>,
)
    requires
        opens_to_what_was_sealed(key, nonce, record),
        record != sealed(key, nonce, plaintext),
    ensures
        opened(key, nonce, record) != Some(plaintext),
{
}

} // verus!
