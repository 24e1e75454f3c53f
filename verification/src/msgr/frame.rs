//! Frames with checksums.

use crate::wire::{
    append_bytes, checksum, crc32c, from_le16, from_le32, le16, le32, push_le16, push_le32,
    read_le16, read_le32, zeros, WireError,
};
use vstd::prelude::*;
use vstd::slice::{slice_subrange, slice_to_vec};

verus! {

broadcast use crate::wire::group_integers;

pub const PREAMBLE_SIZE: usize = 32;

pub const MAX_SEGMENTS: usize = 4;

pub const DEFAULT_ALIGNMENT: u16 = 8;

pub const PAGE_ALIGNMENT: u16 = 4096;

pub const LATE_STATUS_ABORTED: u8 = 0x01;

pub const LATE_STATUS_COMPLETE: u8 = 0x0e;

/// The size of what follows the segments of a frame that has more than one.
pub const EPILOGUE_SIZE: usize = 13;

/// What a frame carries.
#[derive(Clone, Copy, Debug, PartialEq, Eq, Structural)]
pub enum Tag {
    Hello,
    AuthRequest,
    AuthBadMethod,
    AuthReplyMore,
    AuthRequestMore,
    AuthDone,
    AuthSignature,
    ClientIdent,
    ServerIdent,
    IdentMissingFeatures,
    SessionReconnect,
    SessionReset,
    SessionRetry,
    SessionRetryGlobal,
    SessionReconnectOk,
    Wait,
    Message,
    Keepalive2,
    Keepalive2Ack,
    Ack,
    CompressionRequest,
    CompressionDone,
}

/// The number of a tag on the wire.
pub open spec fn tag_code(tag: Tag) -> u8 {
    match tag {
        Tag::Hello => 1,
        Tag::AuthRequest => 2,
        Tag::AuthBadMethod => 3,
        Tag::AuthReplyMore => 4,
        Tag::AuthRequestMore => 5,
        Tag::AuthDone => 6,
        Tag::AuthSignature => 7,
        Tag::ClientIdent => 8,
        Tag::ServerIdent => 9,
        Tag::IdentMissingFeatures => 10,
        Tag::SessionReconnect => 11,
        Tag::SessionReset => 12,
        Tag::SessionRetry => 13,
        Tag::SessionRetryGlobal => 14,
        Tag::SessionReconnectOk => 15,
        Tag::Wait => 16,
        Tag::Message => 17,
        Tag::Keepalive2 => 18,
        Tag::Keepalive2Ack => 19,
        Tag::Ack => 20,
        Tag::CompressionRequest => 21,
        Tag::CompressionDone => 22,
    }
}

/// The highest tag that may appear on the wire.
pub const LAST_TAG_CODE: u8 = 20;

impl Tag {
    /// The number of this tag on the wire.
    pub fn code(self) -> (r: u8)
        ensures
            r == tag_code(self),
    {
        match self {
            Tag::Hello => 1,
            Tag::AuthRequest => 2,
            Tag::AuthBadMethod => 3,
            Tag::AuthReplyMore => 4,
            Tag::AuthRequestMore => 5,
            Tag::AuthDone => 6,
            Tag::AuthSignature => 7,
            Tag::ClientIdent => 8,
            Tag::ServerIdent => 9,
            Tag::IdentMissingFeatures => 10,
            Tag::SessionReconnect => 11,
            Tag::SessionReset => 12,
            Tag::SessionRetry => 13,
            Tag::SessionRetryGlobal => 14,
            Tag::SessionReconnectOk => 15,
            Tag::Wait => 16,
            Tag::Message => 17,
            Tag::Keepalive2 => 18,
            Tag::Keepalive2Ack => 19,
            Tag::Ack => 20,
            Tag::CompressionRequest => 21,
            Tag::CompressionDone => 22,
        }
    }

    /// The tag with the number `value`.
    pub fn try_from(value: u8) -> (r: Result<Self, FrameError>)
        ensures
            r matches Ok(tag) ==> tag_code(tag) == value,
            r matches Err(error) ==> error == FrameError::Malformed && forall|tag: Tag|
                #[trigger] tag_code(tag) != value,
    {
        match value {
            1 => Ok(Tag::Hello),
            2 => Ok(Tag::AuthRequest),
            3 => Ok(Tag::AuthBadMethod),
            4 => Ok(Tag::AuthReplyMore),
            5 => Ok(Tag::AuthRequestMore),
            6 => Ok(Tag::AuthDone),
            7 => Ok(Tag::AuthSignature),
            8 => Ok(Tag::ClientIdent),
            9 => Ok(Tag::ServerIdent),
            10 => Ok(Tag::IdentMissingFeatures),
            11 => Ok(Tag::SessionReconnect),
            12 => Ok(Tag::SessionReset),
            13 => Ok(Tag::SessionRetry),
            14 => Ok(Tag::SessionRetryGlobal),
            15 => Ok(Tag::SessionReconnectOk),
            16 => Ok(Tag::Wait),
            17 => Ok(Tag::Message),
            18 => Ok(Tag::Keepalive2),
            19 => Ok(Tag::Keepalive2Ack),
            20 => Ok(Tag::Ack),
            21 => Ok(Tag::CompressionRequest),
            22 => Ok(Tag::CompressionDone),
            _ => Err(FrameError::Malformed),
        }
    }
}

/// No two tags have the same number.
pub proof fn law_tag_codes_are_distinct(a: Tag, b: Tag)
    requires
        tag_code(a) == tag_code(b),
    ensures
        a == b,
{
}

/// Bounds on what a peer may send and on what is sent to it.
#[derive(Clone, Copy, Debug, PartialEq, Eq, Structural)]
pub struct Limits {
    pub max_segment_bytes: u32,
    pub max_frame_bytes: u64,
    pub max_addresses: u32,
    pub max_auth_bytes: u32,
}

#[derive(Clone, Debug, PartialEq, Eq)]
pub struct Segment {
    pub alignment: u16,
    pub data: Vec<u8>,
}

#[derive(Clone, Debug, PartialEq, Eq)]
pub struct Frame {
    pub tag: Tag,
    pub segments: Vec<Segment>,
}

#[verifier::ext_equal]
pub struct SegmentView {
    pub alignment: u16,
    pub data: Seq<u8>,
}

#[verifier::ext_equal]
pub struct FrameView {
    pub tag: Tag,
    pub segments: Seq<SegmentView>,
}

impl View for Segment {
    type V = SegmentView;

    open spec fn view(&self) -> SegmentView {
        SegmentView { alignment: self.alignment, data: self.data@ }
    }
}

pub open spec fn segments_view(segments: Seq<Segment>) -> Seq<SegmentView> {
    Seq::new(segments.len(), |i: int| segments[i]@)
}

impl View for Frame {
    type V = FrameView;

    open spec fn view(&self) -> FrameView {
        FrameView { tag: self.tag, segments: segments_view(self.segments@) }
    }
}

/// Why a frame could not be written or read.
#[derive(Clone, Copy, Debug, PartialEq, Eq, Structural)]
pub enum FrameError {
    Aborted,
    CounterExhausted,
    Integrity,
    InvalidSecret,
    LimitExceeded,
    Malformed,
    UnsupportedFeature,
    UnsupportedPayload,
}

impl FrameError {
    /// A description for people.
    pub fn describe(self) -> (r: &'static str)
        ensures
            r@ == (match self {
                FrameError::Aborted => "messenger frame aborted"@,
                FrameError::CounterExhausted => "messenger secure counter exhausted"@,
                FrameError::Integrity => "messenger integrity check failed"@,
                FrameError::InvalidSecret => "invalid messenger secure secret"@,
                FrameError::LimitExceeded => "messenger limit exceeded"@,
                FrameError::Malformed => "malformed messenger data"@,
                FrameError::UnsupportedFeature => "unsupported messenger feature"@,
                FrameError::UnsupportedPayload => "unsupported messenger payload"@,
            }),
    {
        match self {
            FrameError::Aborted => "messenger frame aborted",
            FrameError::CounterExhausted => "messenger secure counter exhausted",
            FrameError::Integrity => "messenger integrity check failed",
            FrameError::InvalidSecret => "invalid messenger secure secret",
            FrameError::LimitExceeded => "messenger limit exceeded",
            FrameError::Malformed => "malformed messenger data",
            FrameError::UnsupportedFeature => "unsupported messenger feature",
            FrameError::UnsupportedPayload => "unsupported messenger payload",
        }
    }
}

/// The frame error that stands for a wire error.
pub open spec fn frame_error_of(error: WireError) -> FrameError {
    match error {
        WireError::LimitExceeded => FrameError::LimitExceeded,
        _ => FrameError::Malformed,
    }
}

pub fn frame_error(error: WireError) -> (r: FrameError)
    ensures
        r == frame_error_of(error),
{
    match error {
        WireError::LimitExceeded => FrameError::LimitExceeded,
        WireError::Malformed => FrameError::Malformed,
        WireError::UnsupportedVersion { .. } => FrameError::Malformed,
    }
}

/// Length and alignment of a segment, as the preamble states them.
#[derive(Clone, Copy, Debug, PartialEq, Eq, Structural)]
pub struct Descriptor {
    pub length: u32,
    pub alignment: u16,
}

/// A frame's segments without the empty ones at its end; the first always stays.
pub open spec fn normalized(segments: Seq<SegmentView>) -> Seq<SegmentView>
    decreases segments.len(),
{
    if segments.len() > 1 && segments.last().data.len() == 0 {
        normalized(segments.drop_last())
    } else {
        segments
    }
}

pub open spec fn descriptor_of(segment: SegmentView) -> Descriptor {
    Descriptor { length: segment.data.len() as u32, alignment: segment.alignment }
}

pub open spec fn descriptors_of(segments: Seq<SegmentView>) -> Seq<Descriptor> {
    Seq::new(segments.len(), |i: int| descriptor_of(segments[i]))
}

/// Whether every segment's length can be stated in a descriptor.
pub open spec fn lengths_fit(segments: Seq<SegmentView>) -> bool {
    forall|i: int| 0 <= i < segments.len() ==> (#[trigger] segments[i]).data.len() <= u32::MAX
}

/// Whether `a` is a power of two.
pub open spec fn power_of_two(a: nat) -> bool
    decreases a,
{
    if a <= 1 {
        a == 1
    } else {
        a % 2 == 0 && power_of_two(a / 2)
    }
}

pub open spec fn descriptor_fault(d: Descriptor, limits: Limits) -> Option<FrameError> {
    if d.length > limits.max_segment_bytes {
        Some(FrameError::LimitExceeded)
    } else if !power_of_two(d.alignment as nat) {
        Some(FrameError::Malformed)
    } else {
        None
    }
}

/// What is wrong with the first descriptor that is not acceptable.
pub open spec fn first_fault(descriptors: Seq<Descriptor>, limits: Limits) -> Option<FrameError>
    decreases descriptors.len(),
{
    if descriptors.len() == 0 {
        None
    } else {
        match first_fault(descriptors.drop_last(), limits) {
            Some(error) => Some(error),
            None => descriptor_fault(descriptors.last(), limits),
        }
    }
}

/// The sum of the segment lengths.
pub open spec fn payload_size(descriptors: Seq<Descriptor>) -> nat
    decreases descriptors.len(),
{
    if descriptors.len() == 0 {
        0
    } else {
        payload_size(descriptors.drop_last()) + descriptors.last().length as nat
    }
}

/// The size of a frame with checksums: preamble, segments, the checksum of a first segment that is
/// not empty, and an epilogue where there is more than one segment.
pub open spec fn crc_total(descriptors: Seq<Descriptor>) -> nat {
    PREAMBLE_SIZE as nat + payload_size(descriptors)
        + (if descriptors.len() > 0 && descriptors[0].length > 0 { 4nat } else { 0 })
        + (if descriptors.len() > 1 { EPILOGUE_SIZE as nat } else { 0 })
}

/// The size of a frame with checksums, if its descriptors are within the limits.
pub open spec fn crc_size(descriptors: Seq<Descriptor>, limits: Limits) -> Result<
    nat,
    FrameError,
> {
    match first_fault(descriptors, limits) {
        Some(error) => Err(error),
        None => if crc_total(descriptors) > limits.max_frame_bytes || crc_total(descriptors)
            > usize::MAX {
            Err(FrameError::LimitExceeded)
        } else {
            Ok(crc_total(descriptors))
        },
    }
}

pub open spec fn descriptor_bytes(descriptors: Seq<Descriptor>) -> Seq<u8>
    decreases descriptors.len(),
{
    if descriptors.len() == 0 {
        Seq::empty()
    } else {
        descriptor_bytes(descriptors.drop_last()) + (le32(descriptors.last().length) + le16(
            descriptors.last().alignment,
        ))
    }
}

/// The part of the preamble that its checksum covers.
pub open spec fn preamble_fields(tag: Tag, descriptors: Seq<Descriptor>) -> Seq<u8> {
    seq![tag_code(tag), descriptors.len() as u8] + (descriptor_bytes(descriptors) + zeros(
        (26 - 6 * descriptors.len()) as nat,
    ))
}

/// Tag, number of segments, up to four descriptors, two zero bytes and a checksum.
pub open spec fn preamble_bytes(tag: Tag, descriptors: Seq<Descriptor>) -> Seq<u8> {
    preamble_fields(tag, descriptors) + le32(checksum(0, preamble_fields(tag, descriptors)))
}

/// The checksum of a segment, or zero where segments are not checked.
pub open spec fn data_checksum(with_data_crc: bool, data: Seq<u8>) -> u32 {
    if with_data_crc {
        checksum(u32::MAX, data)
    } else {
        0
    }
}

/// The first segment, which its checksum follows where it is not empty.
pub open spec fn first_segment_bytes(with_data_crc: bool, data: Seq<u8>) -> Seq<u8> {
    if data.len() > 0 {
        data + le32(data_checksum(with_data_crc, data))
    } else {
        Seq::empty()
    }
}

/// The segments as they follow the preamble.
pub open spec fn body_bytes(with_data_crc: bool, segments: Seq<SegmentView>) -> Seq<u8>
    decreases segments.len(),
{
    if segments.len() == 0 {
        Seq::empty()
    } else if segments.len() == 1 {
        first_segment_bytes(with_data_crc, segments[0].data)
    } else {
        body_bytes(with_data_crc, segments.drop_last()) + segments.last().data
    }
}

/// The checksum that the epilogue holds for segment `index`.
pub open spec fn late_checksum(with_data_crc: bool, segments: Seq<SegmentView>, index: int) -> u32 {
    if index < segments.len() {
        data_checksum(with_data_crc, segments[index].data)
    } else {
        0
    }
}

/// The late status and the checksums of the segments after the first.
pub open spec fn epilogue_bytes(with_data_crc: bool, segments: Seq<SegmentView>) -> Seq<u8> {
    if segments.len() > 1 {
        seq![LATE_STATUS_COMPLETE] + (le32(late_checksum(with_data_crc, segments, 1)) + (le32(
            late_checksum(with_data_crc, segments, 2),
        ) + le32(late_checksum(with_data_crc, segments, 3))))
    } else {
        Seq::empty()
    }
}

/// A frame with checksums on the wire.
pub open spec fn crc_frame(
    with_data_crc: bool,
    tag: Tag,
    segments: Seq<SegmentView>,
) -> Seq<u8> {
    preamble_bytes(tag, descriptors_of(segments)) + (body_bytes(with_data_crc, segments)
        + epilogue_bytes(with_data_crc, segments))
}

/// What `CrcCodec::encode` yields.
pub open spec fn crc_encoding(with_data_crc: bool, frame: FrameView, limits: Limits) -> Result<
    Seq<u8>,
    FrameError,
> {
    let segments = normalized(frame.segments);
    if frame.segments.len() == 0 || frame.segments.len() > MAX_SEGMENTS {
        Err(FrameError::Malformed)
    } else if tag_code(frame.tag) > LAST_TAG_CODE {
        Err(FrameError::Malformed)
    } else if !lengths_fit(segments) {
        Err(FrameError::LimitExceeded)
    } else {
        match crc_size(descriptors_of(segments), limits) {
            Err(error) => Err(error),
            Ok(_) => Ok(crc_frame(with_data_crc, frame.tag, segments)),
        }
    }
}

/// Whether `alignment` is a power of two.
pub fn valid_alignment(alignment: u16) -> (r: bool)
    ensures
        r == power_of_two(alignment as nat),
{
    let mut a: u16 = alignment;
    while a > 1 && a % 2 == 0
        invariant
            power_of_two(alignment as nat) == power_of_two(a as nat),
        decreases a,
    {
        a = a / 2;
    }
    a == 1
}

proof fn lemma_normalized_prefix(segments: Seq<SegmentView>, end: int)
    requires
        1 <= end <= segments.len(),
        forall|i: int| end <= i < segments.len() ==> (#[trigger] segments[i]).data.len() == 0,
        end == 1 || segments[end - 1].data.len() > 0,
    ensures
        normalized(segments) == segments.take(end),
    decreases segments.len(),
{
    if end == segments.len() {
        assert(segments.take(end) =~= segments);
    } else {
        let shorter = segments.drop_last();
        assert forall|i: int| end <= i < shorter.len() implies (
        #[trigger] shorter[i]).data.len() == 0 by {
            assert(shorter[i] == segments[i]);
        }
        lemma_normalized_prefix(shorter, end);
        assert(shorter.take(end) =~= segments.take(end));
        assert(segments.last() == segments[segments.len() - 1]);
    }
}

/// The segments of a frame without the empty ones at its end.
pub fn normalized_segments(segments: &[Segment]) -> (r: Result<&[Segment], FrameError>)
    ensures
        r matches Err(error) ==> error == FrameError::Malformed && (segments@.len() == 0
            || segments@.len() > MAX_SEGMENTS),
        r matches Ok(kept) ==> 1 <= segments@.len() <= MAX_SEGMENTS && kept@.len() >= 1
            && kept@.len() <= segments@.len() && segments_view(kept@) == normalized(
            segments_view(segments@),
        ),
{
    if segments.len() == 0 || segments.len() > MAX_SEGMENTS {
        return Err(FrameError::Malformed);
    }
    let mut end: usize = segments.len();
    while end > 1 && segments[end - 1].data.len() == 0
        invariant
            1 <= end <= segments@.len(),
            forall|i: int|
                end <= i < segments@.len() ==> (#[trigger] segments@[i]).data@.len() == 0,
        decreases end,
    {
        end = end - 1;
    }
    let kept = slice_subrange(segments, 0, end);
    proof {
        let all = segments_view(segments@);
        lemma_normalized_prefix(all, end as int);
        assert(segments_view(kept@) =~= all.take(end as int));
    }
    Ok(kept)
}

proof fn lemma_payload_size_bound(descriptors: Seq<Descriptor>)
    ensures
        payload_size(descriptors) <= descriptors.len() * u32::MAX,
    decreases descriptors.len(),
{
    if descriptors.len() > 0 {
        lemma_payload_size_bound(descriptors.drop_last());
        assert(descriptors.len() * u32::MAX == (descriptors.len() - 1) * u32::MAX + u32::MAX)
            by (nonlinear_arith);
    }
}

proof fn lemma_first_fault_prefix(descriptors: Seq<Descriptor>, limits: Limits, count: int)
    requires
        0 <= count <= descriptors.len(),
        first_fault(descriptors.take(count), limits) is Some,
    ensures
        first_fault(descriptors, limits) == first_fault(descriptors.take(count), limits),
    decreases descriptors.len(),
{
    if count == descriptors.len() {
        assert(descriptors.take(count) =~= descriptors);
    } else {
        assert(descriptors.drop_last().take(count) =~= descriptors.take(count));
        lemma_first_fault_prefix(descriptors.drop_last(), limits, count);
    }
}

/// The size of a frame with checksums whose segments have these descriptors.
pub fn descriptors_and_crc_size_from_descriptors(
    descriptors: &[Descriptor],
    limits: Limits,
) -> (r: Result<usize, FrameError>)
    requires
        descriptors@.len() <= MAX_SEGMENTS,
    ensures
        r matches Ok(size) ==> crc_size(descriptors@, limits) == Ok::<nat, FrameError>(
            size as nat,
        ),
        r matches Err(error) ==> crc_size(descriptors@, limits) == Err::<nat, FrameError>(error),
{
    let mut total: u64 = PREAMBLE_SIZE as u64;
    let mut i: usize = 0;
    assert(descriptors@.take(0) =~= Seq::<Descriptor>::empty());
    while i < descriptors.len()
        invariant
            i <= descriptors@.len() <= MAX_SEGMENTS,
            first_fault(descriptors@.take(i as int), limits) is None,
            total == PREAMBLE_SIZE + payload_size(descriptors@.take(i as int)),
        decreases descriptors@.len() - i,
    {
        let d = descriptors[i];
        proof {
            let next = descriptors@.take(i + 1);
            assert(next.drop_last() =~= descriptors@.take(i as int));
            assert(next.last() == d);
            lemma_payload_size_bound(descriptors@.take(i as int));
            if first_fault(next, limits) is Some {
                lemma_first_fault_prefix(descriptors@, limits, i + 1);
            }
        }
        if d.length > limits.max_segment_bytes {
            return Err(FrameError::LimitExceeded);
        }
        if !valid_alignment(d.alignment) {
            return Err(FrameError::Malformed);
        }
        total = total + d.length as u64;
        i = i + 1;
    }
    proof {
        assert(descriptors@.take(i as int) =~= descriptors@);
        lemma_payload_size_bound(descriptors@);
    }
    if descriptors.len() > 0 && descriptors[0].length > 0 {
        total = total + 4;
    }
    if descriptors.len() > 1 {
        total = total + EPILOGUE_SIZE as u64;
    }
    if total > limits.max_frame_bytes || total > usize::MAX as u64 {
        return Err(FrameError::LimitExceeded);
    }
    Ok(total as usize)
}

/// The descriptors of `segments` and the size of their frame with checksums.
pub fn descriptors_and_crc_size(segments: &[Segment], limits: Limits) -> (r: Result<
    (Vec<Descriptor>, usize),
    FrameError,
>)
    requires
        segments@.len() <= MAX_SEGMENTS,
    ensures
        r matches Ok(found) ==> lengths_fit(segments_view(segments@)) && found.0@
            == descriptors_of(segments_view(segments@)) && crc_size(found.0@, limits) == Ok::<
            nat,
            FrameError,
        >(found.1 as nat),
        r matches Err(error) ==> if lengths_fit(segments_view(segments@)) {
            crc_size(descriptors_of(segments_view(segments@)), limits) == Err::<nat, FrameError>(
                error,
            )
        } else {
            error == FrameError::LimitExceeded
        },
{
    let mut descriptors: Vec<Descriptor> = Vec::new();
    let mut i: usize = 0;
    let ghost all = segments_view(segments@);
    while i < segments.len()
        invariant
            i <= segments@.len(),
            all == segments_view(segments@),
            descriptors@.len() == i,
            forall|k: int| 0 <= k < i ==> (#[trigger] all[k]).data.len() <= u32::MAX,
            forall|k: int| 0 <= k < i ==> #[trigger] descriptors@[k] == descriptor_of(all[k]),
        decreases segments@.len() - i,
    {
        let length: usize = segments[i].data.len();
        assert(all[i as int].data.len() == length);
        if length as u64 > u32::MAX as u64 {
            return Err(FrameError::LimitExceeded);
        }
        descriptors.push(
            Descriptor { length: length as u32, alignment: segments[i].alignment },
        );
        i = i + 1;
    }
    assert(descriptors@ =~= descriptors_of(all));
    match descriptors_and_crc_size_from_descriptors(descriptors.as_slice(), limits) {
        Ok(total) => Ok((descriptors, total)),
        Err(error) => Err(error),
    }
}

pub proof fn lemma_descriptor_bytes_len(descriptors: Seq<Descriptor>)
    ensures
        descriptor_bytes(descriptors).len() == 6 * descriptors.len(),
    decreases descriptors.len(),
{
    if descriptors.len() > 0 {
        lemma_descriptor_bytes_len(descriptors.drop_last());
    }
}

pub proof fn lemma_preamble_len(tag: Tag, descriptors: Seq<Descriptor>)
    requires
        descriptors.len() <= MAX_SEGMENTS,
    ensures
        preamble_fields(tag, descriptors).len() == 28,
        preamble_bytes(tag, descriptors).len() == PREAMBLE_SIZE,
{
    lemma_descriptor_bytes_len(descriptors);
}

/// The preamble of a frame.
pub fn encode_preamble(tag: Tag, descriptors: &[Descriptor]) -> (r: Vec<u8>)
    requires
        1 <= descriptors@.len() <= MAX_SEGMENTS,
    ensures
        r@ == preamble_bytes(tag, descriptors@),
        r@.len() == PREAMBLE_SIZE,
{
    let mut out: Vec<u8> = Vec::new();
    out.push(tag.code());
    out.push(descriptors.len() as u8);
    let ghost head = seq![tag_code(tag), descriptors@.len() as u8];
    assert(out@ =~= head + descriptor_bytes(descriptors@.take(0)));
    let mut i: usize = 0;
    while i < descriptors.len()
        invariant
            i <= descriptors@.len(),
            out@ == head + descriptor_bytes(descriptors@.take(i as int)),
        decreases descriptors@.len() - i,
    {
        push_le32(&mut out, descriptors[i].length);
        push_le16(&mut out, descriptors[i].alignment);
        assert(descriptors@.take(i + 1).drop_last() =~= descriptors@.take(i as int));
        assert(out@ =~= head + descriptor_bytes(descriptors@.take(i + 1)));
        i = i + 1;
    }
    proof {
        assert(descriptors@.take(i as int) =~= descriptors@);
        lemma_descriptor_bytes_len(descriptors@);
    }
    while out.len() < 28
        invariant
            out@.len() <= 28,
            out@ =~= head + (descriptor_bytes(descriptors@) + zeros(
                (out@.len() - 2 - 6 * descriptors@.len()) as nat,
            )),
            descriptor_bytes(descriptors@).len() == 6 * descriptors@.len(),
            head.len() == 2,
            out@.len() >= 2 + 6 * descriptors@.len(),
        decreases 28 - out@.len(),
    {
        out.push(0);
    }
    let sum: u32 = crc32c(0, out.as_slice());
    push_le32(&mut out, sum);
    proof {
        lemma_preamble_len(tag, descriptors@);
    }
    out
}

/// Reads and writes frames whose preamble, and where asked for whose segments, carry checksums.
#[derive(Clone, Copy, Debug)]
pub struct CrcCodec {
    pub with_data_crc: bool,
}

proof fn lemma_body_step(with_data_crc: bool, segments: Seq<SegmentView>, i: int)
    requires
        1 <= i < segments.len(),
    ensures
        body_bytes(with_data_crc, segments.take(i + 1)) == body_bytes(
            with_data_crc,
            segments.take(i),
        ) + segments[i].data,
{
    assert(segments.take(i + 1).drop_last() =~= segments.take(i));
}

impl CrcCodec {
    fn data_checksum(self, data: &[u8]) -> (r: u32)
        ensures
            r == data_checksum(self.with_data_crc, data@),
    {
        if self.with_data_crc {
            crc32c(u32::MAX, data)
        } else {
            0
        }
    }

    fn push_epilogue(self, output: &mut Vec<u8>, segments: &[Segment])
        requires
            segments@.len() <= MAX_SEGMENTS,
        ensures
            final(output)@ == old(output)@ + epilogue_bytes(
                self.with_data_crc,
                segments_view(segments@),
            ),
    {
        let ghost all = segments_view(segments@);
        if segments.len() > 1 {
            let first: u32 = self.data_checksum(segments[1].data.as_slice());
            let second: u32 = if segments.len() > 2 {
                self.data_checksum(segments[2].data.as_slice())
            } else {
                0
            };
            let third: u32 = if segments.len() > 3 {
                self.data_checksum(segments[3].data.as_slice())
            } else {
                0
            };
            assert(first == late_checksum(self.with_data_crc, all, 1));
            assert(second == late_checksum(self.with_data_crc, all, 2));
            assert(third == late_checksum(self.with_data_crc, all, 3));
            output.push(LATE_STATUS_COMPLETE);
            push_le32(output, first);
            push_le32(output, second);
            push_le32(output, third);
            assert(output@ =~= old(output)@ + epilogue_bytes(self.with_data_crc, all));
        } else {
            assert(output@ =~= old(output)@ + epilogue_bytes(self.with_data_crc, all));
        }
    }

    /// The frame on the wire, if it is well formed and within the limits.
    pub fn encode(self, frame: &Frame, limits: Limits) -> (r: Result<Vec<u8>, FrameError>)
        ensures
            crate::wire::bytes_result(r) == crc_encoding(self.with_data_crc, frame@, limits),
    {
        let segments = match normalized_segments(frame.segments.as_slice()) {
            Ok(segments) => segments,
            Err(error) => {
                return Err(error);
            },
        };
        if frame.tag.code() > LAST_TAG_CODE {
            return Err(FrameError::Malformed);
        }
        let descriptors = match descriptors_and_crc_size(segments, limits) {
            Ok(found) => found.0,
            Err(error) => {
                return Err(error);
            },
        };
        let with = self.with_data_crc;
        let ghost all = segments_view(segments@);
        let ghost preamble = preamble_bytes(frame.tag, descriptors@);
        let mut output: Vec<u8> = encode_preamble(frame.tag, descriptors.as_slice());
        append_bytes(&mut output, segments[0].data.as_slice());
        if segments[0].data.len() > 0 {
            push_le32(&mut output, self.data_checksum(segments[0].data.as_slice()));
        }
        assert(all[0].data == segments@[0].data@);
        assert(output@ =~= preamble + body_bytes(with, all.take(1)));
        let mut i: usize = 1;
        while i < segments.len()
            invariant
                1 <= i <= segments@.len(),
                all == segments_view(segments@),
                output@ == preamble + body_bytes(with, all.take(i as int)),
            decreases segments@.len() - i,
        {
            append_bytes(&mut output, segments[i].data.as_slice());
            proof {
                lemma_body_step(with, all, i as int);
                assert(all[i as int].data == segments@[i as int].data@);
                assert(output@ =~= preamble + body_bytes(with, all.take(i + 1)));
            }
            i = i + 1;
        }
        assert(all.take(i as int) =~= all);
        self.push_epilogue(&mut output, segments);
        assert(output@ =~= crc_frame(with, frame.tag, all));
        Ok(output)
    }
}

// ---------------------------------------------------------------------------
// Reading
// ---------------------------------------------------------------------------

/// A byte string that is read from its front.
pub struct Reader<'a> {
    rest: &'a [u8],
}

impl<'a> View for Reader<'a> {
    type V = Seq<u8>;

    closed spec fn view(&self) -> Seq<u8> {
        self.rest@
    }
}

impl<'a> Reader<'a> {
    pub fn new(data: &'a [u8]) -> (r: Self)
        ensures
            r@ == data@,
    {
        Reader { rest: data }
    }

    /// How many bytes have not been read.
    pub fn remaining(&self) -> (r: usize)
        ensures
            r == self@.len(),
    {
        self.rest.len()
    }

    /// The next `count` bytes; where there are fewer, the input is malformed.
    pub fn read_exact(&mut self, count: usize) -> (r: Result<&'a [u8], FrameError>)
        ensures
            r matches Ok(data) ==> count <= old(self)@.len() && data@ == old(self)@.take(
                count as int,
            ) && final(self)@ == old(self)@.skip(count as int),
            r matches Err(error) ==> error == FrameError::Malformed && count > old(self)@.len()
                && final(self)@ == old(self)@,
    {
        let all = self.rest;
        if count > all.len() {
            return Err(FrameError::Malformed);
        }
        let data = slice_subrange(all, 0, count);
        self.rest = slice_subrange(all, count, all.len());
        assert(data@ =~= all@.take(count as int));
        assert(self.rest@ =~= all@.skip(count as int));
        Ok(data)
    }
}

/// Descriptor number `i` of a preamble.
pub open spec fn descriptor_at(preamble: Seq<u8>, i: int) -> Descriptor {
    Descriptor {
        length: from_le32(preamble.subrange(2 + 6 * i, 6 + 6 * i)),
        alignment: from_le16(preamble.subrange(6 + 6 * i, 8 + 6 * i)),
    }
}

/// Whether the fields of a preamble are those of some frame.
pub open spec fn preamble_well_formed(preamble: Seq<u8>) -> bool {
    let count = preamble[1] as int;
    &&& 1 <= preamble[0] <= LAST_TAG_CODE
    &&& 1 <= count <= MAX_SEGMENTS
    &&& preamble[26] == 0
    &&& preamble[27] == 0
    &&& forall|i: int|
        count <= i < MAX_SEGMENTS ==> (#[trigger] descriptor_at(preamble, i)) == (Descriptor {
            length: 0,
            alignment: 0,
        })
    &&& count > 1 ==> descriptor_at(preamble, count - 1).length > 0
}

/// The descriptors that a preamble states.
pub open spec fn descriptors_in(preamble: Seq<u8>) -> Seq<Descriptor> {
    Seq::new(preamble[1] as nat, |i: int| descriptor_at(preamble, i))
}

/// What is wrong with a preamble; its checksum is looked at first.
pub open spec fn preamble_fault(preamble: Seq<u8>) -> Option<FrameError> {
    if checksum(0, preamble.take(28)) != from_le32(preamble.skip(28)) {
        Some(FrameError::Integrity)
    } else if !preamble_well_formed(preamble) {
        Some(FrameError::Malformed)
    } else {
        None
    }
}

/// The tag with the number `code`.
pub open spec fn tag_of(code: u8) -> Tag {
    choose|tag: Tag| tag_code(tag) == code
}

pub proof fn lemma_tag_of(tag: Tag)
    ensures
        tag_of(tag_code(tag)) == tag,
{
    law_tag_codes_are_distinct(tag_of(tag_code(tag)), tag);
}

fn read_descriptor(preamble: &[u8], i: usize) -> (r: Descriptor)
    requires
        preamble@.len() == PREAMBLE_SIZE,
        i < MAX_SEGMENTS,
    ensures
        r == descriptor_at(preamble@, i as int),
{
    let at: usize = 2 + 6 * i;
    Descriptor {
        length: read_le32(slice_subrange(preamble, at, at + 4)),
        alignment: read_le16(slice_subrange(preamble, at + 4, at + 6)),
    }
}

/// The tag and the descriptors that a preamble states.
pub fn decode_preamble(preamble: &[u8]) -> (r: Result<(Tag, Vec<Descriptor>), FrameError>)
    requires
        preamble@.len() == PREAMBLE_SIZE,
    ensures
        r matches Ok(found) ==> preamble_fault(preamble@) is None && found.0 == tag_of(
            preamble@[0],
        ) && tag_code(found.0) == preamble@[0] && found.1@ == descriptors_in(preamble@),
        r matches Err(error) ==> preamble_fault(preamble@) == Some(error),
{
    let covered = slice_subrange(preamble, 0, 28);
    let stated = slice_subrange(preamble, 28, 32);
    proof {
        assert(covered@ =~= preamble@.take(28));
        assert(stated@ =~= preamble@.skip(28));
    }
    if crc32c(0, covered) != read_le32(stated) {
        return Err(FrameError::Integrity);
    }
    let tag = match Tag::try_from(preamble[0]) {
        Ok(tag) => tag,
        Err(error) => {
            proof {
                let p = preamble@[0];
                if 1 <= p <= LAST_TAG_CODE {
                    assert(tag_code(Tag::Hello) == 1);
                    assert(tag_code(Tag::AuthRequest) == 2);
                    assert(tag_code(Tag::AuthBadMethod) == 3);
                    assert(tag_code(Tag::AuthReplyMore) == 4);
                    assert(tag_code(Tag::AuthRequestMore) == 5);
                    assert(tag_code(Tag::AuthDone) == 6);
                    assert(tag_code(Tag::AuthSignature) == 7);
                    assert(tag_code(Tag::ClientIdent) == 8);
                    assert(tag_code(Tag::ServerIdent) == 9);
                    assert(tag_code(Tag::IdentMissingFeatures) == 10);
                    assert(tag_code(Tag::SessionReconnect) == 11);
                    assert(tag_code(Tag::SessionReset) == 12);
                    assert(tag_code(Tag::SessionRetry) == 13);
                    assert(tag_code(Tag::SessionRetryGlobal) == 14);
                    assert(tag_code(Tag::SessionReconnectOk) == 15);
                    assert(tag_code(Tag::Wait) == 16);
                    assert(tag_code(Tag::Message) == 17);
                    assert(tag_code(Tag::Keepalive2) == 18);
                    assert(tag_code(Tag::Keepalive2Ack) == 19);
                    assert(tag_code(Tag::Ack) == 20);
                }
            }
            return Err(error);
        },
    };
    proof {
        lemma_tag_of(tag);
    }
    if tag.code() > LAST_TAG_CODE {
        return Err(FrameError::Malformed);
    }
    let count: usize = preamble[1] as usize;
    if count < 1 || count > MAX_SEGMENTS || preamble[26] != 0 || preamble[27] != 0 {
        return Err(FrameError::Malformed);
    }
    let mut descriptors: Vec<Descriptor> = Vec::new();
    let mut i: usize = 0;
    while i < MAX_SEGMENTS
        invariant
            preamble@.len() == PREAMBLE_SIZE,
            i <= MAX_SEGMENTS,
            count == preamble@[1],
            1 <= count <= MAX_SEGMENTS,
            checksum(0, preamble@.take(28)) == from_le32(preamble@.skip(28)),
            descriptors@.len() == if i < count { i as nat } else { count as nat },
            forall|k: int|
                0 <= k < descriptors@.len() ==> #[trigger] descriptors@[k] == descriptor_at(
                    preamble@,
                    k,
                ),
            forall|k: int|
                count <= k < i ==> (#[trigger] descriptor_at(preamble@, k)) == (Descriptor {
                    length: 0,
                    alignment: 0,
                }),
        decreases MAX_SEGMENTS - i,
    {
        let descriptor = read_descriptor(preamble, i);
        if i < count {
            descriptors.push(descriptor);
        } else if descriptor.length != 0 || descriptor.alignment != 0 {
            return Err(FrameError::Malformed);
        }
        i = i + 1;
    }
    if count > 1 && descriptors[count - 1].length == 0 {
        return Err(FrameError::Malformed);
    }
    assert(descriptors@ =~= descriptors_in(preamble@));
    Ok((tag, descriptors))
}

/// The segments that follow a preamble with these descriptors, and what comes behind them.
pub open spec fn segments_in(with_data_crc: bool, descriptors: Seq<Descriptor>, data: Seq<u8>) -> Result<
    (Seq<SegmentView>, Seq<u8>),
    FrameError,
>
    decreases descriptors.len(),
{
    if descriptors.len() == 0 {
        Ok((Seq::empty(), data))
    } else {
        let last = descriptors.last();
        let length = last.length as int;
        match segments_in(with_data_crc, descriptors.drop_last(), data) {
            Err(error) => Err(error),
            Ok((segments, rest)) => if length > rest.len() {
                Err(FrameError::Malformed)
            } else {
                let segment = SegmentView { alignment: last.alignment, data: rest.take(length) };
                let after = rest.skip(length);
                if descriptors.len() > 1 || length == 0 {
                    Ok((segments.push(segment), after))
                } else if after.len() < 4 {
                    Err(FrameError::Malformed)
                } else if with_data_crc && checksum(u32::MAX, segment.data) != from_le32(
                    after.take(4),
                ) {
                    Err(FrameError::Integrity)
                } else {
                    Ok((segments.push(segment), after.skip(4)))
                }
            },
        }
    }
}

/// What is left after segments with these descriptors were read. Reading stops behind a first segment
/// whose checksum is wrong, and in front of a part that is too short.
pub open spec fn segments_left(
    with_data_crc: bool,
    descriptors: Seq<Descriptor>,
    data: Seq<u8>,
) -> Seq<u8>
    decreases descriptors.len(),
{
    if descriptors.len() == 0 {
        data
    } else {
        let length = descriptors.last().length as int;
        match segments_in(with_data_crc, descriptors.drop_last(), data) {
            Err(_) => segments_left(with_data_crc, descriptors.drop_last(), data),
            Ok((_, rest)) => if length > rest.len() {
                rest
            } else if descriptors.len() > 1 || length == 0 || rest.len() - length < 4 {
                rest.skip(length)
            } else {
                rest.skip(length).skip(4)
            },
        }
    }
}

/// Whether the epilogue's checksums are those of the segments after the first.
pub open spec fn late_checksums_match(segments: Seq<SegmentView>, epilogue: Seq<u8>) -> bool {
    forall|i: int|
        1 <= i < segments.len() ==> checksum(u32::MAX, (#[trigger] segments[i]).data) == from_le32(
            epilogue.subrange(4 * i - 3, 4 * i + 1),
        )
}

/// What is wrong with an epilogue; only the low half of the late status counts.
pub open spec fn epilogue_fault(
    with_data_crc: bool,
    segments: Seq<SegmentView>,
    epilogue: Seq<u8>,
) -> Option<FrameError> {
    let status = epilogue[0] % 16;
    if status == LATE_STATUS_ABORTED {
        Some(FrameError::Aborted)
    } else if status != LATE_STATUS_COMPLETE {
        Some(FrameError::Malformed)
    } else if with_data_crc && !late_checksums_match(segments, epilogue) {
        Some(FrameError::Integrity)
    } else {
        None
    }
}

/// The frame at the front of `data`, and what comes behind it.
pub open spec fn crc_decoding(with_data_crc: bool, data: Seq<u8>, limits: Limits) -> Result<
    (FrameView, Seq<u8>),
    FrameError,
> {
    let preamble = data.take(PREAMBLE_SIZE as int);
    if data.len() < PREAMBLE_SIZE {
        Err(FrameError::Malformed)
    } else if preamble_fault(preamble) is Some {
        Err(preamble_fault(preamble)->Some_0)
    } else {
        let tag = tag_of(preamble[0]);
        let descriptors = descriptors_in(preamble);
        match crc_size(descriptors, limits) {
            Err(error) => Err(error),
            Ok(_) => match segments_in(
                with_data_crc,
                descriptors,
                data.skip(PREAMBLE_SIZE as int),
            ) {
                Err(error) => Err(error),
                Ok((segments, rest)) => if descriptors.len() <= 1 {
                    Ok((FrameView { tag, segments }, rest))
                } else if rest.len() < EPILOGUE_SIZE {
                    Err(FrameError::Malformed)
                } else {
                    match epilogue_fault(with_data_crc, segments, rest.take(EPILOGUE_SIZE as int)) {
                        Some(error) => Err(error),
                        None => Ok(
                            (FrameView { tag, segments }, rest.skip(EPILOGUE_SIZE as int)),
                        ),
                    }
                },
            },
        }
    }
}

/// What is left after a frame was read. Where the frame is refused, that is what comes behind the
/// part by which it is refused.
pub open spec fn crc_left(with_data_crc: bool, data: Seq<u8>, limits: Limits) -> Seq<u8> {
    let preamble = data.take(PREAMBLE_SIZE as int);
    let body = data.skip(PREAMBLE_SIZE as int);
    let descriptors = descriptors_in(preamble);
    if data.len() < PREAMBLE_SIZE {
        data
    } else if preamble_fault(preamble) is Some || crc_size(descriptors, limits) is Err {
        body
    } else {
        let rest = segments_left(with_data_crc, descriptors, body);
        if segments_in(with_data_crc, descriptors, body) is Err || descriptors.len() <= 1
            || rest.len() < EPILOGUE_SIZE {
            rest
        } else {
            rest.skip(EPILOGUE_SIZE as int)
        }
    }
}

proof fn lemma_segments_left(with_data_crc: bool, descriptors: Seq<Descriptor>, data: Seq<u8>)
    ensures
        segments_in(with_data_crc, descriptors, data) matches Ok((_, rest)) ==> rest
            == segments_left(with_data_crc, descriptors, data) && rest == data.skip(
            payload_size(descriptors) as int + if descriptors.len() > 0 && descriptors[0].length
                > 0 {
                4int
            } else {
                0
            },
        ) && payload_size(descriptors) + (if descriptors.len() > 0 && descriptors[0].length > 0 {
            4int
        } else {
            0
        }) <= data.len(),
        segments_left(with_data_crc, descriptors, data).len() <= data.len(),
        segments_left(with_data_crc, descriptors, data) == data.skip(
            data.len() - segments_left(with_data_crc, descriptors, data).len(),
        ),
    decreases descriptors.len(),
{
    if descriptors.len() == 0 {
        assert(data.skip(0) =~= data);
    } else {
        let shorter = descriptors.drop_last();
        let left = segments_left(with_data_crc, descriptors, data);
        lemma_segments_left(with_data_crc, shorter, data);
        if shorter.len() > 0 {
            assert(shorter[0] == descriptors[0]);
        }
        match segments_in(with_data_crc, shorter, data) {
            Err(_) => {},
            Ok((_, rest)) => {
                let length = descriptors.last().length as int;
                if length <= rest.len() {
                    assert(rest.skip(length) =~= data.skip(data.len() - rest.len() + length));
                    if rest.len() - length >= 4 {
                        assert(rest.skip(length).skip(4) =~= data.skip(
                            data.len() - rest.len() + length + 4,
                        ));
                    }
                }
            },
        }
    }
}

proof fn lemma_segments_left_prefix(
    with_data_crc: bool,
    descriptors: Seq<Descriptor>,
    data: Seq<u8>,
    count: int,
)
    requires
        0 <= count <= descriptors.len(),
        segments_in(with_data_crc, descriptors.take(count), data) is Err,
    ensures
        segments_left(with_data_crc, descriptors, data) == segments_left(
            with_data_crc,
            descriptors.take(count),
            data,
        ),
    decreases descriptors.len(),
{
    if count == descriptors.len() {
        assert(descriptors.take(count) =~= descriptors);
    } else {
        assert(descriptors.drop_last().take(count) =~= descriptors.take(count));
        lemma_segments_in_prefix(with_data_crc, descriptors.drop_last(), data, count);
        lemma_segments_left_prefix(with_data_crc, descriptors.drop_last(), data, count);
    }
}

proof fn lemma_segments_in_prefix(
    with_data_crc: bool,
    descriptors: Seq<Descriptor>,
    data: Seq<u8>,
    count: int,
)
    requires
        0 <= count <= descriptors.len(),
        segments_in(with_data_crc, descriptors.take(count), data) is Err,
    ensures
        segments_in(with_data_crc, descriptors, data) == segments_in(
            with_data_crc,
            descriptors.take(count),
            data,
        ),
    decreases descriptors.len(),
{
    if count == descriptors.len() {
        assert(descriptors.take(count) =~= descriptors);
    } else {
        assert(descriptors.drop_last().take(count) =~= descriptors.take(count));
        lemma_segments_in_prefix(with_data_crc, descriptors.drop_last(), data, count);
    }
}

impl CrcCodec {
    fn read_segments(self, reader: &mut Reader<'_>, descriptors: &[Descriptor]) -> (r: Result<
        Vec<Segment>,
        FrameError,
    >)
        ensures
            r matches Ok(segments) ==> segments_in(
                self.with_data_crc,
                descriptors@,
                old(reader)@,
            ) == Ok::<(Seq<SegmentView>, Seq<u8>), FrameError>(
                (segments_view(segments@), final(reader)@),
            ),
            r matches Err(error) ==> segments_in(self.with_data_crc, descriptors@, old(reader)@)
                == Err::<(Seq<SegmentView>, Seq<u8>), FrameError>(error),
            final(reader)@ == segments_left(self.with_data_crc, descriptors@, old(reader)@),
    {
        let with = self.with_data_crc;
        let ghost data = reader@;
        let mut segments: Vec<Segment> = Vec::new();
        let mut i: usize = 0;
        assert(descriptors@.take(0) =~= Seq::<Descriptor>::empty());
        assert(segments_view(segments@) =~= Seq::<SegmentView>::empty());
        while i < descriptors.len()
            invariant
                i <= descriptors@.len(),
                with == self.with_data_crc,
                data == old(reader)@,
                segments_in(with, descriptors@.take(i as int), data) == Ok::<
                    (Seq<SegmentView>, Seq<u8>),
                    FrameError,
                >((segments_view(segments@), reader@)),
            decreases descriptors@.len() - i,
        {
            let descriptor = descriptors[i];
            let ghost next = descriptors@.take(i + 1);
            let ghost before = segments_view(segments@);
            let ghost rest = reader@;
            proof {
                assert(next.drop_last() =~= descriptors@.take(i as int));
                assert(next.last() == descriptor);
                if segments_in(with, next, data) is Err {
                    lemma_segments_in_prefix(with, descriptors@, data, i + 1);
                    lemma_segments_left_prefix(with, descriptors@, data, i + 1);
                }
            }
            let bytes = match reader.read_exact(descriptor.length as usize) {
                Ok(bytes) => slice_to_vec(bytes),
                Err(error) => {
                    return Err(error);
                },
            };
            if i == 0 && descriptor.length > 0 {
                let stated = match reader.read_exact(4) {
                    Ok(stated) => stated,
                    Err(error) => {
                        return Err(error);
                    },
                };
                if with && crc32c(u32::MAX, bytes.as_slice()) != read_le32(stated) {
                    return Err(FrameError::Integrity);
                }
            }
            segments.push(Segment { alignment: descriptor.alignment, data: bytes });
            assert(segments_view(segments@) =~= before.push(
                SegmentView { alignment: descriptor.alignment, data: bytes@ },
            ));
            i = i + 1;
        }
        proof {
            assert(descriptors@.take(i as int) =~= descriptors@);
            lemma_segments_left(with, descriptors@, data);
        }
        Ok(segments)
    }

    fn check_epilogue(self, segments: &Vec<Segment>, epilogue: &[u8]) -> (r: Result<
        (),
        FrameError,
    >)
        requires
            epilogue@.len() == EPILOGUE_SIZE,
            segments@.len() <= MAX_SEGMENTS,
        ensures
            r matches Ok(_) ==> epilogue_fault(
                self.with_data_crc,
                segments_view(segments@),
                epilogue@,
            ) is None,
            r matches Err(error) ==> epilogue_fault(
                self.with_data_crc,
                segments_view(segments@),
                epilogue@,
            ) == Some(error),
    {
        let status: u8 = epilogue[0] % 16;
        if status == LATE_STATUS_ABORTED {
            return Err(FrameError::Aborted);
        }
        if status != LATE_STATUS_COMPLETE {
            return Err(FrameError::Malformed);
        }
        if !self.with_data_crc {
            return Ok(());
        }
        let ghost all = segments_view(segments@);
        let mut i: usize = 1;
        while i < segments.len()
            invariant
                1 <= i,
                segments@.len() <= MAX_SEGMENTS,
                epilogue@.len() == EPILOGUE_SIZE,
                all == segments_view(segments@),
                self.with_data_crc,
                epilogue@[0] % 16 == LATE_STATUS_COMPLETE,
                forall|k: int|
                    1 <= k < i && k < all.len() ==> checksum(u32::MAX, (#[trigger] all[k]).data)
                        == from_le32(epilogue@.subrange(4 * k - 3, 4 * k + 1)),
            decreases segments@.len() - i,
        {
            let at: usize = 4 * i - 3;
            let stated: u32 = read_le32(slice_subrange(epilogue, at, at + 4));
            assert(all[i as int].data == segments@[i as int].data@);
            if crc32c(u32::MAX, segments[i].data.as_slice()) != stated {
                assert(!late_checksums_match(all, epilogue@));
                return Err(FrameError::Integrity);
            }
            i = i + 1;
        }
        Ok(())
    }

    /// Reads one frame.
    pub fn read(self, reader: &mut Reader<'_>, limits: Limits) -> (r: Result<Frame, FrameError>)
        ensures
            r matches Ok(frame) ==> crc_decoding(self.with_data_crc, old(reader)@, limits) == Ok::<
                (FrameView, Seq<u8>),
                FrameError,
            >((frame@, final(reader)@)),
            r matches Err(error) ==> crc_decoding(self.with_data_crc, old(reader)@, limits)
                == Err::<(FrameView, Seq<u8>), FrameError>(error),
            final(reader)@ == crc_left(self.with_data_crc, old(reader)@, limits),
    {
        let preamble = match reader.read_exact(PREAMBLE_SIZE) {
            Ok(preamble) => preamble,
            Err(error) => {
                return Err(error);
            },
        };
        let (tag, descriptors) = match decode_preamble(preamble) {
            Ok(found) => found,
            Err(error) => {
                return Err(error);
            },
        };
        match descriptors_and_crc_size_from_descriptors(descriptors.as_slice(), limits) {
            Ok(_) => {},
            Err(error) => {
                return Err(error);
            },
        }
        let segments = match self.read_segments(reader, descriptors.as_slice()) {
            Ok(segments) => segments,
            Err(error) => {
                return Err(error);
            },
        };
        if descriptors.len() > 1 {
            proof {
                lemma_segments_in_len(
                    self.with_data_crc,
                    descriptors@,
                    old(reader)@.skip(PREAMBLE_SIZE as int),
                );
            }
            let epilogue = match reader.read_exact(EPILOGUE_SIZE) {
                Ok(epilogue) => epilogue,
                Err(error) => {
                    return Err(error);
                },
            };
            match self.check_epilogue(&segments, epilogue) {
                Ok(_) => {},
                Err(error) => {
                    return Err(error);
                },
            }
        }
        Ok(Frame { tag, segments })
    }
}

proof fn lemma_segments_in_len(
    with_data_crc: bool,
    descriptors: Seq<Descriptor>,
    data: Seq<u8>,
)
    ensures
        segments_in(with_data_crc, descriptors, data) matches Ok((segments, _)) ==> segments.len()
            == descriptors.len(),
    decreases descriptors.len(),
{
    if descriptors.len() > 0 {
        lemma_segments_in_len(with_data_crc, descriptors.drop_last(), data);
    }
}

// ---------------------------------------------------------------------------
// Reading what was written
// ---------------------------------------------------------------------------

proof fn lemma_descriptor_bytes_at(descriptors: Seq<Descriptor>, i: int)
    requires
        0 <= i < descriptors.len(),
    ensures
        descriptor_bytes(descriptors).subrange(6 * i, 6 * i + 4) == le32(descriptors[i].length),
        descriptor_bytes(descriptors).subrange(6 * i + 4, 6 * i + 6) == le16(
            descriptors[i].alignment,
        ),
    decreases descriptors.len(),
{
    let all = descriptor_bytes(descriptors);
    let before = descriptor_bytes(descriptors.drop_last());
    lemma_descriptor_bytes_len(descriptors);
    lemma_descriptor_bytes_len(descriptors.drop_last());
    if i == descriptors.len() - 1 {
        assert(all.subrange(6 * i, 6 * i + 4) =~= le32(descriptors[i].length));
        assert(all.subrange(6 * i + 4, 6 * i + 6) =~= le16(descriptors[i].alignment));
    } else {
        lemma_descriptor_bytes_at(descriptors.drop_last(), i);
        assert(all.subrange(6 * i, 6 * i + 4) =~= before.subrange(6 * i, 6 * i + 4));
        assert(all.subrange(6 * i + 4, 6 * i + 6) =~= before.subrange(6 * i + 4, 6 * i + 6));
    }
}

/// The preamble of a frame states its tag and its descriptors.
pub proof fn law_preamble(tag: Tag, descriptors: Seq<Descriptor>)
    requires
        tag_code(tag) <= LAST_TAG_CODE,
        1 <= descriptors.len() <= MAX_SEGMENTS,
        descriptors.len() > 1 ==> descriptors.last().length > 0,
    ensures
        preamble_fault(preamble_bytes(tag, descriptors)) is None,
        tag_of(preamble_bytes(tag, descriptors)[0]) == tag,
        descriptors_in(preamble_bytes(tag, descriptors)) == descriptors,
{
    let fields = preamble_fields(tag, descriptors);
    let p = preamble_bytes(tag, descriptors);
    let n = descriptors.len() as int;
    lemma_preamble_len(tag, descriptors);
    lemma_descriptor_bytes_len(descriptors);
    crate::wire::lemma_le32(checksum(0, fields));
    assert(p.take(28) =~= fields);
    assert(p.skip(28) =~= le32(checksum(0, fields)));
    lemma_tag_of(tag);
    assert(p[1] == n);
    assert forall|i: int| 0 <= i < n implies #[trigger] descriptor_at(p, i) == descriptors[i] by {
        lemma_descriptor_bytes_at(descriptors, i);
        let all = descriptor_bytes(descriptors);
        assert(p.subrange(2 + 6 * i, 6 + 6 * i) =~= all.subrange(6 * i, 6 * i + 4));
        assert(p.subrange(6 + 6 * i, 8 + 6 * i) =~= all.subrange(6 * i + 4, 6 * i + 6));
        crate::wire::lemma_le32(descriptors[i].length);
        crate::wire::lemma_le16(descriptors[i].alignment);
    }
    assert forall|i: int| n <= i < MAX_SEGMENTS implies (#[trigger] descriptor_at(p, i)) == (
    Descriptor { length: 0, alignment: 0 }) by {
        reveal(from_le32);
        reveal(from_le16);
        assert(p.subrange(2 + 6 * i, 6 + 6 * i) =~= zeros(4));
        assert(p.subrange(6 + 6 * i, 8 + 6 * i) =~= zeros(2));
    }
    assert(descriptor_at(p, n - 1) == descriptors.last());
    assert(descriptors_in(p) =~= descriptors);
}

pub proof fn lemma_normalized(segments: Seq<SegmentView>)
    requires
        segments.len() >= 1,
    ensures
        1 <= normalized(segments).len() <= segments.len(),
        normalized(segments).len() > 1 ==> normalized(segments).last().data.len() > 0,
    decreases segments.len(),
{
    if segments.len() > 1 && segments.last().data.len() == 0 {
        lemma_normalized(segments.drop_last());
    }
}

proof fn lemma_segments_read(with_data_crc: bool, segments: Seq<SegmentView>, tail: Seq<u8>)
    requires
        lengths_fit(segments),
    ensures
        segments_in(
            with_data_crc,
            descriptors_of(segments),
            body_bytes(with_data_crc, segments) + tail,
        ) == Ok::<(Seq<SegmentView>, Seq<u8>), FrameError>((segments, tail)),
    decreases segments.len(),
{
    let descriptors = descriptors_of(segments);
    let body = body_bytes(with_data_crc, segments);
    if segments.len() == 0 {
        assert(body + tail =~= tail);
        assert(segments =~= Seq::empty());
    } else {
        let shorter = segments.drop_last();
        let last = segments.last();
        assert(last == segments[segments.len() - 1]);
        assert(descriptors.drop_last() =~= descriptors_of(shorter));
        assert forall|i: int| 0 <= i < shorter.len() implies (
        #[trigger] shorter[i]).data.len() <= u32::MAX by {
            assert(shorter[i] == segments[i]);
        }
        if segments.len() == 1 {
            let sum = data_checksum(with_data_crc, last.data);
            lemma_segments_read(with_data_crc, shorter, body + tail);
            assert(body_bytes(with_data_crc, shorter) + (body + tail) =~= body + tail);
            assert((body + tail).take(last.data.len() as int) =~= last.data);
            if last.data.len() > 0 {
                let after = (body + tail).skip(last.data.len() as int);
                assert(after =~= le32(sum) + tail);
                assert(after.take(4) =~= le32(sum));
                assert(after.skip(4) =~= tail);
                crate::wire::lemma_le32(sum);
            } else {
                assert((body + tail).skip(0) =~= tail);
            }
            assert(shorter.push(last) =~= segments);
        } else {
            lemma_segments_read(with_data_crc, shorter, last.data + tail);
            assert(body + tail =~= body_bytes(with_data_crc, shorter) + (last.data + tail));
            assert((last.data + tail).take(last.data.len() as int) =~= last.data);
            assert((last.data + tail).skip(last.data.len() as int) =~= tail);
            assert(shorter.push(last) =~= segments);
        }
    }
}

proof fn lemma_epilogue_read(with_data_crc: bool, segments: Seq<SegmentView>)
    requires
        1 < segments.len() <= MAX_SEGMENTS,
    ensures
        epilogue_bytes(with_data_crc, segments).len() == EPILOGUE_SIZE,
        epilogue_fault(with_data_crc, segments, epilogue_bytes(with_data_crc, segments)) is None,
{
    let e = epilogue_bytes(with_data_crc, segments);
    assert(e[0] == LATE_STATUS_COMPLETE);
    if with_data_crc {
        assert forall|i: int| 1 <= i < segments.len() implies checksum(
            u32::MAX,
            (#[trigger] segments[i]).data,
        ) == from_le32(e.subrange(4 * i - 3, 4 * i + 1)) by {
            let sum = late_checksum(with_data_crc, segments, i);
            assert(e.subrange(4 * i - 3, 4 * i + 1) =~= le32(sum));
            crate::wire::lemma_le32(sum);
        }
    }
}

/// Reading a frame that was written gives it back, without the empty segments at its end, and
/// leaves what follows it.
pub proof fn law_crc_frame_reads_back(
    with_data_crc: bool,
    frame: FrameView,
    limits: Limits,
    tail: Seq<u8>,
)
    requires
        crc_encoding(with_data_crc, frame, limits) is Ok,
    ensures
        crc_decoding(
            with_data_crc,
            crc_encoding(with_data_crc, frame, limits)->Ok_0 + tail,
            limits,
        ) == Ok::<(FrameView, Seq<u8>), FrameError>(
            (FrameView { tag: frame.tag, segments: normalized(frame.segments) }, tail),
        ),
{
    let segments = normalized(frame.segments);
    let descriptors = descriptors_of(segments);
    let preamble = preamble_bytes(frame.tag, descriptors);
    let body = body_bytes(with_data_crc, segments);
    let epilogue = epilogue_bytes(with_data_crc, segments);
    let data = crc_frame(with_data_crc, frame.tag, segments) + tail;
    lemma_normalized(frame.segments);
    assert(segments.last() == segments[segments.len() - 1]);
    law_preamble(frame.tag, descriptors);
    lemma_preamble_len(frame.tag, descriptors);
    assert(data.take(PREAMBLE_SIZE as int) =~= preamble);
    assert(data.skip(PREAMBLE_SIZE as int) =~= body + (epilogue + tail));
    lemma_segments_read(with_data_crc, segments, epilogue + tail);
    if segments.len() > 1 {
        lemma_epilogue_read(with_data_crc, segments);
        assert((epilogue + tail).take(EPILOGUE_SIZE as int) =~= epilogue);
        assert((epilogue + tail).skip(EPILOGUE_SIZE as int) =~= tail);
    } else {
        assert(epilogue + tail =~= tail);
    }
}

proof fn lemma_cut_segments(with_data_crc: bool, segments: Seq<SegmentView>, n: int)
    requires
        lengths_fit(segments),
        0 <= n < body_bytes(with_data_crc, segments).len(),
    ensures
        segments_in(
            with_data_crc,
            descriptors_of(segments),
            body_bytes(with_data_crc, segments).take(n),
        ) == Err::<(Seq<SegmentView>, Seq<u8>), FrameError>(FrameError::Malformed),
    decreases segments.len(),
{
    let descriptors = descriptors_of(segments);
    let body = body_bytes(with_data_crc, segments);
    let shorter = segments.drop_last();
    let last = segments.last();
    assert(last == segments[segments.len() - 1]);
    assert(descriptors.drop_last() =~= descriptors_of(shorter));
    assert(descriptors.last().length == last.data.len());
    assert forall|i: int| 0 <= i < shorter.len() implies (
    #[trigger] shorter[i]).data.len() <= u32::MAX by {
        assert(shorter[i] == segments[i]);
    }
    if segments.len() == 1 {
        assert(segments_in(with_data_crc, descriptors.drop_last(), body.take(n)) == Ok::<
            (Seq<SegmentView>, Seq<u8>),
            FrameError,
        >((Seq::empty(), body.take(n))));
    } else {
        let start = body_bytes(with_data_crc, shorter);
        if n < start.len() {
            lemma_cut_segments(with_data_crc, shorter, n);
            assert(body.take(n) =~= start.take(n));
        } else {
            let part = last.data.take(n - start.len());
            lemma_segments_read(with_data_crc, shorter, part);
            assert(body.take(n) =~= start + part);
        }
    }
}

/// A frame that was cut off anywhere is malformed.
pub proof fn law_cut_frames_are_malformed(
    with_data_crc: bool,
    frame: FrameView,
    limits: Limits,
    n: int,
)
    requires
        crc_encoding(with_data_crc, frame, limits) is Ok,
        0 <= n < crc_encoding(with_data_crc, frame, limits)->Ok_0.len(),
    ensures
        crc_decoding(
            with_data_crc,
            crc_encoding(with_data_crc, frame, limits)->Ok_0.take(n),
            limits,
        ) == Err::<(FrameView, Seq<u8>), FrameError>(FrameError::Malformed),
{
    let segments = normalized(frame.segments);
    let descriptors = descriptors_of(segments);
    let preamble = preamble_bytes(frame.tag, descriptors);
    let body = body_bytes(with_data_crc, segments);
    let epilogue = epilogue_bytes(with_data_crc, segments);
    let data = crc_frame(with_data_crc, frame.tag, segments).take(n);
    lemma_normalized(frame.segments);
    assert(segments.last() == segments[segments.len() - 1]);
    law_preamble(frame.tag, descriptors);
    lemma_preamble_len(frame.tag, descriptors);
    if n >= PREAMBLE_SIZE {
        let m = n - PREAMBLE_SIZE;
        let rest = data.skip(PREAMBLE_SIZE as int);
        assert(data.take(PREAMBLE_SIZE as int) =~= preamble);
        if m < body.len() {
            assert(rest =~= body.take(m));
            lemma_cut_segments(with_data_crc, segments, m);
        } else {
            let part = epilogue.take(m - body.len());
            assert(rest =~= body + part);
            lemma_segments_read(with_data_crc, segments, part);
            lemma_epilogue_read(with_data_crc, segments);
        }
    }
}

/// Reading a frame goes forward, whether or not the frame is refused: what is left is the end of what
/// there was.
pub proof fn law_reading_goes_forward(with_data_crc: bool, data: Seq<u8>, limits: Limits)
    ensures
        crc_left(with_data_crc, data, limits).len() <= data.len(),
        crc_left(with_data_crc, data, limits) == data.skip(
            data.len() - crc_left(with_data_crc, data, limits).len(),
        ),
        crc_decoding(with_data_crc, data, limits) matches Ok((_, rest)) ==> rest == crc_left(
            with_data_crc,
            data,
            limits,
        ),
{
    let body = data.skip(PREAMBLE_SIZE as int);
    let descriptors = descriptors_in(data.take(PREAMBLE_SIZE as int));
    let rest = segments_left(with_data_crc, descriptors, body);
    assert(data.skip(0) =~= data);
    if data.len() >= PREAMBLE_SIZE {
        lemma_segments_left(with_data_crc, descriptors, body);
        assert(body.skip(body.len() - rest.len()) =~= data.skip(data.len() - rest.len()));
        if rest.len() >= EPILOGUE_SIZE {
            assert(rest.skip(EPILOGUE_SIZE as int) =~= data.skip(
                data.len() - rest.len() + EPILOGUE_SIZE,
            ));
        }
    }
}

/// A frame that is there as a whole and is refused only by its epilogue is left behind: the next read
/// starts at the next frame.
pub proof fn law_frame_with_bad_epilogue_is_left_behind(
    with_data_crc: bool,
    data: Seq<u8>,
    limits: Limits,
)
    requires
        data.len() >= PREAMBLE_SIZE,
        preamble_fault(data.take(PREAMBLE_SIZE as int)) is None,
        crc_size(descriptors_in(data.take(PREAMBLE_SIZE as int)), limits) is Ok,
        segments_in(
            with_data_crc,
            descriptors_in(data.take(PREAMBLE_SIZE as int)),
            data.skip(PREAMBLE_SIZE as int),
        ) is Ok,
        data.len() >= crc_total(descriptors_in(data.take(PREAMBLE_SIZE as int))),
    ensures
        crc_left(with_data_crc, data, limits) == data.skip(
            crc_total(descriptors_in(data.take(PREAMBLE_SIZE as int))) as int,
        ),
{
    let body = data.skip(PREAMBLE_SIZE as int);
    let descriptors = descriptors_in(data.take(PREAMBLE_SIZE as int));
    lemma_segments_left(with_data_crc, descriptors, body);
    assert(crc_left(with_data_crc, data, limits) =~= data.skip(crc_total(descriptors) as int));
}

/// The bytes that follow a preamble up to the end of its frame.
pub open spec fn crc_body_size(preamble: Seq<u8>, limits: Limits) -> Result<nat, FrameError> {
    match preamble_fault(preamble) {
        Some(error) => Err(error),
        None => match crc_size(descriptors_in(preamble), limits) {
            Err(error) => Err(error),
            Ok(total) => Ok((total - PREAMBLE_SIZE) as nat),
        },
    }
}

impl CrcCodec {
    /// How many bytes follow a preamble up to the end of its frame.
    pub fn body_size(self, preamble: &[u8], limits: Limits) -> (r: Result<usize, FrameError>)
        requires
            preamble@.len() == PREAMBLE_SIZE,
        ensures
            r matches Ok(size) ==> crc_body_size(preamble@, limits) == Ok::<nat, FrameError>(
                size as nat,
            ),
            r matches Err(error) ==> crc_body_size(preamble@, limits) == Err::<nat, FrameError>(
                error,
            ),
    {
        match decode_preamble(preamble) {
            Ok(found) => match descriptors_and_crc_size_from_descriptors(
                found.1.as_slice(),
                limits,
            ) {
                Ok(total) => Ok(total - PREAMBLE_SIZE),
                Err(error) => Err(error),
            },
            Err(error) => Err(error),
        }
    }
}

// ---------------------------------------------------------------------------
// Views
// ---------------------------------------------------------------------------

/// What stands for a value of this type has its fields.
pub proof fn law_segment_has_its_fields(x: Segment)
    ensures
        x@.alignment == x.alignment,
        x@.data == x.data@,
{
}

/// What stands for a value of this type has its fields.
pub proof fn law_frame_has_its_fields(x: Frame)
    ensures
        x@.tag == x.tag,
        x@.segments == (segments_view(x.segments@)),
{
}

/// What stands for a list has what stands for each of its items, in order.
pub proof fn law_segments_view_keeps_order(segments: Seq<Segment>, i: int)
    requires
        0 <= i < segments.len(),
    ensures
        segments_view(segments).len() == segments.len(),
        segments_view(segments)[i] == segments[i]@,
{
}

} // verus!
