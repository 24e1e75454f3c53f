//! Messages: a header and three segments.

use super::frame::{
    crc_decoding, crc_encoding, law_crc_frame_reads_back, normalized, segments_view, Frame, FrameError, FrameView, Limits, Segment, SegmentView, Tag,
    DEFAULT_ALIGNMENT, PAGE_ALIGNMENT,
};
use crate::wire::{
    from_le16, from_le32, from_le64, le16, le32, le64, push_le16, push_le32, push_le64, read_le16,
    read_le32, read_le64,
};
use vstd::prelude::*;
use vstd::slice::{slice_subrange, slice_to_vec};

verus! {

broadcast use crate::wire::group_integers;

pub const MESSAGE_HEADER_SIZE: usize = 41;

#[derive(Clone, Copy, Debug, PartialEq, Eq, Structural)]
pub struct MessageHeader {
    pub sequence: u64,
    pub transaction_id: u64,
    pub message_type: u16,
    pub priority: u16,
    pub version: u16,
    pub data_pre_padding_length: u32,
    pub data_offset: u16,
    pub ack_sequence: u64,
    pub flags: u8,
    pub compat_version: u16,
    pub reserved: u16,
}

#[derive(Clone, Copy, Debug, PartialEq, Eq, Structural)]
pub struct MessageLengths {
    pub front: u32,
    pub middle: u32,
    pub data: u32,
}

#[derive(Debug, PartialEq, Eq)]
pub struct Message {
    pub header: MessageHeader,
    pub lengths: MessageLengths,
    pub front: Vec<u8>,
    pub middle: Vec<u8>,
    pub data: Vec<u8>,
}

#[verifier::ext_equal]
pub struct MessageView {
    pub header: MessageHeader,
    pub lengths: MessageLengths,
    pub front: Seq<u8>,
    pub middle: Seq<u8>,
    pub data: Seq<u8>,
}

impl View for Message {
    type V = MessageView;

    open spec fn view(&self) -> MessageView {
        MessageView {
            header: self.header,
            lengths: self.lengths,
            front: self.front@,
            middle: self.middle@,
            data: self.data@,
        }
    }
}

impl Clone for Message {
    fn clone(&self) -> (r: Self)
        ensures
            r@ == self@,
    {
        Message {
            header: self.header,
            lengths: self.lengths,
            front: slice_to_vec(self.front.as_slice()),
            middle: slice_to_vec(self.middle.as_slice()),
            data: slice_to_vec(self.data.as_slice()),
        }
    }
}

/// A message that is all front.
pub open spec fn front_only(
    message_type: u16,
    version: u16,
    compat_version: u16,
    front: Seq<u8>,
) -> MessageView {
    MessageView {
        header: MessageHeader { message_type, version, compat_version, ..zero_header() },
        lengths: MessageLengths { front: front.len() as u32, middle: 0, data: 0 },
        front,
        middle: Seq::empty(),
        data: Seq::empty(),
    }
}

/// A header whose fields are all zero.
pub open spec fn zero_header() -> MessageHeader {
    MessageHeader {
        sequence: 0,
        transaction_id: 0,
        message_type: 0,
        priority: 0,
        version: 0,
        data_pre_padding_length: 0,
        data_offset: 0,
        ack_sequence: 0,
        flags: 0,
        compat_version: 0,
        reserved: 0,
    }
}

impl Default for MessageHeader {
    fn default() -> (r: Self)
        ensures
            r == zero_header(),
    {
        MessageHeader {
            sequence: 0,
            transaction_id: 0,
            message_type: 0,
            priority: 0,
            version: 0,
            data_pre_padding_length: 0,
            data_offset: 0,
            ack_sequence: 0,
            flags: 0,
            compat_version: 0,
            reserved: 0,
        }
    }
}

impl Default for MessageLengths {
    fn default() -> (r: Self)
        ensures
            r == (MessageLengths { front: 0, middle: 0, data: 0 }),
    {
        MessageLengths { front: 0, middle: 0, data: 0 }
    }
}

impl Default for Message {
    fn default() -> (r: Self)
        ensures
            r@.header == zero_header(),
            r@.lengths == (MessageLengths { front: 0, middle: 0, data: 0 }),
            r@.front.len() == 0,
            r@.middle.len() == 0,
            r@.data.len() == 0,
    {
        Message {
            header: MessageHeader::default(),
            lengths: MessageLengths::default(),
            front: Vec::new(),
            middle: Vec::new(),
            data: Vec::new(),
        }
    }
}

/// The header on the wire.
pub open spec fn header_bytes(h: MessageHeader) -> Seq<u8> {
    le64(h.sequence) + (le64(h.transaction_id) + (le16(h.message_type) + (le16(h.priority) + (le16(
        h.version,
    ) + (le32(h.data_pre_padding_length) + (le16(h.data_offset) + (le64(h.ack_sequence) + (seq![
        h.flags,
    ] + (le16(h.compat_version) + le16(h.reserved))))))))))
}

/// The header that 41 bytes hold.
pub open spec fn header_in(b: Seq<u8>) -> MessageHeader {
    MessageHeader {
        sequence: from_le64(b.subrange(0, 8)),
        transaction_id: from_le64(b.subrange(8, 16)),
        message_type: from_le16(b.subrange(16, 18)),
        priority: from_le16(b.subrange(18, 20)),
        version: from_le16(b.subrange(20, 22)),
        data_pre_padding_length: from_le32(b.subrange(22, 26)),
        data_offset: from_le16(b.subrange(26, 28)),
        ack_sequence: from_le64(b.subrange(28, 36)),
        flags: b[36],
        compat_version: from_le16(b.subrange(37, 39)),
        reserved: from_le16(b.subrange(39, 41)),
    }
}

impl MessageHeader {
    pub fn encode(self) -> (r: Vec<u8>)
        ensures
            r@ == header_bytes(self),
            r@.len() == MESSAGE_HEADER_SIZE,
    {
        let mut out: Vec<u8> = Vec::new();
        push_le64(&mut out, self.sequence);
        push_le64(&mut out, self.transaction_id);
        push_le16(&mut out, self.message_type);
        push_le16(&mut out, self.priority);
        push_le16(&mut out, self.version);
        push_le32(&mut out, self.data_pre_padding_length);
        push_le16(&mut out, self.data_offset);
        push_le64(&mut out, self.ack_sequence);
        out.push(self.flags);
        push_le16(&mut out, self.compat_version);
        push_le16(&mut out, self.reserved);
        assert(out@ =~= header_bytes(self));
        out
    }

    pub fn decode(data: &[u8]) -> (r: Result<Self, FrameError>)
        ensures
            r == (if data@.len() != MESSAGE_HEADER_SIZE {
                Err::<MessageHeader, FrameError>(FrameError::Malformed)
            } else {
                Ok(header_in(data@))
            }),
    {
        if data.len() != MESSAGE_HEADER_SIZE {
            return Err(FrameError::Malformed);
        }
        Ok(
            MessageHeader {
                sequence: read_le64(slice_subrange(data, 0, 8)),
                transaction_id: read_le64(slice_subrange(data, 8, 16)),
                message_type: read_le16(slice_subrange(data, 16, 18)),
                priority: read_le16(slice_subrange(data, 18, 20)),
                version: read_le16(slice_subrange(data, 20, 22)),
                data_pre_padding_length: read_le32(slice_subrange(data, 22, 26)),
                data_offset: read_le16(slice_subrange(data, 26, 28)),
                ack_sequence: read_le64(slice_subrange(data, 28, 36)),
                flags: data[36],
                compat_version: read_le16(slice_subrange(data, 37, 39)),
                reserved: read_le16(slice_subrange(data, 39, 41)),
            },
        )
    }
}

/// Reading a header that was written gives it back.
pub proof fn law_header_reads_back(h: MessageHeader)
    ensures
        header_bytes(h).len() == MESSAGE_HEADER_SIZE,
        header_in(header_bytes(h)) == h,
{
    let b = header_bytes(h);
    assert(b.subrange(0, 8) =~= le64(h.sequence));
    assert(b.subrange(8, 16) =~= le64(h.transaction_id));
    assert(b.subrange(16, 18) =~= le16(h.message_type));
    assert(b.subrange(18, 20) =~= le16(h.priority));
    assert(b.subrange(20, 22) =~= le16(h.version));
    assert(b.subrange(22, 26) =~= le32(h.data_pre_padding_length));
    assert(b.subrange(26, 28) =~= le16(h.data_offset));
    assert(b.subrange(28, 36) =~= le64(h.ack_sequence));
    assert(b[36] == h.flags);
    assert(b.subrange(37, 39) =~= le16(h.compat_version));
    assert(b.subrange(39, 41) =~= le16(h.reserved));
    crate::wire::lemma_le64(h.sequence);
    crate::wire::lemma_le64(h.transaction_id);
    crate::wire::lemma_le64(h.ack_sequence);
}

/// The alignment of segment `index` of a message.
pub open spec fn message_alignment(index: int) -> u16 {
    if index == 3 {
        PAGE_ALIGNMENT
    } else {
        DEFAULT_ALIGNMENT
    }
}

/// What is wrong with the first segment that no message of these limits has.
pub open spec fn segment_fault(segments: Seq<SegmentView>, limits: Limits) -> Option<FrameError>
    decreases segments.len(),
{
    if segments.len() == 0 {
        None
    } else {
        match segment_fault(segments.drop_last(), limits) {
            Some(error) => Some(error),
            None => if segments.last().alignment != message_alignment(segments.len() - 1) {
                Some(FrameError::Malformed)
            } else if segments.last().data.len() > limits.max_segment_bytes {
                Some(FrameError::LimitExceeded)
            } else {
                None
            },
        }
    }
}

/// The number of bytes in all segments.
pub open spec fn segments_size(segments: Seq<SegmentView>) -> nat
    decreases segments.len(),
{
    if segments.len() == 0 {
        0
    } else {
        segments_size(segments.drop_last()) + segments.last().data.len()
    }
}

/// What keeps segments from being those of a message within the limits.
pub open spec fn segments_fault(segments: Seq<SegmentView>, limits: Limits) -> Option<
    FrameError,
> {
    match segment_fault(segments, limits) {
        Some(error) => Some(error),
        None => if segments_size(segments) > limits.max_frame_bytes {
            Some(FrameError::LimitExceeded)
        } else {
            None
        },
    }
}

proof fn lemma_segment_fault_prefix(segments: Seq<SegmentView>, limits: Limits, count: int)
    requires
        0 <= count <= segments.len(),
        segment_fault(segments.take(count), limits) is Some,
    ensures
        segment_fault(segments, limits) == segment_fault(segments.take(count), limits),
    decreases segments.len(),
{
    if count == segments.len() {
        assert(segments.take(count) =~= segments);
    } else {
        assert(segments.drop_last().take(count) =~= segments.take(count));
        lemma_segment_fault_prefix(segments.drop_last(), limits, count);
    }
}

fn validate_segments(segments: &Vec<Segment>, limits: Limits) -> (r: Result<(), FrameError>)
    requires
        segments@.len() <= 4,
    ensures
        r matches Ok(_) ==> segments_fault(segments_view(segments@), limits) is None,
        r matches Err(error) ==> segments_fault(segments_view(segments@), limits) == Some(error),
{
    let mut total: u64 = 0;
    let mut i: usize = 0;
    let ghost all = segments_view(segments@);
    assert(all.take(0) =~= Seq::<SegmentView>::empty());
    while i < segments.len()
        invariant
            i <= segments@.len() <= 4,
            all == segments_view(segments@),
            segment_fault(all.take(i as int), limits) is None,
            total == segments_size(all.take(i as int)),
            total <= i * 0xffff_ffff,
        decreases segments@.len() - i,
    {
        proof {
            let next = all.take(i + 1);
            assert(next.drop_last() =~= all.take(i as int));
            assert(next.last() == segments@[i as int]@);
            if segment_fault(next, limits) is Some {
                lemma_segment_fault_prefix(all, limits, i + 1);
            }
        }
        let alignment: u16 = if i == 3 { PAGE_ALIGNMENT } else { DEFAULT_ALIGNMENT };
        if segments[i].alignment != alignment {
            return Err(FrameError::Malformed);
        }
        if segments[i].data.len() as u64 > limits.max_segment_bytes as u64 {
            return Err(FrameError::LimitExceeded);
        }
        total = total + segments[i].data.len() as u64;
        i = i + 1;
    }
    assert(all.take(i as int) =~= all);
    if total > limits.max_frame_bytes {
        return Err(FrameError::LimitExceeded);
    }
    Ok(())
}

/// The segments of a message.
pub open spec fn message_segments(m: MessageView) -> Seq<SegmentView> {
    seq![
        SegmentView { alignment: DEFAULT_ALIGNMENT, data: header_bytes(m.header) },
        SegmentView { alignment: DEFAULT_ALIGNMENT, data: m.front },
        SegmentView { alignment: DEFAULT_ALIGNMENT, data: m.middle },
        SegmentView { alignment: PAGE_ALIGNMENT, data: m.data },
    ]
}

/// Whether a message states the lengths that its segments have.
pub open spec fn lengths_agree(m: MessageView) -> bool {
    &&& m.lengths.front == m.front.len()
    &&& m.lengths.middle == m.middle.len()
    &&& m.lengths.data == m.data.len()
    &&& m.header.data_pre_padding_length <= m.data.len()
}

/// The frame that carries a message.
pub open spec fn message_encoding(m: MessageView, limits: Limits) -> Result<
    FrameView,
    FrameError,
> {
    if m.front.len() > u32::MAX || m.middle.len() > u32::MAX || m.data.len() > u32::MAX {
        Err(FrameError::LimitExceeded)
    } else if !lengths_agree(m) {
        Err(FrameError::Malformed)
    } else {
        match segments_fault(message_segments(m), limits) {
            Some(error) => Err(error),
            None => Ok(FrameView { tag: Tag::Message, segments: message_segments(m) }),
        }
    }
}

/// The data of segment `index`, or nothing where a frame leaves it out.
pub open spec fn segment_data(segments: Seq<SegmentView>, index: int) -> Seq<u8> {
    if index < segments.len() {
        segments[index].data
    } else {
        Seq::empty()
    }
}

/// The message with this header that a frame's segments hold.
pub open spec fn message_of(header: MessageHeader, segments: Seq<SegmentView>) -> MessageView {
    let front = segment_data(segments, 1);
    let middle = segment_data(segments, 2);
    let data = segment_data(segments, 3);
    MessageView {
        header,
        lengths: MessageLengths {
            front: front.len() as u32,
            middle: middle.len() as u32,
            data: data.len() as u32,
        },
        front,
        middle,
        data,
    }
}

/// The message that a frame carries. Empty segments at the end may be left out.
pub open spec fn message_decoding(frame: FrameView, limits: Limits) -> Result<
    MessageView,
    FrameError,
> {
    if frame.tag != Tag::Message || frame.segments.len() < 1 || frame.segments.len() > 4 {
        Err(FrameError::Malformed)
    } else {
        match segments_fault(frame.segments, limits) {
            Some(error) => Err(error),
            None => {
                let header = header_in(frame.segments[0].data);
                if frame.segments[0].data.len() != MESSAGE_HEADER_SIZE {
                    Err(FrameError::Malformed)
                } else if header.data_pre_padding_length > segment_data(
                    frame.segments,
                    3,
                ).len() {
                    Err(FrameError::Malformed)
                } else {
                    Ok(message_of(header, frame.segments))
                }
            },
        }
    }
}

fn segment_copy(segments: &Vec<Segment>, index: usize) -> (r: Vec<u8>)
    ensures
        r@ == segment_data(segments_view(segments@), index as int),
{
    if index < segments.len() {
        slice_to_vec(segments[index].data.as_slice())
    } else {
        let empty: Vec<u8> = Vec::new();
        assert(empty@ =~= Seq::<u8>::empty());
        empty
    }
}

proof fn lemma_segment_fault_bound(segments: Seq<SegmentView>, limits: Limits, i: int)
    requires
        segment_fault(segments, limits) is None,
        0 <= i < segments.len(),
    ensures
        segments[i].data.len() <= limits.max_segment_bytes,
    decreases segments.len(),
{
    if i < segments.len() - 1 {
        lemma_segment_fault_bound(segments.drop_last(), limits, i);
    }
}

impl Message {
    /// A message that is all front.
    pub fn front_only(
        message_type: u16,
        version: u16,
        compat_version: u16,
        front: Vec<u8>,
    ) -> (r: Self)
        requires
            front@.len() <= u32::MAX,
        ensures
            r@ == front_only(message_type, version, compat_version, front@),
    {
        let length: u32 = front.len() as u32;
        let r = Message {
            header: MessageHeader {
                message_type,
                version,
                compat_version,
                ..MessageHeader::default()
            },
            lengths: MessageLengths { front: length, middle: 0, data: 0 },
            front,
            middle: Vec::new(),
            data: Vec::new(),
        };
        assert(r@ =~= front_only(message_type, version, compat_version, front@));
        r
    }

    /// The frame that carries this message.
    pub fn encode(self, limits: Limits) -> (r: Result<Frame, FrameError>)
        ensures
            r matches Ok(frame) ==> message_encoding(self@, limits) == Ok::<FrameView, FrameError>(
                frame@,
            ),
            r matches Err(error) ==> message_encoding(self@, limits) == Err::<
                FrameView,
                FrameError,
            >(error),
    {
        if self.front.len() as u64 > u32::MAX as u64 || self.middle.len() as u64 > u32::MAX as u64
            || self.data.len() as u64 > u32::MAX as u64 {
            return Err(FrameError::LimitExceeded);
        }
        if self.lengths.front as usize != self.front.len() || self.lengths.middle as usize
            != self.middle.len() || self.lengths.data as usize != self.data.len()
            || self.header.data_pre_padding_length as usize > self.data.len() {
            return Err(FrameError::Malformed);
        }
        let ghost whole = self@;
        let mut segments: Vec<Segment> = Vec::new();
        segments.push(Segment { alignment: DEFAULT_ALIGNMENT, data: self.header.encode() });
        segments.push(Segment { alignment: DEFAULT_ALIGNMENT, data: self.front });
        segments.push(Segment { alignment: DEFAULT_ALIGNMENT, data: self.middle });
        segments.push(Segment { alignment: PAGE_ALIGNMENT, data: self.data });
        assert(segments_view(segments@) =~= message_segments(whole));
        match validate_segments(&segments, limits) {
            Ok(_) => Ok(Frame { tag: Tag::Message, segments }),
            Err(error) => Err(error),
        }
    }

    /// The message that a frame carries.
    pub fn decode(frame: &Frame, limits: Limits) -> (r: Result<Self, FrameError>)
        ensures
            r matches Ok(message) ==> message_decoding(frame@, limits) == Ok::<
                MessageView,
                FrameError,
            >(message@),
            r matches Err(error) ==> message_decoding(frame@, limits) == Err::<
                MessageView,
                FrameError,
            >(error),
    {
        if frame.tag != Tag::Message || frame.segments.len() < 1 || frame.segments.len() > 4 {
            return Err(FrameError::Malformed);
        }
        match validate_segments(&frame.segments, limits) {
            Ok(_) => {},
            Err(error) => {
                return Err(error);
            },
        }
        let ghost all = segments_view(frame.segments@);
        proof {
            assert(all[0].data == frame.segments@[0].data@);
            if 1 < all.len() {
                lemma_segment_fault_bound(all, limits, 1);
            }
            if 2 < all.len() {
                lemma_segment_fault_bound(all, limits, 2);
            }
            if 3 < all.len() {
                lemma_segment_fault_bound(all, limits, 3);
            }
        }
        let header = match MessageHeader::decode(frame.segments[0].data.as_slice()) {
            Ok(header) => header,
            Err(error) => {
                return Err(error);
            },
        };
        let front = segment_copy(&frame.segments, 1);
        let middle = segment_copy(&frame.segments, 2);
        let data = segment_copy(&frame.segments, 3);
        if header.data_pre_padding_length as usize > data.len() {
            return Err(FrameError::Malformed);
        }
        Ok(
            Message {
                header,
                lengths: MessageLengths {
                    front: front.len() as u32,
                    middle: middle.len() as u32,
                    data: data.len() as u32,
                },
                front,
                middle,
                data,
            },
        )
    }
}

/// Reading the frame of a message gives back the message.
pub proof fn law_message_reads_back(m: MessageView, limits: Limits)
    requires
        message_encoding(m, limits) is Ok,
    ensures
        message_decoding(message_encoding(m, limits)->Ok_0, limits) == Ok::<
            MessageView,
            FrameError,
        >(m),
{
    law_header_reads_back(m.header);
}

proof fn lemma_fault_of_prefix(segments: Seq<SegmentView>, limits: Limits)
    requires
        segments_fault(segments, limits) is None,
        segments.len() > 0,
    ensures
        segments_fault(segments.drop_last(), limits) is None,
{
}

proof fn lemma_decoding_ignores_empty_end(segments: Seq<SegmentView>, limits: Limits)
    requires
        1 <= segments.len() <= 4,
        segments_fault(segments, limits) is None,
    ensures
        message_decoding(
            (FrameView { tag: Tag::Message, segments: normalized(segments) }),
            limits,
        ) == message_decoding((FrameView { tag: Tag::Message, segments }), limits),
    decreases segments.len(),
{
    if segments.len() > 1 && segments.last().data.len() == 0 {
        let shorter = segments.drop_last();
        lemma_fault_of_prefix(segments, limits);
        lemma_decoding_ignores_empty_end(shorter, limits);
        assert(segments.last().data =~= Seq::<u8>::empty());
        assert(shorter[0] == segments[0]);
        assert(segment_data(shorter, 1) == segment_data(segments, 1));
        assert(segment_data(shorter, 2) == segment_data(segments, 2));
        assert(segment_data(shorter, 3) == segment_data(segments, 3));
    }
}

/// A message that is sent in a frame with checksums arrives unchanged, and what follows it on the
/// wire stays.
pub proof fn law_message_crosses_the_wire(
    m: MessageView,
    with_data_crc: bool,
    limits: Limits,
    tail: Seq<u8>,
)
    requires
        message_encoding(m, limits) is Ok,
        crc_encoding(with_data_crc, message_encoding(m, limits)->Ok_0, limits) is Ok,
    ensures
        ({
            let wire = crc_encoding(with_data_crc, message_encoding(m, limits)->Ok_0, limits)->Ok_0;
            &&& crc_decoding(with_data_crc, wire + tail, limits) is Ok
            &&& crc_decoding(with_data_crc, wire + tail, limits)->Ok_0.1 == tail
            &&& message_decoding(
                crc_decoding(with_data_crc, wire + tail, limits)->Ok_0.0,
                limits,
            ) == Ok::<MessageView, FrameError>(m)
        }),
{
    let frame = message_encoding(m, limits)->Ok_0;
    law_crc_frame_reads_back(with_data_crc, frame, limits, tail);
    law_message_reads_back(m, limits);
    lemma_decoding_ignores_empty_end(frame.segments, limits);
}

// ---------------------------------------------------------------------------
// Views
// ---------------------------------------------------------------------------

/// What stands for a value of this type has its fields.
pub proof fn law_message_has_its_fields(x: Message)
    ensures
        x@.header == x.header,
        x@.lengths == x.lengths,
        x@.front == x.front@,
        x@.middle == x.middle@,
        x@.data == x.data@,
{
}

} // verus!
