use rados::msgr::frame::{
    Frame, FrameError, Limits, Segment, Tag, DEFAULT_ALIGNMENT, PAGE_ALIGNMENT,
};
use rados::msgr::message::{Message, MessageHeader, MessageLengths};

const TEST_LIMITS: Limits = Limits {
    max_segment_bytes: 4096,
    max_frame_bytes: 8192,
    max_addresses: 4,
    max_auth_bytes: 64,
};

#[test]
fn header_matches_exact_go_vector() {
    let header = MessageHeader {
        sequence: 0x0807_0605_0403_0201,
        transaction_id: 0x100f_0e0d_0c0b_0a09,
        message_type: 0x1211,
        priority: 0x1413,
        version: 0x1615,
        data_pre_padding_length: 0x1a19_1817,
        data_offset: 0x1c1b,
        ack_sequence: 0x2423_2221_201f_1e1d,
        flags: 0x25,
        compat_version: 0x2726,
        reserved: 0x2928,
    };
    let expected: Vec<u8> = (1..=0x29).collect();
    assert_eq!(header.encode().as_slice(), expected);
    assert_eq!(MessageHeader::decode(&expected), Ok(header));
    assert_eq!(MessageHeader::decode(&[0; 42]), Err(FrameError::Malformed));
}

#[test]
fn message_round_trips_with_owned_segments() {
    let message = Message {
        header: MessageHeader {
            sequence: 1,
            transaction_id: 2,
            message_type: 3,
            data_pre_padding_length: 1,
            data_offset: 4,
            ack_sequence: 5,
            ..MessageHeader::default()
        },
        lengths: MessageLengths {
            front: 5,
            middle: 6,
            data: 4,
        },
        front: b"front".to_vec(),
        middle: b"middle".to_vec(),
        data: vec![0, 1, 2, 3],
    };
    let frame = message.clone().encode(TEST_LIMITS).expect("valid message");
    assert_eq!(
        frame
            .segments
            .iter()
            .map(|segment| segment.alignment)
            .collect::<Vec<_>>(),
        [DEFAULT_ALIGNMENT, DEFAULT_ALIGNMENT, DEFAULT_ALIGNMENT, PAGE_ALIGNMENT]
    );
    assert_eq!(Message::decode(&frame, TEST_LIMITS), Ok(message));
}

#[test]
fn accepts_omitted_empty_segments_and_rejects_malformed_messages() {
    let header = MessageHeader::default().encode();
    let minimal = Frame {
        tag: Tag::Message,
        segments: vec![Segment {
            alignment: DEFAULT_ALIGNMENT,
            data: header.to_vec(),
        }],
    };
    assert_eq!(
        Message::decode(&minimal, TEST_LIMITS),
        Ok(Message::default())
    );

    let wrong_lengths = Message {
        lengths: MessageLengths {
            front: 2,
            ..MessageLengths::default()
        },
        front: vec![1],
        ..Message::default()
    };
    assert_eq!(
        wrong_lengths.encode(TEST_LIMITS),
        Err(FrameError::Malformed)
    );

    let padded = MessageHeader {
        data_pre_padding_length: 2,
        ..MessageHeader::default()
    }
    .encode();
    let invalid = Frame {
        tag: Tag::Message,
        segments: vec![
            Segment {
                alignment: 8,
                data: padded.to_vec(),
            },
            Segment {
                alignment: 8,
                data: Vec::new(),
            },
            Segment {
                alignment: 8,
                data: Vec::new(),
            },
            Segment {
                alignment: 4096,
                data: vec![0],
            },
        ],
    };
    assert_eq!(
        Message::decode(&invalid, TEST_LIMITS),
        Err(FrameError::Malformed)
    );
}

#[test]
fn rejects_wrong_alignment_truncation_and_limits() {
    let header = MessageHeader::default().encode();
    let wrong_alignment = Frame {
        tag: Tag::Message,
        segments: vec![
            Segment {
                alignment: 8,
                data: header.to_vec(),
            },
            Segment {
                alignment: 16,
                data: Vec::new(),
            },
        ],
    };
    assert_eq!(
        Message::decode(&wrong_alignment, TEST_LIMITS),
        Err(FrameError::Malformed)
    );
    assert_eq!(
        MessageHeader::decode(&header[..40]),
        Err(FrameError::Malformed)
    );
    assert_eq!(
        Message::decode(
            &Frame {
                tag: Tag::Message,
                segments: vec![Segment {
                    alignment: 8,
                    data: header.to_vec()
                }],
            },
            Limits {
                max_segment_bytes: 40,
                ..TEST_LIMITS
            }
        ),
        Err(FrameError::LimitExceeded)
    );
}
