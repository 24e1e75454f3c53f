use rados::msgr::frame::{
    CrcCodec, Frame, FrameError, Limits, Reader, Segment, Tag, DEFAULT_ALIGNMENT,
    EPILOGUE_SIZE, LATE_STATUS_ABORTED, PAGE_ALIGNMENT, PREAMBLE_SIZE,
};
use rados::wire::crc32c;

const TEST_LIMITS: Limits = Limits {
    max_segment_bytes: 4096,
    max_frame_bytes: 8192,
    max_addresses: 64,
    max_auth_bytes: 4096,
};

#[test]
fn crc_codec_matches_go_one_segment_vector() {
    let frame = Frame {
        tag: Tag::Ack,
        segments: vec![Segment {
            alignment: DEFAULT_ALIGNMENT,
            data: b"ceph".to_vec(),
        }],
    };
    let expected = hex_bytes(
        "14010400000008000000000000000000000000000000000000000000c6329e8563657068ee24c1e0",
    );
    let codec = CrcCodec {
        with_data_crc: true,
    };
    assert_eq!(codec.encode(&frame, TEST_LIMITS), Ok(expected.clone()));
    assert_eq!(
        codec.read(&mut Reader::new(&expected), TEST_LIMITS),
        Ok(frame)
    );
}

#[test]
fn crc_codec_rejects_corrupt_preamble_before_lengths() {
    let mut wire = hex_bytes(
        "14010400000008000000000000000000000000000000000000000000c6329e8563657068ee24c1e0",
    );
    wire[2] = 0xff;
    assert_eq!(
        CrcCodec {
            with_data_crc: true
        }
        .read(&mut Reader::new(&wire), TEST_LIMITS),
        Err(FrameError::Integrity)
    );
}

#[test]
fn crc_codec_matches_all_go_deterministic_vectors() {
    let one_segment = Frame {
        tag: Tag::Ack,
        segments: vec![Segment {
            alignment: DEFAULT_ALIGNMENT,
            data: b"ceph".to_vec(),
        }],
    };
    let multi_segment = Frame {
        tag: Tag::Message,
        segments: vec![
            Segment {
                alignment: DEFAULT_ALIGNMENT,
                data: b"header".to_vec(),
            },
            Segment {
                alignment: DEFAULT_ALIGNMENT,
                data: Vec::new(),
            },
            Segment {
                alignment: DEFAULT_ALIGNMENT,
                data: b"middle".to_vec(),
            },
            Segment {
                alignment: PAGE_ALIGNMENT,
                data: vec![0, 1, 2, 3],
            },
        ],
    };
    let vectors = [
        (
            true,
            &one_segment,
            "14010400000008000000000000000000000000000000000000000000c6329e8563657068ee24c1e0",
        ),
        (
            false,
            &one_segment,
            "14010400000008000000000000000000000000000000000000000000c6329e856365706800000000",
        ),
        (
            true,
            &multi_segment,
            "11040600000008000000000008000600000008000400000000100000a46c0fbf686561646572bd1ea0e36d6964646c65000102030efffffffff29402775ce5cc26",
        ),
        (
            false,
            &multi_segment,
            "11040600000008000000000008000600000008000400000000100000a46c0fbf686561646572000000006d6964646c65000102030e000000000000000000000000",
        ),
    ];
    for (with_data_crc, frame, encoded) in vectors {
        let codec = CrcCodec { with_data_crc };
        let expected = hex_bytes(encoded);
        assert_eq!(codec.encode(frame, TEST_LIMITS), Ok(expected.clone()));
        assert_eq!(
            codec.read(&mut Reader::new(&expected), TEST_LIMITS),
            Ok(frame.clone())
        );
    }
}

#[test]
fn crc_codec_rejects_limits_aborts_and_invalid_shapes() {
    let frame = Frame {
        tag: Tag::Message,
        segments: vec![
            Segment {
                alignment: DEFAULT_ALIGNMENT,
                data: Vec::new(),
            },
            Segment {
                alignment: DEFAULT_ALIGNMENT,
                data: b"front".to_vec(),
            },
        ],
    };
    let codec = CrcCodec {
        with_data_crc: true,
    };
    let mut wire = codec.encode(&frame, TEST_LIMITS).expect("valid frame");
    assert_eq!(
        codec.read(
            &mut Reader::new(&wire),
            Limits {
                max_segment_bytes: 4,
                ..TEST_LIMITS
            }
        ),
        Err(FrameError::LimitExceeded)
    );
    let status = wire.len() - 13;
    wire[status] = LATE_STATUS_ABORTED;
    assert_eq!(
        codec.read(&mut Reader::new(&wire), TEST_LIMITS),
        Err(FrameError::Aborted)
    );
    assert_eq!(
        codec.encode(
            &Frame {
                tag: Tag::Ack,
                segments: vec![Segment {
                    alignment: 0,
                    data: Vec::new()
                }]
            },
            TEST_LIMITS
        ),
        Err(FrameError::Malformed)
    );
}

#[test]
fn data_crc_compatibility_and_late_status_match_go() {
    let frame = Frame {
        tag: Tag::Message,
        segments: vec![
            Segment {
                alignment: DEFAULT_ALIGNMENT,
                data: b"header".to_vec(),
            },
            Segment {
                alignment: DEFAULT_ALIGNMENT,
                data: Vec::new(),
            },
            Segment {
                alignment: DEFAULT_ALIGNMENT,
                data: b"middle".to_vec(),
            },
        ],
    };
    let enabled = CrcCodec {
        with_data_crc: true,
    };
    let disabled = CrcCodec {
        with_data_crc: false,
    };
    for offset in [PREAMBLE_SIZE, PREAMBLE_SIZE + b"header".len() + 4] {
        let mut wire = enabled.encode(&frame, TEST_LIMITS).expect("valid frame");
        wire[offset] ^= 1;
        assert_eq!(
            enabled.read(&mut Reader::new(&wire), TEST_LIMITS),
            Err(FrameError::Integrity)
        );

        let mut wire = disabled.encode(&frame, TEST_LIMITS).expect("valid frame");
        wire[offset] ^= 1;
        assert!(disabled.read(&mut Reader::new(&wire), TEST_LIMITS).is_ok());
    }

    let mut wire = disabled.encode(&frame, TEST_LIMITS).expect("valid frame");
    let status = wire.len() - 13;
    wire[status] |= 0xf0;
    assert!(disabled.read(&mut Reader::new(&wire), TEST_LIMITS).is_ok());
}

#[test]
fn rejects_every_truncation_and_compression_tags_on_wire() {
    let codec = CrcCodec {
        with_data_crc: true,
    };
    let frame = Frame {
        tag: Tag::Message,
        segments: vec![
            Segment {
                alignment: DEFAULT_ALIGNMENT,
                data: b"header".to_vec(),
            },
            Segment {
                alignment: DEFAULT_ALIGNMENT,
                data: b"front".to_vec(),
            },
        ],
    };
    let wire = codec.encode(&frame, TEST_LIMITS).expect("valid frame");
    for length in 0..wire.len() {
        assert_eq!(
            codec.read(&mut Reader::new(&wire[..length]), TEST_LIMITS),
            Err(FrameError::Malformed),
            "truncation at {length} bytes"
        );
    }

    let mut compression = wire;
    compression[0] = Tag::CompressionRequest.code();
    let checksum = crc32c(0, &compression[..28]);
    compression[28..32].copy_from_slice(&checksum.to_le_bytes());
    assert_eq!(
        codec.read(&mut Reader::new(&compression), TEST_LIMITS),
        Err(FrameError::Malformed)
    );
}

fn hex_bytes(value: &str) -> Vec<u8> {
    value
        .as_bytes()
        .chunks(2)
        .map(|pair| {
            let text = std::str::from_utf8(pair).expect("hex text");
            u8::from_str_radix(text, 16).expect("hex byte")
        })
        .collect()
}

#[test]
fn a_refused_frame_is_left_behind_as_far_as_it_was_read() {
    let codec = CrcCodec {
        with_data_crc: true,
    };
    let frame = Frame {
        tag: Tag::Message,
        segments: vec![
            Segment {
                alignment: DEFAULT_ALIGNMENT,
                data: b"header".to_vec(),
            },
            Segment {
                alignment: DEFAULT_ALIGNMENT,
                data: b"front".to_vec(),
            },
        ],
    };
    let wire = codec.encode(&frame, TEST_LIMITS).expect("encode");
    assert_eq!(wire.len(), PREAMBLE_SIZE + 6 + 4 + 5 + EPILOGUE_SIZE);
    for (offset, error, left) in [
        (2, FrameError::Integrity, wire.len() - PREAMBLE_SIZE),
        (PREAMBLE_SIZE, FrameError::Integrity, 5 + EPILOGUE_SIZE),
        (PREAMBLE_SIZE + 10, FrameError::Integrity, 0),
        (PREAMBLE_SIZE + 16, FrameError::Integrity, 0),
    ] {
        let mut twice = wire.clone();
        twice[offset] ^= 0x40;
        twice.extend_from_slice(&wire);
        let mut reader = Reader::new(&twice);
        assert_eq!(
            codec.read(&mut reader, TEST_LIMITS),
            Err(error),
            "offset={offset}"
        );
        assert_eq!(reader.remaining(), left + wire.len(), "offset={offset}");
        if left == 0 {
            assert_eq!(codec.read(&mut reader, TEST_LIMITS), Ok(frame.clone()));
            assert_eq!(reader.remaining(), 0);
        }
    }

    let mut reader = Reader::new(&wire[..PREAMBLE_SIZE - 1]);
    assert_eq!(
        codec.read(&mut reader, TEST_LIMITS),
        Err(FrameError::Malformed)
    );
    assert_eq!(reader.remaining(), PREAMBLE_SIZE - 1);
}
