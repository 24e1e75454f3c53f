use rados::msgr::frame::{
    encode_preamble, Descriptor, Frame, FrameError, Limits, Reader, Segment, Tag,
    DEFAULT_ALIGNMENT, LATE_STATUS_COMPLETE, PAGE_ALIGNMENT, PREAMBLE_SIZE,
};
use rados::msgr::secure::{
    SecureCodec, BLOCK_SIZE, INLINE_SIZE, SECRET_SIZE, SECURE_PREAMBLE_SIZE,
};

const TEST_LIMITS: Limits = Limits {
    max_segment_bytes: 4096,
    max_frame_bytes: 8192,
    max_addresses: 64,
    max_auth_bytes: 4096,
};

#[test]
fn deterministic_vector_matches_go() {
    let mut codec = SecureCodec::new(&test_secret(), false).expect("valid codec");
    let frame = Frame {
        tag: Tag::Ack,
        segments: vec![Segment {
            alignment: DEFAULT_ALIGNMENT,
            data: b"ceph".to_vec(),
        }],
    };
    let expected = hex_bytes(
        "4de81a477793cc7cbb381480b30cc69431dabdf879b50b483d403cfd7520cf9d25a34695d34ff7965036a3b4f02908ecd7f8cc4f2688a28ab01f761aeee6fdba01654a9d4a848c689172d4521fcf810804495e6587c7f08a8c5bc025ec8d1369",
    );
    assert_eq!(codec.encode(&frame, TEST_LIMITS), Ok(expected));
}

#[test]
fn round_trip_uses_crossed_directions() {
    let secret = test_secret();
    let mut client = SecureCodec::new(&secret, false).expect("client codec");
    let mut server = SecureCodec::new(&secret, true).expect("server codec");
    let frame = Frame {
        tag: Tag::Message,
        segments: vec![
            Segment {
                alignment: DEFAULT_ALIGNMENT,
                data: vec![0x5a; 63],
            },
            Segment {
                alignment: PAGE_ALIGNMENT,
                data: Vec::new(),
            },
            Segment {
                alignment: DEFAULT_ALIGNMENT,
                data: b"middle".to_vec(),
            },
        ],
    };
    let wire = client.encode(&frame, TEST_LIMITS).expect("encode request");
    assert_eq!(wire.len(), 176);
    assert_eq!(
        server.read(&mut Reader::new(&wire), TEST_LIMITS),
        Ok(frame)
    );

    let reply = Frame {
        tag: Tag::Keepalive2Ack,
        segments: vec![Segment {
            alignment: DEFAULT_ALIGNMENT,
            data: b"reply".to_vec(),
        }],
    };
    let wire = server.encode(&reply, TEST_LIMITS).expect("encode reply");
    assert_eq!(client.read(&mut Reader::new(&wire), TEST_LIMITS), Ok(reply));
}

#[test]
fn corrupt_authentication_tags_are_rejected() {
    let secret = test_secret();
    let frame = Frame {
        tag: Tag::Message,
        segments: vec![
            Segment {
                alignment: DEFAULT_ALIGNMENT,
                data: vec![1; 49],
            },
            Segment {
                alignment: DEFAULT_ALIGNMENT,
                data: b"tail".to_vec(),
            },
        ],
    };
    let mut client = SecureCodec::new(&secret, false).expect("client codec");
    let wire = client.encode(&frame, TEST_LIMITS).expect("encode");
    for offset in [
        SECURE_PREAMBLE_SIZE - 1,
        SECURE_PREAMBLE_SIZE + 31,
        wire.len() - 1,
    ] {
        let mut corrupt = wire.clone();
        corrupt[offset] ^= 0x80;
        let mut server = SecureCodec::new(&secret, true).expect("server codec");
        assert_eq!(
            server.read(&mut Reader::new(&corrupt), TEST_LIMITS),
            Err(FrameError::Integrity)
        );
    }
}

#[test]
fn authentication_failure_consumes_rx_nonce() {
    let mut secret = test_secret();
    secret[32..40].copy_from_slice(&u64::MAX.to_le_bytes());
    let frame = empty_ack();
    let mut client = SecureCodec::new(&secret, false).expect("client codec");
    let mut wire = client.encode(&frame, TEST_LIMITS).expect("encode");
    *wire.last_mut().expect("authentication tag") ^= 0x80;
    let mut server = SecureCodec::new(&secret, true).expect("server codec");
    assert_eq!(
        server.read(&mut Reader::new(&wire), TEST_LIMITS),
        Err(FrameError::Integrity)
    );
    assert_eq!(
        server.read(&mut Reader::new(&[]), TEST_LIMITS),
        Err(FrameError::CounterExhausted)
    );
}

#[test]
fn authenticated_padding_and_status_are_checked() {
    let secret = test_secret();
    for (tag, descriptor) in [
        (
            Tag::CompressionRequest,
            Descriptor {
                length: 0,
                alignment: DEFAULT_ALIGNMENT,
            },
        ),
        (
            Tag::CompressionDone,
            Descriptor {
                length: 0,
                alignment: DEFAULT_ALIGNMENT,
            },
        ),
        (
            Tag::Ack,
            Descriptor {
                length: 0,
                alignment: 3,
            },
        ),
    ] {
        let mut first = vec![0; PREAMBLE_SIZE + INLINE_SIZE];
        first[..PREAMBLE_SIZE].copy_from_slice(&encode_preamble(tag, &[descriptor]));
        let mut client = SecureCodec::new(&secret, false).expect("client codec");
        let wire = client.tx.seal(&first).expect("seal");
        let mut server = SecureCodec::new(&secret, true).expect("server codec");
        assert_eq!(
            server.read(&mut Reader::new(&wire), TEST_LIMITS),
            Err(FrameError::Malformed)
        );
    }

    let descriptor = Descriptor {
        length: 1,
        alignment: DEFAULT_ALIGNMENT,
    };
    let mut first = vec![0; PREAMBLE_SIZE + INLINE_SIZE];
    first[..PREAMBLE_SIZE].copy_from_slice(&encode_preamble(Tag::Ack, &[descriptor]));
    first[PREAMBLE_SIZE + 1] = 1;
    let mut client = SecureCodec::new(&secret, false).expect("client codec");
    let wire = client.tx.seal(&first).expect("seal");
    let mut server = SecureCodec::new(&secret, true).expect("server codec");
    assert_eq!(
        server.read(&mut Reader::new(&wire), TEST_LIMITS),
        Err(FrameError::Malformed)
    );

    for (status, nonzero_padding) in [(0x02, false), (LATE_STATUS_COMPLETE, true)] {
        let mut client = SecureCodec::new(&secret, false).expect("client codec");
        let descriptors = [
            Descriptor {
                length: 0,
                alignment: DEFAULT_ALIGNMENT,
            },
            Descriptor {
                length: 1,
                alignment: DEFAULT_ALIGNMENT,
            },
        ];
        let mut first = vec![0; PREAMBLE_SIZE + INLINE_SIZE];
        first[..PREAMBLE_SIZE].copy_from_slice(&encode_preamble(Tag::Message, &descriptors));
        let mut wire = client.tx.seal(&first).expect("seal preamble");
        let mut remaining = vec![0; 2 * BLOCK_SIZE];
        remaining[0] = 7;
        remaining[BLOCK_SIZE] = status;
        if nonzero_padding {
            remaining[BLOCK_SIZE + 1] = 1;
        }
        wire.extend_from_slice(&client.tx.seal(&remaining).expect("seal remaining"));
        let mut server = SecureCodec::new(&secret, true).expect("server codec");
        assert_eq!(
            server.read(&mut Reader::new(&wire), TEST_LIMITS),
            Err(FrameError::Malformed)
        );
    }

    let mut client = SecureCodec::new(&secret, false).expect("client codec");
    let descriptors = [
        Descriptor {
            length: 0,
            alignment: DEFAULT_ALIGNMENT,
        },
        Descriptor {
            length: 1,
            alignment: DEFAULT_ALIGNMENT,
        },
    ];
    let mut first = vec![0; PREAMBLE_SIZE + INLINE_SIZE];
    first[..PREAMBLE_SIZE].copy_from_slice(&encode_preamble(Tag::Message, &descriptors));
    let mut wire = client.tx.seal(&first).expect("seal preamble");
    let mut remaining = vec![0; 2 * BLOCK_SIZE];
    remaining[0] = 7;
    remaining[1] = 1;
    remaining[BLOCK_SIZE] = LATE_STATUS_COMPLETE;
    wire.extend_from_slice(&client.tx.seal(&remaining).expect("seal remaining"));
    let mut server = SecureCodec::new(&secret, true).expect("server codec");
    assert_eq!(
        server.read(&mut Reader::new(&wire), TEST_LIMITS),
        Err(FrameError::Malformed)
    );
}

#[test]
fn limits_are_checked_before_variable_payload() {
    let secret = test_secret();
    let descriptor = Descriptor {
        length: 2048,
        alignment: DEFAULT_ALIGNMENT,
    };
    let mut first = vec![0; PREAMBLE_SIZE + INLINE_SIZE];
    first[..PREAMBLE_SIZE].copy_from_slice(&encode_preamble(Tag::Message, &[descriptor]));
    let mut client = SecureCodec::new(&secret, false).expect("client codec");
    let wire = client.tx.seal(&first).expect("seal");
    for limits in [
        Limits {
            max_segment_bytes: 1024,
            ..TEST_LIMITS
        },
        Limits {
            max_frame_bytes: 100,
            ..TEST_LIMITS
        },
    ] {
        let mut server = SecureCodec::new(&secret, true).expect("server codec");
        assert_eq!(
            server.read(&mut Reader::new(&wire), limits),
            Err(FrameError::LimitExceeded)
        );
    }
}

#[test]
fn tx_and_rx_counters_exhaust_without_partial_tx() {
    let mut secret = test_secret();
    secret[32..40].copy_from_slice(&(u64::MAX - 1).to_le_bytes());
    let mut client = SecureCodec::new(&secret, false).expect("client codec");
    let mut server = SecureCodec::new(&secret, true).expect("server codec");
    let frame = empty_ack();
    for _ in 0..2 {
        let wire = client.encode(&frame, TEST_LIMITS).expect("encode");
        assert_eq!(
            server.read(&mut Reader::new(&wire), TEST_LIMITS),
            Ok(frame.clone())
        );
    }
    assert_eq!(
        client.encode(&frame, TEST_LIMITS),
        Err(FrameError::CounterExhausted)
    );
    assert_eq!(
        server.read(&mut Reader::new(&[]), TEST_LIMITS),
        Err(FrameError::CounterExhausted)
    );

    let mut client = SecureCodec::new(&secret, false).expect("client codec");
    let multi_record = Frame {
        tag: Tag::Message,
        segments: vec![
            Segment {
                alignment: DEFAULT_ALIGNMENT,
                data: vec![1; 49],
            },
            Segment {
                alignment: DEFAULT_ALIGNMENT,
                data: vec![2],
            },
        ],
    };
    assert_eq!(
        client.encode(&multi_record, TEST_LIMITS),
        Err(FrameError::CounterExhausted)
    );
    assert!(client.encode(&frame, TEST_LIMITS).is_ok());
}

#[test]
fn secret_must_be_exactly_64_bytes() {
    assert!(matches!(
        SecureCodec::new(&[0; 63], false),
        Err(FrameError::InvalidSecret)
    ));
    assert!(matches!(
        SecureCodec::new(&[0; 65], false),
        Err(FrameError::InvalidSecret)
    ));
}

fn empty_ack() -> Frame {
    Frame {
        tag: Tag::Ack,
        segments: vec![Segment {
            alignment: DEFAULT_ALIGNMENT,
            data: Vec::new(),
        }],
    }
}

fn test_secret() -> [u8; SECRET_SIZE] {
    std::array::from_fn(|index| u8::try_from(index).expect("64-byte secret index"))
}

fn hex_bytes(value: &str) -> Vec<u8> {
    value
        .as_bytes()
        .chunks(2)
        .map(|pair| {
            let text = std::str::from_utf8(pair).expect("hex text");
            u8::from_str_radix(text, 16).expect("hex byte")
        })
        .collect()
}

#[test]
fn frames_sent_in_order_are_read_in_order() {
    let secret = test_secret();
    let mut client = SecureCodec::new(&secret, false).expect("client codec");
    let mut server = SecureCodec::new(&secret, true).expect("server codec");
    let frames: Vec<Frame> = [4, 60, 200]
        .into_iter()
        .map(|length| Frame {
            tag: Tag::Message,
            segments: vec![
                Segment {
                    alignment: DEFAULT_ALIGNMENT,
                    data: vec![7; length],
                },
                Segment {
                    alignment: DEFAULT_ALIGNMENT,
                    data: b"front".to_vec(),
                },
            ],
        })
        .collect();
    let mut wire = Vec::new();
    for frame in &frames {
        wire.extend(client.encode(frame, TEST_LIMITS).expect("encode"));
    }
    wire.extend(b"tail");
    let mut reader = Reader::new(&wire);
    for frame in frames {
        assert_eq!(server.read(&mut reader, TEST_LIMITS), Ok(frame));
    }
    assert_eq!(
        server.read(&mut reader, TEST_LIMITS),
        Err(FrameError::Malformed)
    );
}

fn three_records() -> Frame {
    Frame {
        tag: Tag::Message,
        segments: vec![
            Segment {
                alignment: DEFAULT_ALIGNMENT,
                data: vec![1; 49],
            },
            Segment {
                alignment: DEFAULT_ALIGNMENT,
                data: vec![2],
            },
        ],
    }
}

#[test]
fn a_refused_record_is_left_behind() {
    let secret = test_secret();
    let mut client = SecureCodec::new(&secret, false).expect("client codec");
    let wire = client
        .encode(&three_records(), TEST_LIMITS)
        .expect("encode");
    let remainder = SECURE_PREAMBLE_SIZE + 32;
    for (offset, left) in [
        (0, wire.len() - SECURE_PREAMBLE_SIZE),
        (SECURE_PREAMBLE_SIZE, wire.len() - remainder),
        (remainder, 0),
    ] {
        let mut corrupt = wire.clone();
        corrupt[offset] ^= 1;
        let mut server = SecureCodec::new(&secret, true).expect("server codec");
        let mut reader = Reader::new(&corrupt);
        assert_eq!(
            server.read(&mut reader, TEST_LIMITS),
            Err(FrameError::Integrity)
        );
        assert_eq!(reader.remaining(), left, "offset={offset}");
    }
    let mut server = SecureCodec::new(&secret, true).expect("server codec");
    let mut reader = Reader::new(&wire[..remainder - 1]);
    assert!(server.read(&mut reader, TEST_LIMITS).is_err());
    assert_eq!(reader.remaining(), 31);
}

#[test]
fn a_changed_frame_that_runs_out_of_nonces_uses_them_up() {
    let mut secret = test_secret();
    secret[32..40].copy_from_slice(&(u64::MAX - 1).to_le_bytes());
    let mut client = SecureCodec::new(&secret, false).expect("client codec");
    assert_eq!(
        client.encode_with_authenticated_mutation(&three_records(), TEST_LIMITS, 0, 0),
        Err(FrameError::CounterExhausted)
    );
    assert_eq!(
        client.encode(&empty_ack(), TEST_LIMITS),
        Err(FrameError::CounterExhausted)
    );
}
