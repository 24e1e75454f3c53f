use rados::msgr::control::{
    AuthBadMethod, AuthDone, AuthRequest, ClientIdent, Control, Hello, IdentMissingFeatures,
    ServerIdent, SessionReconnect, SessionReconnectOk, SessionReset, SessionRetry,
    SessionRetryGlobal, Timestamp,
};
use rados::msgr::frame::{Frame, FrameError, Limits, Segment, Tag};
use rados::protocol::address::{EntityAddr, EntityAddrVec};
use rados::wire::Decoder;

const TEST_LIMITS: Limits = Limits {
    max_segment_bytes: 4096,
    max_frame_bytes: 8192,
    max_addresses: 4,
    max_auth_bytes: 64,
};

fn test_address() -> EntityAddr {
    let encoded = [
        0x01, 0x01, 0x01, 0x1c, 0x00, 0x00, 0x00, 0x02, 0x00, 0x00, 0x00, 0x01, 0x02, 0x03,
        0x04, 0x10, 0x00, 0x00, 0x00, 0x02, 0x00, 0x0c, 0xe4, 0xc0, 0x00, 0x02, 0x01, 0x00,
        0x00, 0x00, 0x00, 0x00, 0x00, 0x00, 0x00,
    ];
    let mut decoder = Decoder::new(&encoded, encoded.len());
    EntityAddr::decode(&mut decoder).expect("valid test address")
}

#[test]
fn hello_matches_exact_go_vector() {
    let expected = vec![
        0x08, 0x01, 0x01, 0x01, 0x1c, 0x00, 0x00, 0x00, 0x02, 0x00, 0x00, 0x00, 0x01, 0x02,
        0x03, 0x04, 0x10, 0x00, 0x00, 0x00, 0x02, 0x00, 0x0c, 0xe4, 0xc0, 0x00, 0x02, 0x01,
        0x00, 0x00, 0x00, 0x00, 0x00, 0x00, 0x00, 0x00,
    ];
    let payload = Control::Hello(Hello {
        entity_type: 8,
        peer_address: test_address(),
    });
    let frame = payload.clone().encode(TEST_LIMITS).expect("valid hello");
    assert_eq!(frame.tag, Tag::Hello);
    assert_eq!(frame.segments[0].data, expected);
    assert_eq!(Control::decode(&frame, TEST_LIMITS), Ok(payload));
}

#[test]
fn all_control_payloads_round_trip() {
    let address = test_address();
    let addresses = EntityAddrVec(vec![address.clone()]);
    let payloads = vec![
        Control::ClientIdent(ClientIdent {
            addresses: addresses.clone(),
            target_address: address.clone(),
            global_id: -1,
            global_sequence: 2,
            supported_features: 3,
            required_features: 4,
            flags: 5,
            cookie: 6,
        }),
        Control::ServerIdent(ServerIdent {
            addresses: addresses.clone(),
            global_id: 1,
            global_sequence: 2,
            supported_features: 3,
            required_features: 4,
            flags: 5,
            cookie: 6,
        }),
        Control::IdentMissingFeatures(IdentMissingFeatures { features: 9 }),
        Control::SessionReconnect(SessionReconnect {
            addresses,
            client_cookie: 1,
            server_cookie: 2,
            global_sequence: 3,
            connect_sequence: 4,
            message_sequence: 5,
        }),
        Control::SessionReset(SessionReset { full: true }),
        Control::SessionRetry(SessionRetry {
            connect_sequence: 11,
        }),
        Control::SessionRetryGlobal(SessionRetryGlobal {
            global_sequence: 12,
        }),
        Control::SessionReconnectOk(SessionReconnectOk {
            message_sequence: 13,
        }),
        Control::Wait,
        Control::Keepalive2(Timestamp {
            seconds: 14,
            nanoseconds: 15,
        }),
        Control::Keepalive2Ack(Timestamp {
            seconds: 16,
            nanoseconds: 17,
        }),
        Control::Ack(18),
        Control::AuthRequest(AuthRequest {
            method: 2,
            preferred_modes: vec![2, 1],
            auth_payload: vec![1, 2, 3],
        }),
        Control::AuthBadMethod(AuthBadMethod {
            method: 2,
            result: -13,
            allowed_methods: vec![2],
            allowed_modes: vec![2, 1],
        }),
        Control::AuthReplyMore(vec![4, 5]),
        Control::AuthRequestMore(vec![6, 7]),
        Control::AuthDone(AuthDone {
            global_id: 42,
            connection_mode: 2,
            auth_payload: vec![8, 9],
        }),
        Control::AuthSignature([
            1, 2, 3, 0, 0, 0, 0, 0, 0, 0, 0, 0, 0, 0, 0, 0, 0, 0, 0, 0, 0, 0, 0, 0, 0, 0, 0, 0,
            0, 0, 0, 0,
        ]),
    ];
    for payload in payloads {
        let frame = payload.clone().encode(TEST_LIMITS).expect("encode control");
        assert_eq!(Control::decode(&frame, TEST_LIMITS), Ok(payload));
    }
}

#[test]
fn raw_auth_tags_are_bounded_and_classified() {
    for tag in [
        Tag::AuthRequest,
        Tag::AuthBadMethod,
        Tag::AuthReplyMore,
        Tag::AuthRequestMore,
        Tag::AuthDone,
        Tag::AuthSignature,
    ] {
        let frame = Control::AuthPayload {
            tag,
            payload: vec![1, 2, 3],
        }
        .encode(TEST_LIMITS)
        .expect("valid raw auth payload");
        assert_eq!(frame.tag, tag);
    }
    assert_eq!(
        Control::AuthPayload {
            tag: Tag::Ack,
            payload: Vec::new()
        }
        .encode(TEST_LIMITS),
        Err(FrameError::Malformed)
    );
    assert_eq!(
        Control::AuthReplyMore(vec![0; 65]).encode(TEST_LIMITS),
        Err(FrameError::LimitExceeded)
    );
    assert_eq!(
        Control::AuthRequest(AuthRequest {
            method: 2,
            preferred_modes: vec![0; 17],
            auth_payload: Vec::new(),
        })
        .encode(TEST_LIMITS),
        Err(FrameError::LimitExceeded)
    );
    assert_eq!(
        Control::AuthBadMethod(AuthBadMethod {
            method: 2,
            result: -13,
            allowed_methods: vec![0; 17],
            allowed_modes: Vec::new(),
        })
        .encode(TEST_LIMITS),
        Err(FrameError::LimitExceeded)
    );
}

#[test]
fn rejects_malformed_truncated_and_limited_payloads() {
    let cases = [
        Frame {
            tag: Tag::Ack,
            segments: vec![Segment {
                alignment: 8,
                data: vec![0; 9],
            }],
        },
        Frame {
            tag: Tag::SessionReset,
            segments: vec![Segment {
                alignment: 8,
                data: vec![2],
            }],
        },
        Frame {
            tag: Tag::Wait,
            segments: vec![Segment {
                alignment: 16,
                data: Vec::new(),
            }],
        },
        Frame {
            tag: Tag::Wait,
            segments: vec![
                Segment {
                    alignment: 8,
                    data: Vec::new(),
                },
                Segment {
                    alignment: 8,
                    data: Vec::new(),
                },
            ],
        },
        Frame {
            tag: Tag::AuthSignature,
            segments: vec![Segment {
                alignment: 8,
                data: vec![0; 31],
            }],
        },
    ];
    for frame in cases {
        assert_eq!(
            Control::decode(&frame, TEST_LIMITS),
            Err(FrameError::Malformed)
        );
    }
    assert_eq!(
        Control::decode(
            &Frame {
                tag: Tag::CompressionRequest,
                segments: vec![Segment {
                    alignment: 8,
                    data: Vec::new()
                }]
            },
            TEST_LIMITS
        ),
        Err(FrameError::UnsupportedPayload)
    );
    assert_eq!(
        Control::decode(
            &Frame {
                tag: Tag::ServerIdent,
                segments: vec![Segment {
                    alignment: 8,
                    data: vec![2, 5, 0, 0, 0]
                }]
            },
            TEST_LIMITS
        ),
        Err(FrameError::LimitExceeded)
    );
}
