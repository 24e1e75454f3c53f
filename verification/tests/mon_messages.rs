use rados::maps::{Fsid, Limits as MapLimits};
use rados::mon::messages::{
    decode_allocated_snapshot_id, decode_mgrmap_message, decode_osdmap_batch,
    decode_pool_operation_reply, decode_subscribe_ack, encode_pool_operation, encode_subscribe,
    front_message, MessageError, MessageLimits, PoolOperation, Subscription, Subscriptions,
    MESSAGE_MGR_MAP, MESSAGE_MON_SUBSCRIBE, MESSAGE_MON_SUBSCRIBE_ACK, MESSAGE_OSD_MAP,
    MESSAGE_POOL_OPERATION, MESSAGE_POOL_OPERATION_REPLY, SUBSCRIBE_ONCE,
};
use rados::msgr::message::Message;
use rados::wire::{Decoder, Encoder, WireError};

fn message(message_type: u16, version: u16, compat: u16, front: Vec<u8>) -> Message {
    front_message(message_type, version, compat, front).expect("test message")
}

fn osd_batch(version: u16, compat: u16, entries: &[(u32, &[u8])], gap: u32) -> Message {
    let mut encoder = Encoder::new(1024);
    encoder.raw(&[1; 16]);
    encoder.u32(u32::try_from(entries.len()).expect("test entry count"));
    for (epoch, data) in entries {
        encoder.u32(*epoch);
        encoder.bytes(data);
    }
    encoder.u32(0);
    encoder.u32(0);
    encoder.u32(entries.last().map_or(0, |entry| entry.0));
    if version >= 4 {
        encoder.u32(gap);
    }
    message(MESSAGE_OSD_MAP, version, compat, encoder.finish().unwrap())
}

#[test]
fn subscribe_v3_matches_exact_vector() {
    let mut subscriptions = Subscriptions::new();
    subscriptions.insert("osdmap".to_owned(), Subscription { start: 8, flags: 0 });
    subscriptions.insert(
        "monmap".to_owned(),
        Subscription {
            start: 3,
            flags: SUBSCRIBE_ONCE,
        },
    );
    let encoded = encode_subscribe(&subscriptions, "client-host", 1024).unwrap();
    assert_eq!(encoded.header.message_type, MESSAGE_MON_SUBSCRIBE);
    assert_eq!(encoded.header.version, 3);
    assert_eq!(encoded.header.compat_version, 1);
    assert_eq!(
        encoded.front,
        [
            2, 0, 0, 0, 6, 0, 0, 0, b'm', b'o', b'n', b'm', b'a', b'p', 3, 0, 0, 0, 0, 0, 0, 0,
            1, 6, 0, 0, 0, b'o', b's', b'd', b'm', b'a', b'p', 8, 0, 0, 0, 0, 0, 0, 0, 0, 11,
            0, 0, 0, b'c', b'l', b'i', b'e', b'n', b't', b'-', b'h', b'o', b's', b't',
        ]
    );
}

#[test]
fn subscribe_ack_decodes_exact_vector_and_rejects_truncation() {
    let mut front = 30_u32.to_le_bytes().to_vec();
    front.extend(0_u8..16);
    let ack =
        decode_subscribe_ack(&message(MESSAGE_MON_SUBSCRIBE_ACK, 0, 0, front.clone()), 20)
            .unwrap();
    assert_eq!(ack.interval_seconds, 30);
    assert_eq!(
        ack.fsid,
        Fsid([0, 1, 2, 3, 4, 5, 6, 7, 8, 9, 10, 11, 12, 13, 14, 15])
    );
    front.pop();
    assert_eq!(
        decode_subscribe_ack(&message(MESSAGE_MON_SUBSCRIBE_ACK, 0, 0, front), 20),
        Err(MessageError::Wire(WireError::Malformed))
    );
}

#[test]
fn pool_snapshot_operations_match_frozen_layout_and_validate_unions() {
    let request =
        encode_pool_operation(Fsid([1; 16]), 7, 3, PoolOperation::Create, 0, "snap", 1024)
            .expect("pool operation");
    assert_eq!(request.header.message_type, MESSAGE_POOL_OPERATION);
    assert_eq!(
        (request.header.version, request.header.compat_version),
        (4, 2)
    );
    let mut decoder = Decoder::new(&request.front, 1024);
    assert_eq!(decoder.u64(), 7);
    assert_eq!(decoder.i16(), -1);
    assert_eq!(decoder.u64(), 0);
    assert_eq!(decoder.raw(16), &[1; 16]);
    assert_eq!(decoder.u32(), 3);
    assert_eq!(decoder.u32(), 0x11);
    assert_eq!(decoder.u64(), 0);
    assert_eq!(decoder.u64(), 0);
    assert_eq!(decoder.string(), "snap");
    assert_eq!(decoder.u8(), 0);
    assert_eq!(decoder.i16(), 0);
    assert_eq!(decoder.remaining(), 0);

    assert!(
        encode_pool_operation(Fsid([1; 16]), 7, 3, PoolOperation::Create, 1, "snap", 1024,)
            .is_err()
    );
    assert!(
        encode_pool_operation(
            Fsid([1; 16]),
            7,
            3,
            PoolOperation::DeleteSelfManaged,
            0,
            "",
            1024,
        )
        .is_err()
    );
}

#[test]
fn pool_snapshot_reply_and_allocated_id_are_exact() {
    let mut encoder = Encoder::new(128);
    encoder.u64(0);
    encoder.i16(-1);
    encoder.u64(0);
    encoder.raw(&[2; 16]);
    encoder.i32(0);
    encoder.u32(9);
    encoder.u8(1);
    encoder.bytes(&17_u64.to_le_bytes());
    let reply = decode_pool_operation_reply(
        &message(
            MESSAGE_POOL_OPERATION_REPLY,
            1,
            1,
            encoder.finish().expect("reply"),
        ),
        128,
    )
    .expect("decode reply");
    assert_eq!(reply.fsid, Fsid([2; 16]));
    assert_eq!(reply.epoch, 9);
    assert_eq!(
        decode_allocated_snapshot_id(&reply.response_data, 8),
        Ok(17)
    );
    assert!(decode_allocated_snapshot_id(&[0; 8], 8).is_err());
    assert!(decode_allocated_snapshot_id(&[1; 9], 9).is_err());
}

#[test]
fn osdmap_envelope_enforces_versions_bounds_and_unique_epochs() {
    let decoded = decode_osdmap_batch(
        &osd_batch(4, 3, &[(2, b"inc")], 0),
        MessageLimits {
            max_bytes: 1024,
            max_maps: 1,
        },
    )
    .unwrap();
    assert_eq!(decoded.fsid, Fsid([1; 16]));
    assert_eq!(decoded.incrementals[&2], b"inc");
    assert_eq!(decoded.newest_map, 2);

    assert_eq!(
        decode_osdmap_batch(
            &osd_batch(2, 2, &[], 0),
            MessageLimits {
                max_bytes: 1024,
                max_maps: 1
            }
        ),
        Err(MessageError::UnsupportedVersion)
    );
    assert_eq!(
        decode_osdmap_batch(
            &osd_batch(4, 5, &[], 0),
            MessageLimits {
                max_bytes: 1024,
                max_maps: 1
            }
        ),
        Err(MessageError::UnsupportedVersion)
    );
    assert_eq!(
        decode_osdmap_batch(
            &osd_batch(4, 3, &[(1, b"a"), (2, b"b")], 0),
            MessageLimits {
                max_bytes: 1024,
                max_maps: 1
            }
        ),
        Err(MessageError::Wire(WireError::LimitExceeded))
    );
    assert_eq!(
        decode_osdmap_batch(
            &osd_batch(4, 3, &[], 1),
            MessageLimits {
                max_bytes: 1024,
                max_maps: 1
            }
        ),
        Err(MessageError::UnsupportedVersion)
    );
    assert!(matches!(
        decode_osdmap_batch(
            &osd_batch(4, 3, &[(1, b"a"), (1, b"b")], 0),
            MessageLimits {
                max_bytes: 1024,
                max_maps: 2
            }
        ),
        Err(MessageError::Malformed("duplicate osdmap epoch"))
    ));
}

#[test]
fn front_message_shape_and_mgr_version_are_strict() {
    let mut wrong_shape = message(MESSAGE_MON_SUBSCRIBE_ACK, 0, 0, vec![0; 20]);
    wrong_shape.middle.push(1);
    assert!(matches!(
        decode_subscribe_ack(&wrong_shape, 20),
        Err(MessageError::Malformed("segment lengths"))
    ));

    let mgr = message(MESSAGE_MGR_MAP, 2, 1, Vec::new());
    assert_eq!(
        decode_mgrmap_message(
            &mgr,
            MapLimits {
                max_bytes: 1,
                ..MapLimits::default()
            }
        ),
        Err(MessageError::UnsupportedVersion)
    );
}
