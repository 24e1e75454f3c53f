use rados::msgr::message::{Message, MessageHeader, MessageLengths};
use rados::osd::watch::{
    decode_notification, decode_notify_result, EVENT_NOTIFY, MESSAGE_WATCH_NOTIFY,
};
use rados::wire::{Encoder, WireError};

#[test]
fn watch_notification_and_notify_result_match_frozen_go_vectors() {
    let mut encoder = Encoder::new(4096);
    encoder.u8(1);
    encoder.u8(EVENT_NOTIFY);
    encoder.u64(8);
    encoder.u64(9);
    encoder.u64(10);
    encoder.bytes(b"payload");
    encoder.i32(0);
    encoder.u64(11);
    let front = encoder.finish().expect("front");
    let notification = decode_notification(
        &Message {
            header: MessageHeader {
                message_type: MESSAGE_WATCH_NOTIFY,
                version: 3,
                compat_version: 1,
                ..MessageHeader::default()
            },
            lengths: MessageLengths {
                front: u32::try_from(front.len()).expect("front length"),
                ..MessageLengths::default()
            },
            front,
            ..Message::default()
        },
        4096,
    )
    .expect("notification");
    assert_eq!(notification.cookie, 8);
    assert_eq!(notification.notify_id, 10);
    assert_eq!(notification.notifier, 11);
    assert_eq!(notification.data, b"payload");

    let mut result = Encoder::new(4096);
    result.u32(1);
    result.u64(12);
    result.u64(13);
    result.bytes(b"ack");
    result.u32(1);
    result.u64(14);
    result.u64(15);
    let result = result.finish().expect("result");
    let (acknowledged, timed_out) =
        decode_notify_result(&result, 4096, 2).expect("decode result");
    assert_eq!(acknowledged[0].client, 12);
    assert_eq!(acknowledged[0].data, b"ack");
    assert_eq!(timed_out[0].cookie, 15);
    assert_eq!(
        decode_notify_result(&result, 4096, 1),
        Err(WireError::LimitExceeded)
    );
}
