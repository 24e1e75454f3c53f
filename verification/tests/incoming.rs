use rados::maps::PG;
use rados::mon::messages::MESSAGE_OSD_MAP;
use rados::msgr::message::{Message, MessageHeader, MessageLengths};
use rados::osd::backoff::{
    encode, Backoff, HObject, BACKOFF_ACK_BLOCK, BACKOFF_BLOCK, BACKOFF_UNBLOCK,
};
use rados::osd::client::Error;
use rados::osd::incoming::{disconnection, Incoming, OSDSessionState, Submission};
use rados::osd::messages::{Limits, NO_SNAP};
use rados::osd::watch::{EVENT_DISCONNECT, EVENT_NOTIFY, MESSAGE_WATCH_NOTIFY};
use rados::wire::Encoder;

const LIMITS: Limits = Limits {
    max_bytes: 4096,
    max_operations: 4,
};

const GROUP: PG = PG {
    pool: 1,
    seed: 7,
    preferred: -1,
};

fn object() -> HObject {
    HObject {
        key: Vec::new(),
        object: b"blocked".to_vec(),
        snapshot: NO_SNAP,
        hash: 7,
        max: false,
        namespace: Vec::new(),
        pool: 1,
    }
}

fn backoff(operation: u8) -> Message {
    let value = Backoff {
        pg: GROUP,
        shard: -1,
        map_epoch: 1,
        operation,
        id: 9,
        begin: object(),
        end: object(),
    };
    encode(&value, operation, LIMITS).expect("backoff")
}

fn typed(message_type: u16, front: Vec<u8>) -> Message {
    Message {
        header: MessageHeader {
            message_type,
            version: 3,
            compat_version: 1,
            ..MessageHeader::default()
        },
        lengths: MessageLengths {
            front: u32::try_from(front.len()).expect("front length"),
            ..MessageLengths::default()
        },
        front,
        ..Message::default()
    }
}

#[test]
fn backoffs_hold_requests_back_until_they_are_lifted() {
    let mut state = OSDSessionState::default();
    assert_eq!(state.submission(GROUP, &object()), Submission::Send);
    let Incoming::Acknowledge(acknowledgment) = state.receive(&backoff(BACKOFF_BLOCK), LIMITS)
    else {
        panic!("acknowledgment");
    };
    assert_eq!(acknowledgment.front[28], BACKOFF_ACK_BLOCK);
    assert_eq!(state.submission(GROUP, &object()), Submission::Wait);
    assert_eq!(
        state.submission(PG { seed: 8, ..GROUP }, &object()),
        Submission::Send
    );
    let other = HObject {
        object: b"free".to_vec(),
        ..object()
    };
    assert_eq!(state.submission(GROUP, &other), Submission::Send);
    assert!(matches!(
        state.receive(&backoff(BACKOFF_UNBLOCK), LIMITS),
        Incoming::Unblocked
    ));
    assert_eq!(state.submission(GROUP, &object()), Submission::Send);
}

#[test]
fn a_new_map_fails_the_session_as_stale() {
    let mut state = OSDSessionState::default();
    assert!(matches!(
        state.receive(&typed(MESSAGE_OSD_MAP, Vec::new()), LIMITS),
        Incoming::Failed { announce: true }
    ));
    assert_eq!(
        state.submission(GROUP, &object()),
        Submission::Refuse(Error::StaleMap)
    );
    assert_eq!(
        state.settle(Err(Error::NotConnected)),
        Err(Error::StaleMap)
    );
    assert_eq!(state.settle(Ok(Message::default())), Ok(Message::default()));
    assert!(matches!(
        state.fail_session(Error::NotConnected),
        Incoming::Failed { announce: false }
    ));
    assert_eq!(state.failure, Some(Error::StaleMap));
    assert_eq!(disconnection().opcode, EVENT_DISCONNECT);
}

#[test]
fn notifications_are_handed_on_and_malformed_messages_end_the_session() {
    let mut state = OSDSessionState::default();
    let mut encoder = Encoder::new(4096);
    encoder.u8(1);
    encoder.u8(EVENT_NOTIFY);
    encoder.u64(8);
    encoder.u64(9);
    encoder.u64(10);
    encoder.bytes(b"payload");
    encoder.i32(0);
    encoder.u64(11);
    let front = encoder.finish().expect("front");
    assert!(matches!(
        state.receive(&typed(MESSAGE_WATCH_NOTIFY, front), LIMITS),
        Incoming::Delivered(notification) if notification.data == b"payload"
    ));
    assert!(matches!(
        state.receive(&typed(1, Vec::new()), LIMITS),
        Incoming::Ignored
    ));
    assert!(matches!(
        state.receive(&typed(MESSAGE_WATCH_NOTIFY, Vec::new()), LIMITS),
        Incoming::Failed { announce: true }
    ));
    assert_eq!(state.failure, Some(Error::MalformedReply));

    let mut other = OSDSessionState::default();
    let mut broken = backoff(BACKOFF_BLOCK);
    broken.front.pop();
    assert!(matches!(
        other.receive(&broken, LIMITS),
        Incoming::Failed { announce: true }
    ));
    assert_eq!(
        other.settle(Err(Error::NotConnected)),
        Err(Error::NotConnected)
    );
}
