use rados::msgr::frame::{CrcCodec, Limits, Reader};
use rados::msgr::message::{Message, MessageLengths};

const LIMITS: Limits = Limits {
    max_segment_bytes: 4096,
    max_frame_bytes: 8192,
    max_addresses: 4,
    max_auth_bytes: 64,
};

fn message(payload: &[u8]) -> Message {
    Message {
        lengths: MessageLengths {
            front: u32::try_from(payload.len()).expect("test payload fits u32"),
            ..MessageLengths::default()
        },
        front: payload.to_vec(),
        ..Message::default()
    }
}

#[test]
fn synchronous_codec_still_accepts_supervisor_frames() {
    let codec = CrcCodec {
        with_data_crc: true,
    };
    let message = message(b"sync");
    let expected = message.clone().encode(LIMITS).expect("frame");
    let wire = codec.encode(&expected, LIMITS).expect("wire");
    let decoded = codec.read(&mut Reader::new(&wire), LIMITS).expect("decode");
    assert_eq!(Message::decode(&decoded, LIMITS), Ok(message));
}
