use rados::msgr::banner::{Banner, REVISION_1_FEATURES};
use rados::msgr::frame::{FrameError, Reader};

#[test]
fn encoding_reading_and_negotiation_match_go() {
    let expected =
        b"ceph v2\n\x10\x00\x01\x00\x00\x00\x00\x00\x00\x00\x01\x00\x00\x00\x00\x00\x00\x00";
    assert_eq!(Banner::client().encode(), expected);
    let peer = Banner::read(&mut Reader::new(expected), 64).expect("valid banner");
    assert_eq!(Banner::client().negotiate(peer), Ok(REVISION_1_FEATURES));
}

#[test]
fn accepts_extended_payload_and_rejects_invalid_input() {
    let mut extended = Banner::client().encode();
    extended[8..10].copy_from_slice(&17_u16.to_le_bytes());
    extended.push(0xaa);
    assert_eq!(
        Banner::read(&mut Reader::new(&extended), 17),
        Ok(Banner::client())
    );
    assert_eq!(
        Banner::read(&mut Reader::new(b"ceph v2\n\x11\x00"), 16),
        Err(FrameError::LimitExceeded)
    );
    assert_eq!(
        Banner::read(&mut Reader::new(b"ceph v1\n\x10\x00"), 16),
        Err(FrameError::Malformed)
    );
    assert_eq!(
        Banner::read(&mut Reader::new(b"ceph v2\n\x10\x00"), 16),
        Err(FrameError::Malformed)
    );
    assert_eq!(
        Banner::client().negotiate(Banner {
            supported: 0,
            required: 0,
        }),
        Err(FrameError::UnsupportedFeature)
    );
}

#[test]
fn a_banner_is_left_behind_as_far_as_it_was_read() {
    let wire = Banner::client().encode();
    let mut twice = wire.clone();
    twice.extend_from_slice(&wire);
    let mut reader = Reader::new(&twice);
    assert_eq!(Banner::read(&mut reader, 16), Ok(Banner::client()));
    assert_eq!(reader.remaining(), wire.len());
    assert_eq!(Banner::read(&mut reader, 15), Err(FrameError::LimitExceeded));
    assert_eq!(reader.remaining(), 16);

    let mut reader = Reader::new(&wire[..9]);
    assert_eq!(Banner::read(&mut reader, 16), Err(FrameError::Malformed));
    assert_eq!(reader.remaining(), 9);
    let mut reader = Reader::new(&wire[..25]);
    assert_eq!(Banner::read(&mut reader, 16), Err(FrameError::Malformed));
    assert_eq!(reader.remaining(), 15);
}
