use rados::msgr::control::{ClientIdent, Control, ServerIdent};
use rados::msgr::driver::{Driver, Turn};
use rados::msgr::frame::{CrcCodec, Frame, FrameError, Limits, Tag};
use rados::msgr::message::{Message, MessageHeader, MessageLengths};
use rados::msgr::session::{
    Config, Event, Input, Machine, ReconnectPolicy, SessionError, State,
};
use rados::msgr::supervisor::{Action, Identification, SendOutcome};
use rados::msgr::transport::{Codec, Event as TransportEvent};
use rados::protocol::address::{Endpoint4, EntityAddr, EntityAddrVec};

const LIMITS: Limits = Limits {
    max_segment_bytes: 4096,
    max_frame_bytes: 8192,
    max_addresses: 4,
    max_auth_bytes: 64,
};

fn address() -> EntityAddr {
    EntityAddr::ipv4_v2(Endpoint4 {
        a: 192,
        b: 0,
        c: 2,
        d: 1,
        port: 3300,
    })
}

fn driver() -> Driver {
    let config = Config {
        limits: LIMITS,
        max_queued_messages: 4,
        max_retained_bytes: 2048,
        max_in_flight_transactions: 2,
        max_reconnect_attempts: 2,
        max_handshake_transitions: 8,
        reconnect_policy: ReconnectPolicy::ReplayPending,
        client_ident: ClientIdent {
            addresses: EntityAddrVec(vec![address()]),
            target_address: address(),
            global_id: 0,
            global_sequence: 0,
            supported_features: 0x0f,
            required_features: 0x01,
            flags: 0,
            cookie: 0,
        },
        client_cookie: 11,
        server_cookie: 0,
        global_sequence: 0,
        connect_sequence: 0,
        replacement_cookies: vec![41, 42],
    };
    Driver::new(Machine::new(config).expect("machine"))
}

fn message(payload: &[u8]) -> Message {
    Message {
        lengths: MessageLengths {
            front: u32::try_from(payload.len()).expect("test payload fits u32"),
            ..MessageLengths::default()
        },
        front: payload.to_vec(),
        ..Message::default()
    }
}

fn known() -> Option<Identification> {
    Some(Identification {
        authenticated_global_id: Some(9),
        credential_identity: None,
    })
}

fn actions(driver: &mut Driver) -> Vec<Action> {
    let mut actions = Vec::new();
    loop {
        match driver.advance() {
            Turn::Act(action) => actions.push(action),
            Turn::Continue => {}
            Turn::Idle => return actions,
        }
    }
}

fn ready() -> Driver {
    let mut driver = driver();
    driver.begin(known(), false);
    assert_eq!(
        actions(&mut driver),
        [Action::Report(Event::StateChanged(State::Ready))]
    );
    driver
}

fn written(actions: &[Action]) -> (u64, Option<u64>, &Frame) {
    let [Action::Write {
        generation,
        request_id,
        frame,
    }] = actions
    else {
        panic!("one write: {actions:?}");
    };
    (*generation, *request_id, frame)
}

#[test]
fn a_connection_identifies_before_it_is_ready() {
    let mut driver = driver();
    driver.begin(known(), true);
    let first = actions(&mut driver);
    let Some(Action::Write {
        generation, frame, ..
    }) = first
        .iter()
        .find(|action| matches!(action, Action::Write { .. }))
    else {
        panic!("identification: {first:?}");
    };
    assert_eq!(frame.tag, Tag::ClientIdent);
    assert_ne!(driver.snapshot().state, State::Ready);
    let generation = *generation;
    driver.report(TransportEvent::WriteComplete {
        generation,
        request_id: None,
        result: Ok(()),
    });
    let ident = Control::ServerIdent(ServerIdent {
        addresses: EntityAddrVec(vec![address()]),
        global_id: 1,
        global_sequence: 1,
        supported_features: 0x0f,
        required_features: 0,
        flags: 0,
        cookie: 77,
    })
    .encode(LIMITS)
    .expect("frame");
    driver.report(TransportEvent::Frame {
        generation,
        frame: ident,
    });
    assert!(actions(&mut driver).contains(&Action::Report(Event::StateChanged(State::Ready))));
    assert_eq!(driver.snapshot().server_cookie, 77);
}

#[test]
fn a_request_is_admitted_written_and_answered_once() {
    let mut driver = ready();
    driver.submit(5, message(b"request"), false);
    let done = actions(&mut driver);
    assert_eq!(
        done[0],
        Action::Admitted {
            request_id: 5,
            transaction_id: 1
        }
    );
    let (generation, request_id, frame) = written(&done[1..]);
    assert_eq!(request_id, Some(5));
    assert_eq!(frame.tag, Tag::Message);
    driver.report(TransportEvent::WriteComplete {
        generation,
        request_id,
        result: Ok(()),
    });
    assert!(actions(&mut driver).is_empty());
    let reply = Message {
        header: MessageHeader {
            sequence: 1,
            transaction_id: 1,
            ..MessageHeader::default()
        },
        ..message(b"reply")
    };
    driver.report(TransportEvent::Frame {
        generation,
        frame: reply.clone().encode(LIMITS).expect("frame"),
    });
    let done = actions(&mut driver);
    assert!(done.contains(&Action::Finished {
        request_id: 5,
        unanswered: false,
        result: Ok(Some(reply)),
    }));
    driver.drive(Input::Cancel { request_id: 5 });
    assert!(actions(&mut driver).is_empty());
}

#[test]
fn cancelled_requests_say_whether_they_were_sent() {
    let mut driver = ready();
    driver.submit(1, message(b"sent"), false);
    let done = actions(&mut driver);
    let (generation, request_id, _) = written(&done[1..]);
    driver.submit(2, message(b"waiting"), false);
    actions(&mut driver);
    driver.drive(Input::Cancel { request_id: 2 });
    assert_eq!(
        actions(&mut driver),
        [Action::Finished {
            request_id: 2,
            unanswered: false,
            result: Err(SessionError::Cancelled),
        }]
    );
    driver.report(TransportEvent::WriteComplete {
        generation,
        request_id,
        result: Ok(()),
    });
    driver.drive(Input::Cancel { request_id: 1 });
    assert_eq!(
        actions(&mut driver),
        [Action::Finished {
            request_id: 1,
            unanswered: false,
            result: Err(SessionError::OutcomeUnknown),
        }]
    );
}

#[test]
fn stale_connections_and_reports_are_ignored() {
    let mut driver = ready();
    let generation = driver.snapshot().generation;
    assert_eq!(driver.connected(generation + 7, known()), None);
    driver.report(TransportEvent::Fault {
        generation: generation + 7,
        error: SessionError::Disconnected,
    });
    assert!(actions(&mut driver).is_empty());
    assert_eq!(driver.snapshot().state, State::Ready);
}

#[test]
fn a_fault_leads_to_another_connection() {
    let mut driver = ready();
    let generation = driver.snapshot().generation;
    driver.report(TransportEvent::Fault {
        generation,
        error: SessionError::Disconnected,
    });
    let done = actions(&mut driver);
    assert!(done.contains(&Action::Close));
    let Some(Action::Connect { generation: next }) = done
        .iter()
        .find(|action| matches!(action, Action::Connect { .. }))
    else {
        panic!("another connection: {done:?}");
    };
    let installed = driver.connected(*next, known()).expect("installed");
    assert_eq!(driver.supervisor.active, Some(installed));
    let done = actions(&mut driver);
    assert!(done.iter().any(|action| matches!(
        action,
        Action::Write { generation, .. } if *generation == installed
    )));
}

#[test]
fn refused_writes_and_deliveries_fail_the_connection() {
    let mut driver = ready();
    driver.submit(3, message(b"request"), false);
    let done = actions(&mut driver);
    let (generation, request_id, _) = written(&done[1..]);
    driver.refuse_write(generation, request_id);
    assert!(actions(&mut driver).contains(&Action::Close));

    let mut full = ready();
    let generation = full.snapshot().generation;
    full.report(TransportEvent::Frame {
        generation,
        frame: Message {
            header: MessageHeader {
                sequence: 1,
                ..MessageHeader::default()
            },
            ..message(b"news")
        }
        .encode(LIMITS)
        .expect("frame"),
    });
    assert!(actions(&mut full)
        .iter()
        .any(|action| matches!(action, Action::Deliver(_))));
    full.refuse_delivery();
    assert!(actions(&mut full).contains(&Action::Report(Event::TransportFault(
        SessionError::QueueSaturated
    ))));
}

#[test]
fn unreadable_frames_are_faults() {
    let mut driver = ready();
    let generation = driver.snapshot().generation;
    driver.report(TransportEvent::Frame {
        generation,
        frame: Frame {
            tag: Tag::CompressionRequest,
            segments: Vec::new(),
        },
    });
    let done = actions(&mut driver);
    assert!(
        done.iter().any(|action| matches!(
            action,
            Action::Report(Event::TransportFault(SessionError::Frame(_)))
        )),
        "{done:?}"
    );
}

#[test]
fn dropped_events_are_reported_before_the_next_one() {
    let mut driver = ready();
    let supervisor = &mut driver.supervisor;
    assert_eq!(supervisor.overdue_report(), None);
    supervisor.event_sent(SendOutcome::Full);
    supervisor.event_sent(SendOutcome::Full);
    assert_eq!(
        supervisor.overdue_report(),
        Some(Event::EventsDropped { count: 2 })
    );
    assert!(!supervisor.report_sent(SendOutcome::Full));
    assert!(!supervisor.report_sent(SendOutcome::Closed));
    assert!(supervisor.report_sent(SendOutcome::Sent));
    assert_eq!(supervisor.overdue_report(), None);
    assert_eq!(driver.snapshot().dropped_events, 3);
}

#[test]
fn codecs_split_into_two_halves() {
    let codec = CrcCodec {
        with_data_crc: true,
    };
    let (mut encoder, _) = Codec::Crc(codec).split();
    let frame = message(b"halves").encode(LIMITS).expect("frame");
    assert_eq!(
        encoder.encode(&frame, LIMITS),
        Ok(codec.encode(&frame, LIMITS).expect("wire"))
    );
    assert_eq!(
        encoder.encode(
            &frame,
            Limits {
                max_segment_bytes: 1,
                ..LIMITS
            }
        ),
        Err(SessionError::Frame(FrameError::LimitExceeded))
    );
}
