use rados::msgr::control::{
    ClientIdent, Control, ServerIdent, SessionReconnectOk, SessionReset, SessionRetry,
    SessionRetryGlobal, Timestamp, CONNECTION_FLAG_LOSSY,
};
use rados::msgr::frame::Limits;
use rados::msgr::message::{Message, MessageHeader, MessageLengths, MESSAGE_HEADER_SIZE};
use rados::msgr::session::{
    Config, Effect, Event, Input, Machine, ReconnectPolicy, RenewalState, SessionError, Snapshot,
    State,
};
use rados::protocol::address::{EntityAddr, EntityAddrVec};
use rados::wire::Decoder;

const TEST_LIMITS: Limits = Limits {
    max_segment_bytes: 4096,
    max_frame_bytes: 8192,
    max_addresses: 4,
    max_auth_bytes: 64,
};

fn test_address() -> EntityAddr {
    let encoded = [
        0x01, 0x01, 0x01, 0x1c, 0x00, 0x00, 0x00, 0x02, 0x00, 0x00, 0x00, 0x01, 0x02, 0x03,
        0x04, 0x10, 0x00, 0x00, 0x00, 0x02, 0x00, 0x0c, 0xe4, 0xc0, 0x00, 0x02, 0x01, 0x00,
        0x00, 0x00, 0x00, 0x00, 0x00, 0x00, 0x00,
    ];
    let mut decoder = Decoder::new(&encoded, encoded.len());
    EntityAddr::decode(&mut decoder).expect("valid test address")
}

fn config(policy: ReconnectPolicy) -> Config {
    let address = test_address();
    Config {
        limits: TEST_LIMITS,
        max_queued_messages: 8,
        max_retained_bytes: 2048,
        max_in_flight_transactions: 4,
        max_reconnect_attempts: 3,
        max_handshake_transitions: 8,
        reconnect_policy: policy,
        client_ident: ClientIdent {
            addresses: EntityAddrVec(vec![address.clone()]),
            target_address: address,
            global_id: 0,
            global_sequence: 3,
            supported_features: 0x0f,
            required_features: 0x01,
            flags: 0,
            cookie: 0,
        },
        client_cookie: 11,
        server_cookie: 22,
        global_sequence: 3,
        connect_sequence: 0,
        replacement_cookies: vec![41, 42, 43],
    }
}

fn message(payload: &[u8]) -> Message {
    Message {
        lengths: MessageLengths {
            front: u32::try_from(payload.len()).expect("test payload fits u32"),
            ..MessageLengths::default()
        },
        front: payload.to_vec(),
        ..Message::default()
    }
}

fn ready_machine(policy: ReconnectPolicy) -> Machine {
    let mut machine = Machine::new(config(policy)).expect("valid config");
    assert_eq!(
        machine.step(Input::Start { ready: true }),
        vec![Effect::Event(Event::StateChanged(State::Ready))]
    );
    machine
}

fn dispatch_message(machine: &mut Machine, request_id: u64) -> (u64, u64) {
    let effects = machine.step(Input::Dispatch);
    let Effect::SendMessage {
        generation,
        request_id: actual_request_id,
        message,
    } = &effects[0]
    else {
        panic!("expected message dispatch: {effects:?}");
    };
    assert_eq!(*actual_request_id, request_id);
    (*generation, message.header.transaction_id)
}

fn complete_write(machine: &mut Machine, generation: u64, request_id: u64) {
    assert!(
        machine
            .step(Input::WriteComplete {
                generation,
                request_id: Some(request_id),
                result: Ok(()),
            })
            .is_empty()
    );
}

fn dispatch_control(machine: &mut Machine) {
    let effects = machine.step(Input::Dispatch);
    assert!(
        matches!(&effects[..], [Effect::SendControl { .. }]),
        "{effects:?}"
    );
    let generation = machine.generation;
    assert!(
        machine
            .step(Input::WriteComplete {
                generation,
                request_id: None,
                result: Ok(()),
            })
            .is_empty()
    );
}

fn assert_accounting(machine: &Machine) {
    assert!(machine.pending.len() <= machine.config.max_queued_messages);
    assert!(machine.in_flight_count() <= machine.config.max_in_flight_transactions);
    assert_eq!(
        machine.retained_bytes,
        machine
            .pending
            .iter()
            .map(|pending| pending.bytes)
            .sum::<u64>()
    );
    assert!(machine.retained_bytes <= machine.config.max_retained_bytes);
    for pending in &machine.pending {
        assert_eq!(
            machine
                .by_transaction
                .get(&pending.message.header.transaction_id),
            Some(&pending.request_id)
        );
    }
    for request_id in &machine.replay {
        let pending = machine.pending(*request_id).expect("active replay request");
        assert_ne!(pending.sequence, 0);
    }
}

#[test]
fn ack_does_not_complete_and_inbound_sequence_rules_are_preserved() {
    let mut machine = ready_machine(ReconnectPolicy::ReplayPending);
    assert!(matches!(
        machine.step(Input::Admit {
            request_id: 7,
            message: message(b"request"),
            one_way: false,
        })[..],
        [Effect::Admitted {
            request_id: 7,
            transaction_id: 1
        }]
    ));
    let (generation, transaction_id) = dispatch_message(&mut machine, 7);
    complete_write(&mut machine, generation, 7);

    assert_eq!(
        machine.step(Input::Control {
            generation,
            control: Control::Ack(1),
        }),
        vec![Effect::Event(Event::Acknowledged { sequence: 1 })]
    );
    assert_eq!(machine.snapshot().in_flight, 1);
    assert_eq!(machine.snapshot().replay, 0);

    let cases = [
        (
            3,
            0,
            Some(Event::SequenceGap {
                sequence: 3,
                expected: 1,
            }),
        ),
        (2, 3, Some(Event::DuplicateDropped { sequence: 2 })),
        (4, 3, None),
    ];
    for (sequence, previous, expected_event) in cases {
        machine.last_inbound = previous;
        let effects = machine.step(Input::Message {
            generation,
            message: Message {
                header: MessageHeader {
                    sequence,
                    transaction_id: if sequence == 4 { transaction_id } else { 0 },
                    ack_sequence: 1,
                    ..MessageHeader::default()
                },
                ..Message::default()
            },
        });
        if let Some(event) = expected_event {
            assert!(effects.contains(&Effect::Event(event)), "{effects:?}");
        }
    }
    assert!(machine.pending(7).is_none());
    assert_accounting(&machine);
}

#[test]
fn admission_cancellation_one_way_and_bounds_are_deterministic() {
    let cases = [
        (1, false, SessionError::Cancelled),
        (2, true, SessionError::OutcomeUnknown),
    ];
    for (request_id, dispatch, expected) in cases {
        let mut machine = ready_machine(ReconnectPolicy::ReplayPending);
        machine.step(Input::Admit {
            request_id,
            message: message(b"owned"),
            one_way: false,
        });
        if dispatch {
            let (generation, _) = dispatch_message(&mut machine, request_id);
            complete_write(&mut machine, generation, request_id);
        }
        assert_eq!(
            machine.step(Input::Cancel { request_id }),
            vec![Effect::Failed {
                request_id,
                error: expected,
            }]
        );
        assert_accounting(&machine);
    }

    let mut bounded_config = config(ReconnectPolicy::ReplayPending);
    bounded_config.max_queued_messages = 1;
    bounded_config.max_retained_bytes =
        u64::try_from(MESSAGE_HEADER_SIZE + 3).expect("test size fits u64");
    let mut machine = Machine::new(bounded_config).expect("valid config");
    machine.step(Input::Start { ready: true });
    machine.step(Input::Admit {
        request_id: 1,
        message: message(b"one"),
        one_way: false,
    });
    assert_eq!(
        machine.step(Input::Admit {
            request_id: 2,
            message: message(b"two"),
            one_way: false,
        }),
        vec![Effect::Failed {
            request_id: 2,
            error: SessionError::QueueSaturated,
        }]
    );

    let mut one_way = ready_machine(ReconnectPolicy::ReplayPending);
    one_way.step(Input::Admit {
        request_id: 9,
        message: message(b"send"),
        one_way: true,
    });
    let (generation, _) = dispatch_message(&mut one_way, 9);
    assert_eq!(
        one_way.step(Input::WriteComplete {
            generation,
            request_id: Some(9),
            result: Ok(()),
        }),
        vec![Effect::Completed {
            request_id: 9,
            reply: None,
        }]
    );
    assert_accounting(&one_way);
}

#[test]
fn reply_cannot_complete_an_undispatched_request() {
    let mut bounded_config = config(ReconnectPolicy::ReplayPending);
    bounded_config.max_in_flight_transactions = 1;
    let mut machine = Machine::new(bounded_config).expect("valid config");
    machine.step(Input::Start { ready: true });
    for request_id in 1..=2 {
        machine.step(Input::Admit {
            request_id,
            message: message(b"request"),
            one_way: false,
        });
    }
    let (generation, _) = dispatch_message(&mut machine, 1);
    let queued_transaction = machine
        .pending(2)
        .expect("queued request")
        .message
        .header
        .transaction_id;
    let effects = machine.step(Input::Message {
        generation,
        message: Message {
            header: MessageHeader {
                sequence: 1,
                transaction_id: queued_transaction,
                ..MessageHeader::default()
            },
            ..Message::default()
        },
    });
    assert!(
        !effects
            .iter()
            .any(|effect| matches!(effect, Effect::Completed { request_id: 2, .. }))
    );
    assert!(machine.pending(2).is_some());
    assert!(
        effects
            .iter()
            .any(|effect| matches!(effect, Effect::Incoming(_)))
    );
}

#[test]
fn reconnect_policy_replays_or_fails_sent_requests() {
    for (policy, lossy, expect_replay) in [
        (ReconnectPolicy::ReplayPending, false, true),
        (ReconnectPolicy::FailPending, false, false),
        (ReconnectPolicy::ReplayPending, true, false),
        (ReconnectPolicy::FailPending, true, false),
    ] {
        let mut machine = ready_machine(policy);
        machine.server_flags = if lossy { CONNECTION_FLAG_LOSSY } else { 0 };
        machine.step(Input::Admit {
            request_id: 1,
            message: message(b"request"),
            one_way: false,
        });
        let (generation, transaction_id) = dispatch_message(&mut machine, 1);
        complete_write(&mut machine, generation, 1);
        let effects = machine.step(Input::Fault {
            generation,
            error: SessionError::Disconnected,
        });
        if expect_replay {
            assert_eq!(machine.snapshot().replay, 1);
            let connect_generation = machine.generation;
            machine.step(Input::Connected {
                generation: connect_generation,
                authenticated_global_id: None,
                credential_identity: None,
            });
            let transport_generation = machine.generation;
            machine.write_busy = false;
            machine.step(Input::Dispatch);
            machine.write_busy = false;
            let replay = machine.step(Input::Control {
                generation: transport_generation,
                control: Control::SessionReconnectOk(SessionReconnectOk {
                    message_sequence: 0,
                }),
            });
            assert!(replay.contains(&Effect::Event(Event::ReconnectOk { sequence: 0 })));
            let dispatched = machine.step(Input::Dispatch);
            assert!(matches!(
                &dispatched[..],
                [Effect::SendMessage { message, .. }]
                    if message.header.transaction_id == transaction_id
                        && message.header.sequence == 1
            ));
        } else {
            assert!(
                effects.contains(&Effect::Failed {
                    request_id: 1,
                    error: if lossy {
                        SessionError::OutcomeUnknown
                    } else {
                        SessionError::Disconnected
                    },
                }) || effects.contains(&Effect::Failed {
                    request_id: 1,
                    error: SessionError::OutcomeUnknown,
                })
            );
            assert_eq!(machine.snapshot().replay, 0);
        }
        assert_accounting(&machine);
    }
}

#[test]
fn retry_reset_and_reconnect_ok_follow_go_transitions() {
    let mut machine = ready_machine(ReconnectPolicy::ReplayPending);
    machine.step(Input::Admit {
        request_id: 1,
        message: message(b"pending"),
        one_way: false,
    });
    let (generation, transaction_id) = dispatch_message(&mut machine, 1);
    complete_write(&mut machine, generation, 1);
    machine.step(Input::Fault {
        generation,
        error: SessionError::Disconnected,
    });
    let connect_generation = machine.generation;
    machine.step(Input::Connected {
        generation: connect_generation,
        authenticated_global_id: None,
        credential_identity: None,
    });
    let generation = machine.generation;
    dispatch_control(&mut machine);

    machine.step(Input::Control {
        generation,
        control: Control::SessionRetry(SessionRetry {
            connect_sequence: 7,
        }),
    });
    assert_eq!(machine.snapshot().connect_sequence, 8);
    dispatch_control(&mut machine);
    machine.step(Input::Control {
        generation,
        control: Control::SessionRetryGlobal(SessionRetryGlobal {
            global_sequence: 10,
        }),
    });
    assert_eq!(machine.snapshot().global_sequence, 11);
    dispatch_control(&mut machine);
    machine.step(Input::Control {
        generation,
        control: Control::SessionReset(SessionReset { full: false }),
    });
    assert_eq!(machine.snapshot().state, State::Connecting);
    assert_eq!(machine.snapshot().client_cookie, 11);
    assert_eq!(machine.snapshot().last_inbound_sequence, 0);
    dispatch_control(&mut machine);
    machine.step(Input::Control {
        generation,
        control: Control::ServerIdent(ServerIdent {
            addresses: machine.config.client_ident.addresses.clone(),
            global_id: 4,
            global_sequence: 11,
            supported_features: 0x0f,
            required_features: 0,
            flags: 0,
            cookie: 303,
        }),
    });
    let replay = machine.step(Input::Dispatch);
    assert!(
        matches!(
            &replay[..],
            [Effect::SendMessage { message, .. }]
                if message.header.sequence == 1
                    && message.header.transaction_id == transaction_id
        ),
        "unexpected replay effects: {replay:?}"
    );

    let mut full = ready_machine(ReconnectPolicy::ReplayPending);
    full.step(Input::Admit {
        request_id: 5,
        message: message(b"pending"),
        one_way: false,
    });
    let (generation, _) = dispatch_message(&mut full, 5);
    complete_write(&mut full, generation, 5);
    full.state = State::Reconnecting;
    let effects = full.step(Input::Control {
        generation,
        control: Control::SessionReset(SessionReset { full: true }),
    });
    assert!(effects.contains(&Effect::Failed {
        request_id: 5,
        error: SessionError::OutcomeUnknown,
    }));
    let snapshot = full.snapshot();
    assert_eq!(snapshot.client_cookie, 41);
    assert_eq!(snapshot.next_outbound_sequence, 1);
    assert_eq!(snapshot.next_transaction_id, 1);
    assert_eq!(snapshot.retained_bytes, 0);
}

#[test]
fn malformed_states_stale_generations_and_limits_fail_closed() {
    for control in [
        Control::Ack(0),
        Control::Keepalive2(Timestamp {
            seconds: 1,
            nanoseconds: 0,
        }),
        Control::Keepalive2Ack(Timestamp {
            seconds: 1,
            nanoseconds: 0,
        }),
    ] {
        let mut machine = Machine::new(config(ReconnectPolicy::ReplayPending)).expect("config");
        machine.state = State::Connecting;
        machine.generation = 4;
        machine.config.max_reconnect_attempts = 0;
        machine.step(Input::Control {
            generation: 4,
            control,
        });
        assert_eq!(machine.state, State::Disconnected);
        assert!(machine.terminal_error.is_some());
        assert_eq!(machine.last_inbound, 0);
    }

    let mut stale = Machine::new(config(ReconnectPolicy::ReplayPending)).expect("config");
    let connect = stale.step(Input::Start { ready: false });
    assert_eq!(connect, vec![Effect::Connect { generation: 1 }]);
    assert_eq!(
        stale.step(Input::Connected {
            generation: 0,
            authenticated_global_id: None,
            credential_identity: None,
        }),
        vec![Effect::CloseTransport { generation: 0 }]
    );
    assert_eq!(stale.snapshot().state, State::Disconnected);

    let mut overflow = ready_machine(ReconnectPolicy::ReplayPending);
    overflow.next_outbound = Some(u64::MAX);
    overflow.step(Input::Admit {
        request_id: 1,
        message: message(b"last"),
        one_way: false,
    });
    dispatch_message(&mut overflow, 1);
    overflow.write_busy = false;
    overflow.step(Input::Admit {
        request_id: 2,
        message: message(b"wrapped"),
        one_way: false,
    });
    let effects = overflow.step(Input::Dispatch);
    assert!(effects.contains(&Effect::Terminal(SessionError::TransitionLimit)));

    let mut transaction = ready_machine(ReconnectPolicy::ReplayPending);
    transaction.next_transaction_id = Some(u64::MAX);
    transaction.step(Input::Admit {
        request_id: 1,
        message: message(b"last"),
        one_way: false,
    });
    let effects = transaction.step(Input::Admit {
        request_id: 2,
        message: message(b"wrapped"),
        one_way: false,
    });
    assert!(effects.contains(&Effect::Terminal(SessionError::TransitionLimit)));
    assert_eq!(transaction.next_transaction_id, None);
}

enum Case {
    Ack,
    Message,
    ReconnectOk,
}

#[test]
fn oversized_acknowledgments_fail_for_ack_message_and_reconnect_ok() {
    for case in [Case::Ack, Case::Message, Case::ReconnectOk] {
        let mut machine = ready_machine(ReconnectPolicy::ReplayPending);
        machine.config.max_reconnect_attempts = 0;
        machine.next_outbound = Some(2);
        let generation = machine.generation;
        match case {
            Case::Ack => {
                machine.step(Input::Control {
                    generation,
                    control: Control::Ack(2),
                });
            }
            Case::Message => {
                machine.step(Input::Message {
                    generation,
                    message: Message {
                        header: MessageHeader {
                            sequence: 1,
                            ack_sequence: 2,
                            ..MessageHeader::default()
                        },
                        ..Message::default()
                    },
                });
            }
            Case::ReconnectOk => {
                machine.state = State::Reconnecting;
                machine.step(Input::Control {
                    generation,
                    control: Control::SessionReconnectOk(SessionReconnectOk {
                        message_sequence: 2,
                    }),
                });
            }
        }
        assert_eq!(machine.state, State::Disconnected);
        assert!(machine.terminal_error.is_some());
    }
}

#[test]
fn reconnect_and_handshake_budgets_are_bounded() {
    let mut reconnect_config = config(ReconnectPolicy::ReplayPending);
    reconnect_config.max_reconnect_attempts = 2;
    let mut reconnect = Machine::new(reconnect_config).expect("valid config");
    assert_eq!(
        reconnect.step(Input::Start { ready: false }),
        vec![Effect::Connect { generation: 1 }]
    );
    assert!(
        reconnect
            .step(Input::ConnectFailed { generation: 1 })
            .contains(&Effect::Connect { generation: 2 })
    );
    let exhausted = reconnect.step(Input::ConnectFailed { generation: 2 });
    assert!(exhausted.contains(&Effect::Terminal(SessionError::ReconnectExhausted)));
    assert_eq!(reconnect.snapshot().reconnect_attempts, 2);

    let mut handshake = ready_machine(ReconnectPolicy::ReplayPending);
    handshake.state = State::Reconnecting;
    handshake.config.max_handshake_transitions = 1;
    let generation = handshake.generation;
    handshake.step(Input::Control {
        generation,
        control: Control::SessionRetry(SessionRetry {
            connect_sequence: 1,
        }),
    });
    dispatch_control(&mut handshake);
    let exhausted = handshake.step(Input::Control {
        generation,
        control: Control::SessionRetry(SessionRetry {
            connect_sequence: 2,
        }),
    });
    assert!(exhausted.contains(&Effect::Event(Event::TransportFault(
        SessionError::TransitionLimit,
    ))));

    let mut conflict = config(ReconnectPolicy::ReplayPending);
    conflict.global_sequence = 4;
    assert_eq!(Machine::new(conflict).unwrap_err(), SessionError::Malformed);
}

#[test]
fn wait_identity_change_incoming_overflow_and_stop_are_explicit() {
    let mut waiting = Machine::new(config(ReconnectPolicy::ReplayPending)).expect("config");
    waiting.step(Input::Start { ready: false });
    let connect_generation = waiting.generation;
    waiting.step(Input::Connected {
        generation: connect_generation,
        authenticated_global_id: Some(10),
        credential_identity: Some([1; 32]),
    });
    let generation = waiting.generation;
    let effects = waiting.step(Input::Control {
        generation,
        control: Control::Wait,
    });
    assert!(effects.contains(&Effect::Event(Event::StateChanged(State::Wait))));
    assert!(effects.contains(&Effect::Event(Event::Wait)));
    assert!(
        effects
            .iter()
            .any(|effect| matches!(effect, Effect::Connect { .. }))
    );

    let mut identity = ready_machine(ReconnectPolicy::ReplayPending);
    identity.authenticated_global_id = 10;
    identity.step(Input::Admit {
        request_id: 4,
        message: message(b"identity"),
        one_way: false,
    });
    let (generation, _) = dispatch_message(&mut identity, 4);
    complete_write(&mut identity, generation, 4);
    identity.fault(SessionError::Disconnected, &mut Vec::new());
    let connect_generation = identity.generation;
    let effects = identity.step(Input::Connected {
        generation: connect_generation,
        authenticated_global_id: Some(11),
        credential_identity: Some([2; 32]),
    });
    assert!(effects.contains(&Effect::Failed {
        request_id: 4,
        error: SessionError::OutcomeUnknown,
    }));
    assert_eq!(identity.snapshot().next_outbound_sequence, 1);
    assert_eq!(identity.snapshot().server_cookie, 0);

    let mut incoming_config = config(ReconnectPolicy::ReplayPending);
    incoming_config.max_queued_messages = 1;
    let mut incoming = Machine::new(incoming_config).expect("config");
    incoming.step(Input::Start { ready: true });
    let generation = incoming.generation;
    incoming.step(Input::Message {
        generation,
        message: Message {
            header: MessageHeader {
                sequence: 1,
                ..MessageHeader::default()
            },
            ..Message::default()
        },
    });
    let overflow = incoming.step(Input::Message {
        generation,
        message: Message {
            header: MessageHeader {
                sequence: 2,
                ..MessageHeader::default()
            },
            ..Message::default()
        },
    });
    assert!(overflow.contains(&Effect::Terminal(SessionError::QueueSaturated)));

    let mut stopped = ready_machine(ReconnectPolicy::ReplayPending);
    stopped.step(Input::Admit {
        request_id: 8,
        message: message(b"stop"),
        one_way: false,
    });
    let stopped_effects = stopped.step(Input::Stop);
    assert!(stopped_effects.contains(&Effect::Event(Event::StateChanged(State::Stopped))));
    assert!(stopped_effects.contains(&Effect::Failed {
        request_id: 8,
        error: SessionError::Closed,
    }));
    assert_eq!(stopped.snapshot().state, State::Stopped);
}

#[test]
fn generation_wraparound_fails_closed() {
    let mut machine = Machine::new(config(ReconnectPolicy::ReplayPending)).expect("config");
    machine.generation = u64::MAX;
    let effects = machine.step(Input::Start { ready: false });
    assert!(effects.contains(&Effect::Terminal(SessionError::TransitionLimit)));
    assert!(effects.contains(&Effect::CloseTransport {
        generation: u64::MAX,
    }));
    assert_eq!(machine.snapshot().state, State::Disconnected);
    assert!(machine.terminal_error.is_some());

    let mut connected = Machine::new(config(ReconnectPolicy::ReplayPending)).expect("config");
    connected.generation = u64::MAX - 1;
    assert_eq!(
        connected.step(Input::Start { ready: false }),
        vec![Effect::Connect {
            generation: u64::MAX,
        }]
    );
    let effects = connected.step(Input::Connected {
        generation: u64::MAX,
        authenticated_global_id: None,
        credential_identity: None,
    });
    assert!(effects.contains(&Effect::Terminal(SessionError::TransitionLimit)));
    assert!(
        !effects
            .iter()
            .any(|effect| matches!(effect, Effect::SendControl { .. }))
    );
}

#[test]
fn credential_renewal_drains_and_requires_a_fresh_credential() {
    for (credential, completes) in
        [(Some([2; 32]), true), (Some([1; 32]), false), (None, false)]
    {
        let mut machine = ready_machine(ReconnectPolicy::ReplayPending);
        let initial_generation = machine.generation;
        assert!(
            machine
                .step(Input::InitialIdentity {
                    generation: initial_generation,
                    authenticated_global_id: Some(7),
                    credential_identity: Some([1; 32]),
                })
                .is_empty()
        );
        assert_eq!(machine.authenticated_global_id, 7);
        machine.step(Input::Admit {
            request_id: 1,
            message: message(b"request"),
            one_way: false,
        });
        let (generation, transaction_id) = dispatch_message(&mut machine, 1);
        complete_write(&mut machine, generation, 1);
        assert_eq!(
            machine.step(Input::RenewalDue { generation }),
            vec![Effect::Event(Event::CredentialRenewal)]
        );
        assert!(machine.step(Input::Dispatch).is_empty());

        machine.step(Input::Message {
            generation,
            message: Message {
                header: MessageHeader {
                    sequence: 1,
                    transaction_id,
                    ..MessageHeader::default()
                },
                ..Message::default()
            },
        });
        dispatch_control(&mut machine);
        let reconnect = machine.step(Input::Dispatch);
        assert!(reconnect.contains(&Effect::Event(Event::TransportFault(
            SessionError::Renewal,
        ))));
        let connect_generation = machine.generation;
        machine.step(Input::Connected {
            generation: connect_generation,
            authenticated_global_id: None,
            credential_identity: credential,
        });
        let generation = machine.generation;
        dispatch_control(&mut machine);
        let effects = machine.step(Input::Control {
            generation,
            control: Control::SessionReconnectOk(SessionReconnectOk {
                message_sequence: 1,
            }),
        });
        assert_eq!(
            effects.contains(&Effect::Event(Event::CredentialRenewalCompleted)),
            completes
        );
        if completes {
            assert_eq!(machine.snapshot().state, State::Ready);
        } else {
            assert_eq!(machine.snapshot().state, State::Disconnected);
            assert!(effects.contains(&Effect::CloseTransport { generation }));
            assert!(effects.iter().any(|effect| matches!(
                effect,
                Effect::Connect {
                    generation: next_generation
                } if *next_generation > generation
            )));
        }
    }
}

#[test]
fn credential_renewal_exhausts_after_successful_unchanged_handshakes() {
    let mut machine = ready_machine(ReconnectPolicy::ReplayPending);
    machine.config.max_reconnect_attempts = 2;
    let initial_generation = machine.generation;
    machine.step(Input::InitialIdentity {
        generation: initial_generation,
        authenticated_global_id: Some(7),
        credential_identity: Some([1; 32]),
    });
    machine.step(Input::RenewalDue {
        generation: initial_generation,
    });
    machine.step(Input::Dispatch);
    let first_generation = machine.generation;
    machine.step(Input::Connected {
        generation: first_generation,
        authenticated_global_id: Some(7),
        credential_identity: Some([1; 32]),
    });
    let first_transport_generation = machine.generation;
    machine.step(Input::Control {
        generation: first_transport_generation,
        control: Control::SessionReconnectOk(SessionReconnectOk {
            message_sequence: 0,
        }),
    });
    let second_generation = machine.generation;
    machine.step(Input::Connected {
        generation: second_generation,
        authenticated_global_id: Some(7),
        credential_identity: None,
    });
    let second_transport_generation = machine.generation;
    let effects = machine.step(Input::Control {
        generation: second_transport_generation,
        control: Control::SessionReconnectOk(SessionReconnectOk {
            message_sequence: 0,
        }),
    });
    assert!(
        effects.contains(&Effect::Terminal(SessionError::ReconnectExhausted)),
        "unexpected renewal exhaustion effects: {effects:?}; snapshot: {:?}",
        machine.snapshot()
    );
    assert_eq!(machine.snapshot().state, State::Disconnected);
}

#[test]
fn renewal_candidate_survives_fault_and_overlapping_due_is_latched() {
    let mut machine = ready_machine(ReconnectPolicy::ReplayPending);
    let generation = machine.generation;
    machine.step(Input::InitialIdentity {
        generation,
        authenticated_global_id: Some(7),
        credential_identity: Some([1; 32]),
    });
    machine.step(Input::RenewalDue { generation });
    machine.step(Input::Dispatch);

    let first_connector_generation = machine.generation;
    machine.step(Input::Connected {
        generation: first_connector_generation,
        authenticated_global_id: Some(7),
        credential_identity: Some([2; 32]),
    });
    let first_transport_generation = machine.generation;
    machine.step(Input::Fault {
        generation: first_transport_generation,
        error: SessionError::Disconnected,
    });

    let second_connector_generation = machine.generation;
    machine.step(Input::Connected {
        generation: second_connector_generation,
        authenticated_global_id: Some(7),
        credential_identity: Some([2; 32]),
    });
    let second_transport_generation = machine.generation;
    assert!(
        machine
            .step(Input::RenewalDue {
                generation: second_transport_generation,
            })
            .is_empty()
    );
    let effects = machine.step(Input::Control {
        generation: second_transport_generation,
        control: Control::SessionReconnectOk(SessionReconnectOk {
            message_sequence: 0,
        }),
    });
    assert!(effects.contains(&Effect::Event(Event::CredentialRenewalCompleted)));
    assert!(effects.contains(&Effect::Event(Event::CredentialRenewal)));
    assert_eq!(machine.credential_identity, Some([2; 32]));
    assert_eq!(machine.renewal, RenewalState::Draining);
}

#[test]
fn admission_rejects_frames_that_exceed_wire_limits() {
    let mut machine = ready_machine(ReconnectPolicy::ReplayPending);
    let message = Message {
        lengths: MessageLengths {
            front: 4_096,
            middle: 4_055,
            data: 0,
        },
        front: vec![0; 4_096],
        middle: vec![0; 4_055],
        ..Message::default()
    };
    assert_eq!(
        machine.step(Input::Admit {
            request_id: 1,
            message,
            one_way: false,
        }),
        vec![Effect::Failed {
            request_id: 1,
            error: SessionError::Malformed,
        }]
    );
}

#[test]
fn retained_go_fuzz_seeds_preserve_accounting_and_are_reproducible() {
    let seeds: [&[u8]; 5] = [
        &[0x00, 0x08, 0x02, 0x03, 0x04, 0x05, 0x06, 0x07],
        &[0x00, 0x01],
        &[0x00, 0x08, 0x16],
        &[0x03, 0x05, 0x07],
        &[],
    ];
    for seed in seeds {
        let first = run_script(seed);
        let second = run_script(seed);
        assert_eq!(first, second);
    }
}

fn run_script(script: &[u8]) -> (Vec<Vec<Effect>>, Snapshot) {
    let mut machine = ready_machine(ReconnectPolicy::ReplayPending);
    machine.config.max_reconnect_attempts = 0;
    let generation = machine.generation;
    let mut transcript = Vec::new();
    for instruction in script {
        let operand = u64::from(instruction >> 4);
        let effects = match instruction & 0x0f {
            0 => machine.step(Input::Admit {
                request_id: operand + u64::try_from(machine.pending.len()).expect("small test"),
                message: message(&[
                    u8::try_from(operand).expect("nibble fits u8"),
                    u8::try_from(machine.pending.len()).expect("bounded pending count"),
                ]),
                one_way: false,
            }),
            1 => match machine.pending.first().map(|pending| pending.request_id) {
                Some(request_id) => machine.step(Input::Cancel { request_id }),
                None => Vec::new(),
            },
            2 => machine.step(Input::Control {
                generation,
                control: Control::Ack(operand),
            }),
            3 => machine.step(Input::Control {
                generation,
                control: Control::Keepalive2(Timestamp {
                    seconds: u32::try_from(operand).expect("nibble fits u32"),
                    nanoseconds: 0,
                }),
            }),
            4 => {
                let transaction_id = machine
                    .pending
                    .first()
                    .map_or(0, |pending| pending.message.header.transaction_id);
                machine.step(Input::Message {
                    generation,
                    message: Message {
                        header: MessageHeader {
                            sequence: operand + 1,
                            transaction_id,
                            ..MessageHeader::default()
                        },
                        ..Message::default()
                    },
                })
            }
            5 => machine.step(Input::Message {
                generation,
                message: Message {
                    header: MessageHeader {
                        sequence: machine.last_inbound,
                        ..MessageHeader::default()
                    },
                    ..Message::default()
                },
            }),
            6 => {
                machine.state = State::Reconnecting;
                machine.step(Input::Control {
                    generation,
                    control: Control::SessionReset(SessionReset {
                        full: operand & 1 != 0,
                    }),
                })
            }
            7 => machine.step(Input::Fault {
                generation,
                error: SessionError::Malformed,
            }),
            8 => machine.step(Input::Dispatch),
            _ => Vec::new(),
        };
        transcript.push(effects);
        assert_accounting(&machine);
        assert_ne!(machine.state, State::Stopped);
    }
    (transcript, machine.snapshot())
}

#[test]
fn a_stopped_session_fails_requests_once_and_refuses_more() {
    let mut machine = ready_machine(ReconnectPolicy::ReplayPending);
    for request_id in [1, 2] {
        machine.step(Input::Admit {
            request_id,
            message: message(b"data"),
            one_way: false,
        });
    }
    dispatch_message(&mut machine, 1);
    assert!(machine.step(Input::Dispatch).is_empty());
    let generation = machine.generation;
    assert_eq!(
        machine.step(Input::Stop),
        vec![
            Effect::Event(Event::StateChanged(State::Stopped)),
            Effect::Failed {
                request_id: 1,
                error: SessionError::OutcomeUnknown,
            },
            Effect::Failed {
                request_id: 2,
                error: SessionError::Closed,
            },
            Effect::CloseTransport { generation },
        ]
    );
    let snapshot = machine.snapshot();
    assert_eq!((snapshot.queued, snapshot.in_flight), (0, 0));
    assert_eq!((snapshot.replay, snapshot.retained_bytes), (0, 0));
    assert!(machine.step(Input::Stop).is_empty());
    assert_eq!(
        machine.step(Input::Admit {
            request_id: 3,
            message: message(b"late"),
            one_way: false,
        }),
        vec![Effect::Failed {
            request_id: 3,
            error: SessionError::Closed,
        }]
    );
}

#[test]
fn a_write_ends_on_its_own_connection() {
    let mut machine = ready_machine(ReconnectPolicy::ReplayPending);
    for request_id in [1, 2] {
        machine.step(Input::Admit {
            request_id,
            message: message(b"data"),
            one_way: false,
        });
    }
    let (generation, _) = dispatch_message(&mut machine, 1);
    assert!(machine.write_busy);
    let stale = generation.wrapping_sub(1);
    let late = machine.step(Input::Connected {
        generation: stale,
        authenticated_global_id: None,
        credential_identity: None,
    });
    assert_eq!(late, vec![Effect::CloseTransport { generation: stale }]);
    complete_write(&mut machine, stale, 1);
    assert!(machine.write_busy);
    assert!(machine.step(Input::Dispatch).is_empty());

    let effects = machine.step(Input::Fault {
        generation,
        error: SessionError::Disconnected,
    });
    assert!(effects.contains(&Effect::CloseTransport { generation }));
    assert!(!machine.write_busy);
    assert_eq!(machine.state, State::Disconnected);
    assert!(machine.step(Input::Dispatch).is_empty());
}
