use rados::maps::{Fsid, Limits as MapLimits, MapError};
use rados::mon::client::{
    list_pools, refresh_osdmap, wait_ready, Delivery, MessageAction, MonitorConfig, MonitorError,
    MonitorState, Owner, Reaction, SessionEvent, SessionOutcome, SubscriptionKind, UpdateStep,
};
use rados::mon::messages::{
    front_message, MapIdentity, MessageError, MessageLimits, Subscription, MESSAGE_MGR_MAP,
    MESSAGE_MON_MAP, MESSAGE_MON_SUBSCRIBE, MESSAGE_MON_SUBSCRIBE_ACK, MESSAGE_OSD_MAP,
    SUBSCRIBE_ONCE,
};
use rados::mon::seeds::{entity_address, Endpoint, SocketAddress};
use rados::msgr::message::Message;
use rados::msgr::session::SessionError;
use rados::types::Span;
use rados::wire::{Decoder, Encoder, WireError};

const IDLE: Reaction = Reaction {
    report: None,
    subscribe: None,
    restart_timer: false,
    close: false,
    leave: None,
};

fn address(octet: u8) -> SocketAddress {
    SocketAddress::V4 {
        bits: 0xc000_0200 | u32::from(octet),
        port: 3300,
    }
}

fn endpoint(octet: u8) -> Endpoint {
    Endpoint {
        address: address(octet),
        entity_address: entity_address(address(octet)).expect("test endpoint"),
        priority: 0,
        weight: 0,
    }
}

fn config() -> MonitorConfig {
    MonitorConfig {
        seeds: vec![endpoint(1), endpoint(2)],
        expected_fsid: None,
        hostname: "test-host".to_owned(),
        map_limits: MapLimits {
            max_bytes: 32 << 20,
            max_monitors: 64,
            max_addresses: 64,
            max_locations: 64,
            max_pools: 4096,
            max_osds: 65_536,
            max_pg_mappings: 1 << 20,
            max_collection_entries: 1 << 20,
        },
        message_limits: MessageLimits {
            max_bytes: 32 << 20,
            max_maps: 16,
        },
        max_seed_attempts: 2,
        history_limit: 2,
        operation_timeout: Span {
            seconds: 1,
            nanoseconds: 0,
        },
        retry_delay: Span {
            seconds: 0,
            nanoseconds: 0,
        },
        subscribe_period: Span {
            seconds: 60,
            nanoseconds: 0,
        },
        error_capacity: 8,
    }
}

fn owner() -> Owner {
    Owner::new(config()).expect("owner")
}

fn ack(fsid: Fsid) -> Message {
    let mut encoder = Encoder::new(64);
    encoder.u32(30);
    encoder.raw(&fsid.0);
    front_message(
        MESSAGE_MON_SUBSCRIBE_ACK,
        1,
        1,
        encoder.finish().expect("subscribe ack"),
    )
    .expect("message")
}

fn identity(expected_epoch: u32, fsid: Fsid, epoch: u32) -> MapIdentity {
    MapIdentity {
        expected_epoch,
        fsid,
        epoch,
        fault: None,
    }
}

fn take_batch(
    owner: &mut Owner,
    fsid: Fsid,
    incrementals: &[u32],
    full_maps: &[u32],
    newest: u32,
) -> Result<MessageAction, MonitorError> {
    let heads = |epochs: &[u32]| -> Vec<MapIdentity> {
        epochs
            .iter()
            .map(|epoch| identity(*epoch, fsid, *epoch))
            .collect()
    };
    let mut update =
        owner.begin_osdmaps(fsid, &heads(incrementals), &heads(full_maps), 0, newest)?;
    loop {
        match update.step() {
            UpdateStep::Apply { epoch } => update.applied(epoch),
            UpdateStep::Gap => return Err(MonitorError::MapGap),
            UpdateStep::Commit => return Ok(owner.commit_osdmap(&update)),
        }
    }
}

fn subscriptions(message: &Message) -> Vec<(String, Subscription)> {
    assert_eq!(message.header.message_type, MESSAGE_MON_SUBSCRIBE);
    let mut decoder = Decoder::new(&message.front, message.front.len());
    let count = decoder.u32();
    let entries = (0..count)
        .map(|_| {
            (
                decoder.string(),
                Subscription {
                    start: decoder.u64(),
                    flags: decoder.u8(),
                },
            )
        })
        .collect();
    assert_eq!(decoder.string(), "test-host");
    decoder.finish().expect("subscription");
    entries
}

#[test]
fn configurations_without_bounds_are_refused() {
    assert_eq!(config().validate(), Ok(()));
    let mut no_seeds = config();
    no_seeds.seeds.clear();
    assert_eq!(no_seeds.validate(), Err(MonitorError::InvalidConfig));
    let mut no_time = config();
    no_time.operation_timeout = Span {
        seconds: 0,
        nanoseconds: 0,
    };
    assert_eq!(no_time.validate(), Err(MonitorError::InvalidConfig));
    let mut no_maps = config();
    no_maps.map_limits = MapLimits::default();
    assert!(matches!(
        Owner::new(no_maps),
        Err(MonitorError::InvalidConfig)
    ));
}

#[test]
fn seeds_are_tried_in_turn_up_to_the_limit() {
    let mut owner = owner();
    assert_eq!(owner.next_attempt(0, false), Ok(0));
    assert_eq!(owner.next_attempt(1, true), Err(MonitorError::Closed));
    assert_eq!(owner.next_attempt(1, false), Ok(1));
    assert_eq!(
        owner.next_attempt(2, false),
        Err(MonitorError::AttemptsExhausted)
    );
    assert_eq!(owner.next_attempt(0, false), Ok(0));
}

#[test]
fn foreign_clusters_lead_to_the_next_seed_and_then_to_the_end() {
    let mut owner = Owner::new(MonitorConfig {
        expected_fsid: Some(Fsid([7; 16])),
        ..config()
    })
    .expect("owner");
    assert_eq!(owner.published.connected_fsid(), Some(Fsid([7; 16])));
    assert_eq!(
        owner.handle_message(&ack(Fsid([8; 16]))).map(|_| ()),
        Err(MonitorError::ForeignCluster)
    );
    assert_eq!(
        owner.react(SessionEvent::Handled(Err(MonitorError::ForeignCluster))),
        Reaction {
            report: Some(MonitorError::ForeignCluster),
            close: true,
            leave: Some(SessionOutcome::ForeignCluster),
            ..IDLE
        }
    );
    assert_eq!(
        owner.leave_session(address(1), SessionOutcome::ForeignCluster),
        None
    );
    assert_eq!(
        owner.leave_session(address(1), SessionOutcome::ForeignCluster),
        None
    );
    assert_eq!(
        owner.leave_session(address(2), SessionOutcome::ForeignCluster),
        Some(MonitorError::ForeignCluster)
    );
    assert_eq!(
        owner.leave_session(address(2), SessionOutcome::Failover),
        None
    );
    assert_eq!(
        owner.leave_session(address(2), SessionOutcome::Stop),
        Some(MonitorError::Closed)
    );
}

#[test]
fn subscriptions_start_after_the_maps_at_hand() {
    let mut owner = owner();
    owner.open_session(42);
    let initial = owner.subscribe(SubscriptionKind::AllMaps).expect("message");
    let starts: Vec<(String, u64)> = subscriptions(&initial)
        .into_iter()
        .map(|(name, value)| (name, value.start))
        .collect();
    assert_eq!(
        starts,
        [
            ("mgrmap".to_owned(), 0),
            ("monmap".to_owned(), 0),
            ("osdmap".to_owned(), 0)
        ]
    );
    assert_eq!(wait_ready(&owner.state, None), None);
    let fsid = Fsid([3; 16]);
    assert_eq!(
        owner.take_monmap(fsid, 5),
        Ok(MessageAction::Nothing)
    );
    assert_eq!(
        take_batch(&mut owner, fsid, &[], &[9], 9),
        Ok(MessageAction::Nothing)
    );
    owner.take_mgrmap(2);
    assert_eq!(owner.state.global_id(), Some(42));
    assert_eq!(wait_ready(&owner.published, None), Some(Ok(())));
    let later = owner.subscribe(SubscriptionKind::AllMaps).expect("message");
    let starts: Vec<u64> = subscriptions(&later)
        .into_iter()
        .map(|(_, value)| value.start)
        .collect();
    assert_eq!(starts, [3, 6, 10]);

    owner.config.message_limits.max_bytes = 8;
    assert_eq!(
        owner.subscribe(SubscriptionKind::AllMaps),
        Err(MonitorError::Message(MessageError::Wire(
            WireError::LimitExceeded
        )))
    );
}

#[test]
fn incremental_maps_follow_a_full_one_and_history_is_bounded() {
    let mut owner = owner();
    let fsid = Fsid([4; 16]);
    assert_eq!(
        take_batch(&mut owner, fsid, &[6, 7], &[5], 7),
        Ok(MessageAction::Nothing)
    );
    assert_eq!(owner.state.osdmap, Some(7));
    for _ in 0..4 {
        owner.handle_message(&ack(fsid)).expect("ack");
    }
    assert_eq!(owner.history.len(), 2);
    assert_eq!(owner.published.generation(), owner.state.generation());
    assert_eq!(
        owner.history[0].generation() + 1,
        owner.published.generation()
    );
}

#[test]
fn older_maps_do_not_replace_newer_ones() {
    let mut owner = owner();
    let fsid = Fsid([4; 16]);
    take_batch(&mut owner, fsid, &[], &[9], 9).expect("map");
    owner.take_monmap(fsid, 3).expect("map");
    let generation = owner.state.generation();
    take_batch(&mut owner, fsid, &[8], &[7], 9).expect("map");
    owner.take_monmap(fsid, 3).expect("map");
    assert_eq!(owner.state.osdmap, Some(9));
    assert_eq!(owner.state.generation(), generation);
    assert_eq!(
        take_batch(&mut owner, fsid, &[11], &[], 0),
        Err(MonitorError::MapGap)
    );
    assert_eq!(
        take_batch(&mut owner, fsid, &[], &[], 10),
        Err(MonitorError::MapGap)
    );
}

#[test]
fn a_gap_asks_for_a_full_map_and_the_full_map_ends_it() {
    let mut owner = owner();
    let fsid = Fsid([4; 16]);
    assert_eq!(
        take_batch(&mut owner, fsid, &[], &[], 8),
        Err(MonitorError::MapGap)
    );
    assert_eq!(
        owner.react(SessionEvent::Handled(Err(MonitorError::MapGap))),
        Reaction {
            report: Some(MonitorError::MapGap),
            subscribe: Some(SubscriptionKind::FullOsdMap),
            ..IDLE
        }
    );
    let request = owner
        .subscribe(SubscriptionKind::FullOsdMap)
        .expect("message");
    assert_eq!(
        subscriptions(&request),
        [(
            "osdmap".to_owned(),
            Subscription {
                start: 0,
                flags: SUBSCRIBE_ONCE
            }
        )]
    );
    assert_eq!(
        owner.react(SessionEvent::Handled(Err(MonitorError::MapGap))),
        Reaction {
            report: Some(MonitorError::MapGap),
            ..IDLE
        }
    );
    assert_eq!(
        take_batch(&mut owner, fsid, &[], &[], 0),
        Ok(MessageAction::Nothing)
    );
    assert_eq!(
        take_batch(&mut owner, fsid, &[], &[8], 8),
        Ok(MessageAction::Resubscribe)
    );
    assert_eq!(owner.refresh_epoch, None);
    assert_eq!(
        owner.react(SessionEvent::Handled(Ok(MessageAction::Resubscribe))),
        Reaction {
            subscribe: Some(SubscriptionKind::AllMaps),
            ..IDLE
        }
    );
}

#[test]
fn malformed_batches_do_not_settle_the_identity() {
    let mut owner = owner();
    let foreign = Fsid([0xff; 16]);
    let broken = MapIdentity {
        fault: Some(MapError::Malformed),
        ..identity(1, foreign, 1)
    };
    assert!(matches!(
        owner.begin_osdmaps(foreign, &vec![], &vec![broken], 0, 1),
        Err(MonitorError::Message(MessageError::BadMap(
            MapError::Malformed
        )))
    ));
    assert!(matches!(
        owner.begin_osdmaps(foreign, &vec![identity(2, foreign, 3)], &vec![], 0, 1),
        Err(MonitorError::Message(MessageError::BadMap(
            MapError::InvalidSequence
        )))
    ));
    assert!(matches!(
        owner.begin_osdmaps(foreign, &vec![identity(2, Fsid([1; 16]), 2)], &vec![], 0, 1),
        Err(MonitorError::Message(MessageError::BadMap(
            MapError::FsidMismatch
        )))
    ));
    assert_eq!(owner.pinned_fsid, None);
    owner.handle_message(&ack(Fsid([7; 16]))).expect("identity");
    assert_eq!(owner.pinned_fsid, Some(Fsid([7; 16])));
    assert!(matches!(
        owner.begin_osdmaps(foreign, &vec![], &vec![], 0, 0),
        Err(MonitorError::ForeignCluster)
    ));
}

#[test]
fn messages_hand_out_their_maps() {
    let mut owner = owner();
    let manager = front_message(MESSAGE_MGR_MAP, 1, 1, vec![1, 2, 3]).expect("message");
    assert!(matches!(
        owner.handle_message(&manager),
        Err(MonitorError::IdentityUnavailable)
    ));
    owner.handle_message(&ack(Fsid([7; 16]))).expect("identity");
    assert!(matches!(
        owner.handle_message(&manager),
        Ok(Delivery::MgrMap(bytes)) if bytes == [1, 2, 3]
    ));
    let monitors = front_message(MESSAGE_MON_MAP, 1, 1, vec![2, 0, 0, 0, 8, 9]).expect("message");
    assert!(matches!(
        owner.handle_message(&monitors),
        Ok(Delivery::MonMap(bytes)) if bytes == [8, 9]
    ));
    let short = front_message(MESSAGE_MON_MAP, 1, 1, vec![3, 0, 0, 0, 8, 9]).expect("message");
    assert!(matches!(
        owner.handle_message(&short),
        Err(MonitorError::Message(MessageError::Wire(
            WireError::Malformed
        )))
    ));
    let other = front_message(1, 1, 1, vec![]).expect("message");
    assert!(matches!(
        owner.handle_message(&other),
        Ok(Delivery::Handled)
    ));
    let daemons = front_message(MESSAGE_OSD_MAP, 2, 1, vec![0; 40]).expect("message");
    assert!(matches!(
        owner.handle_message(&daemons),
        Err(MonitorError::Message(MessageError::UnsupportedVersion))
    ));
}

#[test]
fn sessions_end_and_go_on_as_their_events_say() {
    let mut owner = owner();
    assert_eq!(
        owner.react(SessionEvent::Stop),
        Reaction {
            close: true,
            leave: Some(SessionOutcome::Stop),
            ..IDLE
        }
    );
    assert_eq!(
        owner.react(SessionEvent::Ended),
        Reaction {
            leave: Some(SessionOutcome::Failover),
            ..IDLE
        }
    );
    assert_eq!(
        owner.react(SessionEvent::Failure(SessionError::Disconnected)),
        Reaction {
            report: Some(MonitorError::Session(SessionError::Disconnected)),
            leave: Some(SessionOutcome::Failover),
            ..IDLE
        }
    );
    assert_eq!(
        owner.react(SessionEvent::SubscribeTimer),
        Reaction {
            subscribe: Some(SubscriptionKind::AllMaps),
            restart_timer: true,
            ..IDLE
        }
    );
    assert_eq!(owner.react(SessionEvent::Refresh(None)), IDLE);
    assert_eq!(
        owner.first_subscription(Ok(())),
        IDLE
    );
    owner.react(SessionEvent::Refresh(Some(9)));
    owner.react(SessionEvent::Refresh(Some(4)));
    assert_eq!(owner.refresh_epoch, Some(9));
    assert_eq!(
        owner.first_subscription(Ok(())),
        Reaction {
            subscribe: Some(SubscriptionKind::FullOsdMap),
            ..IDLE
        }
    );
    assert_eq!(
        owner.first_subscription(Err(MonitorError::ConnectTimeout)),
        Reaction {
            report: Some(MonitorError::ConnectTimeout),
            close: true,
            leave: Some(SessionOutcome::Failover),
            ..IDLE
        }
    );
    assert_eq!(
        owner.react(SessionEvent::Handled(Err(MonitorError::IdentityUnavailable))),
        Reaction {
            report: Some(MonitorError::IdentityUnavailable),
            close: true,
            leave: Some(SessionOutcome::Failover),
            ..IDLE
        }
    );
}

#[test]
fn waits_end_with_a_map_or_with_the_client() {
    let mut state = MonitorState::default();
    assert!(!state.ready());
    assert_eq!(refresh_osdmap(&state, 4, None), None);
    state.osdmap = Some(4);
    assert_eq!(refresh_osdmap(&state, 4, None), None);
    assert_eq!(
        refresh_osdmap(&state, 4, Some(MonitorError::Closed)),
        Some(Err(MonitorError::Closed))
    );
    state.osdmap = Some(5);
    assert_eq!(refresh_osdmap(&state, 4, None), Some(Ok(())));
    assert_eq!(
        wait_ready(&state, Some(MonitorError::AttemptsExhausted)),
        Some(Err(MonitorError::AttemptsExhausted))
    );
}

#[test]
fn pools_are_listed_by_name_and_number() {
    assert!(list_pools(None).is_empty());
    assert_eq!(
        list_pools(Some(vec![
            ("rbd".to_owned(), 2),
            ("metadata".to_owned(), 9),
            ("rbd".to_owned(), 1),
            ("\u{e9}".to_owned(), 0),
            ("Z".to_owned(), 3),
        ])),
        [
            ("Z".to_owned(), 3),
            ("metadata".to_owned(), 9),
            ("rbd".to_owned(), 1),
            ("rbd".to_owned(), 2),
            ("\u{e9}".to_owned(), 0),
        ]
    );
}
