use rados::msgr::frame::Limits as FrameLimits;
use rados::msgr::session::{Machine, ReconnectPolicy};
use rados::osd::client::Error;
use rados::osd::sessions::{session_config, Choice, Chosen, SessionPool, MAX_RETIRED_SESSIONS};
use rados::protocol::address::{Endpoint4, EntityAddr, EntityAddrVec};

fn endpoint(port: u16) -> Endpoint4 {
    Endpoint4 {
        a: 192,
        b: 0,
        c: 2,
        d: 1,
        port,
    }
}

fn addresses(port: u16) -> EntityAddrVec {
    EntityAddrVec(vec![EntityAddr::ipv4_v2(endpoint(port))])
}

fn open(pool: &mut SessionPool, osd: i32, port: u16) -> u64 {
    let chosen = pool.session(false, osd, &addresses(port), Some(1), false, &Vec::new());
    assert_eq!(
        chosen.choice,
        Ok(Choice::Open {
            index: 0,
            endpoint: endpoint(port),
            authority: 1
        })
    );
    pool.opened(osd, endpoint(port), 1)
}

#[test]
fn sessions_are_reused_while_they_fit() {
    let mut pool = SessionPool::default();
    assert!(!pool.has_sessions());
    let first = open(&mut pool, 3, 6800);
    assert_eq!(pool.current(3), Some(first));
    assert_eq!(pool.current(4), None);
    assert!(pool.has_sessions());
    let none: Vec<u64> = Vec::new();
    let again = pool.session(false, 3, &addresses(6800), Some(1), false, &none);
    assert_eq!(
        again,
        Chosen {
            close: None,
            choice: Ok(Choice::Reuse(first))
        }
    );
    let moved = pool.session(false, 3, &addresses(6801), Some(1), false, &none);
    assert_eq!(moved.close, Some(first));
    assert_eq!(
        moved.choice,
        Ok(Choice::Open {
            index: 0,
            endpoint: endpoint(6801),
            authority: 1
        })
    );
    assert_eq!(pool.current(3), None);
    assert_eq!(pool.retired, vec![first]);
    let second = pool.opened(3, endpoint(6801), 1);
    assert_ne!(second, first);
    let renewed = pool.session(false, 3, &addresses(6801), Some(2), false, &none);
    assert_eq!(renewed.close, Some(second));
    let third = pool.opened(3, endpoint(6801), 2);
    let ended = pool.session(false, 3, &addresses(6801), Some(2), true, &vec![first]);
    assert_eq!(ended.close, Some(third));
    assert_eq!(pool.retired, vec![second, third]);
}

#[test]
fn sessions_need_an_open_client_an_address_and_an_authority() {
    let mut pool = SessionPool::default();
    let none: Vec<u64> = Vec::new();
    let closed = pool.session(true, 3, &addresses(6800), Some(1), false, &none);
    assert_eq!(closed.choice, Err(Error::Closed));
    let nowhere = pool.session(false, 3, &addresses(0), None, false, &none);
    assert_eq!(nowhere.choice, Err(Error::NoPrimary));
    let unknown = pool.session(false, 3, &addresses(6800), None, false, &none);
    assert_eq!(unknown.choice, Err(Error::NotConnected));
    assert!(!pool.has_sessions());
}

#[test]
fn failed_sessions_are_retired_once() {
    let mut pool = SessionPool::default();
    let none: Vec<u64> = Vec::new();
    let first = open(&mut pool, 3, 6800);
    assert!(pool.invalidate(3, first, &none));
    assert_eq!(pool.current(3), None);
    assert!(!pool.invalidate(3, first, &none));
    let second = open(&mut pool, 3, 6800);
    assert!(!pool.invalidate(3, first, &none));
    assert_eq!(pool.current(3), Some(second));
    assert_eq!(pool.retired, vec![first]);
}

#[test]
fn few_sessions_may_be_ending() {
    let mut pool = SessionPool::default();
    let none: Vec<u64> = Vec::new();
    let mut ending = Vec::new();
    for osd in 0..MAX_RETIRED_SESSIONS as i32 {
        let session = open(&mut pool, osd, 6800);
        assert!(pool.invalidate(osd, session, &none));
        ending.push(session);
    }
    assert_eq!(pool.retired, ending);
    let last = open(&mut pool, 100, 6800);
    assert!(pool.invalidate(100, last, &none));
    assert_eq!(pool.current(100), Some(last));
    let refused = pool.session(false, 100, &addresses(6801), Some(1), false, &none);
    assert_eq!(
        refused,
        Chosen {
            close: Some(last),
            choice: Err(Error::QueueSaturated)
        }
    );
    let finished = vec![ending[4]];
    assert!(pool.invalidate(100, last, &finished));
    assert_eq!(pool.current(100), None);
    assert_eq!(pool.retired.len(), MAX_RETIRED_SESSIONS);
    assert!(!pool.retired.contains(&ending[4]));
    assert!(pool.retired.contains(&last));
}

#[test]
fn sessions_with_daemons_replay_what_was_not_answered() {
    let limits = FrameLimits {
        max_segment_bytes: 4096,
        max_frame_bytes: 8192,
        max_addresses: 4,
        max_auth_bytes: 512,
    };
    let target = EntityAddr::ipv4_v2(endpoint(6800));
    let config = session_config(limits, target.clone(), 9, 7, 5, (11, 12, 13));
    assert_eq!(config.max_queued_messages, 16);
    assert_eq!(config.max_retained_bytes, 8192);
    assert_eq!(config.max_reconnect_attempts, 2);
    assert_eq!(config.reconnect_policy, ReconnectPolicy::ReplayPending);
    assert_eq!(config.client_ident.target_address, target);
    assert_eq!(config.client_ident.addresses.0[0].nonce, 9);
    assert_eq!(config.client_ident.supported_features, 7);
    assert_eq!(config.client_ident.required_features, 5);
    assert_eq!(config.client_cookie, 11);
    assert_eq!(config.replacement_cookies, vec![12, 13]);
    assert!(Machine::new(config).is_ok());
}
