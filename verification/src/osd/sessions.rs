//! The sessions with storage daemons: which one a request goes through, when one is replaced, and
//! how many may still be ending.
//!
//! Sessions are known by number. The sessions themselves stay with the caller, who says which of
//! them have ended.

use crate::msgr::control::{ClientIdent, ClientIdentView};
use crate::msgr::frame::Limits as FrameLimits;
use crate::msgr::session::Config;
use crate::msgr::session_model::{ConfigView, ReconnectPolicy};
use crate::osd::client::{routable, route_address, Error};
use crate::protocol::address::{
    endpoint_of, ipv4_socket, AddressView, Endpoint4, EntityAddr, EntityAddrVec,
    ADDRESS_MESSENGER_2, FAMILY_IPV4,
};
use std::collections::HashMap;
use vstd::prelude::*;

verus! {

broadcast use {vstd::std_specs::hash::group_hash_axioms, vstd::set::group_set_axioms};

/// How many sessions may be ending.
pub const MAX_RETIRED_SESSIONS: usize = 16;

/// A session with a daemon: its number, where it goes, and the authority that it was opened under.
#[derive(Clone, Copy, Debug, PartialEq, Eq, Structural)]
pub struct SessionEntry {
    pub session: u64,
    pub endpoint: Endpoint4,
    pub authority: u64,
}

/// The sessions in use, by daemon, those that are ending, and the number of the next one.
#[derive(Debug)]
pub struct SessionPool {
    pub sessions: HashMap<i32, SessionEntry>,
    pub retired: Vec<u64>,
    pub next: u64,
}

#[verifier::ext_equal]
pub struct PoolView {
    pub sessions: Map<i32, SessionEntry>,
    pub retired: Seq<u64>,
    pub next: u64,
}

impl View for SessionPool {
    type V = PoolView;

    open spec fn view(&self) -> PoolView {
        PoolView { sessions: self.sessions@, retired: self.retired@, next: self.next }
    }
}

/// Whether a session is in use for some daemon.
pub open spec fn in_use(p: PoolView, session: u64) -> bool {
    exists|osd: i32| #[trigger]
        p.sessions.contains_key(osd) && p.sessions[osd].session == session
}

/// Whether a session is in use or ending.
pub open spec fn held(p: PoolView, session: u64) -> bool {
    in_use(p, session) || p.retired.contains(session)
}

/// What is true of every pool: sessions have numbers that were given out, each is held in one place
/// alone, and not too many are ending.
pub open spec fn orderly(p: PoolView) -> bool {
    &&& p.sessions.dom().finite()
    &&& p.retired.len() <= MAX_RETIRED_SESSIONS
    &&& p.retired.no_duplicates()
    &&& forall|osd: i32| #[trigger]
        p.sessions.contains_key(osd) ==> p.sessions[osd].session < p.next && !p.retired.contains(
            p.sessions[osd].session,
        )
    &&& forall|i: int| 0 <= i < p.retired.len() ==> #[trigger] p.retired[i] < p.next
    &&& forall|a: i32, b: i32|
        #![trigger p.sessions[a], p.sessions[b]]
        p.sessions.contains_key(a) && p.sessions.contains_key(b) && a != b
            ==> p.sessions[a].session != p.sessions[b].session
}

/// No sessions.
pub open spec fn no_sessions() -> PoolView {
    PoolView { sessions: Map::empty(), retired: Seq::empty(), next: 0 }
}

/// The numbers that are not among those that have finished, in their order.
pub open spec fn unfinished(sessions: Seq<u64>, finished: Seq<u64>) -> Seq<u64>
    decreases sessions.len(),
{
    if sessions.len() == 0 {
        Seq::empty()
    } else {
        let before = unfinished(sessions.drop_last(), finished);
        if finished.contains(sessions.last()) {
            before
        } else {
            before.push(sessions.last())
        }
    }
}

/// The pool after it was to let a session end, and whether it could: those that have finished are
/// forgotten first.
pub open spec fn retiring(p: PoolView, session: u64, finished: Seq<u64>) -> (PoolView, bool) {
    let left = unfinished(p.retired, finished);
    if left.len() >= MAX_RETIRED_SESSIONS {
        (PoolView { retired: left, ..p }, false)
    } else {
        (PoolView { retired: left.push(session), ..p }, true)
    }
}

/// The session that a request goes through: one that there is, or a new one to the address at
/// `index`.
#[derive(Clone, Copy, Debug, PartialEq, Eq, Structural)]
pub enum Choice {
    Reuse(u64),
    Open { index: usize, endpoint: Endpoint4, authority: u64 },
}

/// A choice, and a session to close because it is not to be used any more.
#[derive(Clone, Copy, Debug, PartialEq, Eq)]
pub struct Chosen {
    pub close: Option<u64>,
    pub choice: Result<Choice, Error>,
}

/// Whether a session can be used again: it goes to the same endpoint, under the same authority, and
/// has not ended.
pub open spec fn reusable(
    entry: SessionEntry,
    endpoint: Endpoint4,
    authority: u64,
    ended: bool,
) -> bool {
    entry.endpoint == endpoint && entry.authority == authority && !ended
}

/// The pool and the choice for a request to a daemon at these addresses. `authority` is the present
/// one, if there is one, `ended` says whether the session with the daemon has ended, and `finished`
/// are those of the ending sessions that have finished.
pub open spec fn choosing(
    p: PoolView,
    closed: bool,
    osd: i32,
    addresses: Seq<AddressView>,
    authority: Option<u64>,
    ended: bool,
    finished: Seq<u64>,
) -> (PoolView, Chosen) {
    if closed {
        (p, Chosen { close: None, choice: Err(Error::Closed) })
    } else {
        match routable(addresses) {
            None => (p, Chosen { close: None, choice: Err(Error::NoPrimary) }),
            Some(index) => match authority {
                None => (p, Chosen { close: None, choice: Err(Error::NotConnected) }),
                Some(authority) => {
                    let endpoint = endpoint_of(addresses[index])->Some_0;
                    let open = Choice::Open { index: index as usize, endpoint, authority };
                    if !p.sessions.contains_key(osd) {
                        (p, Chosen { close: None, choice: Ok(open) })
                    } else {
                        let entry = p.sessions[osd];
                        if reusable(entry, endpoint, authority, ended) {
                            (p, Chosen { close: None, choice: Ok(Choice::Reuse(entry.session)) })
                        } else {
                            let (q, done) = retiring(p, entry.session, finished);
                            if done {
                                (
                                    PoolView { sessions: q.sessions.remove(osd), ..q },
                                    Chosen { close: Some(entry.session), choice: Ok(open) },
                                )
                            } else {
                                (
                                    q,
                                    Chosen {
                                        close: Some(entry.session),
                                        choice: Err(Error::QueueSaturated),
                                    },
                                )
                            }
                        }
                    }
                },
            },
        }
    }
}

/// The pool after a session was opened.
pub open spec fn opening(p: PoolView, osd: i32, endpoint: Endpoint4, authority: u64) -> PoolView {
    PoolView {
        sessions: p.sessions.insert(osd, SessionEntry { session: p.next, endpoint, authority }),
        next: (p.next + 1) as u64,
        ..p
    }
}

/// The pool after a session with a daemon failed, and whether to close it. Where it has been
/// replaced already, nothing changes. Where it cannot be let end, it stays.
pub open spec fn invalidating(p: PoolView, osd: i32, session: u64, finished: Seq<u64>) -> (
    PoolView,
    bool,
) {
    if p.sessions.contains_key(osd) && p.sessions[osd].session == session {
        let (q, done) = retiring(p, session, finished);
        if done {
            (PoolView { sessions: q.sessions.remove(osd), ..q }, true)
        } else {
            (q, true)
        }
    } else {
        (p, false)
    }
}

proof fn lemma_unfinished(sessions: Seq<u64>, finished: Seq<u64>)
    ensures
        unfinished(sessions, finished).len() <= sessions.len(),
        forall|session: u64| #[trigger]
            unfinished(sessions, finished).contains(session) <==> sessions.contains(session)
                && !finished.contains(session),
        sessions.no_duplicates() ==> unfinished(sessions, finished).no_duplicates(),
    decreases sessions.len(),
{
    if sessions.len() > 0 {
        let shorter = sessions.drop_last();
        let last = sessions.last();
        let before = unfinished(shorter, finished);
        let after = unfinished(sessions, finished);
        lemma_unfinished(shorter, finished);
        assert forall|session: u64| #[trigger] after.contains(session) <==> sessions.contains(
            session,
        ) && !finished.contains(session) by {
            if sessions.contains(session) && session != last {
                let i = choose|i: int| 0 <= i < sessions.len() && sessions[i] == session;
                assert(shorter[i] == session);
            }
            if shorter.contains(session) {
                let i = choose|i: int| 0 <= i < shorter.len() && shorter[i] == session;
                assert(sessions[i] == session);
            }
            if before.contains(session) {
                let i = choose|i: int| 0 <= i < before.len() && before[i] == session;
                assert(after[i] == session);
            }
            if after.contains(session) {
                let i = choose|i: int| 0 <= i < after.len() && after[i] == session;
                if i < before.len() {
                    assert(before[i] == session);
                }
            }
            if session == last && !finished.contains(last) {
                assert(after[after.len() - 1] == session);
            }
        }
        if sessions.no_duplicates() {
            assert(shorter.no_duplicates());
            assert(!shorter.contains(last)) by {
                if shorter.contains(last) {
                    let i = choose|i: int| 0 <= i < shorter.len() && shorter[i] == last;
                    assert(sessions[i] == sessions[sessions.len() - 1]);
                }
            }
            assert forall|i: int, j: int|
                0 <= i < after.len() && 0 <= j < after.len() && i != j implies after[i]
                != after[j] by {
                if i < before.len() {
                    assert(before.contains(before[i]));
                }
                if j < before.len() {
                    assert(before.contains(before[j]));
                }
            }
        }
    }
}

proof fn lemma_retiring(p: PoolView, osd: i32, session: u64, finished: Seq<u64>)
    requires
        orderly(p),
        p.sessions.contains_key(osd),
        p.sessions[osd].session == session,
    ensures
        ({
            let (q, done) = retiring(p, session, finished);
            let r = PoolView { sessions: q.sessions.remove(osd), ..q };
            if done {
                orderly(r)
            } else {
                orderly(q)
            }
        }),
{
    lemma_unfinished(p.retired, finished);
    let left = unfinished(p.retired, finished);
    let (q, done) = retiring(p, session, finished);
    assert forall|i: int| 0 <= i < left.len() implies #[trigger] left[i] < p.next by {
        assert(left.contains(left[i]));
        let j = choose|j: int| 0 <= j < p.retired.len() && p.retired[j] == left[i];
        assert(p.retired[j] < p.next);
    }
    assert(!left.contains(session));
    if done {
        let r = PoolView { sessions: q.sessions.remove(osd), ..q };
        assert forall|i: int, j: int|
            0 <= i < r.retired.len() && 0 <= j < r.retired.len() && i != j implies r.retired[i]
            != r.retired[j] by {
            if i < left.len() {
                assert(left.contains(left[i]));
            }
            if j < left.len() {
                assert(left.contains(left[j]));
            }
        }
        assert forall|other: i32| #[trigger] r.sessions.contains_key(other) implies r.sessions[other].session
            < r.next && !r.retired.contains(r.sessions[other].session) by {
            assert(p.sessions.contains_key(other));
            assert(p.sessions[other].session != p.sessions[osd].session);
            if r.retired.contains(r.sessions[other].session) {
                let i = choose|i: int|
                    0 <= i < r.retired.len() && r.retired[i] == r.sessions[other].session;
                assert(i < left.len());
                assert(left.contains(left[i]));
            }
        }
    }
}

impl Default for SessionPool {
    fn default() -> (r: Self)
        ensures
            r@ == no_sessions(),
            orderly(r@),
    {
        let r = SessionPool { sessions: HashMap::new(), retired: Vec::new(), next: 0 };
        assert(r@ =~= no_sessions());
        r
    }
}

fn contains(numbers: &Vec<u64>, number: u64) -> (r: bool)
    ensures
        r == numbers@.contains(number),
{
    let mut i: usize = 0;
    while i < numbers.len()
        invariant
            i <= numbers@.len(),
            forall|j: int| 0 <= j < i ==> numbers@[j] != number,
        decreases numbers@.len() - i,
    {
        if numbers[i] == number {
            return true;
        }
        i = i + 1;
    }
    false
}

fn without(sessions: &Vec<u64>, finished: &Vec<u64>) -> (r: Vec<u64>)
    ensures
        r@ == unfinished(sessions@, finished@),
{
    let mut r: Vec<u64> = Vec::new();
    let mut i: usize = 0;
    while i < sessions.len()
        invariant
            i <= sessions@.len(),
            r@ == unfinished(sessions@.take(i as int), finished@),
        decreases sessions@.len() - i,
    {
        assert(sessions@.take(i + 1).drop_last() =~= sessions@.take(i as int));
        if !contains(finished, sessions[i]) {
            r.push(sessions[i]);
        }
        i = i + 1;
    }
    assert(sessions@.take(i as int) =~= sessions@);
    r
}

impl SessionPool {
    /// The session in use for a daemon.
    pub fn current(&self, osd: i32) -> (r: Option<u64>)
        ensures
            r == if self@.sessions.contains_key(osd) {
                Some(self@.sessions[osd].session)
            } else {
                None
            },
    {
        match self.sessions.get(&osd) {
            Some(entry) => Some(entry.session),
            None => None,
        }
    }

    fn retire(&mut self, session: u64, finished: &Vec<u64>) -> (r: Result<(), Error>)
        ensures
            final(self)@ == retiring(old(self)@, session, finished@).0,
            match r {
                Ok(()) => retiring(old(self)@, session, finished@).1,
                Err(error) => !retiring(old(self)@, session, finished@).1 && error
                    == Error::QueueSaturated,
            },
    {
        self.retired = without(&self.retired, finished);
        if self.retired.len() >= MAX_RETIRED_SESSIONS {
            return Err(Error::QueueSaturated);
        }
        self.retired.push(session);
        Ok(())
    }

    /// Chooses the session for a request to a daemon.
    pub fn session(
        &mut self,
        closed: bool,
        osd: i32,
        addresses: &EntityAddrVec,
        authority: Option<u64>,
        ended: bool,
        finished: &Vec<u64>,
    ) -> (r: Chosen)
        requires
            orderly(old(self)@),
        ensures
            orderly(final(self)@),
            (final(self)@, r) == choosing(
                old(self)@,
                closed,
                osd,
                addresses@,
                authority,
                ended,
                finished@,
            ),
            r.choice matches Ok(Choice::Open { .. }) ==> !final(self)@.sessions.contains_key(osd),
    {
        if closed {
            return Chosen { close: None, choice: Err(Error::Closed) };
        }
        let (index, endpoint) = match route_address(addresses) {
            Ok(route) => route,
            Err(error) => {
                return Chosen { close: None, choice: Err(error) };
            },
        };
        let authority: u64 = match authority {
            Some(authority) => authority,
            None => {
                return Chosen { close: None, choice: Err(Error::NotConnected) };
            },
        };
        let open = Choice::Open { index, endpoint, authority };
        let entry = match self.sessions.get(&osd) {
            Some(entry) => *entry,
            None => {
                return Chosen { close: None, choice: Ok(open) };
            },
        };
        if entry.endpoint == endpoint && entry.authority == authority && !ended {
            return Chosen { close: None, choice: Ok(Choice::Reuse(entry.session)) };
        }
        proof {
            lemma_retiring(self@, osd, entry.session, finished@);
        }
        match self.retire(entry.session, finished) {
            Ok(()) => {
                let ghost q = self@;
                self.sessions.remove(&osd);
                assert(self@ =~= (PoolView { sessions: q.sessions.remove(osd), ..q }));
                Chosen { close: Some(entry.session), choice: Ok(open) }
            },
            Err(error) => Chosen { close: Some(entry.session), choice: Err(error) },
        }
    }

    /// Takes a session that was opened with a daemon that has none, and gives it a number.
    pub fn opened(&mut self, osd: i32, endpoint: Endpoint4, authority: u64) -> (r: u64)
        requires
            orderly(old(self)@),
            !old(self)@.sessions.contains_key(osd),
            old(self)@.next < u64::MAX,
        ensures
            orderly(final(self)@),
            r == old(self)@.next,
            final(self)@ == opening(old(self)@, osd, endpoint, authority),
    {
        let session: u64 = self.next;
        self.sessions.insert(osd, SessionEntry { session, endpoint, authority });
        self.next = session + 1;
        proof {
            let before = old(self)@;
            assert(self@ =~= opening(before, osd, endpoint, authority));
            assert forall|i: int| 0 <= i < before.retired.len() implies #[trigger] before.retired[i]
                < self@.next by {}
            assert(!before.retired.contains(session));
        }
        session
    }

    /// Takes a session with a daemon out of use because it failed, and says whether to close it.
    pub fn invalidate(&mut self, osd: i32, session: u64, finished: &Vec<u64>) -> (r: bool)
        requires
            orderly(old(self)@),
        ensures
            orderly(final(self)@),
            (final(self)@, r) == invalidating(old(self)@, osd, session, finished@),
    {
        match self.sessions.get(&osd) {
            None => {
                return false;
            },
            Some(entry) => {
                if entry.session != session {
                    return false;
                }
            },
        }
        proof {
            lemma_retiring(self@, osd, session, finished@);
        }
        if self.retire(session, finished).is_ok() {
            let ghost q = self@;
            self.sessions.remove(&osd);
            assert(self@ =~= (PoolView { sessions: q.sessions.remove(osd), ..q }));
        }
        true
    }

    /// Whether there are sessions in use or ending.
    pub fn has_sessions(&self) -> (r: bool)
        ensures
            r == (self@.sessions.dom().len() > 0 || self@.retired.len() > 0),
    {
        self.sessions.len() > 0 || self.retired.len() > 0
    }
}

// ---------------------------------------------------------------------------
// New sessions
// ---------------------------------------------------------------------------

/// What a session with a daemon is made with. It replays what was not answered, and reconnects
/// twice.
pub open spec fn daemon_config(
    limits: FrameLimits,
    target: AddressView,
    nonce: u32,
    supported: u64,
    required: u64,
    cookies: (u64, u64, u64),
) -> ConfigView {
    let own = AddressView {
        kind: ADDRESS_MESSENGER_2,
        nonce,
        family: FAMILY_IPV4,
        socket_data: ipv4_socket(Endpoint4 { a: 0, b: 0, c: 0, d: 0, port: 0 }),
    };
    ConfigView {
        limits,
        max_queued_messages: 16,
        max_retained_bytes: limits.max_frame_bytes,
        max_in_flight_transactions: 16,
        max_reconnect_attempts: 2,
        max_handshake_transitions: 16,
        reconnect_policy: ReconnectPolicy::ReplayPending,
        client_ident: ClientIdentView {
            addresses: seq![own],
            target_address: target,
            global_id: 0,
            global_sequence: 0,
            supported_features: supported,
            required_features: required,
            flags: 0,
            cookie: 0,
        },
        client_cookie: cookies.0,
        server_cookie: 0,
        global_sequence: 0,
        connect_sequence: 0,
        replacement_cookies: seq![cookies.1, cookies.2],
    }
}

/// What a session with the daemon at `target` is made with. The address of this side is not known
/// but for its nonce.
pub fn session_config(
    limits: FrameLimits,
    target: EntityAddr,
    nonce: u32,
    supported: u64,
    required: u64,
    cookies: (u64, u64, u64),
) -> (r: Config)
    ensures
        r@ == daemon_config(limits, target@, nonce, supported, required, cookies),
{
    let own = EntityAddr::ipv4_v2(Endpoint4 { a: 0, b: 0, c: 0, d: 0, port: 0 }).with_nonce(nonce);
    let mut addresses: Vec<EntityAddr> = Vec::new();
    addresses.push(own);
    let mut replacement_cookies: Vec<u64> = Vec::new();
    replacement_cookies.push(cookies.1);
    replacement_cookies.push(cookies.2);
    let r = Config {
        limits,
        max_queued_messages: 16,
        max_retained_bytes: limits.max_frame_bytes,
        max_in_flight_transactions: 16,
        max_reconnect_attempts: 2,
        max_handshake_transitions: 16,
        reconnect_policy: ReconnectPolicy::ReplayPending,
        client_ident: ClientIdent {
            addresses: EntityAddrVec(addresses),
            target_address: target,
            global_id: 0,
            global_sequence: 0,
            supported_features: supported,
            required_features: required,
            flags: 0,
            cookie: 0,
        },
        client_cookie: cookies.0,
        server_cookie: 0,
        global_sequence: 0,
        connect_sequence: 0,
        replacement_cookies,
    };
    proof {
        let want = daemon_config(limits, target@, nonce, supported, required, cookies);
        assert(r@.client_ident.addresses =~= want.client_ident.addresses);
        assert(r@.replacement_cookies =~= want.replacement_cookies);
    }
    r
}

// ---------------------------------------------------------------------------
// Laws
// ---------------------------------------------------------------------------

proof fn lemma_held_after_retiring(p: PoolView, osd: i32, finished: Seq<u64>, session: u64)
    requires
        orderly(p),
        p.sessions.contains_key(osd),
        held(p, session),
        !(p.retired.contains(session) && finished.contains(session)),
    ensures
        ({
            let (q, done) = retiring(p, p.sessions[osd].session, finished);
            if done {
                held(PoolView { sessions: q.sessions.remove(osd), ..q }, session)
            } else {
                held(q, session)
            }
        }),
{
    lemma_unfinished(p.retired, finished);
    let failed = p.sessions[osd].session;
    let left = unfinished(p.retired, finished);
    let (q, done) = retiring(p, failed, finished);
    let r = PoolView { sessions: q.sessions.remove(osd), ..q };
    if p.retired.contains(session) {
        assert(left.contains(session));
        let i = choose|i: int| 0 <= i < left.len() && left[i] == session;
        assert(q.retired[i] == session);
    } else {
        let at = choose|at: i32| #[trigger]
            p.sessions.contains_key(at) && p.sessions[at].session == session;
        if done {
            if at == osd {
                assert(q.retired[left.len() as int] == session);
            } else {
                assert(r.sessions.contains_key(at));
            }
        } else {
            assert(q.sessions.contains_key(at));
        }
    }
}

/// A session is not forgotten before it has finished: whatever is chosen or fails, it stays in use
/// or among those that are ending, so that all of them can be waited for.
pub proof fn law_sessions_are_not_lost(
    p: PoolView,
    closed: bool,
    osd: i32,
    addresses: Seq<AddressView>,
    authority: Option<u64>,
    ended: bool,
    finished: Seq<u64>,
    failed: u64,
    session: u64,
)
    requires
        orderly(p),
        held(p, session),
        !(p.retired.contains(session) && finished.contains(session)),
    ensures
        held(choosing(p, closed, osd, addresses, authority, ended, finished).0, session),
        held(invalidating(p, osd, failed, finished).0, session),
{
    if p.sessions.contains_key(osd) {
        lemma_held_after_retiring(p, osd, finished, session);
    }
}

/// A new session replaces none, and has a number that no session has had.
pub proof fn law_sessions_are_told_apart(
    p: PoolView,
    osd: i32,
    endpoint: Endpoint4,
    authority: u64,
    session: u64,
)
    requires
        orderly(p),
        !p.sessions.contains_key(osd),
        p.next < u64::MAX,
        held(p, session),
    ensures
        session != p.next,
        held(opening(p, osd, endpoint, authority), session),
        in_use(opening(p, osd, endpoint, authority), p.next),
{
    let q = opening(p, osd, endpoint, authority);
    assert(q.sessions.contains_key(osd));
    if in_use(p, session) {
        let at = choose|at: i32| #[trigger]
            p.sessions.contains_key(at) && p.sessions[at].session == session;
        assert(q.sessions.contains_key(at) && q.sessions[at].session == session);
    } else {
        let i = choose|i: int| 0 <= i < p.retired.len() && p.retired[i] == session;
        assert(p.retired[i] < p.next);
    }
}

/// A session that failed does no harm to the one that replaced it.
pub proof fn law_replaced_sessions_fail_alone(
    p: PoolView,
    osd: i32,
    failed: u64,
    finished: Seq<u64>,
)
    requires
        !p.sessions.contains_key(osd) || p.sessions[osd].session != failed,
    ensures
        invalidating(p, osd, failed, finished) == (p, false),
{
}

/// A session that was taken out of use is not chosen again: the daemon has no session until a new
/// one is opened.
pub proof fn law_failed_sessions_are_not_used_again(
    p: PoolView,
    osd: i32,
    failed: u64,
    finished: Seq<u64>,
)
    requires
        orderly(p),
        p.sessions.contains_key(osd),
        p.sessions[osd].session == failed,
        unfinished(p.retired, finished).len() < MAX_RETIRED_SESSIONS,
    ensures
        !in_use(invalidating(p, osd, failed, finished).0, failed),
{
    let q = invalidating(p, osd, failed, finished).0;
    if in_use(q, failed) {
        let at = choose|at: i32| #[trigger]
            q.sessions.contains_key(at) && q.sessions[at].session == failed;
        assert(p.sessions.contains_key(at));
        assert(p.sessions[at].session == p.sessions[osd].session);
    }
}

// ---------------------------------------------------------------------------
// Views
// ---------------------------------------------------------------------------

/// What stands for a value of this type has its fields.
pub proof fn law_session_pool_has_its_fields(x: SessionPool)
    ensures
        x@.sessions == x.sessions@,
        x@.retired == x.retired@,
        x@.next == x.next,
{
}

} // verus!
