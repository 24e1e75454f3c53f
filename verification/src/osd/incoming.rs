//! What a daemon sends without being asked: new maps, notifications to watchers, and backoffs,
//! which hold requests for some objects back until they are lifted.

use crate::maps::PG;
use crate::mon::messages::MESSAGE_OSD_MAP;
use crate::msgr::message::{Message, MessageView};
use crate::osd::backoff::{
    backoff_decoding, backoff_encoding, covers, decode_backoff, encode_acknowledgment, Backoff,
    BackoffView, HObject, HObjectView, BACKOFF_ACK_BLOCK, BACKOFF_BLOCK, BACKOFF_UNBLOCK,
    MESSAGE_OSD_BACKOFF,
};
use crate::osd::client::Error;
use crate::osd::messages::Limits;
use crate::osd::watch::{
    decode_notification, notification_decoding, Notification, NotificationView, EVENT_DISCONNECT,
    MESSAGE_WATCH_NOTIFY,
};
use std::collections::HashMap;
use vstd::prelude::*;

verus! {

broadcast use vstd::std_specs::hash::group_hash_axioms;

/// The backoffs of a session, by their numbers, and how the session failed.
#[derive(Debug)]
pub struct OSDSessionState {
    pub backoffs: HashMap<u64, Backoff>,
    pub failure: Option<Error>,
}

#[verifier::ext_equal]
pub struct SessionView {
    pub backoffs: Map<u64, BackoffView>,
    pub failure: Option<Error>,
}

pub open spec fn backoffs_view(backoffs: Map<u64, Backoff>) -> Map<u64, BackoffView> {
    backoffs.map_values(|backoff: Backoff| backoff@)
}

impl View for OSDSessionState {
    type V = SessionView;

    open spec fn view(&self) -> SessionView {
        SessionView { backoffs: backoffs_view(self.backoffs@), failure: self.failure }
    }
}

/// What comes of a message: nothing, a notification to hand on, an acknowledgment to send, the news
/// that requests may go on, or the end of the session, which watchers are told once.
#[derive(Debug)]
pub enum Incoming {
    Ignored,
    Delivered(Notification),
    Acknowledge(Message),
    Unblocked,
    Failed { announce: bool },
}

pub enum IncomingView {
    Ignored,
    Delivered(NotificationView),
    Acknowledge(MessageView),
    Unblocked,
    Failed { announce: bool },
}

impl View for Incoming {
    type V = IncomingView;

    open spec fn view(&self) -> IncomingView {
        match self {
            Incoming::Ignored => IncomingView::Ignored,
            Incoming::Delivered(notification) => IncomingView::Delivered(notification@),
            Incoming::Acknowledge(message) => IncomingView::Acknowledge(message@),
            Incoming::Unblocked => IncomingView::Unblocked,
            Incoming::Failed { announce } => IncomingView::Failed { announce: *announce },
        }
    }
}

/// The session after it failed. The first failure is the one that counts.
pub open spec fn failing(s: SessionView, error: Error) -> (SessionView, IncomingView) {
    (
        SessionView {
            failure: if s.failure is None {
                Some(error)
            } else {
                s.failure
            },
            ..s
        },
        IncomingView::Failed { announce: s.failure is None },
    )
}

/// The session and what comes of a backoff.
pub open spec fn backing_off(s: SessionView, backoff: BackoffView, limits: Limits) -> (
    SessionView,
    IncomingView,
) {
    if backoff.operation == BACKOFF_BLOCK {
        let blocked = SessionView { backoffs: s.backoffs.insert(backoff.id, backoff), ..s };
        match backoff_encoding(backoff, BACKOFF_ACK_BLOCK, limits) {
            Err(_) => failing(blocked, Error::MalformedReply),
            Ok(message) => (blocked, IncomingView::Acknowledge(message)),
        }
    } else {
        (
            SessionView { backoffs: s.backoffs.remove(backoff.id), ..s },
            IncomingView::Unblocked,
        )
    }
}

/// The session and what comes of a message.
pub open spec fn receiving(s: SessionView, m: MessageView, limits: Limits) -> (
    SessionView,
    IncomingView,
) {
    if m.header.message_type == MESSAGE_OSD_MAP {
        failing(s, Error::StaleMap)
    } else if m.header.message_type == MESSAGE_WATCH_NOTIFY {
        match notification_decoding(m, limits.max_bytes as nat) {
            Err(_) => failing(s, Error::MalformedReply),
            Ok(notification) => (s, IncomingView::Delivered(notification)),
        }
    } else if m.header.message_type == MESSAGE_OSD_BACKOFF {
        match backoff_decoding(m, limits) {
            Err(_) => failing(s, Error::MalformedReply),
            Ok(backoff) => backing_off(s, backoff, limits),
        }
    } else {
        (s, IncomingView::Ignored)
    }
}

/// What is to be done with a request: refuse it, hold it back until something changes, or send it.
#[derive(Clone, Copy, Debug, PartialEq, Eq, Structural)]
pub enum Submission {
    Refuse(Error),
    Wait,
    Send,
}

/// Whether requests for an object of a placement group are held back.
pub open spec fn held_back(s: SessionView, pg: PG, object: HObjectView) -> bool {
    exists|id: u64| #[trigger]
        s.backoffs.contains_key(id) && s.backoffs[id].pg == pg && covers(s.backoffs[id], object)
}

pub open spec fn submitting(s: SessionView, pg: PG, object: HObjectView) -> Submission {
    match s.failure {
        Some(error) => Submission::Refuse(error),
        None => if held_back(s, pg, object) {
            Submission::Wait
        } else {
            Submission::Send
        },
    }
}

/// What watchers are told when the session ends.
pub fn disconnection() -> (r: Notification)
    ensures
        r@ == (NotificationView {
            cookie: 0,
            version: 0,
            notify_id: 0,
            opcode: EVENT_DISCONNECT,
            data: Seq::empty(),
            result: 0,
            notifier: 0,
        }),
{
    let r = Notification {
        cookie: 0,
        version: 0,
        notify_id: 0,
        opcode: EVENT_DISCONNECT,
        data: Vec::new(),
        result: 0,
        notifier: 0,
    };
    assert(r@.data =~= Seq::empty());
    r
}

impl Default for OSDSessionState {
    fn default() -> (r: Self)
        ensures
            r@ == (SessionView { backoffs: Map::empty(), failure: None }),
    {
        let r = OSDSessionState { backoffs: HashMap::new(), failure: None };
        assert(r@.backoffs =~= Map::empty());
        r
    }
}

impl OSDSessionState {
    /// Ends the session.
    pub fn fail_session(&mut self, error: Error) -> (r: Incoming)
        ensures
            (final(self)@, r@) == failing(old(self)@, error),
    {
        let announce: bool = self.failure.is_none();
        if announce {
            self.failure = Some(error);
        }
        Incoming::Failed { announce }
    }

    fn back_off(&mut self, backoff: Backoff, limits: Limits) -> (r: Incoming)
        requires
            limits.max_bytes != 0,
        ensures
            (final(self)@, r@) == backing_off(old(self)@, backoff@, limits),
    {
        if backoff.operation == BACKOFF_BLOCK {
            let acknowledgment = encode_acknowledgment(&backoff, limits);
            let ghost held = backoff@;
            self.backoffs.insert(backoff.id, backoff);
            assert(self@.backoffs =~= old(self)@.backoffs.insert(held.id, held));
            match acknowledgment {
                Ok(message) => Incoming::Acknowledge(message),
                Err(_) => self.fail_session(Error::MalformedReply),
            }
        } else {
            self.backoffs.remove(&backoff.id);
            assert(self@.backoffs =~= old(self)@.backoffs.remove(backoff.id));
            Incoming::Unblocked
        }
    }

    /// Takes a message that is no reply.
    pub fn receive(&mut self, message: &Message, limits: Limits) -> (r: Incoming)
        ensures
            (final(self)@, r@) == receiving(old(self)@, message@, limits),
    {
        let message_type: u16 = message.header.message_type;
        if message_type == MESSAGE_OSD_MAP {
            return self.fail_session(Error::StaleMap);
        }
        if message_type == MESSAGE_WATCH_NOTIFY {
            return match decode_notification(message, limits.max_bytes as usize) {
                Ok(notification) => Incoming::Delivered(notification),
                Err(_) => self.fail_session(Error::MalformedReply),
            };
        }
        if message_type != MESSAGE_OSD_BACKOFF {
            return Incoming::Ignored;
        }
        match decode_backoff(message, limits) {
            Ok(backoff) => self.back_off(backoff, limits),
            Err(_) => self.fail_session(Error::MalformedReply),
        }
    }

    /// What is to be done with a request for an object.
    pub fn submission(&self, pg: PG, object: &HObject) -> (r: Submission)
        ensures
            r == submitting(self@, pg, object@),
    {
        if let Some(error) = self.failure {
            return Submission::Refuse(error);
        }
        let mut blocked: bool = false;
        for key in keys: self.backoffs.keys()
            invariant
                keys.seq().unref().to_set() == self.backoffs@.dom(),
                blocked ==> held_back(self@, pg, object@),
                !blocked ==> forall|i: int|
                    0 <= i < keys.index() ==> {
                        let backoff = self@.backoffs[*(#[trigger] keys.seq()[i])];
                        !(backoff.pg == pg && covers(backoff, object@))
                    },
                keys.index() == keys.seq().len() ==> blocked == held_back(self@, pg, object@),
        {
            let ghost seq = keys.seq();
            let ghost at = keys.index();
            proof {
                assert(seq.unref()[at] == *seq[at]);
                assert(seq.unref().to_set().contains(*key));
                assert(self@.backoffs.contains_key(*key));
                assert forall|id: u64| #[trigger] self@.backoffs.contains_key(id) implies exists|
                    i: int,
                |
                    0 <= i < seq.len() && *(#[trigger] seq[i]) == id by {
                    assert(seq.unref().to_set().contains(id));
                    let i = choose|i: int| 0 <= i < seq.unref().len() && seq.unref()[i] == id;
                    assert(*seq[i] == id);
                }
            }
            if let Some(backoff) = self.backoffs.get(key) {
                if backoff.pg == pg && backoff.contains(object) {
                    blocked = true;
                }
            }
        }
        if blocked {
            Submission::Wait
        } else {
            Submission::Send
        }
    }

    /// What a request comes to that ended with a result. Where the session failed for a stale map,
    /// a failure is put down to that.
    pub fn settle(&self, result: Result<Message, Error>) -> (r: Result<Message, Error>)
        ensures
            r == if result is Err && self@.failure == Some(Error::StaleMap) {
                Err(Error::StaleMap)
            } else {
                result
            },
    {
        if result.is_err() {
            if let Some(Error::StaleMap) = self.failure {
                return Err(Error::StaleMap);
            }
        }
        result
    }
}

/// Requests for objects of a backoff are held back from the message that blocks until the one that
/// unblocks, whatever arrives in between about other backoffs.
pub proof fn law_backoff_holds_until_lifted(
    s: SessionView,
    backoff: BackoffView,
    other: BackoffView,
    limits: Limits,
    object: HObjectView,
)
    requires
        backoff.operation == BACKOFF_BLOCK,
        other.id != backoff.id,
        covers(backoff, object),
    ensures
        held_back(backing_off(s, backoff, limits).0, backoff.pg, object),
        held_back(
            backing_off(backing_off(s, backoff, limits).0, other, limits).0,
            backoff.pg,
            object,
        ),
{
    let t = backing_off(s, backoff, limits).0;
    assert(t.backoffs.contains_key(backoff.id));
    let u = backing_off(t, other, limits).0;
    assert(u.backoffs.contains_key(backoff.id));
}

/// Lifting a backoff undoes it.
pub proof fn law_unblock_undoes_block(
    s: SessionView,
    backoff: BackoffView,
    lifted: BackoffView,
    limits: Limits,
)
    requires
        backoff.operation == BACKOFF_BLOCK,
        lifted.operation == BACKOFF_UNBLOCK,
        lifted.id == backoff.id,
        !s.backoffs.contains_key(backoff.id),
    ensures
        backing_off(backing_off(s, backoff, limits).0, lifted, limits).0.backoffs == s.backoffs,
{
    let t = backing_off(s, backoff, limits).0;
    assert(t.backoffs.remove(backoff.id) =~= s.backoffs);
}

/// A session fails once: later failures change nothing and are not announced.
pub proof fn law_session_fails_once(s: SessionView, first: Error, second: Error)
    ensures
        failing(failing(s, first).0, second).0 == failing(s, first).0,
        failing(failing(s, first).0, second).1 == (IncomingView::Failed { announce: false }),
        failing(s, first).0.failure is Some,
{
}

// ---------------------------------------------------------------------------
// Views
// ---------------------------------------------------------------------------

/// What stands for a value of this type has its fields.
pub proof fn law_osdsession_state_has_its_fields(x: OSDSessionState)
    ensures
        x@.backoffs == (backoffs_view(x.backoffs@)),
        x@.failure == x.failure,
{
}

/// What stands for a value of this type is its case, with what it holds.
pub proof fn law_incoming_is_its_case(x: &Incoming)
    ensures
        x@ == (match x {
                Incoming::Ignored => IncomingView::Ignored,
                Incoming::Delivered(notification) => IncomingView::Delivered(notification@),
                Incoming::Acknowledge(message) => IncomingView::Acknowledge(message@),
                Incoming::Unblocked => IncomingView::Unblocked,
                Incoming::Failed { announce } => IncomingView::Failed { announce: *announce },
            }),
{
}

} // verus!
