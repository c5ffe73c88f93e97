use vstd::prelude::*;

use crate::heartbeat::{heartbeat_check, is_alive, HeartbeatAction};
use crate::log::{appended, heartbeat_token, is_heartbeat, ChannelLog, ChatMessage, Record};
use crate::presence::{status_set, Presence, PresenceTracker, UserStatus};
use crate::registry::{delivers, with_member, without, BroadcastRegistry, Delivery};

verus! {

/// The name under which join and leave notices are written to the log.
pub open spec fn system_name() -> Seq<char> {
    "system"@
}

/// The line broadcast when `user` joins a channel.
pub open spec fn join_notice(user: Seq<char>) -> Seq<char> {
    user + " joined the chat"@
}

/// The line broadcast when `user` leaves a channel.
pub open spec fn leave_notice(user: Seq<char>) -> Seq<char> {
    user + " left the chat"@
}

/// The line broadcast for a message `content` that `user` sent.
pub open spec fn chat_line(user: Seq<char>, content: Seq<char>) -> Seq<char> {
    user + ": "@ + content
}

/// What a logging step promises: the record was appended under the next key,
/// or, once every key is used, the log is left as it was.
pub open spec fn logged(a: ChannelLog, b: ChannelLog, ch: Seq<char>, m: Record) -> bool {
    if a.next_key() < u64::MAX {
        appended(a, b, ch, m, a.next_key())
    } else {
        b == a
    }
}

/// The state that all sessions share: who is in which channel, the message
/// log, and the presence records.
pub struct ChatState {
    pub sessions: BroadcastRegistry,
    pub messages: ChannelLog,
    pub statuses: PresenceTracker,
}

impl ChatState {
    /// Each of the three parts keeps its own invariant.
    pub open spec fn wf(&self) -> bool {
        &&& self.sessions.wf()
        &&& self.messages.wf()
        &&& self.statuses.wf()
    }

    /// Shared state with no session, no message and no status; the first
    /// logged record gets key `first_key`.
    pub fn new(first_key: u64) -> (r: Self)
        ensures
            r.wf(),
            r.messages.next_key() == first_key,
            forall|ch: Seq<char>| #[trigger] r.sessions.members(ch) == Seq::<u64>::empty(),
            forall|ch: Seq<char>| #[trigger] r.messages.history(ch) == Seq::<Record>::empty(),
            forall|c: Seq<char>, u: Seq<char>| #[trigger] r.statuses.status(c, u) is None,
    {
        ChatState {
            sessions: BroadcastRegistry::new(),
            messages: ChannelLog::new(first_key),
            statuses: PresenceTracker::new(),
        }
    }
}

/// A record that the log stored, with the key and channel it was stored under,
/// for the durable store to keep too.
pub struct StoredMessage {
    pub key: u64,
    pub channel: String,
    pub message: ChatMessage,
}

/// What one session event asks the connection layer to do: deliver these
/// lines, and keep this record and this status durably.
pub struct SessionOutput {
    pub deliveries: Vec<Delivery>,
    pub stored: Option<StoredMessage>,
    pub status: Option<UserStatus>,
}

/// True when `stored` reports what a logging step from `a` did with `m` in
/// channel `ch`: the record and its key when it was stored, nothing when every
/// key was already used.
pub open spec fn reports(stored: Option<StoredMessage>, a: ChannelLog, ch: Seq<char>, m: Record) -> bool {
    match stored {
        Some(sm) => a.next_key() < u64::MAX && sm.key == a.next_key() && sm.channel@ == ch && sm.message@ == m,
        None => a.next_key() == u64::MAX,
    }
}

/// True when `s` is the presence record of `user` set to `online` at `timestamp`.
pub open spec fn status_record(s: Option<UserStatus>, user: Seq<char>, online: bool, timestamp: Seq<char>) -> bool {
    match s {
        Some(us) => us.username@ == user && us.online == online && us.timestamp@ == timestamp,
        None => false,
    }
}

/// One client's connection: who it is, which channel it is in, and when it
/// was last heard from (milliseconds).
pub struct ChatSession {
    pub id: u64,
    pub user_name: String,
    pub channel_name: String,
    pub hb: u64,
}

fn log_best_effort(log: &mut ChannelLog, channel: &str, username: &str, content: &str, timestamp: &str) -> (r: Option<StoredMessage>)
    requires
        old(log).wf(),
    ensures
        final(log).wf(),
        logged(*old(log), *final(log), channel@, Record { timestamp: timestamp@, username: username@, message: content@ }),
        reports(r, *old(log), channel@, Record { timestamp: timestamp@, username: username@, message: content@ }),
{
    match log.append(channel, username, content, timestamp) {
        Some(key) => Some(StoredMessage {
            key,
            channel: channel.to_owned(),
            message: ChatMessage::new(timestamp, username, content),
        }),
        None => None,
    }
}

impl ChatSession {
    /// A session of `user_name` in `channel_name`, heard from at `now`.
    pub fn new(id: u64, user_name: String, channel_name: String, now: u64) -> (r: Self)
        ensures
            r.id == id,
            r.user_name@ == user_name@,
            r.channel_name@ == channel_name@,
            r.hb == now,
    {
        ChatSession { id, user_name, channel_name, hb: now }
    }

    /// Sends `text` to every session of this session's channel, this one
    /// included, as a line `<user>: <text>`.
    pub fn broadcast_message(&self, state: &ChatState, text: &str) -> (r: Vec<Delivery>)
        requires
            state.wf(),
        ensures
            delivers(r@, state.sessions.members(self.channel_name@), chat_line(self.user_name@, text@)),
    {
        let mut line = self.user_name.clone();
        line.append(": ");
        line.append(text);
        state.sessions.broadcast(self.channel_name.as_str(), line.as_str())
    }

    /// The session starts: it joins its channel, is marked online, a join
    /// notice is logged, and the notice goes to every session of the channel,
    /// this one included.
    pub fn started(&self, state: &mut ChatState, timestamp: &str) -> (r: SessionOutput)
        requires
            old(state).wf(),
        ensures
            final(state).wf(),
            final(state).sessions.members(self.channel_name@)
                == with_member(old(state).sessions.members(self.channel_name@), self.id),
            forall|c: Seq<char>| c != self.channel_name@ ==> #[trigger] final(state).sessions.members(c) == old(state).sessions.members(c),
            status_set(old(state).statuses, final(state).statuses, self.channel_name@, self.user_name@,
                Presence { online: true, timestamp: timestamp@ }),
            logged(old(state).messages, final(state).messages, self.channel_name@,
                Record { timestamp: timestamp@, username: system_name(), message: join_notice(self.user_name@) }),
            reports(r.stored, old(state).messages, self.channel_name@,
                Record { timestamp: timestamp@, username: system_name(), message: join_notice(self.user_name@) }),
            status_record(r.status, self.user_name@, true, timestamp@),
            delivers(r.deliveries@, final(state).sessions.members(self.channel_name@), join_notice(self.user_name@)),
    {
        let channel = self.channel_name.as_str();
        state.sessions.register(channel, self.id);
        state.statuses.set_status(channel, self.user_name.as_str(), true, timestamp);
        let mut notice = self.user_name.clone();
        notice.append(" joined the chat");
        let stored = log_best_effort(&mut state.messages, channel, "system", notice.as_str(), timestamp);
        let deliveries = state.sessions.broadcast(channel, notice.as_str());
        let status = UserStatus { username: self.user_name.clone(), online: true, timestamp: timestamp.to_owned() };
        SessionOutput { deliveries, stored, status: Some(status) }
    }

    /// An inbound text frame. The keep-alive text is dropped: nothing is
    /// logged, sent or changed. Any other text marks the session as heard
    /// from at `now`, is logged under the session's user, and goes to every
    /// session of the channel, the sender included.
    pub fn handle_text(&mut self, state: &mut ChatState, text: &str, timestamp: &str, now: u64) -> (r: SessionOutput)
        requires
            old(state).wf(),
        ensures
            final(state).wf(),
            final(self).id == old(self).id,
            final(self).user_name@ == old(self).user_name@,
            final(self).channel_name@ == old(self).channel_name@,
            final(state).sessions == old(state).sessions,
            final(state).statuses == old(state).statuses,
            r.status is None,
            text@ == heartbeat_token() ==> {
                &&& r.deliveries@.len() == 0
                &&& r.stored is None
                &&& final(state).messages == old(state).messages
                &&& final(self).hb == old(self).hb
            },
            text@ != heartbeat_token() ==> {
                &&& final(self).hb == now
                &&& logged(old(state).messages, final(state).messages, old(self).channel_name@,
                    Record { timestamp: timestamp@, username: old(self).user_name@, message: text@ })
                &&& reports(r.stored, old(state).messages, old(self).channel_name@,
                    Record { timestamp: timestamp@, username: old(self).user_name@, message: text@ })
                &&& delivers(r.deliveries@, old(state).sessions.members(old(self).channel_name@), chat_line(old(self).user_name@, text@))
            },
    {
        if is_heartbeat(text) {
            return SessionOutput { deliveries: Vec::new(), stored: None, status: None };
        }
        self.hb = now;
        let stored = log_best_effort(&mut state.messages, self.channel_name.as_str(), self.user_name.as_str(), text, timestamp);
        let deliveries = self.broadcast_message(state, text);
        SessionOutput { deliveries, stored, status: None }
    }

    /// A transport-level ping or pong came in at `now`.
    pub fn handle_pong(&mut self, now: u64)
        ensures
            final(self).hb == now,
            final(self).id == old(self).id,
            final(self).user_name@ == old(self).user_name@,
            final(self).channel_name@ == old(self).channel_name@,
    {
        self.hb = now;
    }

    /// What the heartbeat timer does when it fires at `now`.
    pub fn heartbeat(&self, now: u64) -> (r: HeartbeatAction)
        ensures
            r == (if is_alive(self.hb, now) { HeartbeatAction::SendPing } else { HeartbeatAction::Stop }),
    {
        heartbeat_check(self.hb, now)
    }

    /// The session stops, by a close or a heartbeat timeout: it leaves its
    /// channel, is marked offline, a leave notice is logged, and the notice
    /// goes to the sessions that remain.
    pub fn stopped(&self, state: &mut ChatState, timestamp: &str) -> (r: SessionOutput)
        requires
            old(state).wf(),
        ensures
            final(state).wf(),
            final(state).sessions.members(self.channel_name@)
                == without(old(state).sessions.members(self.channel_name@), self.id),
            !final(state).sessions.members(self.channel_name@).contains(self.id),
            old(state).messages.next_key() < u64::MAX ==> final(state).messages.history(self.channel_name@).last()
                == (Record { timestamp: timestamp@, username: system_name(), message: leave_notice(self.user_name@) }),
            forall|c: Seq<char>| c != self.channel_name@ ==> #[trigger] final(state).sessions.members(c) == old(state).sessions.members(c),
            status_set(old(state).statuses, final(state).statuses, self.channel_name@, self.user_name@,
                Presence { online: false, timestamp: timestamp@ }),
            logged(old(state).messages, final(state).messages, self.channel_name@,
                Record { timestamp: timestamp@, username: system_name(), message: leave_notice(self.user_name@) }),
            reports(r.stored, old(state).messages, self.channel_name@,
                Record { timestamp: timestamp@, username: system_name(), message: leave_notice(self.user_name@) }),
            status_record(r.status, self.user_name@, false, timestamp@),
            delivers(r.deliveries@, final(state).sessions.members(self.channel_name@), leave_notice(self.user_name@)),
    {
        let channel = self.channel_name.as_str();
        state.sessions.unregister(channel, self.id);
        proof {
            broadcast use vstd::seq_lib::group_filter_ensures;
            let rest = without(old(state).sessions.members(self.channel_name@), self.id);
            if rest.contains(self.id) {
                let w = choose|w: int| 0 <= w < rest.len() && rest[w] == self.id;
                assert(crate::registry::other_than(self.id)(rest[w]));
            }
        }
        state.statuses.set_status(channel, self.user_name.as_str(), false, timestamp);
        let mut notice = self.user_name.clone();
        notice.append(" left the chat");
        let stored = log_best_effort(&mut state.messages, channel, "system", notice.as_str(), timestamp);
        let deliveries = state.sessions.broadcast(channel, notice.as_str());
        let status = UserStatus { username: self.user_name.clone(), online: false, timestamp: timestamp.to_owned() };
        SessionOutput { deliveries, stored, status: Some(status) }
    }
}

} // verus!
