use vstd::prelude::*;

verus! {

/// The last known status of one user in one channel, as the contracts see it.
pub struct Presence {
    pub online: bool,
    pub timestamp: Seq<char>,
}

/// The last known status of one user in one channel.
#[derive(Debug)]
pub struct UserStatus {
    pub username: String,
    pub online: bool,
    pub timestamp: String,
}

impl UserStatus {
    /// The status as a word: "Online" or "Offline".
    pub fn status_text(&self) -> (r: String)
        ensures
            r@ == (if self.online { "Online"@ } else { "Offline"@ }),
    {
        if self.online {
            "Online".to_owned()
        } else {
            "Offline".to_owned()
        }
    }
}

struct PresenceEntry {
    channel: String,
    username: String,
    online: bool,
    timestamp: String,
}

spec fn pairs_unique(es: Seq<PresenceEntry>) -> bool {
    forall|i: int, j: int|
        0 <= i < es.len() && 0 <= j < es.len() && i != j ==> es[i].channel@ != es[j].channel@
            || es[i].username@ != es[j].username@
}

/// What `set_status` promises of the tracker `b` that it leaves behind from `a`.
pub open spec fn status_set(a: PresenceTracker, b: PresenceTracker, ch: Seq<char>, user: Seq<char>, p: Presence) -> bool {
    &&& b.wf()
    &&& b.status(ch, user) == Some(p)
    &&& forall|c: Seq<char>, u: Seq<char>|
        (c != ch || u != user) ==> #[trigger] b.status(c, u) == a.status(c, u)
}

/// True when `r` lists every user that `t` knows in channel `ch` exactly once,
/// each with its current status.
pub open spec fn lists_channel(t: PresenceTracker, ch: Seq<char>, r: Seq<UserStatus>) -> bool {
    &&& forall|i: int, j: int| 0 <= i < j < r.len() ==> r[i].username@ != r[j].username@
    &&& forall|i: int| 0 <= i < r.len() ==> t.status(ch, (#[trigger] r[i]).username@)
        == Some(Presence { online: r[i].online, timestamp: r[i].timestamp@ })
    &&& forall|u: Seq<char>| #[trigger] t.status(ch, u) is Some ==> exists|i: int| 0 <= i < r.len() && (#[trigger] r[i]).username@ == u
}

/// Last known online/offline status per (channel, username): one current
/// record each, overwritten on every change and kept after the user leaves.
pub struct PresenceTracker {
    entries: Vec<PresenceEntry>,
}

impl PresenceTracker {
    /// The tracker's invariant: one record per (channel, username).
    pub closed spec fn wf(&self) -> bool {
        pairs_unique(self.entries@)
    }

    spec fn matches(&self, i: int, ch: Seq<char>, user: Seq<char>) -> bool {
        0 <= i < self.entries@.len() && self.entries@[i].channel@ == ch && self.entries@[i].username@ == user
    }

    /// The current status of `user` in channel `ch`, if one was ever set.
    pub closed spec fn status(&self, ch: Seq<char>, user: Seq<char>) -> Option<Presence> {
        if exists|i: int| #[trigger] self.matches(i, ch, user) {
            let i = choose|i: int| #[trigger] self.matches(i, ch, user);
            Some(Presence { online: self.entries@[i].online, timestamp: self.entries@[i].timestamp@ })
        } else {
            None
        }
    }

    proof fn lemma_at(&self, i: int)
        requires
            self.wf(),
            0 <= i < self.entries@.len(),
        ensures
            self.status(self.entries@[i].channel@, self.entries@[i].username@) == Some(
                Presence { online: self.entries@[i].online, timestamp: self.entries@[i].timestamp@ },
            ),
    {
        let e = self.entries@[i];
        assert(self.matches(i, e.channel@, e.username@));
        let j = choose|j: int| #[trigger] self.matches(j, e.channel@, e.username@);
        assert(j == i);
    }

    /// A tracker that knows no user.
    pub fn new() -> (r: Self)
        ensures
            r.wf(),
            forall|c: Seq<char>, u: Seq<char>| #[trigger] r.status(c, u) is None,
    {
        PresenceTracker { entries: Vec::new() }
    }

    /// Records that `username` is now online or offline in `channel`, as of
    /// `timestamp`, in place of any earlier record of that user there.
    pub fn set_status(&mut self, channel: &str, username: &str, online: bool, timestamp: &str)
        requires
            old(self).wf(),
        ensures
            status_set(*old(self), *final(self), channel@, username@, Presence { online, timestamp: timestamp@ }),
    {
        let ghost before = *self;
        let ch = channel.to_owned();
        let user = username.to_owned();
        let entry = PresenceEntry { channel: ch.clone(), username: user.clone(), online, timestamp: timestamp.to_owned() };
        let mut i: usize = 0;
        while i < self.entries.len()
            invariant
                *self == before,
                before == *old(self),
                before.wf(),
                i <= self.entries@.len(),
                ch@ == channel@,
                user@ == username@,
                entry.channel@ == ch@,
                entry.username@ == user@,
                entry.online == online,
                entry.timestamp@ == timestamp@,
                forall|k: int| 0 <= k < i ==> !#[trigger] self.matches(k, ch@, user@),
            decreases self.entries@.len() - i,
        {
            if self.entries[i].channel == ch && self.entries[i].username == user {
                self.entries.set(i, entry);
                proof {
                    assert(before.matches(i as int, ch@, user@));
                    assert(self.entries@ == before.entries@.update(i as int, entry));
                    assert(self.entries@[i as int].channel@ == before.entries@[i as int].channel@);
                    assert(self.entries@[i as int].username@ == before.entries@[i as int].username@);
                    assert(pairs_unique(self.entries@)) by {
                        assert forall|a: int, b: int|
                            0 <= a < self.entries@.len() && 0 <= b < self.entries@.len() && a != b
                            implies self.entries@[a].channel@ != self.entries@[b].channel@
                                || self.entries@[a].username@ != self.entries@[b].username@ by {
                            if a != i {
                                assert(self.entries@[a] == before.entries@[a]);
                            }
                            if b != i {
                                assert(self.entries@[b] == before.entries@[b]);
                            }
                        }
                    }
                    self.lemma_at(i as int);
                    assert(self.entries@[i as int] == entry);
                    assert(self.status(channel@, username@) == Some(Presence { online, timestamp: timestamp@ }));
                    assert forall|c: Seq<char>, u: Seq<char>| (c != channel@ || u != username@)
                        implies #[trigger] self.status(c, u) == before.status(c, u) by {
                        if exists|j: int| #[trigger] before.matches(j, c, u) {
                            let j = choose|j: int| #[trigger] before.matches(j, c, u);
                            before.lemma_at(j);
                            assert(j != i);
                            self.lemma_at(j);
                        } else if exists|j: int| #[trigger] self.matches(j, c, u) {
                            let j = choose|j: int| #[trigger] self.matches(j, c, u);
                            assert(before.matches(j, c, u));
                        }
                    }
                    assert(status_set(before, *self, channel@, username@, Presence { online, timestamp: timestamp@ }));
                }
                return;
            }
            i = i + 1;
        }
        self.entries.push(entry);
        proof {
            let last = self.entries@.len() - 1;
            assert(pairs_unique(self.entries@)) by {
                assert forall|a: int, b: int|
                    0 <= a < self.entries@.len() && 0 <= b < self.entries@.len() && a != b
                    implies self.entries@[a].channel@ != self.entries@[b].channel@
                        || self.entries@[a].username@ != self.entries@[b].username@ by {
                    if a == last {
                        assert(!before.matches(b, ch@, user@));
                    } else if b == last {
                        assert(!before.matches(a, ch@, user@));
                    }
                }
            }
            self.lemma_at(last);
            assert forall|c: Seq<char>, u: Seq<char>| (c != channel@ || u != username@)
                implies #[trigger] self.status(c, u) == before.status(c, u) by {
                if exists|j: int| #[trigger] before.matches(j, c, u) {
                    let j = choose|j: int| #[trigger] before.matches(j, c, u);
                    before.lemma_at(j);
                    assert(self.entries@[j] == before.entries@[j]);
                    self.lemma_at(j);
                } else if exists|j: int| #[trigger] self.matches(j, c, u) {
                    let j = choose|j: int| #[trigger] self.matches(j, c, u);
                    assert(j != last);
                    assert(before.matches(j, c, u));
                }
            }
        }
    }

    /// Every user known in `channel`, once each, with the current status;
    /// users who went offline are listed too.
    pub fn list_statuses(&self, channel: &str) -> (r: Vec<UserStatus>)
        requires
            self.wf(),
        ensures
            lists_channel(*self, channel@, r@),
    {
        let ch = channel.to_owned();
        let mut r: Vec<UserStatus> = Vec::new();
        let mut i: usize = 0;
        let ghost mut idx: Seq<int> = Seq::empty();
        while i < self.entries.len()
            invariant
                self.wf(),
                i <= self.entries@.len(),
                idx.len() == r@.len(),
                forall|a: int, b: int| 0 <= a < b < r@.len() ==> r@[a].username@ != r@[b].username@,
                forall|a: int| 0 <= a < r@.len() ==> self.status(ch@, (#[trigger] r@[a]).username@)
                    == Some(Presence { online: r@[a].online, timestamp: r@[a].timestamp@ }),
                forall|a: int| 0 <= a < r@.len() ==> 0 <= #[trigger] idx[a] < i && self.matches(idx[a], ch@, r@[a].username@),
                forall|k: int| 0 <= k < i && self.entries@[k].channel@ == ch@ ==> exists|a: int|
                    0 <= a < r@.len() && (#[trigger] r@[a]).username@ == self.entries@[k].username@,
            decreases self.entries@.len() - i,
        {
            if self.entries[i].channel == ch {
                let ghost before = r@;
                let ghost before_idx = idx;
                let e = &self.entries[i];
                r.push(UserStatus { username: e.username.clone(), online: e.online, timestamp: e.timestamp.clone() });
                proof {
                    idx = idx.push(i as int);
                    self.lemma_at(i as int);
                    let last = r@.len() - 1;
                    assert(self.matches(i as int, ch@, r@[last].username@));
                    assert forall|a: int, b: int| 0 <= a < b < r@.len() implies r@[a].username@ != r@[b].username@ by {
                        if b == last {
                            assert(r@[a] == before[a]);
                            assert(idx[a] == before_idx[a]);
                            assert(self.matches(before_idx[a], ch@, before[a].username@));
                        }
                    }
                    assert forall|a: int| 0 <= a < r@.len() implies 0 <= #[trigger] idx[a] < i + 1 && self.matches(idx[a], ch@, r@[a].username@) by {
                        if a < last {
                            assert(r@[a] == before[a]);
                            assert(idx[a] == before_idx[a]);
                            assert(self.matches(before_idx[a], ch@, before[a].username@));
                        }
                    }
                    assert forall|k: int| 0 <= k < i + 1 && self.entries@[k].channel@ == ch@ implies exists|a: int|
                        0 <= a < r@.len() && (#[trigger] r@[a]).username@ == self.entries@[k].username@ by {
                        if k < i {
                            let a = choose|a: int| 0 <= a < before.len() && (#[trigger] before[a]).username@ == self.entries@[k].username@;
                            assert(r@[a] == before[a]);
                        } else {
                            assert(r@[last].username@ == self.entries@[k].username@);
                        }
                    }
                }
            }
            i = i + 1;
        }
        proof {
            assert forall|u: Seq<char>| #[trigger] self.status(ch@, u) is Some implies exists|a: int|
                0 <= a < r@.len() && (#[trigger] r@[a]).username@ == u by {
                let k = choose|k: int| #[trigger] self.matches(k, ch@, u);
                assert(self.entries@[k].channel@ == ch@);
            }
        }
        r
    }
}

/// Setting the same status of the same user in the same channel twice leaves
/// the tracker as setting it once does: one current record, not two.
pub proof fn lemma_set_status_idempotent(
    t0: PresenceTracker,
    t1: PresenceTracker,
    t2: PresenceTracker,
    ch: Seq<char>,
    user: Seq<char>,
    p: Presence,
)
    requires
        status_set(t0, t1, ch, user, p),
        status_set(t1, t2, ch, user, p),
    ensures
        forall|c: Seq<char>, u: Seq<char>| #[trigger] t2.status(c, u) == t1.status(c, u),
        forall|r: Seq<UserStatus>| lists_channel(t2, ch, r) ==> lists_channel(t1, ch, r),
        forall|r: Seq<UserStatus>| #[trigger] lists_channel(t2, ch, r) ==> (exists|i: int| 0 <= i < r.len() && (#[trigger] r[i]).username@ == user)
            && forall|i: int, j: int| 0 <= i < r.len() && 0 <= j < r.len() && r[i].username@ == user && r[j].username@ == user ==> i == j,
{
    assert forall|c: Seq<char>, u: Seq<char>| #[trigger] t2.status(c, u) == t1.status(c, u) by {
        if c == ch && u == user {
        } else {
        }
    }
    assert forall|r: Seq<UserStatus>| lists_channel(t2, ch, r) implies lists_channel(t1, ch, r) by {
        assert forall|i: int| 0 <= i < r.len() implies t1.status(ch, (#[trigger] r[i]).username@)
            == Some(Presence { online: r[i].online, timestamp: r[i].timestamp@ }) by {
            assert(t2.status(ch, r[i].username@) == t1.status(ch, r[i].username@));
        }
        assert forall|u: Seq<char>| #[trigger] t1.status(ch, u) is Some implies exists|i: int| 0 <= i < r.len() && (#[trigger] r[i]).username@ == u by {
            assert(t2.status(ch, u) == t1.status(ch, u));
        }
    }
    assert forall|r: Seq<UserStatus>| #[trigger] lists_channel(t2, ch, r) implies (exists|i: int| 0 <= i < r.len() && (#[trigger] r[i]).username@ == user)
        && forall|i: int, j: int| 0 <= i < r.len() && 0 <= j < r.len() && r[i].username@ == user && r[j].username@ == user ==> i == j by {
        assert(t2.status(ch, user) is Some);
        assert forall|i: int, j: int| 0 <= i < r.len() && 0 <= j < r.len() && r[i].username@ == user && r[j].username@ == user implies i == j by {
            if i < j {
                assert(r[i].username@ != r[j].username@);
            } else if j < i {
                assert(r[j].username@ != r[i].username@);
            }
        }
    }
}

} // verus!
