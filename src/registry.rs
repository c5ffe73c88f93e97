use vstd::prelude::*;

verus! {

/// The sessions of one channel, in the order in which they registered.
struct ChannelEntry {
    name: String,
    sessions: Vec<u64>,
}

/// One message that the registry hands out for delivery to one session.
#[derive(Debug)]
pub struct Delivery {
    pub to: u64,
    pub text: String,
}

/// `s` with every occurrence of `x` taken out, order kept.
pub open spec fn without(s: Seq<u64>, x: u64) -> Seq<u64> {
    s.filter(other_than(x))
}

/// The test that keeps every session but `x`.
pub open spec fn other_than(x: u64) -> spec_fn(u64) -> bool {
    |y: u64| y != x
}

/// `s` with `x` added at the end, unless it is already there.
pub open spec fn with_member(s: Seq<u64>, x: u64) -> Seq<u64> {
    if s.contains(x) {
        s
    } else {
        s.push(x)
    }
}

/// True when `d` delivers `text` to exactly `members`, one message each, in order.
pub open spec fn delivers(d: Seq<Delivery>, members: Seq<u64>, text: Seq<char>) -> bool {
    &&& d.len() == members.len()
    &&& forall|k: int| 0 <= k < d.len() ==> (#[trigger] d[k]).to == members[k] && d[k].text@ == text
}

spec fn names_unique(es: Seq<ChannelEntry>) -> bool {
    forall|i: int, j: int|
        0 <= i < es.len() && 0 <= j < es.len() && i != j ==> es[i].name@ != es[j].name@
}

/// One registry operation, as a caller issues it.
pub enum RegistryOp {
    Register(Seq<char>, u64),
    Unregister(Seq<char>, u64),
}

/// The sessions that `ops` leaves in channel `ch`: those registered there and
/// not unregistered from there since.
pub open spec fn live(ops: Seq<RegistryOp>, ch: Seq<char>) -> Set<u64>
    decreases ops.len(),
{
    if ops.len() == 0 {
        Set::empty()
    } else {
        let rest = live(ops.drop_last(), ch);
        match ops.last() {
            RegistryOp::Register(c, s) => if c == ch { rest.insert(s) } else { rest },
            RegistryOp::Unregister(c, s) => if c == ch { rest.remove(s) } else { rest },
        }
    }
}

/// What `register` and `unregister` promise of the registry `b` that one
/// operation `op` leaves behind from `a`.
pub open spec fn transition(a: BroadcastRegistry, b: BroadcastRegistry, op: RegistryOp) -> bool {
    match op {
        RegistryOp::Register(ch, s) => {
            &&& b.wf()
            &&& b.members(ch) == with_member(a.members(ch), s)
            &&& forall|c: Seq<char>| c != ch ==> #[trigger] b.members(c) == a.members(c)
        },
        RegistryOp::Unregister(ch, s) => {
            &&& b.wf()
            &&& b.members(ch) == without(a.members(ch), s)
            &&& forall|c: Seq<char>| c != ch ==> #[trigger] b.members(c) == a.members(c)
        },
    }
}

/// For every sequence of registrations and unregistrations applied to an
/// empty registry, the sessions reachable for each channel are exactly those
/// registered there and not yet unregistered, each of them once.
pub proof fn lemma_registry_tracks_live(states: Seq<BroadcastRegistry>, ops: Seq<RegistryOp>)
    requires
        states.len() == ops.len() + 1,
        states[0].wf(),
        forall|ch: Seq<char>| #[trigger] states[0].members(ch) == Seq::<u64>::empty(),
        forall|k: int| 0 <= k < ops.len() ==> transition(states[k], #[trigger] states[k + 1], ops[k]),
    ensures
        forall|ch: Seq<char>| #[trigger] states.last().members(ch).to_set() == live(ops, ch),
        forall|ch: Seq<char>| (#[trigger] states.last().members(ch)).no_duplicates(),
    decreases ops.len(),
{
    broadcast use vstd::seq_lib::group_filter_ensures;
    let last = states.last();
    if ops.len() == 0 {
        assert forall|ch: Seq<char>| #[trigger] last.members(ch).to_set() == live(ops, ch) by {
            assert(last.members(ch).to_set() =~= Set::<u64>::empty());
        }
        assert forall|ch: Seq<char>| (#[trigger] last.members(ch)).no_duplicates() by {
            assert(last.members(ch) == Seq::<u64>::empty());
        }
    } else {
        let n = ops.len() - 1;
        let prev_states = states.drop_last();
        let prev_ops = ops.drop_last();
        assert forall|k: int| 0 <= k < prev_ops.len() implies transition(prev_states[k], #[trigger] prev_states[k + 1], prev_ops[k]) by {
            assert(transition(states[k], states[k + 1], ops[k]));
        }
        lemma_registry_tracks_live(prev_states, prev_ops);
        let prev = prev_states.last();
        assert(prev == states[n]);
        assert(last == states[n + 1]);
        assert(transition(prev, last, ops[n]));
        last.lemma_wf();
        assert forall|ch: Seq<char>| #[trigger] last.members(ch).to_set() == live(ops, ch) by {
            let before = prev.members(ch);
            assert(before.to_set() == live(prev_ops, ch));
            match ops.last() {
                RegistryOp::Register(c, s) => {
                    if c == ch {
                        assert(last.members(ch).to_set() =~= before.to_set().insert(s)) by {
                            if !before.contains(s) {
                                assert(before.push(s).to_set() =~= before.to_set().insert(s)) by {
                                    assert forall|t: u64| before.push(s).contains(t) <==> before.contains(t) || t == s by {
                                        if before.push(s).contains(t) {
                                            let w = choose|w: int| 0 <= w < before.push(s).len() && before.push(s)[w] == t;
                                            if w < before.len() { assert(before[w] == t); }
                                        }
                                        if before.contains(t) {
                                            let w = choose|w: int| 0 <= w < before.len() && before[w] == t;
                                            assert(before.push(s)[w] == t);
                                        }
                                        if t == s { assert(before.push(s)[before.len() as int] == s); }
                                    }
                                }
                            }
                        }
                    }
                },
                RegistryOp::Unregister(c, s) => {
                    if c == ch {
                        let pred = other_than(s);
                        assert(last.members(ch).to_set() =~= before.to_set().remove(s)) by {
                            assert forall|t: u64| before.filter(pred).contains(t) <==> before.contains(t) && t != s by {
                                if before.filter(pred).contains(t) {
                                    let w = choose|w: int| 0 <= w < before.filter(pred).len() && before.filter(pred)[w] == t;
                                    assert(pred(before.filter(pred)[w]));
                                    before.lemma_filter_contains_rev(pred, t);
                                }
                                if before.contains(t) && t != s {
                                    let w = choose|w: int| 0 <= w < before.len() && before[w] == t;
                                    before.lemma_filter_contains(pred, w);
                                }
                            }
                        }
                    }
                },
            }
        }
    }
}

/// Process-wide map from channel name to the sessions currently in that channel.
///
/// A channel holds each session at most once, and a channel whose last session
/// leaves is removed.
pub struct BroadcastRegistry {
    entries: Vec<ChannelEntry>,
}

impl BroadcastRegistry {
    /// The registry's invariant: channel names unique, no channel empty, no
    /// session twice in one channel.
    pub closed spec fn wf(&self) -> bool {
        &&& names_unique(self.entries@)
        &&& forall|i: int|
            0 <= i < self.entries@.len() ==> (#[trigger] self.entries@[i]).sessions@.len() > 0
                && self.entries@[i].sessions@.no_duplicates()
    }

    /// True when the registry holds an entry for channel `ch`.
    pub closed spec fn has_channel(&self, ch: Seq<char>) -> bool {
        exists|i: int| 0 <= i < self.entries@.len() && (#[trigger] self.entries@[i]).name@ == ch
    }

    /// The sessions registered for `ch`, in registration order (empty if none).
    pub closed spec fn members(&self, ch: Seq<char>) -> Seq<u64> {
        if self.has_channel(ch) {
            self.entries@[choose|i: int|
                0 <= i < self.entries@.len() && (#[trigger] self.entries@[i]).name@ == ch].sessions@
        } else {
            Seq::empty()
        }
    }

    proof fn lemma_members_at(&self, i: int)
        requires
            names_unique(self.entries@),
            0 <= i < self.entries@.len(),
        ensures
            self.has_channel(self.entries@[i].name@),
            self.members(self.entries@[i].name@) == self.entries@[i].sessions@,
    {
        let ch = self.entries@[i].name@;
        assert(self.has_channel(ch));
        let j = choose|j: int| 0 <= j < self.entries@.len() && (#[trigger] self.entries@[j]).name@ == ch;
        assert(j == i);
    }

    /// What the invariant means for every channel: an entry exists exactly
    /// when the channel has sessions, and none of them appears twice.
    pub proof fn lemma_wf(&self)
        requires
            self.wf(),
        ensures
            forall|ch: Seq<char>| #[trigger] self.has_channel(ch) <==> self.members(ch).len() > 0,
            forall|ch: Seq<char>| (#[trigger] self.members(ch)).no_duplicates(),
    {
        assert forall|ch: Seq<char>| #[trigger] self.has_channel(ch) <==> self.members(ch).len() > 0 by {
            if self.has_channel(ch) {
                let i = choose|i: int| 0 <= i < self.entries@.len() && (#[trigger] self.entries@[i]).name@ == ch;
                self.lemma_members_at(i);
            }
        }
        assert forall|ch: Seq<char>| (#[trigger] self.members(ch)).no_duplicates() by {
            if self.has_channel(ch) {
                let i = choose|i: int| 0 <= i < self.entries@.len() && (#[trigger] self.entries@[i]).name@ == ch;
                self.lemma_members_at(i);
            }
        }
    }

    /// An empty registry.
    pub fn new() -> (r: Self)
        ensures
            r.wf(),
            forall|ch: Seq<char>| !#[trigger] r.has_channel(ch),
            forall|ch: Seq<char>| #[trigger] r.members(ch) == Seq::<u64>::empty(),
    {
        BroadcastRegistry { entries: Vec::new() }
    }

    fn find(&self, ch: &String) -> (r: Option<usize>)
        requires
            self.wf(),
        ensures
            match r {
                Some(i) => i < self.entries@.len() && self.entries@[i as int].name@ == ch@,
                None => !self.has_channel(ch@),
            },
    {
        let mut i: usize = 0;
        while i < self.entries.len()
            invariant
                i <= self.entries@.len(),
                forall|k: int| 0 <= k < i ==> (#[trigger] self.entries@[k]).name@ != ch@,
            decreases self.entries@.len() - i,
        {
            if self.entries[i].name == *ch {
                return Some(i);
            }
            i = i + 1;
        }
        None
    }

    /// Adds `session` to the sessions of `channel`, creating the channel's
    /// entry if it has none. A session already in the channel is not added twice.
    pub fn register(&mut self, channel: &str, session: u64)
        requires
            old(self).wf(),
        ensures
            final(self).wf(),
            final(self).members(channel@) == with_member(old(self).members(channel@), session),
            forall|c: Seq<char>| c != channel@ ==> #[trigger] final(self).members(c) == old(self).members(c),
    {
        let ch = channel.to_owned();
        let ghost before = *self;
        match self.find(&ch) {
            Some(i) => {
                proof { before.lemma_members_at(i as int); }
                let mut present = false;
                let mut sessions: Vec<u64> = Vec::new();
                let mut k: usize = 0;
                let n = self.entries[i].sessions.len();
                while k < n
                    invariant
                        *self == before,
                        i < self.entries@.len(),
                        n == self.entries@[i as int].sessions@.len(),
                        k <= n,
                        sessions@ == self.entries@[i as int].sessions@.subrange(0, k as int),
                        present == self.entries@[i as int].sessions@.subrange(0, k as int).contains(session),
                    decreases n - k,
                {
                    let s = self.entries[i].sessions[k];
                    if s == session {
                        present = true;
                    }
                    sessions.push(s);
                    proof {
                        let old_sub = self.entries@[i as int].sessions@.subrange(0, k as int);
                        let new_sub = self.entries@[i as int].sessions@.subrange(0, k as int + 1);
                        assert(new_sub == old_sub.push(s));
                        assert(new_sub.contains(session) == (old_sub.contains(session) || s == session)) by {
                            if s == session {
                                assert(new_sub[k as int] == session);
                            }
                            if old_sub.contains(session) {
                                let w = choose|w: int| 0 <= w < old_sub.len() && old_sub[w] == session;
                                assert(new_sub[w] == session);
                            }
                        }
                    }
                    k = k + 1;
                }
                proof {
                    assert(self.entries@[i as int].sessions@.subrange(0, n as int) == self.entries@[i as int].sessions@);
                }
                if !present {
                    sessions.push(session);
                    let entry = ChannelEntry { name: ch, sessions };
                    self.entries.set(i, entry);
                    proof {
                        self.lemma_members_at(i as int);
                        assert forall|c: Seq<char>| c != channel@ implies #[trigger] self.members(c) == before.members(c) by {
                            if before.has_channel(c) {
                                let j = choose|j: int| 0 <= j < before.entries@.len() && (#[trigger] before.entries@[j]).name@ == c;
                                before.lemma_members_at(j);
                                self.lemma_members_at(j);
                            } else {
                                if self.has_channel(c) {
                                    let j = choose|j: int| 0 <= j < self.entries@.len() && (#[trigger] self.entries@[j]).name@ == c;
                                    assert(before.entries@[j].name@ == c);
                                }
                            }
                        }
                    }
                }
            },
            None => {
                let mut sessions: Vec<u64> = Vec::new();
                sessions.push(session);
                let entry = ChannelEntry { name: ch, sessions };
                self.entries.push(entry);
                proof {
                    let last = self.entries@.len() - 1;
                    assert(names_unique(self.entries@)) by {
                        assert forall|a: int, b: int|
                            0 <= a < self.entries@.len() && 0 <= b < self.entries@.len() && a != b
                            implies self.entries@[a].name@ != self.entries@[b].name@ by {
                            if a == last {
                                assert(before.entries@[b] == self.entries@[b]);
                            } else if b == last {
                                assert(before.entries@[a] == self.entries@[a]);
                            }
                        }
                    }
                    assert(self.entries@[last].sessions@ == seq![session]);
                    assert(seq![session].no_duplicates());
                    self.lemma_members_at(last);
                    assert(before.members(channel@) == Seq::<u64>::empty());
                    assert(Seq::<u64>::empty().push(session) == seq![session]);
                    assert forall|c: Seq<char>| c != channel@ implies #[trigger] self.members(c) == before.members(c) by {
                        if before.has_channel(c) {
                            let j = choose|j: int| 0 <= j < before.entries@.len() && (#[trigger] before.entries@[j]).name@ == c;
                            before.lemma_members_at(j);
                            assert(self.entries@[j] == before.entries@[j]);
                            self.lemma_members_at(j);
                        } else {
                            if self.has_channel(c) {
                                let j = choose|j: int| 0 <= j < self.entries@.len() && (#[trigger] self.entries@[j]).name@ == c;
                                assert(j != last);
                                assert(before.entries@[j].name@ == c);
                            }
                        }
                    }
                }
            },
        }
    }

    /// Takes `session` out of the sessions of `channel`; the channel's entry is
    /// removed once no session is left in it.
    pub fn unregister(&mut self, channel: &str, session: u64)
        requires
            old(self).wf(),
        ensures
            final(self).wf(),
            final(self).members(channel@) == without(old(self).members(channel@), session),
            forall|c: Seq<char>| c != channel@ ==> #[trigger] final(self).members(c) == old(self).members(c),
    {
        let ch = channel.to_owned();
        let ghost before = *self;
        match self.find(&ch) {
            None => {
                proof {
                    reveal(Seq::filter);
                    assert(without(Seq::<u64>::empty(), session) == Seq::<u64>::empty());
                }
            },
            Some(i) => {
                proof { before.lemma_members_at(i as int); }
                let ghost old_s = self.entries@[i as int].sessions@;
                let mut kept: Vec<u64> = Vec::new();
                let mut k: usize = 0;
                let n = self.entries[i].sessions.len();
                while k < n
                    invariant
                        *self == before,
                        i < self.entries@.len(),
                        old_s == self.entries@[i as int].sessions@,
                        old_s.no_duplicates(),
                        n == old_s.len(),
                        k <= n,
                        kept@ == without(old_s.subrange(0, k as int), session),
                        kept@.no_duplicates(),
                        forall|t: u64| kept@.contains(t) ==> old_s.subrange(0, k as int).contains(t),
                    decreases n - k,
                {
                    let s = self.entries[i].sessions[k];
                    let ghost prev = kept@;
                    proof {
                        let sub = old_s.subrange(0, k as int);
                        let sub1 = old_s.subrange(0, k as int + 1);
                        assert(sub1.drop_last() == sub);
                        assert(sub1.last() == s);
                        reveal(Seq::filter);
                        assert(without(sub1, session) == (if s != session { without(sub, session).push(s) } else { without(sub, session) }));
                        assert(!sub.contains(s)) by {
                            if sub.contains(s) {
                                let w = choose|w: int| 0 <= w < sub.len() && sub[w] == s;
                                assert(old_s[w] == old_s[k as int]);
                            }
                        }
                    }
                    if s != session {
                        kept.push(s);
                    }
                    proof {
                        let sub = old_s.subrange(0, k as int);
                        let sub1 = old_s.subrange(0, k as int + 1);
                        assert forall|t: u64| kept@.contains(t) implies sub1.contains(t) by {
                            if prev.contains(t) {
                                let w = choose|w: int| 0 <= w < sub.len() && sub[w] == t;
                                assert(sub1[w] == t);
                            } else {
                                assert(sub1[k as int] == t);
                            }
                        }
                        if s != session {
                            assert(!prev.contains(s));
                            assert forall|a: int, b: int| 0 <= a < kept@.len() && 0 <= b < kept@.len() && a != b
                                implies kept@[a] != kept@[b] by {
                                if a == prev.len() as int {
                                    assert(prev.contains(kept@[b]));
                                } else if b == prev.len() as int {
                                    assert(prev.contains(kept@[a]));
                                }
                            }
                        }
                    }
                    k = k + 1;
                }
                proof {
                    assert(old_s.subrange(0, n as int) == old_s);
                }
                if kept.len() == 0 {
                    self.entries.remove(i);
                    proof {
                        assert(names_unique(self.entries@)) by {
                            assert forall|a: int, b: int|
                                0 <= a < self.entries@.len() && 0 <= b < self.entries@.len() && a != b
                                implies self.entries@[a].name@ != self.entries@[b].name@ by {
                                let a0 = if a < i { a } else { a + 1 };
                                let b0 = if b < i { b } else { b + 1 };
                                assert(self.entries@[a] == before.entries@[a0]);
                                assert(self.entries@[b] == before.entries@[b0]);
                            }
                        }
                        assert forall|q: int| 0 <= q < self.entries@.len() implies (#[trigger] self.entries@[q]).sessions@.len() > 0
                            && self.entries@[q].sessions@.no_duplicates() by {
                            let q0 = if q < i { q } else { q + 1 };
                            assert(self.entries@[q] == before.entries@[q0]);
                        }
                        assert(!self.has_channel(channel@)) by {
                            if self.has_channel(channel@) {
                                let j = choose|j: int| 0 <= j < self.entries@.len() && (#[trigger] self.entries@[j]).name@ == channel@;
                                let j0 = if j < i { j } else { j + 1 };
                                assert(self.entries@[j] == before.entries@[j0]);
                            }
                        }
                        assert(without(old_s, session) =~= Seq::<u64>::empty());
                        assert forall|c: Seq<char>| c != channel@ implies #[trigger] self.members(c) == before.members(c) by {
                            if before.has_channel(c) {
                                let j = choose|j: int| 0 <= j < before.entries@.len() && (#[trigger] before.entries@[j]).name@ == c;
                                before.lemma_members_at(j);
                                let j1 = if j < i { j } else { j - 1 };
                                assert(self.entries@[j1] == before.entries@[j]);
                                self.lemma_members_at(j1);
                            } else {
                                if self.has_channel(c) {
                                    let j = choose|j: int| 0 <= j < self.entries@.len() && (#[trigger] self.entries@[j]).name@ == c;
                                    let j0 = if j < i { j } else { j + 1 };
                                    assert(self.entries@[j] == before.entries@[j0]);
                                }
                            }
                        }
                    }
                } else {
                    let entry = ChannelEntry { name: ch, sessions: kept };
                    self.entries.set(i, entry);
                    proof {
                        assert(names_unique(self.entries@)) by {
                            assert forall|a: int, b: int|
                                0 <= a < self.entries@.len() && 0 <= b < self.entries@.len() && a != b
                                implies self.entries@[a].name@ != self.entries@[b].name@ by {
                                assert(self.entries@[a].name@ == before.entries@[a].name@);
                                assert(self.entries@[b].name@ == before.entries@[b].name@);
                            }
                        }
                        self.lemma_members_at(i as int);
                        assert forall|c: Seq<char>| c != channel@ implies #[trigger] self.members(c) == before.members(c) by {
                            if before.has_channel(c) {
                                let j = choose|j: int| 0 <= j < before.entries@.len() && (#[trigger] before.entries@[j]).name@ == c;
                                before.lemma_members_at(j);
                                self.lemma_members_at(j);
                            } else {
                                if self.has_channel(c) {
                                    let j = choose|j: int| 0 <= j < self.entries@.len() && (#[trigger] self.entries@[j]).name@ == c;
                                    assert(before.entries@[j].name@ == c);
                                }
                            }
                        }
                    }
                }
            },
        }
    }

    /// The sessions of `channel`, in registration order.
    pub fn members_of(&self, channel: &str) -> (r: Vec<u64>)
        requires
            self.wf(),
        ensures
            r@ == self.members(channel@),
    {
        let ch = channel.to_owned();
        let mut r: Vec<u64> = Vec::new();
        match self.find(&ch) {
            None => {},
            Some(i) => {
                proof { self.lemma_members_at(i as int); }
                let n = self.entries[i].sessions.len();
                let mut k: usize = 0;
                while k < n
                    invariant
                        i < self.entries@.len(),
                        n == self.entries@[i as int].sessions@.len(),
                        k <= n,
                        r@ == self.entries@[i as int].sessions@.subrange(0, k as int),
                    decreases n - k,
                {
                    r.push(self.entries[i].sessions[k]);
                    proof {
                        assert(self.entries@[i as int].sessions@.subrange(0, k as int + 1)
                            == self.entries@[i as int].sessions@.subrange(0, k as int).push(self.entries@[i as int].sessions@[k as int]));
                    }
                    k = k + 1;
                }
                proof { assert(self.entries@[i as int].sessions@.subrange(0, n as int) == self.entries@[i as int].sessions@); }
            },
        }
        r
    }

    /// One delivery of `text` to each session of `channel`, in registration order.
    pub fn broadcast(&self, channel: &str, text: &str) -> (r: Vec<Delivery>)
        requires
            self.wf(),
        ensures
            delivers(r@, self.members(channel@), text@),
    {
        let targets = self.members_of(channel);
        let mut r: Vec<Delivery> = Vec::new();
        let mut k: usize = 0;
        while k < targets.len()
            invariant
                k <= targets@.len(),
                targets@ == self.members(channel@),
                r@.len() == k,
                forall|q: int| 0 <= q < k ==> (#[trigger] r@[q]).to == targets@[q] && r@[q].text@ == text@,
            decreases targets@.len() - k,
        {
            r.push(Delivery { to: targets[k], text: text.to_owned() });
            k = k + 1;
        }
        r
    }
}

} // verus!
