use vstd::prelude::*;

verus! {

/// A chat record as the contracts see it.
pub struct Record {
    pub timestamp: Seq<char>,
    pub username: Seq<char>,
    pub message: Seq<char>,
}

/// One chat or system message of a channel. Immutable once written.
#[derive(Debug)]
pub struct ChatMessage {
    pub timestamp: String,
    pub username: String,
    pub message: String,
}

impl View for ChatMessage {
    type V = Record;

    open spec fn view(&self) -> Record {
        Record { timestamp: self.timestamp@, username: self.username@, message: self.message@ }
    }
}

impl ChatMessage {
    /// A message with the given fields.
    pub fn new(timestamp: &str, username: &str, message: &str) -> (r: ChatMessage)
        ensures
            r@ == (Record { timestamp: timestamp@, username: username@, message: message@ }),
    {
        ChatMessage {
            timestamp: timestamp.to_owned(),
            username: username.to_owned(),
            message: message.to_owned(),
        }
    }

    /// A message with the same fields as this one.
    pub fn duplicate(&self) -> (r: ChatMessage)
        ensures
            r@ == self@,
    {
        ChatMessage {
            timestamp: self.timestamp.clone(),
            username: self.username.clone(),
            message: self.message.clone(),
        }
    }
}

/// The application-level keep-alive text that clients send; it is never stored
/// as content, shown or relayed.
pub open spec fn heartbeat_token() -> Seq<char> {
    seq!['p', 'i', 'n', 'g']
}

/// True when a record's content is a real message, not the keep-alive text.
pub open spec fn is_shown(r: Record) -> bool {
    r.message != heartbeat_token()
}

/// The test that keeps what `is_shown` accepts.
pub open spec fn shown() -> spec_fn(Record) -> bool {
    |r: Record| is_shown(r)
}

/// `rs` without the keep-alive records, order kept.
pub open spec fn visible(rs: Seq<Record>) -> Seq<Record> {
    rs.filter(shown())
}

/// The records that a sequence of messages holds, in order.
pub open spec fn records_of(ms: Seq<ChatMessage>) -> Seq<Record> {
    ms.map_values(|m: ChatMessage| m@)
}

/// True when `text` is exactly the keep-alive text.
pub fn is_heartbeat(text: &str) -> (r: bool)
    ensures
        r == (text@ == heartbeat_token()),
{
    let token = "ping".to_owned();
    proof {
        reveal_strlit("ping");
        assert(token@ =~= heartbeat_token());
    }
    let t = text.to_owned();
    t == token
}

/// The messages of `msgs` whose content is not the keep-alive text, in order.
pub fn without_heartbeats(msgs: &Vec<ChatMessage>) -> (r: Vec<ChatMessage>)
    ensures
        records_of(r@) == visible(records_of(msgs@)),
{
    let mut r: Vec<ChatMessage> = Vec::new();
    let mut k: usize = 0;
    while k < msgs.len()
        invariant
            k <= msgs@.len(),
            records_of(r@) == visible(records_of(msgs@).subrange(0, k as int)),
        decreases msgs@.len() - k,
    {
        let ghost before = r@;
        let keep = !is_heartbeat(msgs[k].message.as_str());
        if keep {
            r.push(msgs[k].duplicate());
        }
        proof {
            let all = records_of(msgs@);
            let sub1 = all.subrange(0, k as int + 1);
            assert(sub1.drop_last() == all.subrange(0, k as int));
            assert(sub1.last() == msgs@[k as int]@);
            reveal(Seq::filter);
            if keep {
                assert(records_of(r@) == records_of(before).push(msgs@[k as int]@));
            } else {
                assert(records_of(r@) == records_of(before));
            }
        }
        k = k + 1;
    }
    proof {
        assert(records_of(msgs@).subrange(0, msgs@.len() as int) == records_of(msgs@));
    }
    r
}

/// One stored message and the key it was stored under.
struct Entry {
    key: u64,
    msg: ChatMessage,
}

/// The records of one channel, in write order.
struct ChannelRecords {
    name: String,
    entries: Vec<Entry>,
}

spec fn log_names_unique(cs: Seq<ChannelRecords>) -> bool {
    forall|i: int, j: int|
        0 <= i < cs.len() && 0 <= j < cs.len() && i != j ==> cs[i].name@ != cs[j].name@
}

/// True when `ks` strictly increases and stays below `bound`.
pub open spec fn keys_ordered_below(ks: Seq<u64>, bound: u64) -> bool {
    &&& forall|i: int, j: int| 0 <= i < j < ks.len() ==> ks[i] < ks[j]
    &&& forall|i: int| 0 <= i < ks.len() ==> ks[i] < bound
}

/// What `append` promises when it stores `m` in channel `ch` of `a` under
/// `key`, leaving `b`.
pub open spec fn appended(a: ChannelLog, b: ChannelLog, ch: Seq<char>, m: Record, key: u64) -> bool {
    &&& b.wf()
    &&& key == a.next_key()
    &&& b.next_key() == key + 1
    &&& b.history(ch) == a.history(ch).push(m)
    &&& b.keys(ch) == a.keys(ch).push(key)
    &&& forall|c: Seq<char>| c != ch ==> #[trigger] b.history(c) == a.history(c) && b.keys(c) == a.keys(c)
}

/// Appending records one after another to a channel that holds none, and then
/// reading the channel, gives back exactly those records in write order, and
/// each of them under its own key: records written at the same instant never
/// overwrite each other. Only keep-alive records are left out of what is read.
pub proof fn lemma_appends_read_back(states: Seq<ChannelLog>, ch: Seq<char>, msgs: Seq<Record>, keys: Seq<u64>)
    requires
        states.len() == msgs.len() + 1,
        keys.len() == msgs.len(),
        states[0].history(ch) == Seq::<Record>::empty(),
        states[0].keys(ch) == Seq::<u64>::empty(),
        forall|k: int| 0 <= k < msgs.len() ==> appended(states[k], #[trigger] states[k + 1], ch, msgs[k], keys[k]),
    ensures
        states.last().history(ch) == msgs,
        states.last().keys(ch) == keys,
        forall|i: int, j: int| 0 <= i < j < keys.len() ==> keys[i] < keys[j],
        visible(states.last().history(ch)) == visible(msgs),
        (forall|i: int| 0 <= i < msgs.len() ==> is_shown(#[trigger] msgs[i])) ==> visible(msgs) == msgs,
    decreases msgs.len(),
{
    if msgs.len() == 0 {
        assert(msgs =~= Seq::<Record>::empty());
        assert(keys =~= Seq::<u64>::empty());
    } else {
        let n = msgs.len() - 1;
        let ps = states.drop_last();
        let pm = msgs.drop_last();
        let pk = keys.drop_last();
        assert forall|k: int| 0 <= k < pm.len() implies appended(ps[k], #[trigger] ps[k + 1], ch, pm[k], pk[k]) by {
            assert(appended(states[k], states[k + 1], ch, msgs[k], keys[k]));
        }
        lemma_appends_read_back(ps, ch, pm, pk);
        assert(ps.last() == states[n]);
        assert(appended(states[n], states[n + 1], ch, msgs[n], keys[n]));
        assert(msgs =~= pm.push(msgs[n]));
        assert(keys =~= pk.push(keys[n]));
        lemma_keys_below_next(ps, ch, pm, pk);
        assert forall|i: int, j: int| 0 <= i < j < keys.len() implies keys[i] < keys[j] by {
            if j < n {
                assert(pk[i] < pk[j]);
            } else {
                assert(pk[i] < states[n].next_key());
            }
        }
    }
    if forall|i: int| 0 <= i < msgs.len() ==> is_shown(#[trigger] msgs[i]) {
        lemma_visible_all_shown(msgs);
    }
}

proof fn lemma_keys_below_next(states: Seq<ChannelLog>, ch: Seq<char>, msgs: Seq<Record>, keys: Seq<u64>)
    requires
        states.len() == msgs.len() + 1,
        keys.len() == msgs.len(),
        forall|k: int| 0 <= k < msgs.len() ==> appended(states[k], #[trigger] states[k + 1], ch, msgs[k], keys[k]),
    ensures
        forall|i: int| 0 <= i < keys.len() ==> keys[i] < states.last().next_key(),
    decreases msgs.len(),
{
    if msgs.len() > 0 {
        let n = msgs.len() - 1;
        let ps = states.drop_last();
        assert forall|k: int| 0 <= k < n implies appended(ps[k], #[trigger] ps[k + 1], ch, msgs.drop_last()[k], keys.drop_last()[k]) by {
            assert(appended(states[k], states[k + 1], ch, msgs[k], keys[k]));
        }
        lemma_keys_below_next(ps, ch, msgs.drop_last(), keys.drop_last());
        assert(appended(states[n], states[n + 1], ch, msgs[n], keys[n]));
        assert forall|i: int| 0 <= i < keys.len() implies keys[i] < states.last().next_key() by {
            if i < n {
                assert(keys.drop_last()[i] == keys[i]);
            }
        }
    }
}

proof fn lemma_visible_all_shown(rs: Seq<Record>)
    requires
        forall|i: int| 0 <= i < rs.len() ==> is_shown(#[trigger] rs[i]),
    ensures
        visible(rs) == rs,
    decreases rs.len(),
{
    reveal(Seq::filter);
    if rs.len() > 0 {
        lemma_visible_all_shown(rs.drop_last());
        assert(rs.drop_last().push(rs.last()) =~= rs);
    }
}

/// No record whose content is exactly the keep-alive text is ever among the
/// records that reading a channel gives back.
pub proof fn lemma_heartbeat_never_read(log: ChannelLog, ch: Seq<char>)
    ensures
        forall|i: int| 0 <= i < visible(log.history(ch)).len()
            ==> (#[trigger] visible(log.history(ch))[i]).message != heartbeat_token(),
{
    broadcast use vstd::seq_lib::group_filter_ensures;
    let rs = log.history(ch);
    assert forall|i: int| 0 <= i < visible(rs).len() implies (#[trigger] visible(rs)[i]).message != heartbeat_token() by {
        assert(shown()(rs.filter(shown())[i]));
    }
}

/// Append-only, per-channel record of chat and system messages.
///
/// Every record gets a key from one counter shared by all channels, so keys
/// never repeat and their order is the order of writing, whatever the
/// timestamps say.
pub struct ChannelLog {
    channels: Vec<ChannelRecords>,
    next_key: u64,
}

impl ChannelLog {
    /// The log's invariant: channel names unique, and each channel's keys
    /// strictly increasing and below the next key to hand out.
    pub closed spec fn wf(&self) -> bool {
        &&& log_names_unique(self.channels@)
        &&& forall|i: int|
            0 <= i < self.channels@.len() ==> keys_ordered_below(
                (#[trigger] self.channels@[i]).entries@.map_values(|e: Entry| e.key),
                self.next_key,
            )
    }

    /// The key that the next append will use.
    pub closed spec fn next_key(&self) -> u64 {
        self.next_key
    }

    /// True when channel `ch` has been written to.
    pub closed spec fn has_channel(&self, ch: Seq<char>) -> bool {
        exists|i: int| 0 <= i < self.channels@.len() && (#[trigger] self.channels@[i]).name@ == ch
    }

    spec fn index_of(&self, ch: Seq<char>) -> int {
        choose|i: int| 0 <= i < self.channels@.len() && (#[trigger] self.channels@[i]).name@ == ch
    }

    /// Every record written to channel `ch`, in write order (empty for a
    /// channel never written to).
    pub closed spec fn history(&self, ch: Seq<char>) -> Seq<Record> {
        if self.has_channel(ch) {
            self.channels@[self.index_of(ch)].entries@.map_values(|e: Entry| e.msg@)
        } else {
            Seq::empty()
        }
    }

    /// The keys of the records of channel `ch`, in write order.
    pub closed spec fn keys(&self, ch: Seq<char>) -> Seq<u64> {
        if self.has_channel(ch) {
            self.channels@[self.index_of(ch)].entries@.map_values(|e: Entry| e.key)
        } else {
            Seq::empty()
        }
    }

    proof fn lemma_at(&self, i: int)
        requires
            log_names_unique(self.channels@),
            0 <= i < self.channels@.len(),
        ensures
            self.has_channel(self.channels@[i].name@),
            self.history(self.channels@[i].name@) == self.channels@[i].entries@.map_values(|e: Entry| e.msg@),
            self.keys(self.channels@[i].name@) == self.channels@[i].entries@.map_values(|e: Entry| e.key),
    {
        let ch = self.channels@[i].name@;
        assert(self.has_channel(ch));
        assert(self.index_of(ch) == i);
    }

    /// An empty log whose first record will get key `first_key` (a store
    /// reopened after a restart resumes past its highest key).
    pub fn new(first_key: u64) -> (r: Self)
        ensures
            r.wf(),
            r.next_key() == first_key,
            forall|ch: Seq<char>| #[trigger] r.history(ch) == Seq::<Record>::empty() && r.keys(ch) == Seq::<u64>::empty(),
    {
        ChannelLog { channels: Vec::new(), next_key: first_key }
    }

    fn find(&self, ch: &String) -> (r: Option<usize>)
        ensures
            match r {
                Some(i) => i < self.channels@.len() && self.channels@[i as int].name@ == ch@,
                None => !self.has_channel(ch@),
            },
    {
        let mut i: usize = 0;
        while i < self.channels.len()
            invariant
                i <= self.channels@.len(),
                forall|k: int| 0 <= k < i ==> (#[trigger] self.channels@[k]).name@ != ch@,
            decreases self.channels@.len() - i,
        {
            if self.channels[i].name == *ch {
                return Some(i);
            }
            i = i + 1;
        }
        None
    }

    /// The key that the next append will use.
    pub fn peek_next_key(&self) -> (r: u64)
        ensures
            r == self.next_key(),
    {
        self.next_key
    }

    /// Stores the message `content` of `username`, stamped `timestamp`, at the
    /// end of channel `channel`, and returns the key it was stored under.
    /// Returns `None`, and changes nothing, only when every key has been used.
    pub fn append(&mut self, channel: &str, username: &str, content: &str, timestamp: &str) -> (r: Option<u64>)
        requires
            old(self).wf(),
        ensures
            r is Some <==> old(self).next_key() < u64::MAX,
            r is None ==> *final(self) == *old(self),
            r is Some ==> appended(
                *old(self),
                *final(self),
                channel@,
                Record { timestamp: timestamp@, username: username@, message: content@ },
                r->Some_0,
            ),
    {
        if self.next_key == u64::MAX {
            return None;
        }
        let ghost before = *self;
        let ghost m = Record { timestamp: timestamp@, username: username@, message: content@ };
        let key = self.next_key;
        let ch = channel.to_owned();
        let msg = ChatMessage::new(timestamp, username, content);
        let entry = Entry { key, msg };
        match self.find(&ch) {
            Some(i) => {
                proof { before.lemma_at(i as int); }
                let mut cr = ChannelRecords { name: String::new(), entries: Vec::new() };
                std::mem::swap(&mut cr, &mut self.channels[i]);
                let ghost old_entries = cr.entries@;
                cr.entries.push(entry);
                cr.name = ch;
                self.channels.set(i, cr);
                self.next_key = key + 1;
                proof {
                    assert(old_entries == before.channels@[i as int].entries@);
                    assert(cr.entries@ == old_entries.push(entry));
                    assert(cr.entries@.map_values(|e: Entry| e.msg@) =~= old_entries.map_values(|e: Entry| e.msg@).push(m));
                    assert(cr.entries@.map_values(|e: Entry| e.key) =~= old_entries.map_values(|e: Entry| e.key).push(key));
                    assert(log_names_unique(self.channels@)) by {
                        assert forall|a: int, b: int|
                            0 <= a < self.channels@.len() && 0 <= b < self.channels@.len() && a != b
                            implies self.channels@[a].name@ != self.channels@[b].name@ by {
                            assert(self.channels@[a].name@ == before.channels@[a].name@);
                            assert(self.channels@[b].name@ == before.channels@[b].name@);
                        }
                    }
                    assert forall|q: int| 0 <= q < self.channels@.len() implies keys_ordered_below(
                        (#[trigger] self.channels@[q]).entries@.map_values(|e: Entry| e.key), self.next_key) by {
                        let ks0 = before.channels@[q].entries@.map_values(|e: Entry| e.key);
                        assert(keys_ordered_below(ks0, before.next_key));
                        if q != i {
                            assert(self.channels@[q] == before.channels@[q]);
                        } else {
                            let ks = self.channels@[q].entries@.map_values(|e: Entry| e.key);
                            assert(ks == ks0.push(key));
                            assert forall|a: int, b: int| 0 <= a < b < ks.len() implies ks[a] < ks[b] by {
                                if b < ks0.len() {
                                    assert(ks[a] == ks0[a] && ks[b] == ks0[b]);
                                } else {
                                    assert(ks[a] == ks0[a]);
                                }
                            }
                        }
                    }
                    self.lemma_at(i as int);
                    assert forall|c: Seq<char>| c != channel@ implies #[trigger] self.history(c) == before.history(c)
                        && self.keys(c) == before.keys(c) by {
                        if before.has_channel(c) {
                            let j = before.index_of(c);
                            before.lemma_at(j);
                            self.lemma_at(j);
                        } else if self.has_channel(c) {
                            let j = self.index_of(c);
                            assert(before.channels@[j].name@ == c);
                        }
                    }
                    assert(self.history(channel@) == before.history(channel@).push(m));
                    assert(self.keys(channel@) == before.keys(channel@).push(key));
                    assert(self.wf());
                    assert(appended(before, *self, channel@, m, key));
                }
            },
            None => {
                let mut entries: Vec<Entry> = Vec::new();
                entries.push(entry);
                self.channels.push(ChannelRecords { name: ch, entries });
                self.next_key = key + 1;
                proof {
                    let last = self.channels@.len() - 1;
                    assert(self.channels@[last].entries@.map_values(|e: Entry| e.msg@) =~= seq![m]);
                    assert(self.channels@[last].entries@.map_values(|e: Entry| e.key) =~= seq![key]);
                    assert(before.history(channel@).push(m) =~= seq![m]);
                    assert(before.keys(channel@).push(key) =~= seq![key]);
                    assert(log_names_unique(self.channels@)) by {
                        assert forall|a: int, b: int|
                            0 <= a < self.channels@.len() && 0 <= b < self.channels@.len() && a != b
                            implies self.channels@[a].name@ != self.channels@[b].name@ by {
                            if a == last {
                                assert(before.channels@[b] == self.channels@[b]);
                            } else if b == last {
                                assert(before.channels@[a] == self.channels@[a]);
                            }
                        }
                    }
                    assert forall|q: int| 0 <= q < self.channels@.len() implies keys_ordered_below(
                        (#[trigger] self.channels@[q]).entries@.map_values(|e: Entry| e.key), self.next_key) by {
                        if q != last {
                            assert(self.channels@[q] == before.channels@[q]);
                            assert(keys_ordered_below(before.channels@[q].entries@.map_values(|e: Entry| e.key), before.next_key));
                        }
                    }
                    self.lemma_at(last);
                    assert forall|c: Seq<char>| c != channel@ implies #[trigger] self.history(c) == before.history(c)
                        && self.keys(c) == before.keys(c) by {
                        if before.has_channel(c) {
                            let j = before.index_of(c);
                            before.lemma_at(j);
                            assert(self.channels@[j] == before.channels@[j]);
                            self.lemma_at(j);
                        } else if self.has_channel(c) {
                            let j = self.index_of(c);
                            assert(j != last);
                            assert(before.channels@[j].name@ == c);
                        }
                    }
                    assert(self.history(channel@) == before.history(channel@).push(m));
                    assert(self.keys(channel@) == before.keys(channel@).push(key));
                    assert(self.wf());
                    assert(appended(before, *self, channel@, m, key));
                }
            },
        }
        Some(key)
    }

    /// Every record of channel `channel`, in write order, keep-alive records
    /// left out. A channel never written to gives an empty sequence.
    pub fn read_all(&self, channel: &str) -> (r: Vec<ChatMessage>)
        requires
            self.wf(),
        ensures
            records_of(r@) == visible(self.history(channel@)),
    {
        let ch = channel.to_owned();
        let mut all: Vec<ChatMessage> = Vec::new();
        match self.find(&ch) {
            None => {},
            Some(i) => {
                proof { self.lemma_at(i as int); }
                let n = self.channels[i].entries.len();
                let mut k: usize = 0;
                while k < n
                    invariant
                        i < self.channels@.len(),
                        n == self.channels@[i as int].entries@.len(),
                        k <= n,
                        records_of(all@) == self.channels@[i as int].entries@.map_values(|e: Entry| e.msg@).subrange(0, k as int),
                    decreases n - k,
                {
                    let ghost before = all@;
                    all.push(self.channels[i].entries[k].msg.duplicate());
                    proof {
                        let full = self.channels@[i as int].entries@.map_values(|e: Entry| e.msg@);
                        assert(records_of(all@) =~= records_of(before).push(full[k as int]));
                        assert(full.subrange(0, k as int + 1) =~= full.subrange(0, k as int).push(full[k as int]));
                    }
                    k = k + 1;
                }
                proof {
                    let full = self.channels@[i as int].entries@.map_values(|e: Entry| e.msg@);
                    assert(full.subrange(0, n as int) =~= full);
                }
            },
        }
        proof {
            if !self.has_channel(channel@) {
                assert(records_of(all@) =~= Seq::<Record>::empty());
            }
        }
        without_heartbeats(&all)
    }
}

} // verus!
