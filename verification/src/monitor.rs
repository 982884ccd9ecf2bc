//! Bookkeeping of the bus monitor: per module and topic, how many messages were
//! written and read and since when an operation is pending, the per-topic total
//! of writes, and the metrics a snapshot reports from them. Times are in
//! microseconds on a clock chosen by the caller.
use vstd::prelude::*;

use dashmap::DashMap;

verus! {

/// What the monitor keeps of one subscription stream.
#[derive(Clone, Copy)]
pub struct ReadStream {
    pub read: u64,
    pub pending_since: Option<u64>,
}

/// What the monitor keeps of one publication stream.
#[derive(Clone, Copy)]
pub struct WriteStream {
    pub written: u64,
    pub pending_since: Option<u64>,
}

/// How one attempt to read from a subscription came out.
pub enum ReadPoll {
    /// No message yet.
    Pending,
    /// A message was read.
    ReadOk,
    /// The read failed.
    ReadErr,
}

/// The metrics of one subscription stream in a snapshot.
pub struct ReadMetric {
    pub topic: String,
    pub count: u64,
    pub backlog: Option<u64>,
    pub pending_micros: Option<u64>,
}

/// The metrics of one publication stream in a snapshot.
pub struct WriteMetric {
    pub topic: String,
    pub count: u64,
    pub pending_micros: Option<u64>,
}

/// The streams of one module.
pub struct ModuleStreams {
    reads: DashMap<String, ReadStream>,
    writes: DashMap<String, WriteStream>,
}

/// A stream nobody has read from yet.
pub open spec fn fresh_read() -> ReadStream {
    ReadStream { read: 0, pending_since: None }
}

/// A stream nobody has written to yet.
pub open spec fn fresh_write() -> WriteStream {
    WriteStream { written: 0, pending_since: None }
}

/// The read stream on `t`, a fresh one if there is none yet.
pub open spec fn read_entry(m: Map<Seq<char>, ReadStream>, t: Seq<char>) -> ReadStream {
    if m.dom().contains(t) {
        m[t]
    } else {
        fresh_read()
    }
}

/// The write stream on `t`, a fresh one if there is none yet.
pub open spec fn write_entry(m: Map<Seq<char>, WriteStream>, t: Seq<char>) -> WriteStream {
    if m.dom().contains(t) {
        m[t]
    } else {
        fresh_write()
    }
}

/// The value under `t`, if any.
pub open spec fn lookup(m: Map<Seq<char>, u64>, t: Seq<char>) -> Option<u64> {
    if m.dom().contains(t) {
        Some(m[t])
    } else {
        None
    }
}

/// The total of successful writes on `t` so far (none counted yet is zero).
pub open spec fn total_of(m: Map<Seq<char>, u64>, t: Seq<char>) -> u64 {
    if m.dom().contains(t) {
        m[t]
    } else {
        0
    }
}

/// The backlog of a reader: how many more messages were written on its topic
/// than it has read, when that is above zero.
pub open spec fn backlog_of(total: Option<u64>, read: u64) -> Option<u64> {
    match total {
        Some(w) => if w > read {
            Some((w - read) as u64)
        } else {
            None
        },
        None => None,
    }
}

/// How long an operation pending since `since` has been pending at `now`
/// (zero if `since` is later than `now`).
pub open spec fn pending_for(since: Option<u64>, now: u64) -> Option<u64> {
    match since {
        Some(d) => Some(if now >= d { (now - d) as u64 } else { 0 }),
        None => None,
    }
}

/// The read stream after one poll of its subscription at `now`.
pub open spec fn after_poll(s: ReadStream, poll: ReadPoll, now: u64) -> ReadStream {
    match poll {
        ReadPoll::Pending => ReadStream {
            read: s.read,
            pending_since: if s.pending_since is None { Some(now) } else { s.pending_since },
        },
        ReadPoll::ReadOk => ReadStream { read: (s.read + 1) as u64, pending_since: None },
        ReadPoll::ReadErr => ReadStream { read: s.read, pending_since: None },
    }
}

/// One thing a module did on a subscription, as the monitor records it.
pub enum ReadEvent {
    /// It subscribed to the topic.
    Subscribed(Seq<char>),
    /// A poll of its subscription to the topic, at a time, came out so.
    Polled(Seq<char>, ReadPoll, u64),
    /// A read of its subscription to the topic was abandoned.
    Dropped(Seq<char>),
}

/// One thing a module did on a publication, as the monitor records it.
pub enum WriteEvent {
    /// It started to publish on the topic, at a time.
    Started(Seq<char>, u64),
    /// Its publication on the topic finished, successfully or not.
    Finished(Seq<char>, bool),
}

/// The topic a read event is about.
pub open spec fn read_event_topic(e: ReadEvent) -> Seq<char> {
    match e {
        ReadEvent::Subscribed(t) => t,
        ReadEvent::Polled(t, _, _) => t,
        ReadEvent::Dropped(t) => t,
    }
}

/// The topic a write event is about.
pub open spec fn write_event_topic(e: WriteEvent) -> Seq<char> {
    match e {
        WriteEvent::Started(t, _) => t,
        WriteEvent::Finished(t, _) => t,
    }
}

/// The read streams after one more read event.
pub open spec fn read_step(m: Map<Seq<char>, ReadStream>, e: ReadEvent) -> Map<Seq<char>, ReadStream> {
    match e {
        ReadEvent::Subscribed(t) => m.insert(t, read_entry(m, t)),
        ReadEvent::Polled(t, poll, now) => m.insert(t, after_poll(read_entry(m, t), poll, now)),
        ReadEvent::Dropped(t) => m.insert(t, ReadStream { read: read_entry(m, t).read, pending_since: None }),
    }
}

/// The write streams after one more write event.
pub open spec fn write_step(m: Map<Seq<char>, WriteStream>, e: WriteEvent) -> Map<Seq<char>, WriteStream> {
    match e {
        WriteEvent::Started(t, now) => m.insert(
            t,
            WriteStream { written: write_entry(m, t).written, pending_since: Some(now) },
        ),
        WriteEvent::Finished(t, ok) => m.insert(
            t,
            WriteStream {
                written: (write_entry(m, t).written + if ok { 1u64 } else { 0u64 }) as u64,
                pending_since: None,
            },
        ),
    }
}

/// The per-topic totals of successful writes after one more write event of any module.
pub open spec fn totals_step(m: Map<Seq<char>, u64>, e: WriteEvent) -> Map<Seq<char>, u64> {
    match e {
        WriteEvent::Finished(t, ok) => if ok {
            m.insert(t, (total_of(m, t) + 1) as u64)
        } else {
            m
        },
        WriteEvent::Started(_, _) => m,
    }
}

/// The read streams of a module after its read events, in order, from none.
pub open spec fn reads_after(events: Seq<ReadEvent>) -> Map<Seq<char>, ReadStream>
    decreases events.len(),
{
    if events.len() == 0 {
        Map::empty()
    } else {
        read_step(reads_after(events.drop_last()), events.last())
    }
}

/// The write streams of a module after its write events, in order, from none.
pub open spec fn writes_after(events: Seq<WriteEvent>) -> Map<Seq<char>, WriteStream>
    decreases events.len(),
{
    if events.len() == 0 {
        Map::empty()
    } else {
        write_step(writes_after(events.drop_last()), events.last())
    }
}

/// The totals after the write events of all modules, in order, from none.
pub open spec fn totals_after(events: Seq<WriteEvent>) -> Map<Seq<char>, u64>
    decreases events.len(),
{
    if events.len() == 0 {
        Map::empty()
    } else {
        totals_step(totals_after(events.drop_last()), events.last())
    }
}

/// How many of the read events are successful reads on `t`.
pub open spec fn reads_ok(events: Seq<ReadEvent>, t: Seq<char>) -> nat
    decreases events.len(),
{
    if events.len() == 0 {
        0
    } else {
        reads_ok(events.drop_last(), t) + match events.last() {
            ReadEvent::Polled(u, ReadPoll::ReadOk, _) => if u == t { 1nat } else { 0nat },
            _ => 0nat,
        }
    }
}

/// How many of the write events are successful publications on `t`.
pub open spec fn writes_ok(events: Seq<WriteEvent>, t: Seq<char>) -> nat
    decreases events.len(),
{
    if events.len() == 0 {
        0
    } else {
        writes_ok(events.drop_last(), t) + match events.last() {
            WriteEvent::Finished(u, ok) => if u == t && ok { 1nat } else { 0nat },
            _ => 0nat,
        }
    }
}

proof fn lemma_reads_listed(events: Seq<ReadEvent>, x: Seq<char>)
    ensures
        reads_after(events).dom().contains(x) <==> exists|k: int|
            0 <= k < events.len() && read_event_topic(#[trigger] events[k]) == x,
    decreases events.len(),
{
    if events.len() > 0 {
        let p = events.drop_last();
        lemma_reads_listed(p, x);
        if exists|k: int| 0 <= k < p.len() && read_event_topic(#[trigger] p[k]) == x {
            let k = choose|k: int| 0 <= k < p.len() && read_event_topic(#[trigger] p[k]) == x;
            assert(events[k] == p[k]);
        }
        if exists|k: int| 0 <= k < events.len() && read_event_topic(#[trigger] events[k]) == x {
            let k = choose|k: int| 0 <= k < events.len() && read_event_topic(#[trigger] events[k]) == x;
            if k < p.len() {
                assert(events[k] == p[k]);
            }
        }
        assert(events[events.len() - 1] == events.last());
    }
}

proof fn lemma_writes_listed(events: Seq<WriteEvent>, x: Seq<char>)
    ensures
        writes_after(events).dom().contains(x) <==> exists|k: int|
            0 <= k < events.len() && write_event_topic(#[trigger] events[k]) == x,
    decreases events.len(),
{
    if events.len() > 0 {
        let p = events.drop_last();
        lemma_writes_listed(p, x);
        if exists|k: int| 0 <= k < p.len() && write_event_topic(#[trigger] p[k]) == x {
            let k = choose|k: int| 0 <= k < p.len() && write_event_topic(#[trigger] p[k]) == x;
            assert(events[k] == p[k]);
        }
        if exists|k: int| 0 <= k < events.len() && write_event_topic(#[trigger] events[k]) == x {
            let k = choose|k: int| 0 <= k < events.len() && write_event_topic(#[trigger] events[k]) == x;
            if k < p.len() {
                assert(events[k] == p[k]);
            }
        }
        assert(events[events.len() - 1] == events.last());
    }
}

/// A module's snapshot lists exactly the topics it subscribed to or published on:
/// a topic has a read stream exactly when some read event of the module was about
/// it, and a write stream exactly when some write event was, whatever became of
/// the subscription or publication itself.
pub proof fn law_snapshot_lists_exactly_the_topics_used(reads: Seq<ReadEvent>, writes: Seq<WriteEvent>, x: Seq<char>)
    ensures
        reads_after(reads).dom().contains(x) <==> exists|k: int|
            0 <= k < reads.len() && read_event_topic(#[trigger] reads[k]) == x,
        writes_after(writes).dom().contains(x) <==> exists|k: int|
            0 <= k < writes.len() && write_event_topic(#[trigger] writes[k]) == x,
{
    lemma_reads_listed(reads, x);
    lemma_writes_listed(writes, x);
}

proof fn lemma_read_count(events: Seq<ReadEvent>, t: Seq<char>)
    requires
        reads_ok(events, t) <= u64::MAX,
    ensures
        read_entry(reads_after(events), t).read == reads_ok(events, t),
    decreases events.len(),
{
    if events.len() > 0 {
        let p = events.drop_last();
        lemma_read_count(p, t);
    }
}

proof fn lemma_write_count(events: Seq<WriteEvent>, t: Seq<char>)
    requires
        writes_ok(events, t) <= u64::MAX,
    ensures
        write_entry(writes_after(events), t).written == writes_ok(events, t),
    decreases events.len(),
{
    if events.len() > 0 {
        let p = events.drop_last();
        lemma_write_count(p, t);
    }
}

proof fn lemma_total_count(events: Seq<WriteEvent>, t: Seq<char>)
    requires
        writes_ok(events, t) <= u64::MAX,
    ensures
        total_of(totals_after(events), t) == writes_ok(events, t),
        totals_after(events).dom().contains(t) <==> writes_ok(events, t) > 0,
    decreases events.len(),
{
    if events.len() > 0 {
        let p = events.drop_last();
        lemma_total_count(p, t);
    }
}

/// The counts of a module's snapshot follow from the history: the read count of a
/// topic is the number of its successful reads, the write count the number of its
/// successful publications, and the backlog is how many more messages all modules
/// published successfully on the topic than the module read, when that is above zero.
pub proof fn law_snapshot_counts_follow_the_history(
    reads: Seq<ReadEvent>,
    writes: Seq<WriteEvent>,
    all_writes: Seq<WriteEvent>,
    t: Seq<char>,
)
    requires
        reads_ok(reads, t) <= u64::MAX,
        writes_ok(writes, t) <= u64::MAX,
        writes_ok(all_writes, t) <= u64::MAX,
    ensures
        read_entry(reads_after(reads), t).read == reads_ok(reads, t),
        write_entry(writes_after(writes), t).written == writes_ok(writes, t),
        backlog_of(lookup(totals_after(all_writes), t), read_entry(reads_after(reads), t).read) == (
            if writes_ok(all_writes, t) > reads_ok(reads, t) {
                Some((writes_ok(all_writes, t) - reads_ok(reads, t)) as u64)
            } else {
                None
            }),
{
    lemma_read_count(reads, t);
    lemma_write_count(writes, t);
    lemma_total_count(all_writes, t);
}

/// A poll that reads a message counts it and ends the pending read; a failed poll
/// ends the pending read and counts nothing; a poll that finds nothing counts nothing
/// and leaves the read pending since the first such poll. Other topics are untouched.
pub proof fn law_poll_outcomes(m: Map<Seq<char>, ReadStream>, t: Seq<char>, u: Seq<char>, poll: ReadPoll, now: u64)
    requires
        read_entry(m, t).read < u64::MAX,
    ensures
        read_step(m, ReadEvent::Polled(t, poll, now)).dom().contains(t),
        poll is ReadOk ==> read_step(m, ReadEvent::Polled(t, poll, now))[t] == (ReadStream {
            read: (read_entry(m, t).read + 1) as u64,
            pending_since: None,
        }),
        poll is ReadErr ==> read_step(m, ReadEvent::Polled(t, poll, now))[t] == (ReadStream {
            read: read_entry(m, t).read,
            pending_since: None,
        }),
        poll is Pending ==> read_step(m, ReadEvent::Polled(t, poll, now))[t].read == read_entry(m, t).read,
        poll is Pending && read_entry(m, t).pending_since is None
            ==> read_step(m, ReadEvent::Polled(t, poll, now))[t].pending_since == Some(now),
        poll is Pending && read_entry(m, t).pending_since is Some
            ==> read_step(m, ReadEvent::Polled(t, poll, now))[t].pending_since == read_entry(m, t).pending_since,
        u != t ==> read_entry(read_step(m, ReadEvent::Polled(t, poll, now)), u) == read_entry(m, u),
{
}

/// The pending time of an operation is the time since it started: it is zero at
/// its start, and later it has grown by exactly the time that passed.
pub proof fn law_pending_time_is_time_since_start(since: u64, now1: u64, now2: u64)
    requires
        since <= now1 <= now2,
    ensures
        pending_for(Some(since), since) == Some(0u64),
        pending_for(Some(now1), now1) == Some(0u64),
        pending_for(Some(since), now2)->0 == pending_for(Some(since), now1)->0 + (now2 - now1),
        pending_for(None, now1) is None,
{
}

/// An abandoned read ends the pending read and counts nothing.
pub proof fn law_dropped_read_ends_pending(m: Map<Seq<char>, ReadStream>, t: Seq<char>)
    ensures
        read_step(m, ReadEvent::Dropped(t))[t] == (ReadStream { read: read_entry(m, t).read, pending_since: None }),
{
}

/// A finished publication ends the pending write, and a successful one is counted
/// once for the module and once in the topic's total; a started one is pending
/// since it started and counts nothing.
pub proof fn law_publication_outcomes(
    w: Map<Seq<char>, WriteStream>,
    totals: Map<Seq<char>, u64>,
    t: Seq<char>,
    ok: bool,
    now: u64,
)
    requires
        write_entry(w, t).written < u64::MAX,
        total_of(totals, t) < u64::MAX,
    ensures
        write_step(w, WriteEvent::Started(t, now))[t] == (WriteStream {
            written: write_entry(w, t).written,
            pending_since: Some(now),
        }),
        write_step(w, WriteEvent::Finished(t, ok))[t].pending_since is None,
        write_step(w, WriteEvent::Finished(t, ok))[t].written == write_entry(w, t).written + if ok { 1int } else { 0int },
        total_of(totals_step(totals, WriteEvent::Finished(t, ok)), t) == total_of(totals, t) + if ok { 1int } else { 0int },
{
}

/// Each successful write on a topic raises the backlog of a reader that is
/// not ahead of the writers by exactly one.
pub proof fn law_write_raises_backlog(total: u64, read: u64)
    requires
        total < u64::MAX,
        read <= total,
    ensures
        backlog_of(Some((total + 1) as u64), read) == Some((total + 1 - read) as u64),
{
}

/// A successful write followed by the reader's successful read leaves the
/// reader's backlog as it was.
pub proof fn law_write_then_read_keeps_backlog(total: u64, read: u64)
    requires
        total < u64::MAX,
        read < u64::MAX,
    ensures
        backlog_of(Some((total + 1) as u64), (read + 1) as u64) == backlog_of(Some(total), read),
{
}

/// A reader that has read as many messages as were written has no backlog.
pub proof fn law_caught_up_reader_has_no_backlog(total: u64, read: u64)
    requires
        read >= total,
    ensures
        backlog_of(Some(total), read) is None,
{
}

/// A read stays pending since the first poll that found nothing, however
/// often it is polled again, until a poll finds a message or fails.
pub proof fn law_pending_read_keeps_its_start(s: ReadStream, first: u64, later: u64)
    requires
        s.pending_since is None,
    ensures
        after_poll(after_poll(s, ReadPoll::Pending, first), ReadPoll::Pending, later).pending_since == Some(first),
        after_poll(after_poll(s, ReadPoll::Pending, first), ReadPoll::ReadErr, later).pending_since is None,
{
}

fn backlog(total: Option<u64>, read: u64) -> (r: Option<u64>)
    ensures
        r == backlog_of(total, read),
{
    match total {
        Some(w) => if w > read {
            Some(w - read)
        } else {
            None
        },
        None => None,
    }
}

fn pending(since: Option<u64>, now: u64) -> (r: Option<u64>)
    ensures
        r == pending_for(since, now),
{
    match since {
        Some(d) => Some(if now >= d { now - d } else { 0 }),
        None => None,
    }
}

#[verifier::external_type_specification]
#[verifier::external_body]
#[verifier::reject_recursive_types(K)]
#[verifier::reject_recursive_types(V)]
#[verifier::reject_recursive_types(S)]
pub struct ExDashMap<K, V, S>(DashMap<K, V, S>);

/// What a concurrent map of read streams holds: the stream under each topic's text.
pub uninterp spec fn read_streams_of(m: DashMap<String, ReadStream>) -> Map<Seq<char>, ReadStream>;

/// What a concurrent map of write streams holds: the stream under each topic's text.
pub uninterp spec fn write_streams_of(m: DashMap<String, WriteStream>) -> Map<Seq<char>, WriteStream>;

/// What a concurrent map of write totals holds: the total under each topic's text.
pub uninterp spec fn write_totals_of(m: DashMap<String, u64>) -> Map<Seq<char>, u64>;

/// dashmap's `DashMap::new`: an empty map.
#[verifier::external_body]
fn new_read_streams() -> (empty: DashMap<String, ReadStream>)
    ensures
        read_streams_of(empty).dom() == Set::<Seq<char>>::empty(),
{
    DashMap::new()
}

/// dashmap's `DashMap::get`, the stream copied out of the guard: the stream under
/// the topic's text, if there is one.
#[verifier::external_body]
fn get_read_stream(m: &DashMap<String, ReadStream>, topic: &String) -> (r: Option<ReadStream>)
    ensures
        r == (if read_streams_of(*m).dom().contains(topic@) {
            Some(read_streams_of(*m)[topic@])
        } else {
            None
        }),
{
    match m.get(topic) {
        Some(entry) => Some(*entry),
        None => None,
    }
}

/// dashmap's `DashMap::insert`, which keys entries by the text of the key: the
/// entry for `topic` now holds `s`, the others stay as they were.
#[verifier::external_body]
fn insert_read_stream(m: &mut DashMap<String, ReadStream>, topic: String, s: ReadStream)
    ensures
        read_streams_of(*final(m)) == read_streams_of(*old(m)).insert(topic@, s),
{
    m.insert(topic, s);
}

/// dashmap's `DashMap::iter`, each entry copied out as its topic and stream: every
/// entry once, in an order the map chooses.
#[verifier::external_body]
fn read_stream_entries(m: &DashMap<String, ReadStream>) -> (r: Vec<(String, ReadStream)>)
    ensures
        forall|k: int| 0 <= k < r@.len() ==> read_streams_of(*m).dom().contains((#[trigger] r@[k]).0@)
            && r@[k].1 == read_streams_of(*m)[r@[k].0@],
        forall|x: Seq<char>| read_streams_of(*m).dom().contains(x) ==> exists|k: int|
            0 <= k < r@.len() && (#[trigger] r@[k]).0@ == x,
        forall|a: int, b: int| 0 <= a < b < r@.len() ==> (#[trigger] r@[a]).0@ != (#[trigger] r@[b]).0@,
{
    m.iter().map(|entry| (entry.key().clone(), *entry.value())).collect()
}

/// dashmap's `DashMap::new`: an empty map.
#[verifier::external_body]
fn new_write_streams() -> (empty: DashMap<String, WriteStream>)
    ensures
        write_streams_of(empty).dom() == Set::<Seq<char>>::empty(),
{
    DashMap::new()
}

/// dashmap's `DashMap::get`, the stream copied out of the guard: the stream under
/// the topic's text, if there is one.
#[verifier::external_body]
fn get_write_stream(m: &DashMap<String, WriteStream>, topic: &String) -> (r: Option<WriteStream>)
    ensures
        r == (if write_streams_of(*m).dom().contains(topic@) {
            Some(write_streams_of(*m)[topic@])
        } else {
            None
        }),
{
    match m.get(topic) {
        Some(entry) => Some(*entry),
        None => None,
    }
}

/// dashmap's `DashMap::insert`, which keys entries by the text of the key: the
/// entry for `topic` now holds `s`, the others stay as they were.
#[verifier::external_body]
fn insert_write_stream(m: &mut DashMap<String, WriteStream>, topic: String, s: WriteStream)
    ensures
        write_streams_of(*final(m)) == write_streams_of(*old(m)).insert(topic@, s),
{
    m.insert(topic, s);
}

/// dashmap's `DashMap::iter`, each entry copied out as its topic and stream: every
/// entry once, in an order the map chooses.
#[verifier::external_body]
fn write_stream_entries(m: &DashMap<String, WriteStream>) -> (r: Vec<(String, WriteStream)>)
    ensures
        forall|k: int| 0 <= k < r@.len() ==> write_streams_of(*m).dom().contains((#[trigger] r@[k]).0@)
            && r@[k].1 == write_streams_of(*m)[r@[k].0@],
        forall|x: Seq<char>| write_streams_of(*m).dom().contains(x) ==> exists|k: int|
            0 <= k < r@.len() && (#[trigger] r@[k]).0@ == x,
        forall|a: int, b: int| 0 <= a < b < r@.len() ==> (#[trigger] r@[a]).0@ != (#[trigger] r@[b]).0@,
{
    m.iter().map(|entry| (entry.key().clone(), *entry.value())).collect()
}

/// dashmap's `DashMap::new`: an empty map.
#[verifier::external_body]
fn new_write_totals() -> (empty: DashMap<String, u64>)
    ensures
        write_totals_of(empty).dom() == Set::<Seq<char>>::empty(),
{
    DashMap::new()
}

/// dashmap's `DashMap::get`, the total copied out of the guard: the total under
/// the topic's text, if there is one.
#[verifier::external_body]
fn get_write_total(m: &DashMap<String, u64>, topic: &String) -> (r: Option<u64>)
    ensures
        r == lookup(write_totals_of(*m), topic@),
{
    match m.get(topic) {
        Some(entry) => Some(*entry),
        None => None,
    }
}

/// dashmap's `DashMap::insert`, which keys entries by the text of the key: the
/// entry for `topic` now holds `n`, the others stay as they were.
#[verifier::external_body]
fn insert_write_total(m: &mut DashMap<String, u64>, topic: String, n: u64)
    ensures
        write_totals_of(*final(m)) == write_totals_of(*old(m)).insert(topic@, n),
{
    m.insert(topic, n);
}

/// No write counted on any topic yet.
pub fn new_totals() -> (t: DashMap<String, u64>)
    ensures
        write_totals_of(t) == Map::<Seq<char>, u64>::empty(),
{
    let t = new_write_totals();
    assert(write_totals_of(t) =~= Map::<Seq<char>, u64>::empty());
    t
}

/// The total of successful writes counted on `topic`.
pub fn total_writes(totals: &DashMap<String, u64>, topic: &String) -> (n: u64)
    ensures
        n == total_of(write_totals_of(*totals), topic@),
{
    match get_write_total(totals, topic) {
        Some(w) => w,
        None => 0,
    }
}

impl ModuleStreams {
    /// The read streams, by topic.
    pub closed spec fn reads_view(&self) -> Map<Seq<char>, ReadStream> {
        read_streams_of(self.reads)
    }

    /// The write streams, by topic.
    pub closed spec fn writes_view(&self) -> Map<Seq<char>, WriteStream> {
        write_streams_of(self.writes)
    }

    /// A module that has not used the bus yet.
    pub fn new() -> (m: Self)
        ensures
            m.reads_view() == Map::<Seq<char>, ReadStream>::empty(),
            m.writes_view() == Map::<Seq<char>, WriteStream>::empty(),
    {
        let m = ModuleStreams { reads: new_read_streams(), writes: new_write_streams() };
        assert(m.reads_view() =~= Map::<Seq<char>, ReadStream>::empty());
        assert(m.writes_view() =~= Map::<Seq<char>, WriteStream>::empty());
        m
    }

    /// The read stream on `topic` (fresh if none).
    pub fn read_stream(&self, topic: &String) -> (s: ReadStream)
        ensures
            s == read_entry(self.reads_view(), topic@),
    {
        match get_read_stream(&self.reads, topic) {
            Some(s) => s,
            None => ReadStream { read: 0, pending_since: None },
        }
    }

    /// The write stream on `topic` (fresh if none).
    pub fn write_stream(&self, topic: &String) -> (s: WriteStream)
        ensures
            s == write_entry(self.writes_view(), topic@),
    {
        match get_write_stream(&self.writes, topic) {
            Some(s) => s,
            None => WriteStream { written: 0, pending_since: None },
        }
    }

    /// The module subscribed to `topic`: a read stream exists for it.
    pub fn subscribed(&mut self, topic: &String)
        ensures
            final(self).reads_view() == read_step(old(self).reads_view(), ReadEvent::Subscribed(topic@)),
            final(self).writes_view() == old(self).writes_view(),
    {
        let s = self.read_stream(topic);
        insert_read_stream(&mut self.reads, topic.clone(), s);
    }

    /// The module started to publish on `topic` at `now`.
    pub fn publish_started(&mut self, topic: &String, now: u64)
        ensures
            final(self).writes_view() == write_step(old(self).writes_view(), WriteEvent::Started(topic@, now)),
            final(self).reads_view() == old(self).reads_view(),
    {
        let s = self.write_stream(topic);
        insert_write_stream(&mut self.writes, topic.clone(), WriteStream { written: s.written, pending_since: Some(now) });
    }

    /// The module's publication on `topic` finished, successfully if `ok`:
    /// nothing is pending any more, and a success is counted once for the
    /// module and once in the topic's total.
    pub fn publish_finished(&mut self, totals: &mut DashMap<String, u64>, topic: &String, ok: bool)
        requires
            ok ==> write_entry(old(self).writes_view(), topic@).written < u64::MAX,
            ok ==> total_of(write_totals_of(*old(totals)), topic@) < u64::MAX,
        ensures
            final(self).writes_view() == write_step(old(self).writes_view(), WriteEvent::Finished(topic@, ok)),
            final(self).reads_view() == old(self).reads_view(),
            write_totals_of(*final(totals)) == totals_step(write_totals_of(*old(totals)), WriteEvent::Finished(topic@, ok)),
    {
        let s = self.write_stream(topic);
        let written = if ok { s.written + 1 } else { s.written };
        insert_write_stream(&mut self.writes, topic.clone(), WriteStream { written, pending_since: None });
        if ok {
            let w = total_writes(totals, topic);
            insert_write_total(totals, topic.clone(), w + 1);
        }
    }

    /// One poll of the module's subscription to `topic` at `now` came out as `poll`.
    pub fn read_polled(&mut self, topic: &String, poll: ReadPoll, now: u64)
        requires
            poll is ReadOk ==> read_entry(old(self).reads_view(), topic@).read < u64::MAX,
        ensures
            final(self).reads_view() == read_step(old(self).reads_view(), ReadEvent::Polled(topic@, poll, now)),
            final(self).writes_view() == old(self).writes_view(),
    {
        let s = self.read_stream(topic);
        let next = match poll {
            ReadPoll::Pending => ReadStream {
                read: s.read,
                pending_since: if s.pending_since.is_none() { Some(now) } else { s.pending_since },
            },
            ReadPoll::ReadOk => ReadStream { read: s.read + 1, pending_since: None },
            ReadPoll::ReadErr => ReadStream { read: s.read, pending_since: None },
        };
        insert_read_stream(&mut self.reads, topic.clone(), next);
    }

    /// A read of the module's subscription to `topic` was abandoned: nothing is pending.
    pub fn read_dropped(&mut self, topic: &String)
        ensures
            final(self).reads_view() == read_step(old(self).reads_view(), ReadEvent::Dropped(topic@)),
            final(self).writes_view() == old(self).writes_view(),
    {
        let s = self.read_stream(topic);
        insert_read_stream(&mut self.reads, topic.clone(), ReadStream { read: s.read, pending_since: None });
    }

    /// The metrics of every read stream at `now`, each topic once: its count, its
    /// backlog against the topic's total of writes, and how long a read has been pending.
    pub fn read_metrics(&self, totals: &DashMap<String, u64>, now: u64) -> (r: Vec<ReadMetric>)
        ensures
            forall|k: int| 0 <= k < r@.len() ==> {
                let t = (#[trigger] r@[k]).topic@;
                let s = self.reads_view()[t];
                &&& self.reads_view().dom().contains(t)
                &&& r@[k].count == s.read
                &&& r@[k].backlog == backlog_of(lookup(write_totals_of(*totals), t), s.read)
                &&& r@[k].pending_micros == pending_for(s.pending_since, now)
            },
            forall|x: Seq<char>| self.reads_view().dom().contains(x) ==> exists|k: int|
                0 <= k < r@.len() && (#[trigger] r@[k]).topic@ == x,
            forall|a: int, b: int| 0 <= a < b < r@.len() ==> (#[trigger] r@[a]).topic@ != (#[trigger] r@[b]).topic@,
    {
        let entries = read_stream_entries(&self.reads);
        let mut r: Vec<ReadMetric> = Vec::new();
        let mut k: usize = 0;
        while k < entries.len()
            invariant
                k <= entries@.len(),
                r@.len() == k,
                forall|m: int| 0 <= m < entries@.len() ==> self.reads_view().dom().contains((#[trigger] entries@[m]).0@)
                    && entries@[m].1 == self.reads_view()[entries@[m].0@],
                forall|m: int| 0 <= m < k ==> {
                    let t = (#[trigger] r@[m]).topic@;
                    let s = self.reads_view()[t];
                    &&& t == entries@[m].0@
                    &&& self.reads_view().dom().contains(t)
                    &&& r@[m].count == s.read
                    &&& r@[m].backlog == backlog_of(lookup(write_totals_of(*totals), t), s.read)
                    &&& r@[m].pending_micros == pending_for(s.pending_since, now)
                },
            decreases entries.len() - k,
        {
            let t = &entries[k].0;
            let s = entries[k].1;
            let total = get_write_total(totals, t);
            r.push(ReadMetric {
                topic: t.clone(),
                count: s.read,
                backlog: backlog(total, s.read),
                pending_micros: pending(s.pending_since, now),
            });
            k += 1;
        }
        proof {
            assert forall|x: Seq<char>| self.reads_view().dom().contains(x) implies exists|k: int|
                0 <= k < r@.len() && (#[trigger] r@[k]).topic@ == x by {
                let k = choose|k: int| 0 <= k < entries@.len() && (#[trigger] entries@[k]).0@ == x;
                assert(r@[k].topic@ == x);
            }
            assert forall|a: int, b: int| 0 <= a < b < r@.len() implies (#[trigger] r@[a]).topic@ != (#[trigger] r@[b]).topic@ by {
                assert(r@[a].topic@ == entries@[a].0@);
                assert(r@[b].topic@ == entries@[b].0@);
            }
        }
        r
    }

    /// The metrics of every write stream at `now`, each topic once: its count and
    /// how long a publication has been pending.
    pub fn write_metrics(&self, now: u64) -> (r: Vec<WriteMetric>)
        ensures
            forall|k: int| 0 <= k < r@.len() ==> {
                let t = (#[trigger] r@[k]).topic@;
                let s = self.writes_view()[t];
                &&& self.writes_view().dom().contains(t)
                &&& r@[k].count == s.written
                &&& r@[k].pending_micros == pending_for(s.pending_since, now)
            },
            forall|x: Seq<char>| self.writes_view().dom().contains(x) ==> exists|k: int|
                0 <= k < r@.len() && (#[trigger] r@[k]).topic@ == x,
            forall|a: int, b: int| 0 <= a < b < r@.len() ==> (#[trigger] r@[a]).topic@ != (#[trigger] r@[b]).topic@,
    {
        let entries = write_stream_entries(&self.writes);
        let mut r: Vec<WriteMetric> = Vec::new();
        let mut k: usize = 0;
        while k < entries.len()
            invariant
                k <= entries@.len(),
                r@.len() == k,
                forall|m: int| 0 <= m < entries@.len() ==> self.writes_view().dom().contains((#[trigger] entries@[m]).0@)
                    && entries@[m].1 == self.writes_view()[entries@[m].0@],
                forall|m: int| 0 <= m < k ==> {
                    let t = (#[trigger] r@[m]).topic@;
                    let s = self.writes_view()[t];
                    &&& t == entries@[m].0@
                    &&& self.writes_view().dom().contains(t)
                    &&& r@[m].count == s.written
                    &&& r@[m].pending_micros == pending_for(s.pending_since, now)
                },
            decreases entries.len() - k,
        {
            let t = &entries[k].0;
            let s = entries[k].1;
            r.push(WriteMetric { topic: t.clone(), count: s.written, pending_micros: pending(s.pending_since, now) });
            k += 1;
        }
        proof {
            assert forall|x: Seq<char>| self.writes_view().dom().contains(x) implies exists|k: int|
                0 <= k < r@.len() && (#[trigger] r@[k]).topic@ == x by {
                let k = choose|k: int| 0 <= k < entries@.len() && (#[trigger] entries@[k]).0@ == x;
                assert(r@[k].topic@ == x);
            }
            assert forall|a: int, b: int| 0 <= a < b < r@.len() implies (#[trigger] r@[a]).topic@ != (#[trigger] r@[b]).topic@ by {
                assert(r@[a].topic@ == entries@[a].0@);
                assert(r@[b].topic@ == entries@[b].0@);
            }
        }
        r
    }
}

} // verus!
