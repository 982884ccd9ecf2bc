//! Request/response correlation over publish/subscribe: request ids, the
//! topics a request and its response travel on, the routing of a response back
//! to the request that waits for it, and the bookkeeping of open requests.
use vstd::prelude::*;

use crate::text::{
    chars_of, lemma_split_concat, lemma_split_single, push_all, split_on, string_from_chars,
    strings_view,
};
use crate::text_map::TextMap;
use crate::topic::{
    hash_word, is_literal_word, lemma_literal_prefix, lemma_wildcard_words_single,
    lemma_wildcards_differ, sep, star_word, topic_matches, words_match,
};

verus! {

/// Seconds a request waits for its response unless configured otherwise.
pub const DEFAULT_TIMEOUT_SECS: u64 = 5;

/// The request timeout: the configured number of seconds, else the default.
pub fn request_timeout_secs(configured: Option<u64>) -> (secs: u64)
    ensures
        secs == (match configured {
            Some(s) => s,
            None => DEFAULT_TIMEOUT_SECS,
        }),
{
    match configured {
        Some(s) => s,
        None => DEFAULT_TIMEOUT_SECS,
    }
}

/// The lower-case hexadecimal digit for `n` (below 16).
pub open spec fn hex_digit(n: int) -> char {
    if n < 10 {
        (('0' as int) + n) as char
    } else {
        (('a' as int) + n - 10) as char
    }
}

/// Lower-case hexadecimal text of `bytes`: two digits per byte, high half first.
pub open spec fn hex_lower(bytes: Seq<u8>) -> Seq<char>
    decreases bytes.len(),
{
    if bytes.len() == 0 {
        Seq::<char>::empty()
    } else {
        hex_lower(bytes.drop_last()) + seq![
            hex_digit(bytes.last() as int / 16),
            hex_digit(bytes.last() as int % 16),
        ]
    }
}

/// Whether `c` is a lower-case hexadecimal digit.
pub open spec fn is_hex_digit(c: char) -> bool {
    ('0' <= c && c <= '9') || ('a' <= c && c <= 'f')
}

/// The hexadecimal text of `n` bytes has `2n` digits, each a lower-case hex digit.
pub proof fn lemma_hex_lower_shape(bytes: Seq<u8>)
    ensures
        hex_lower(bytes).len() == 2 * bytes.len(),
        forall|k: int| 0 <= k < hex_lower(bytes).len() ==> is_hex_digit(#[trigger] hex_lower(bytes)[k]),
    decreases bytes.len(),
{
    if bytes.len() > 0 {
        lemma_hex_lower_shape(bytes.drop_last());
        let h = hex_lower(bytes.drop_last());
        let b = bytes.last() as int;
        assert(0 <= b / 16 < 16 && 0 <= b % 16 < 16);
        assert forall|k: int| 0 <= k < hex_lower(bytes).len() implies is_hex_digit(#[trigger] hex_lower(bytes)[k]) by {
            if k < h.len() {
                assert(hex_lower(bytes)[k] == h[k]);
            }
        }
    }
}

/// The number a lower-case hexadecimal digit stands for.
pub open spec fn hex_value(c: char) -> int {
    if '0' <= c && c <= '9' {
        (c as int) - ('0' as int)
    } else {
        (c as int) - ('a' as int) + 10
    }
}

/// The hexadecimal text of bytes reads back to the bytes: the two digits at
/// positions `2k` and `2k + 1` give byte `k`, high half first.
pub proof fn law_hex_text_reads_back_its_bytes(bytes: Seq<u8>)
    ensures
        hex_lower(bytes).len() == 2 * bytes.len(),
        forall|k: int| 0 <= k < bytes.len() ==> hex_value(#[trigger] hex_lower(bytes)[2 * k]) * 16
            + hex_value(hex_lower(bytes)[2 * k + 1]) == bytes[k],
    decreases bytes.len(),
{
    lemma_hex_lower_shape(bytes);
    if bytes.len() > 0 {
        let p = bytes.drop_last();
        law_hex_text_reads_back_its_bytes(p);
        let h = hex_lower(p);
        let b = bytes.last() as int;
        let hi = b / 16;
        let lo = b % 16;
        assert(0 <= hi < 16 && 0 <= lo < 16);
        assert(b == hi * 16 + lo);
        assert(hex_value(hex_digit(hi)) == hi);
        assert(hex_value(hex_digit(lo)) == lo);
        assert forall|k: int| 0 <= k < bytes.len() implies hex_value(#[trigger] hex_lower(bytes)[2 * k]) * 16
            + hex_value(hex_lower(bytes)[2 * k + 1]) == bytes[k] by {
            if k < p.len() {
                assert(hex_lower(bytes)[2 * k] == h[2 * k]);
                assert(hex_lower(bytes)[2 * k + 1] == h[2 * k + 1]);
                assert(bytes[k] == p[k]);
            } else {
                assert(hex_lower(bytes)[2 * k] == hex_digit(hi));
                assert(hex_lower(bytes)[2 * k + 1] == hex_digit(lo));
            }
        }
    }
}

/// Request ids made from different bytes differ: two requests whose random draws
/// differ never share an id.
pub proof fn law_different_bytes_give_different_ids(a: Seq<u8>, b: Seq<u8>)
    requires
        a.len() == b.len(),
        a != b,
    ensures
        hex_lower(a) != hex_lower(b),
{
    law_hex_text_reads_back_its_bytes(a);
    law_hex_text_reads_back_its_bytes(b);
    if hex_lower(a) == hex_lower(b) {
        assert forall|k: int| 0 <= k < a.len() implies a[k] == b[k] by {
            assert(hex_lower(a)[2 * k] == hex_lower(b)[2 * k]);
            assert(hex_lower(a)[2 * k + 1] == hex_lower(b)[2 * k + 1]);
        }
        assert(a =~= b);
    }
}

/// Eight bytes from the thread-local random generator (`rand::random`).
/// Nothing is stated of their values.
#[verifier::external_body]
fn random_id_bytes() -> [u8; 8] {
    rand::random::<[u8; 8]>()
}

/// `hex::encode` of eight bytes: two lower-case hex digits per byte, high half first,
/// as the crate's table `0123456789abcdef` gives them.
#[verifier::external_body]
fn hex_encode(bytes: [u8; 8]) -> (s: String)
    ensures
        s@ == hex_lower(bytes@),
{
    hex::encode(bytes)
}

/// The request id made from eight bytes: their lower-case hex text.
pub fn request_id_from_bytes(bytes: [u8; 8]) -> (id: String)
    ensures
        id@ == hex_lower(bytes@),
{
    hex_encode(bytes)
}

/// A fresh request id: 64 random bits as 16 lower-case hex digits.
pub fn new_request_id() -> (id: String)
    ensures
        id@.len() == 16,
        forall|k: int| 0 <= k < id@.len() ==> is_hex_digit(#[trigger] id@[k]),
{
    let bytes = random_id_bytes();
    let id = request_id_from_bytes(bytes);
    proof {
        lemma_hex_lower_shape(bytes@);
    }
    id
}

/// `.response`, the last word of every response topic.
pub open spec fn response_suffix() -> Seq<char> {
    seq!['.', 'r', 'e', 's', 'p', 'o', 'n', 's', 'e']
}

/// The topic a request with `id` on `topic` is published on: `<topic>.<id>`.
pub open spec fn request_topic_of(topic: Seq<char>, id: Seq<char>) -> Seq<char> {
    topic + seq!['.'] + id
}

/// The topic the response to a request with `id` on `topic` comes on: `<topic>.<id>.response`.
pub open spec fn response_topic_of(topic: Seq<char>, id: Seq<char>) -> Seq<char> {
    request_topic_of(topic, id) + response_suffix()
}

/// The pattern that catches every response to requests on `topic`: `<topic>.*.response`.
pub open spec fn response_pattern_of(topic: Seq<char>) -> Seq<char> {
    topic + seq!['.', '*'] + response_suffix()
}

fn push_response_suffix(v: &mut Vec<char>)
    ensures
        final(v)@ == old(v)@ + response_suffix(),
{
    v.push('.');
    v.push('r');
    v.push('e');
    v.push('s');
    v.push('p');
    v.push('o');
    v.push('n');
    v.push('s');
    v.push('e');
    assert(v@ =~= old(v)@ + response_suffix());
}

/// The topic to publish a request with `id` on `topic` on.
pub fn request_topic(topic: &str, id: &str) -> (t: String)
    ensures
        t@ == request_topic_of(topic@, id@),
{
    let mut v = chars_of(topic);
    v.push('.');
    let i = chars_of(id);
    push_all(&mut v, &i);
    let t = string_from_chars(v);
    assert(t@ =~= request_topic_of(topic@, id@));
    t
}

/// The pattern to subscribe to for the responses to requests on `topic`.
pub fn response_pattern(topic: &str) -> (p: String)
    ensures
        p@ == response_pattern_of(topic@),
{
    let mut v = chars_of(topic);
    v.push('.');
    v.push('*');
    push_response_suffix(&mut v);
    let p = string_from_chars(v);
    assert(p@ =~= response_pattern_of(topic@));
    p
}

/// What a message on a response topic is for.
pub enum ResponseRoute {
    /// The response to the request with this id.
    Request(String),
    /// The topic starts with the request topic but carries no request id.
    NoRequestId,
    /// The topic does not start with the request topic.
    OtherTopic,
}

/// What the response topic `rt`, caught for requests on `topic`, routes to:
/// when `rt` starts with `topic` and the rest starts with `.` and ends with
/// `.response`, the id in between; else which of the two checks failed.
pub open spec fn response_route_of(topic: Seq<char>, rt: Seq<char>) -> Option<Option<Seq<char>>> {
    if topic.len() <= rt.len() && rt.take(topic.len() as int) == topic {
        let rest = rt.skip(topic.len() as int);
        if rest.len() >= 1 && rest[0] == '.' && rest.len() >= 9 && rest.skip(rest.len() - 9) == response_suffix() {
            Some(Some(rest.subrange(1, rest.len() - 9)))
        } else {
            Some(None)
        }
    } else {
        None
    }
}

/// Whether `rt` is `topic` followed by `.response` alone, a topic that
/// passes both checks but holds no room for an id.
pub open spec fn is_bare_response_topic(topic: Seq<char>, rt: Seq<char>) -> bool {
    rt == topic + response_suffix()
}

/// Route a response that arrived on `response_topic` for requests on `topic`.
pub fn route_response(topic: &str, response_topic: &str) -> (r: ResponseRoute)
    requires
        !is_bare_response_topic(topic@, response_topic@),
    ensures
        match r {
            ResponseRoute::Request(id) => response_route_of(topic@, response_topic@) == Some(Some(id@)),
            ResponseRoute::NoRequestId => response_route_of(topic@, response_topic@) == Some(None::<Seq<char>>),
            ResponseRoute::OtherTopic => response_route_of(topic@, response_topic@) is None,
        },
{
    let t = chars_of(topic);
    let rt = chars_of(response_topic);
    let tl = t.len();
    let rl = rt.len();
    if tl > rl {
        return ResponseRoute::OtherTopic;
    }
    let mut i: usize = 0;
    while i < tl
        invariant
            tl == t.len(),
            rl == rt.len(),
            tl <= rl,
            i <= tl,
            t@ == topic@,
            rt@ == response_topic@,
            forall|k: int| 0 <= k < i ==> t@[k] == rt@[k],
        decreases tl - i,
    {
        if t[i] != rt[i] {
            assert(rt@.take(tl as int)[i as int] != t@[i as int]);
            return ResponseRoute::OtherTopic;
        }
        i += 1;
    }
    assert(rt@.take(tl as int) =~= t@);
    let ghost rest = rt@.skip(tl as int);
    let n = rl - tl;
    if n < 1 || rt[tl] != '.' || n < 9 {
        return ResponseRoute::NoRequestId;
    }
    let mut suffix: Vec<char> = Vec::new();
    push_response_suffix(&mut suffix);
    let mut j: usize = 0;
    while j < 9
        invariant
            rl == rt.len(),
            tl + 9 <= rl,
            j <= 9,
            suffix@ == response_suffix(),
            rest == rt@.skip(tl as int),
            tl == t.len(),
            t@ == topic@,
            rt@ == response_topic@,
            rt@.take(tl as int) == t@,
            rt@[tl as int] == '.',
            forall|k: int| 0 <= k < j ==> rt@[rl - 9 + k] == suffix@[k],
        decreases 9 - j,
    {
        if rt[rl - 9 + j] != suffix[j] {
            assert(rest.skip(rest.len() - 9)[j as int] != response_suffix()[j as int]);
            return ResponseRoute::NoRequestId;
        }
        j += 1;
    }
    assert(rest.skip(rest.len() - 9) =~= response_suffix());
    if n == 9 {
        proof {
            assert(rest =~= response_suffix());
            assert(rt@ =~= rt@.take(tl as int) + rest);
        }
        assert(false);
    }
    let mut id: Vec<char> = Vec::new();
    let mut k: usize = tl + 1;
    while k < rl - 9
        invariant
            rl == rt.len(),
            tl + 1 <= k <= rl - 9,
            id@ == rt@.subrange(tl + 1, k as int),
        decreases rl - 9 - k,
    {
        id.push(rt[k]);
        k += 1;
        assert(id@ =~= rt@.subrange(tl + 1, k as int));
    }
    assert(rest.subrange(1, rest.len() - 9) =~= rt@.subrange(tl + 1, rl - 9));
    ResponseRoute::Request(string_from_chars(id))
}

/// The last word of every response topic, `response`.
pub open spec fn response_word() -> Seq<char> {
    seq!['r', 'e', 's', 'p', 'o', 'n', 's', 'e']
}

/// A response that comes back on the response topic of a request is routed
/// to exactly that request's id.
pub proof fn law_response_routes_to_its_request(topic: Seq<char>, id: Seq<char>)
    ensures
        response_route_of(topic, response_topic_of(topic, id)) == Some(Some(id)),
        !is_bare_response_topic(topic, response_topic_of(topic, id)),
{
    let rt = response_topic_of(topic, id);
    assert(rt.take(topic.len() as int) =~= topic);
    let rest = rt.skip(topic.len() as int);
    assert(rest =~= seq!['.'] + id + response_suffix());
    assert(rest.skip(rest.len() - 9) =~= response_suffix());
    assert(rest.subrange(1, rest.len() - 9) =~= id);
    assert(rt.len() != (topic + response_suffix()).len());
}

/// Every response topic of a request on a topic made of literal words is caught
/// by that topic's response pattern, whatever the (dot-free) request id.
pub proof fn law_response_pattern_catches_responses(topic: Seq<char>, id: Seq<char>)
    requires
        forall|k: int| 0 <= k < split_on(topic, sep()).len() ==> is_literal_word(#[trigger] split_on(topic, sep())[k]),
        !id.contains(sep()),
    ensures
        topic_matches(response_pattern_of(topic), response_topic_of(topic, id)),
{
    let rw = response_word();
    assert(!rw.contains(sep())) by {
        if rw.contains(sep()) {
            let m = choose|m: int| 0 <= m < rw.len() && rw[m] == sep();
            assert(rw[m] != '.');
        }
    }
    lemma_wildcard_words_single();
    lemma_wildcards_differ();
    lemma_split_single(rw, sep());
    lemma_split_single(id, sep());
    lemma_split_concat(star_word(), rw, sep());
    lemma_split_concat(id, rw, sep());
    let tail_p = star_word().push(sep()) + rw;
    let tail_t = id.push(sep()) + rw;
    assert(response_pattern_of(topic) =~= topic.push(sep()) + tail_p);
    assert(response_topic_of(topic, id) =~= topic.push(sep()) + tail_t);
    lemma_split_concat(topic, tail_p, sep());
    lemma_split_concat(topic, tail_t, sep());
    let tw = split_on(topic, sep());
    let pw = seq![star_word()] + seq![rw];
    let ow = seq![id] + seq![rw];
    lemma_literal_prefix(tw, pw, ow);
    assert(rw.len() != star_word().len());
    assert(rw.len() != hash_word().len());
    assert(pw.drop_first() =~= seq![rw]);
    assert(ow.drop_first() =~= seq![rw]);
    assert(seq![rw].drop_first() =~= Seq::<Seq<char>>::empty());
    assert(seq![rw][0] == rw);
    assert(rw != star_word());
    assert(rw != hash_word());
    assert(words_match(seq![rw].drop_first(), seq![rw].drop_first()));
    assert(words_match(seq![rw], seq![rw]));
    assert(words_match(pw, ow));
}

/// A request itself, published on `<topic>.<id>`, is never caught by the
/// response pattern of its topic (for a topic of literal words and a dot-free id).
pub proof fn law_requests_are_not_taken_for_responses(topic: Seq<char>, id: Seq<char>)
    requires
        forall|k: int| 0 <= k < split_on(topic, sep()).len() ==> is_literal_word(#[trigger] split_on(topic, sep())[k]),
        !id.contains(sep()),
    ensures
        !topic_matches(response_pattern_of(topic), request_topic_of(topic, id)),
{
    let rw = response_word();
    assert(!rw.contains(sep())) by {
        if rw.contains(sep()) {
            let m = choose|m: int| 0 <= m < rw.len() && rw[m] == sep();
            assert(rw[m] != '.');
        }
    }
    lemma_wildcard_words_single();
    lemma_wildcards_differ();
    lemma_split_single(rw, sep());
    lemma_split_single(id, sep());
    lemma_split_concat(star_word(), rw, sep());
    let tail_p = star_word().push(sep()) + rw;
    assert(response_pattern_of(topic) =~= topic.push(sep()) + tail_p);
    assert(request_topic_of(topic, id) =~= topic.push(sep()) + id);
    lemma_split_concat(topic, tail_p, sep());
    lemma_split_concat(topic, id, sep());
    let tw = split_on(topic, sep());
    let pw = seq![star_word()] + seq![rw];
    lemma_literal_prefix(tw, pw, seq![id]);
    assert(pw.drop_first() =~= seq![rw]);
    assert(seq![id].drop_first() =~= Seq::<Seq<char>>::empty());
    assert(!words_match(seq![rw], Seq::<Seq<char>>::empty()));
    assert(!words_match(pw, seq![id]));
}

/// A request recorded under an id is what the response for that id takes out,
/// and taking it out leaves the other open requests as they were.
pub proof fn law_recorded_request_is_taken_by_its_response<T>(
    open: Map<Seq<char>, T>,
    id: Seq<char>,
    value: T,
)
    ensures
        open.insert(id, value).dom().contains(id),
        open.insert(id, value)[id] == value,
        open.insert(id, value).remove(id) == open.remove(id),
{
    assert(open.insert(id, value).remove(id) =~= open.remove(id));
}

/// The request topics whose responses are already subscribed to.
pub struct SubscribedTopics {
    topics: Vec<String>,
}

impl SubscribedTopics {
    /// The subscribed topics.
    pub closed spec fn view(&self) -> Set<Seq<char>> {
        Set::new(|t: Seq<char>| strings_view(self.topics@).contains(t))
    }

    /// None yet.
    pub fn new() -> (r: Self)
        ensures
            r.view() == Set::<Seq<char>>::empty(),
    {
        let r = SubscribedTopics { topics: Vec::new() };
        assert(r.view() =~= Set::<Seq<char>>::empty());
        r
    }

    /// Note that the responses to requests on `topic` are to be subscribed to;
    /// true when that has not been done before, so the caller subscribes now.
    pub fn mark(&mut self, topic: &String) -> (first: bool)
        ensures
            first == !old(self).view().contains(topic@),
            final(self).view() == old(self).view().insert(topic@),
    {
        let ghost before = strings_view(self.topics@);
        let mut k: usize = 0;
        while k < self.topics.len()
            invariant
                k <= self.topics@.len(),
                before == strings_view(self.topics@),
                forall|m: int| 0 <= m < k ==> self.topics@[m]@ != topic@,
            decreases self.topics.len() - k,
        {
            if self.topics[k] == *topic {
                assert(before[k as int] == topic@);
                assert(self.view() =~= self.view().insert(topic@));
                return false;
            }
            k += 1;
        }
        let ghost old_view = self.view();
        proof {
            if before.contains(topic@) {
                let m = choose|m: int| 0 <= m < before.len() && before[m] == topic@;
                assert(self.topics@[m]@ == topic@);
            }
        }
        self.topics.push(topic.clone());
        proof {
            let now = strings_view(self.topics@);
            assert(now =~= before.push(topic@));
            assert forall|t: Seq<char>| now.contains(t) <==> before.contains(t) || t == topic@ by {
                if now.contains(t) {
                    let m = choose|m: int| 0 <= m < now.len() && now[m] == t;
                    if m < before.len() {
                        assert(before[m] == t);
                    }
                }
                if before.contains(t) {
                    let m = choose|m: int| 0 <= m < before.len() && before[m] == t;
                    assert(now[m] == t);
                }
                if t == topic@ {
                    assert(now[before.len() as int] == t);
                }
            }
            assert(self.view() =~= old_view.insert(topic@));
        }
        true
    }
}

/// What to do to send a request.
pub struct RequestPlan {
    /// The topic to publish the request on.
    pub request_topic: String,
    /// The pattern to subscribe to first, for the responses on this topic,
    /// when that has not been done before.
    pub subscribe: Option<String>,
}

/// What became of a message that arrived on a response topic.
pub enum ResponseOutcome<T> {
    /// It answers the open request with this id; what that request left to be told.
    Delivered(T),
    /// It names a request id that is not open.
    UnknownId(String),
    /// Its topic starts with the request topic but holds no request id.
    NoRequestId,
    /// Its topic does not start with the request topic.
    OtherTopic,
}

/// The correlation state: the topics whose responses are subscribed to, and
/// the open requests by id, each with what its sender waits on.
pub struct Correlator<T> {
    subscribed: SubscribedTopics,
    pending: TextMap<T>,
}

impl<T> Correlator<T> {
    /// The topics whose responses are subscribed to.
    pub closed spec fn subscribed_view(&self) -> Set<Seq<char>> {
        self.subscribed.view()
    }

    /// The open requests, by id.
    pub closed spec fn pending_view(&self) -> Map<Seq<char>, T> {
        self.pending.view()
    }

    pub closed spec fn wf(&self) -> bool {
        self.pending.wf()
    }

    /// Nothing subscribed, no open request.
    pub fn new() -> (c: Self)
        ensures
            c.wf(),
            c.subscribed_view() == Set::<Seq<char>>::empty(),
            c.pending_view() == Map::<Seq<char>, T>::empty(),
    {
        Correlator { subscribed: SubscribedTopics::new(), pending: TextMap::new() }
    }

    /// Open a request with `id` on `topic`, whose sender waits on `waiter`:
    /// it is published on `<topic>.<id>`, and the responses on the topic are
    /// subscribed to first if they were not yet.
    pub fn begin_request(&mut self, topic: &String, id: String, waiter: T) -> (plan: RequestPlan)
        requires
            old(self).wf(),
        ensures
            final(self).wf(),
            plan.request_topic@ == request_topic_of(topic@, id@),
            plan.subscribe is Some <==> !old(self).subscribed_view().contains(topic@),
            plan.subscribe matches Some(p) ==> p@ == response_pattern_of(topic@),
            final(self).subscribed_view() == old(self).subscribed_view().insert(topic@),
            final(self).pending_view() == old(self).pending_view().insert(id@, waiter),
    {
        let first = self.subscribed.mark(topic);
        let subscribe = if first {
            Some(response_pattern(topic.as_str()))
        } else {
            None
        };
        let request_topic = request_topic(topic.as_str(), id.as_str());
        self.pending.insert(id, waiter);
        RequestPlan { request_topic, subscribe }
    }

    /// A message arrived on `response_topic`, caught by the response
    /// subscription of `topic`: hand it to the open request it answers, which
    /// is then closed.
    pub fn on_response(&mut self, topic: &str, response_topic: &str) -> (r: ResponseOutcome<T>)
        requires
            old(self).wf(),
            !is_bare_response_topic(topic@, response_topic@),
        ensures
            final(self).wf(),
            final(self).subscribed_view() == old(self).subscribed_view(),
            match response_route_of(topic@, response_topic@) {
                Some(Some(id)) => if old(self).pending_view().dom().contains(id) {
                    r == ResponseOutcome::Delivered(old(self).pending_view()[id])
                        && final(self).pending_view() == old(self).pending_view().remove(id)
                } else {
                    (r matches ResponseOutcome::UnknownId(x) && x@ == id)
                        && final(self).pending_view() == old(self).pending_view()
                },
                Some(None) => r is NoRequestId && final(self).pending_view() == old(self).pending_view(),
                None => r is OtherTopic && final(self).pending_view() == old(self).pending_view(),
            },
    {
        match route_response(topic, response_topic) {
            ResponseRoute::Request(id) => {
                match self.pending.remove(&id) {
                    Some(w) => ResponseOutcome::Delivered(w),
                    None => {
                        proof {
                            assert(old(self).pending_view().remove(id@) =~= old(self).pending_view());
                        }
                        ResponseOutcome::UnknownId(id)
                    },
                }
            },
            ResponseRoute::NoRequestId => ResponseOutcome::NoRequestId,
            ResponseRoute::OtherTopic => ResponseOutcome::OtherTopic,
        }
    }
}

/// A request opened with some id is answered by the response that comes back
/// on its response topic: that response is routed to the id, and the id's
/// open request is the one just recorded.
pub proof fn law_response_reaches_waiting_request<T>(
    open: Map<Seq<char>, T>,
    topic: Seq<char>,
    id: Seq<char>,
    waiter: T,
)
    ensures
        response_route_of(topic, response_topic_of(topic, id)) == Some(Some(id)),
        open.insert(id, waiter).dom().contains(id),
        open.insert(id, waiter)[id] == waiter,
        open.insert(id, waiter).remove(id) == open.remove(id),
{
    law_response_routes_to_its_request(topic, id);
    law_recorded_request_is_taken_by_its_response(open, id, waiter);
}

/// The responses on a topic are subscribed to once: only the first request on
/// a topic asks for the subscription.
pub proof fn law_responses_subscribed_once(subscribed: Set<Seq<char>>, topic: Seq<char>)
    ensures
        subscribed.insert(topic).contains(topic),
        subscribed.insert(topic).insert(topic) == subscribed.insert(topic),
{
    assert(subscribed.insert(topic).insert(topic) =~= subscribed.insert(topic));
}

/// The topics whose responses are subscribed to after requests on `topics`, in order,
/// starting from none.
pub open spec fn topics_subscribed_after(topics: Seq<Seq<char>>) -> Set<Seq<char>>
    decreases topics.len(),
{
    if topics.len() == 0 {
        Set::<Seq<char>>::empty()
    } else {
        topics_subscribed_after(topics.drop_last()).insert(topics.last())
    }
}

/// The topics whose responses requests on `topics`, in order and starting from none,
/// subscribe to, in the order the subscriptions are made: a request subscribes when
/// its topic is not subscribed yet, whether or not that subscription then succeeds.
pub open spec fn response_subscriptions(topics: Seq<Seq<char>>) -> Seq<Seq<char>>
    decreases topics.len(),
{
    if topics.len() == 0 {
        Seq::<Seq<char>>::empty()
    } else {
        let r = response_subscriptions(topics.drop_last());
        if topics_subscribed_after(topics.drop_last()).contains(topics.last()) {
            r
        } else {
            r.push(topics.last())
        }
    }
}

/// Over any run of requests, the responses on each topic requested are subscribed
/// to exactly once, by the first request on it, and on no other topic.
pub proof fn law_each_topic_subscribed_once(topics: Seq<Seq<char>>)
    ensures
        forall|x: Seq<char>| topics_subscribed_after(topics).contains(x) <==> topics.contains(x),
        forall|x: Seq<char>| response_subscriptions(topics).contains(x) <==> topics.contains(x),
        forall|a: int, b: int| 0 <= a < b < response_subscriptions(topics).len()
            ==> #[trigger] response_subscriptions(topics)[a] != #[trigger] response_subscriptions(topics)[b],
    decreases topics.len(),
{
    if topics.len() > 0 {
        let p = topics.drop_last();
        let l = topics.last();
        law_each_topic_subscribed_once(p);
        let r = response_subscriptions(p);
        let full = response_subscriptions(topics);
        assert forall|x: Seq<char>| topics.contains(x) <==> (p.contains(x) || x == l) by {
            if topics.contains(x) {
                let k = choose|k: int| 0 <= k < topics.len() && topics[k] == x;
                if k < p.len() {
                    assert(p[k] == x);
                }
            }
            if p.contains(x) {
                let k = choose|k: int| 0 <= k < p.len() && p[k] == x;
                assert(topics[k] == x);
            }
            if x == l {
                assert(topics[topics.len() - 1] == x);
            }
        }
        assert forall|x: Seq<char>| full.contains(x) <==> topics.contains(x) by {
            if topics_subscribed_after(p).contains(l) {
                assert(full == r);
            } else {
                assert(full == r.push(l));
                if full.contains(x) {
                    let k = choose|k: int| 0 <= k < full.len() && full[k] == x;
                    if k < r.len() {
                        assert(r[k] == x);
                    }
                }
                if r.contains(x) {
                    let k = choose|k: int| 0 <= k < r.len() && r[k] == x;
                    assert(full[k] == x);
                }
                if x == l {
                    assert(full[r.len() as int] == x);
                }
            }
        }
        if !topics_subscribed_after(p).contains(l) {
            assert forall|a: int, b: int| 0 <= a < b < full.len() implies #[trigger] full[a] != #[trigger] full[b] by {
                assert(full[a] == r[a]);
                if b < r.len() {
                    assert(full[b] == r[b]);
                } else {
                    assert(full[b] == l);
                    if r[a] == l {
                        assert(r.contains(l));
                        assert(p.contains(l));
                    }
                }
            }
        }
    }
}

} // verus!
