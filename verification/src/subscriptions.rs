//! The subscription table of the in-memory bus: subscriptions by pattern, and
//! which of them a message published on a topic is delivered to.
use vstd::prelude::*;

use crate::topic::{match_topic, topic_matches};

verus! {

/// Queue length of a subscription unless configured otherwise.
pub const DEFAULT_SUBSCRIBER_QUEUE_SIZE: i64 = 10;

/// The queue length of a subscription: the configured number, else the default,
/// converted to `usize` as an `as` cast does.
pub fn subscriber_queue_size(configured: Option<i64>) -> (size: usize)
    ensures
        size == (match configured {
            Some(v) => v as usize,
            None => DEFAULT_SUBSCRIBER_QUEUE_SIZE as usize,
        }),
{
    let v = match configured {
        Some(v) => v,
        None => DEFAULT_SUBSCRIBER_QUEUE_SIZE,
    };
    #[verifier::truncate]
    (v as usize)
}

/// The positions, in order, of the patterns among `patterns` that `topic` matches.
pub open spec fn matching_positions(patterns: Seq<Seq<char>>, topic: Seq<char>) -> Seq<int>
    decreases patterns.len(),
{
    if patterns.len() == 0 {
        Seq::<int>::empty()
    } else {
        let r = matching_positions(patterns.drop_last(), topic);
        if topic_matches(patterns.last(), topic) {
            r.push(patterns.len() - 1)
        } else {
            r
        }
    }
}

/// The positions listed for a topic are exactly those of the patterns it matches.
pub proof fn lemma_matching_positions(patterns: Seq<Seq<char>>, topic: Seq<char>)
    ensures
        forall|k: int| 0 <= k < patterns.len() ==> (matching_positions(patterns, topic).contains(k)
            <==> topic_matches(#[trigger] patterns[k], topic)),
        forall|k: int| 0 <= k < matching_positions(patterns, topic).len()
            ==> 0 <= #[trigger] matching_positions(patterns, topic)[k] < patterns.len(),
        forall|a: int, b: int| 0 <= a < b < matching_positions(patterns, topic).len()
            ==> #[trigger] matching_positions(patterns, topic)[a] < #[trigger] matching_positions(patterns, topic)[b],
    decreases patterns.len(),
{
    if patterns.len() > 0 {
        let p = patterns.drop_last();
        lemma_matching_positions(p, topic);
        let r = matching_positions(p, topic);
        let full = matching_positions(patterns, topic);
        assert forall|k: int| 0 <= k < patterns.len() implies (full.contains(k)
            <==> topic_matches(#[trigger] patterns[k], topic)) by {
            if k < patterns.len() - 1 {
                assert(patterns[k] == p[k]);
                if full.contains(k) {
                    let m = choose|m: int| 0 <= m < full.len() && full[m] == k;
                    if m < r.len() {
                        assert(r[m] == k);
                    }
                }
                if r.contains(k) {
                    let m = choose|m: int| 0 <= m < r.len() && r[m] == k;
                    assert(full[m] == k);
                }
            } else {
                if topic_matches(patterns.last(), topic) {
                    assert(full[full.len() - 1] == k);
                } else {
                    if full.contains(k) {
                        let m = choose|m: int| 0 <= m < full.len() && full[m] == k;
                        assert(r[m] == k);
                    }
                }
            }
        }
        assert forall|k: int| 0 <= k < full.len() implies 0 <= #[trigger] full[k] < patterns.len() by {
            if k < r.len() {
                assert(full[k] == r[k]);
            }
        }
        assert forall|a: int, b: int| 0 <= a < b < full.len() implies #[trigger] full[a] < #[trigger] full[b] by {
            assert(full[a] == r[a]);
            if b < r.len() {
                assert(full[b] == r[b]);
            } else {
                assert(0 <= r[a] < p.len());
            }
        }
    }
}

/// Subscriptions, each a pattern with the queue its messages go to.
pub struct SubscriptionTable<Q> {
    entries: Vec<(String, Q)>,
}

impl<Q> SubscriptionTable<Q> {
    /// The patterns, in the order of subscription.
    pub closed spec fn patterns(&self) -> Seq<Seq<char>> {
        self.entries@.map_values(|e: (String, Q)| e.0@)
    }

    /// The queues, in the order of subscription.
    pub closed spec fn queues(&self) -> Seq<Q> {
        self.entries@.map_values(|e: (String, Q)| e.1)
    }

    /// No subscriptions.
    pub fn new() -> (t: Self)
        ensures
            t.patterns() == Seq::<Seq<char>>::empty(),
            t.queues() == Seq::<Q>::empty(),
    {
        let t = SubscriptionTable { entries: Vec::new() };
        assert(t.patterns() =~= Seq::<Seq<char>>::empty());
        assert(t.queues() =~= Seq::<Q>::empty());
        t
    }

    /// Add a subscription on `pattern` delivering to `queue`.
    pub fn subscribe(&mut self, pattern: String, queue: Q)
        ensures
            final(self).patterns() == old(self).patterns().push(pattern@),
            final(self).queues() == old(self).queues().push(queue),
    {
        let ghost p = pattern@;
        self.entries.push((pattern, queue));
        assert(self.patterns() =~= old(self).patterns().push(p));
        assert(self.queues() =~= old(self).queues().push(queue));
    }

    /// The number of subscriptions.
    pub fn len(&self) -> (n: usize)
        ensures
            n == self.patterns().len(),
    {
        self.entries.len()
    }

    /// The queue of subscription `k`.
    pub fn queue(&self, k: usize) -> (q: &Q)
        requires
            k < self.patterns().len(),
        ensures
            *q == self.queues()[k as int],
    {
        &self.entries[k].1
    }

    /// Publish on `topic`: the subscriptions, in the order they were made, whose
    /// queues the message is handed to.
    pub fn publish(&self, topic: &str) -> (r: Vec<usize>)
        ensures
            r@.map_values(|k: usize| k as int) == matching_positions(self.patterns(), topic@),
    {
        let ghost pv = self.patterns();
        let mut r: Vec<usize> = Vec::new();
        let mut k: usize = 0;
        while k < self.entries.len()
            invariant
                k <= self.entries@.len(),
                pv == self.patterns(),
                r@.map_values(|k: usize| k as int) == matching_positions(pv.take(k as int), topic@),
            decreases self.entries.len() - k,
        {
            assert(pv.take(k + 1).drop_last() =~= pv.take(k as int));
            assert(pv.take(k + 1).last() == self.entries@[k as int].0@);
            if match_topic(self.entries[k].0.as_str(), topic) {
                let ghost before = r@;
                r.push(k);
                assert(r@.map_values(|k: usize| k as int) =~= before.map_values(|k: usize| k as int).push(k as int));
            }
            k += 1;
        }
        assert(pv.take(self.entries.len() as int) =~= pv);
        r
    }

    /// Drop every subscription.
    pub fn clear(&mut self)
        ensures
            final(self).patterns() == Seq::<Seq<char>>::empty(),
            final(self).queues() == Seq::<Q>::empty(),
    {
        self.entries.clear();
        assert(self.patterns() =~= Seq::<Seq<char>>::empty());
        assert(self.queues() =~= Seq::<Q>::empty());
    }
}

/// A subscription receives every message published, after it was made, on a
/// topic its pattern matches, and no message on a topic its pattern does not match.
pub proof fn law_subscription_receives_exactly_matching_topics(
    before: Seq<Seq<char>>,
    pattern: Seq<char>,
    topic: Seq<char>,
)
    ensures
        matching_positions(before.push(pattern), topic).contains(before.len() as int)
            <==> topic_matches(pattern, topic),
{
    lemma_matching_positions(before.push(pattern), topic);
    assert(before.push(pattern)[before.len() as int] == pattern);
}

/// A publication on `topic` is handed to every subscription whose pattern the topic
/// matches, once each and in the order the subscriptions were made, and to no other.
pub proof fn law_publish_delivers_once_to_each_match_in_order(patterns: Seq<Seq<char>>, topic: Seq<char>)
    ensures
        forall|k: int| 0 <= k < patterns.len() ==> (matching_positions(patterns, topic).contains(k)
            <==> topic_matches(#[trigger] patterns[k], topic)),
        forall|m: int| 0 <= m < matching_positions(patterns, topic).len()
            ==> 0 <= #[trigger] matching_positions(patterns, topic)[m] < patterns.len(),
        forall|a: int, b: int| 0 <= a < b < matching_positions(patterns, topic).len()
            ==> #[trigger] matching_positions(patterns, topic)[a] < #[trigger] matching_positions(patterns, topic)[b],
{
    lemma_matching_positions(patterns, topic);
}

/// After every subscription is dropped, a publication is delivered nowhere.
pub proof fn law_cleared_table_delivers_nothing(topic: Seq<char>)
    ensures
        matching_positions(Seq::<Seq<char>>::empty(), topic).len() == 0,
{
}

} // verus!
