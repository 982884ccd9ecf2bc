//! A message bus stand-in for tests: it records what is published and
//! subscribed to, and delivers nothing.
use vstd::prelude::*;

verus! {

/// One publication seen by the mock bus.
pub struct PublishRecord<M> {
    pub topic: String,
    pub message: M,
}

/// The record of a mock bus.
pub struct MockBus<M> {
    pub publishes: Vec<PublishRecord<M>>,
    pub subscribes: Vec<String>,
}

impl<M> MockBus<M> {
    /// Nothing seen yet.
    pub fn new() -> (b: Self)
        ensures
            b.publishes@.len() == 0,
            b.subscribes@.len() == 0,
    {
        MockBus { publishes: Vec::new(), subscribes: Vec::new() }
    }

    /// Record a publication of `message` on `topic`.
    pub fn publish(&mut self, topic: &str, message: M)
        ensures
            final(self).publishes@.len() == old(self).publishes@.len() + 1,
            forall|k: int| 0 <= k < old(self).publishes@.len() ==> #[trigger] final(self).publishes@[k] == old(self).publishes@[k],
            final(self).publishes@.last().topic@ == topic@,
            final(self).publishes@.last().message == message,
            final(self).subscribes@ == old(self).subscribes@,
    {
        self.publishes.push(PublishRecord { topic: topic.to_owned(), message });
    }

    /// Record a subscription to `topic`.
    pub fn register_subscriber(&mut self, topic: &str)
        ensures
            final(self).subscribes@.len() == old(self).subscribes@.len() + 1,
            forall|k: int| 0 <= k < old(self).subscribes@.len() ==> #[trigger] final(self).subscribes@[k] == old(self).subscribes@[k],
            final(self).subscribes@.last()@ == topic@,
            final(self).publishes@ == old(self).publishes@,
    {
        self.subscribes.push(topic.to_owned());
    }
}

} // verus!
