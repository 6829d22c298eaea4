//! A channel of one slot: it holds the value sent last and counts the sends,
//! so that a reader can tell whether the value changed since it last looked.
//! Nothing is queued. Waiting for a change is the business of whoever holds
//! the channel.

use vstd::prelude::*;

verus! {

/// The count after one more send. It wraps around, so that it always differs
/// from the count before.
pub open spec fn next_version(version: u64) -> u64 {
    if version == u64::MAX {
        0
    } else {
        (version + 1) as u64
    }
}

/// The sending side, which also keeps the value.
#[derive(Debug)]
pub struct Sender<T> {
    value: T,
    version: u64,
}

/// A reader's note of the last send it has seen.
#[derive(Debug, Clone, Copy)]
pub struct Receiver {
    seen: u64,
}

impl<T> Sender<T> {
    /// The value sent last.
    pub closed spec fn value(&self) -> T {
        self.value
    }

    /// The number of sends so far, counted around the clock.
    pub closed spec fn version(&self) -> u64 {
        self.version
    }

    /// A channel that holds `initial`.
    pub fn new(initial: T) -> (sender: Sender<T>)
        ensures
            sender.value() == initial,
            sender.version() == 0,
    {
        Sender { value: initial, version: 0 }
    }

    /// Puts `value` into the slot and hands back what was there. Every
    /// reader that looked before sees a change afterwards.
    pub fn send_replace(&mut self, value: T) -> (previous: T)
        ensures
            final(self).value() == value,
            final(self).version() == next_version(old(self).version()),
            previous == old(self).value(),
    {
        let mut previous = value;
        std::mem::swap(&mut self.value, &mut previous);
        self.version = self.version.wrapping_add(1);
        previous
    }

    /// The value sent last. Reading it changes nothing, so that reading it
    /// again before the next send gives the same value.
    pub fn borrow(&self) -> (value: &T)
        ensures
            *value == self.value(),
    {
        &self.value
    }

    /// A reader that has seen the value now in the slot.
    pub fn subscribe(&self) -> (receiver: Receiver)
        ensures
            receiver.seen() == self.version(),
            !receiver.spec_has_changed(self),
    {
        Receiver { seen: self.version }
    }
}

impl Receiver {
    /// The count of the last send that the reader has seen.
    pub closed spec fn seen(&self) -> u64 {
        self.seen
    }

    /// Whether `sender` has sent since the reader last looked.
    pub open spec fn spec_has_changed<T>(&self, sender: &Sender<T>) -> bool {
        sender.version() != self.seen()
    }

    /// Whether `sender` has sent since the reader last looked.
    pub fn has_changed<T>(&self, sender: &Sender<T>) -> (changed: bool)
        ensures
            changed == self.spec_has_changed(sender),
    {
        sender.version != self.seen
    }

    /// The value now in the slot of `sender`; the reader has then seen it.
    pub fn borrow_and_update<'a, T>(&mut self, sender: &'a Sender<T>) -> (value: &'a T)
        ensures
            *value == sender.value(),
            final(self).seen() == sender.version(),
            !final(self).spec_has_changed(sender),
    {
        self.seen = sender.version;
        &sender.value
    }
}

/// A send reaches every reader that looked before it, once: such a reader
/// sees a change whatever value was sent, and no further change after it has
/// looked again. A reader that arrives after the send sees no change.
pub proof fn lemma_send_is_seen_once<T>(
    before: Sender<T>,
    after: Sender<T>,
    early: Receiver,
    updated: Receiver,
    late: Receiver,
)
    requires
        after.version() == next_version(before.version()),
        early.seen() == before.version(),
        updated.seen() == after.version(),
        late.seen() == after.version(),
    ensures
        !early.spec_has_changed(&before),
        early.spec_has_changed(&after),
        !updated.spec_has_changed(&after),
        !late.spec_has_changed(&after),
{
}

} // verus!
