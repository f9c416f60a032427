//! The confirmation domain: outcomes, returned messages, errors, and the
//! one-shot multi-subscriber broadcaster that a pending publish waits on.
//!
//! The broadcaster here is the bookkeeping half of the resolution primitive:
//! it records which subscriptions are attached, and resolving it produces a
//! [`Resolution`] record naming the subscribers that must be woken with the
//! resolution value. Delivering that value to real waiters is the embedding
//! program's job; because `swear` consumes the broadcaster, each instance is
//! resolved at most once.

use vstd::prelude::*;

verus! {

/// A delivery tag: the unsigned 64-bit identifier of a published message
/// awaiting confirmation.
pub type DeliveryTag = u64;

/// AMQP reply code for a precondition-failed soft error.
pub const PRECONDITION_FAILED: u16 = 406;

/// Which resolving operation was attempted, kept for error context.
#[derive(Clone, Copy, Debug, PartialEq, Eq, Structural)]
pub enum Operation {
    Ack,
    Nack,
}

/// A protocol-precondition violation: the broker acknowledged a delivery
/// tag that was never registered (or was already resolved).
#[derive(Clone, Copy, Debug, PartialEq, Eq, Structural)]
pub struct AmqpError {
    /// AMQP reply code; always `PRECONDITION_FAILED` for this error.
    pub code: u16,
    /// The operation the broker sent for the unknown tag.
    pub operation: Operation,
    /// The offending delivery tag.
    pub delivery_tag: DeliveryTag,
    /// The channel the offending frame arrived on.
    pub channel_id: u16,
}

/// A channel or connection fault, fanned out to every pending confirmation
/// of the failing channel as its resolution value.
#[derive(Clone, Copy, Debug, PartialEq, Eq, Structural)]
pub struct ChannelError {
    /// AMQP reply code of the close/error method.
    pub reply_code: u16,
    /// Class id of the method that caused the fault, 0 if none.
    pub class_id: u16,
    /// Method id of the method that caused the fault, 0 if none.
    pub method_id: u16,
}

/// A message the broker could not route and sent back to the publisher.
#[derive(Debug)]
pub struct ReturnedMessage {
    pub reply_code: u16,
    pub reply_text: String,
    pub exchange: String,
    pub routing_key: String,
}

/// The outcome a confirmation eventually resolves to.
#[derive(Debug)]
pub enum Confirmation {
    /// The broker accepted the message; at most one queued returned message
    /// is attached as a loose correlation.
    Ack(Option<ReturnedMessage>),
    /// The broker rejected the message, with the same optional attachment.
    Nack(Option<ReturnedMessage>),
    /// Confirmation mode was never enabled for this publish.
    NotRequested,
}

/// The value broadcast to every subscriber of a resolved confirmation:
/// an outcome, or the channel fault that failed the pending entry.
pub type ConfirmationResult = Result<Confirmation, ChannelError>;

/// One subscription to a broadcaster, identified within that broadcaster.
#[derive(Debug)]
pub struct ConfirmationPromise {
    pub id: u64,
}

/// The confirmation handle a publisher receives when registering a pending
/// delivery tag: its own subscription to the entry's broadcaster.
#[derive(Debug)]
pub struct PublisherConfirm {
    pub promise: ConfirmationPromise,
}

/// The record produced by resolving a broadcaster: every subscriber listed
/// here must be handed `value`, exactly once.
#[derive(Debug)]
pub struct Resolution {
    /// Ids of the subscriptions attached at the moment of resolution.
    pub subscribers: Vec<u64>,
    /// The value they all observe.
    pub value: ConfirmationResult,
}

/// The subscriber ids left after detaching every subscription with `id`,
/// in their original order.
pub open spec fn without_id(s: Seq<u64>, id: u64) -> Seq<u64>
    decreases s.len(),
{
    if s.len() == 0 {
        Seq::empty()
    } else if s.last() == id {
        without_id(s.drop_last(), id)
    } else {
        without_id(s.drop_last(), id).push(s.last())
    }
}

/// A one-shot multi-subscriber resolver: subscriptions can be attached and
/// detached freely; resolving consumes the broadcaster, so it happens at
/// most once, and reaches exactly the subscriptions attached at that moment.
#[derive(Debug)]
pub struct ConfirmationBroadcaster {
    /// Ids of the currently attached subscriptions.
    pub subscribers: Vec<u64>,
    /// The id the next subscription will receive.
    pub next_subscriber: u64,
}

impl Default for ConfirmationBroadcaster {
    /// A fresh broadcaster with no subscribers.
    fn default() -> (r: Self)
        ensures
            r.subscribers@ == Seq::<u64>::empty(),
            r.next_subscriber == 0,
    {
        ConfirmationBroadcaster { subscribers: Vec::new(), next_subscriber: 0 }
    }
}

impl ConfirmationBroadcaster {
    /// Attach a new subscription and return its handle.
    pub fn subscribe(&mut self) -> (p: ConfirmationPromise)
        requires
            old(self).next_subscriber < u64::MAX,
        ensures
            p.id == old(self).next_subscriber,
            final(self).subscribers@ == old(self).subscribers@.push(p.id),
            final(self).next_subscriber == old(self).next_subscriber + 1,
    {
        let id = self.next_subscriber;
        self.next_subscriber = self.next_subscriber + 1;
        self.subscribers.push(id);
        ConfirmationPromise { id }
    }

    /// Detach one subscription; the others and the eventual resolution are
    /// unaffected. Detaching a handle that is not attached changes nothing.
    pub fn unsubscribe(&mut self, promise: ConfirmationPromise)
        ensures
            final(self).subscribers@ == without_id(old(self).subscribers@, promise.id),
            final(self).next_subscriber == old(self).next_subscriber,
    {
        let ghost orig = self.subscribers@;
        let mut i: usize = 0;
        let ghost j: int = 0;
        while i < self.subscribers.len()
            invariant
                0 <= j <= orig.len(),
                i == without_id(orig.take(j), promise.id).len(),
                self.subscribers@ == without_id(orig.take(j), promise.id) + orig.skip(j),
                self.next_subscriber == old(self).next_subscriber,
            decreases orig.len() - j,
        {
            proof {
                assert(orig.take(j + 1).drop_last() =~= orig.take(j));
                assert(orig.take(j + 1).last() == orig[j]);
            }
            if self.subscribers[i] == promise.id {
                self.subscribers.remove(i);
                proof {
                    assert(self.subscribers@ =~= without_id(orig.take(j + 1), promise.id)
                        + orig.skip(j + 1));
                }
            } else {
                i = i + 1;
                proof {
                    assert(self.subscribers@ =~= without_id(orig.take(j + 1), promise.id)
                        + orig.skip(j + 1));
                }
            }
            proof {
                j = j + 1;
            }
        }
        proof {
            assert(orig.take(j) =~= orig);
            assert(self.subscribers@ =~= without_id(orig, promise.id));
        }
    }

    /// Resolve the broadcaster. Consuming `self` makes a second resolution
    /// of the same instance impossible; the returned record names exactly
    /// the subscriptions that observe `value`. Resolving with zero
    /// subscribers is valid and produces an empty wake list.
    pub fn swear(self, value: ConfirmationResult) -> (r: Resolution)
        ensures
            r.subscribers@ == self.subscribers@,
            r.value == value,
    {
        Resolution { subscribers: self.subscribers, value }
    }
}

/// The queue of broker-returned messages, consumed oldest first: at most
/// one is attached to each Ack/Nack resolution.
#[derive(Debug)]
pub struct ReturnedMessages {
    pub waiting: Vec<ReturnedMessage>,
}

impl ReturnedMessages {
    /// An empty queue.
    pub fn new() -> (r: Self)
        ensures
            r.waiting@ == Seq::<ReturnedMessage>::empty(),
    {
        ReturnedMessages { waiting: Vec::new() }
    }

    /// Queue a message the broker just returned.
    pub fn register(&mut self, message: ReturnedMessage)
        ensures
            final(self).waiting@ == old(self).waiting@.push(message),
    {
        self.waiting.push(message);
    }

    /// Take the oldest queued returned message, if any.
    pub fn get_waiting_message(&mut self) -> (r: Option<ReturnedMessage>)
        ensures
            old(self).waiting@.len() == 0 ==> r is None
                && final(self).waiting@ == old(self).waiting@,
            old(self).waiting@.len() > 0 ==> r == Some(old(self).waiting@.first())
                && final(self).waiting@ == old(self).waiting@.drop_first(),
    {
        if self.waiting.len() == 0 {
            None
        } else {
            let message = self.waiting.remove(0);
            proof {
                assert(self.waiting@ =~= old(self).waiting@.drop_first());
            }
            Some(message)
        }
    }
}

} // verus!
