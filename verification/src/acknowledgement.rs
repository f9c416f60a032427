//! The acknowledgement tracker: the set of delivery tags awaiting a broker
//! response, resolved singly, cumulatively, en masse, or failed by channel.
//!
//! Every mutating operation appends the [`Resolution`] records it produced
//! to an outbox (`resolutions`); the embedding program runs each operation
//! under one lock and then delivers the queued resolutions to the real
//! waiters. A reader of the outbox therefore sees exactly which
//! subscriptions were woken, with which value, and in which order.

use vstd::prelude::*;

use crate::confirmation::{
    without_id, AmqpError, ChannelError, Confirmation, ConfirmationBroadcaster,
    ConfirmationPromise, ConfirmationResult, DeliveryTag, Operation, PublisherConfirm, Resolution,
    ReturnedMessage, ReturnedMessages, PRECONDITION_FAILED,
};

verus! {

/// One outstanding publish awaiting Ack/Nack: the channel that registered
/// it and the broadcaster its confirmation handles are subscribed to.
#[derive(Debug)]
pub struct PendingEntry {
    pub tag: DeliveryTag,
    pub channel_id: u16,
    pub broadcaster: ConfirmationBroadcaster,
}

/// The most recently registered entry's own subscription to its
/// broadcaster; superseded on every registration, consumed by
/// `get_last_pending`.
#[derive(Debug)]
pub struct LastPending {
    pub tag: DeliveryTag,
    pub promise: ConfirmationPromise,
}

/// The tracker state: one logical owner of the pending set. The embedding
/// program serializes all access through a single lock.
#[derive(Debug)]
pub struct Inner {
    pub last: Option<LastPending>,
    pub pending: Vec<PendingEntry>,
    pub returned_messages: ReturnedMessages,
    /// Outbox of resolutions not yet delivered to their subscribers.
    pub resolutions: Vec<Resolution>,
}

/// Some pending entry carries this tag.
pub open spec fn has_tag(s: Seq<PendingEntry>, tag: DeliveryTag) -> bool {
    exists|k: int| 0 <= k < s.len() && s[k].tag == tag
}

/// The index of the entry carrying `tag`; meaningful only when `has_tag`
/// holds and tags are distinct.
pub open spec fn entry_index(s: Seq<PendingEntry>, tag: DeliveryTag) -> int {
    choose|k: int| 0 <= k < s.len() && s[k].tag == tag
}

/// The entry carrying `tag`.
pub open spec fn entry_of(s: Seq<PendingEntry>, tag: DeliveryTag) -> PendingEntry {
    s[entry_index(s, tag)]
}

/// No delivery tag occurs twice: the caller-guaranteed uniqueness
/// invariant of the pending set.
pub open spec fn distinct_tags(s: Seq<PendingEntry>) -> bool {
    forall|i: int, j: int| 0 <= i < j < s.len() ==> s[i].tag != s[j].tag
}

/// The pending entries left after removing the one carrying `tag`, in
/// their original order.
pub open spec fn without_tag(s: Seq<PendingEntry>, tag: DeliveryTag) -> Seq<PendingEntry>
    decreases s.len(),
{
    if s.len() == 0 {
        Seq::empty()
    } else if s.last().tag == tag {
        without_tag(s.drop_last(), tag)
    } else {
        without_tag(s.drop_last(), tag).push(s.last())
    }
}

/// The pending entries with a tag strictly above the cumulative threshold,
/// in their original order: what a cumulative sweep leaves pending.
pub open spec fn kept_after(s: Seq<PendingEntry>, tag: DeliveryTag) -> Seq<PendingEntry>
    decreases s.len(),
{
    if s.len() == 0 {
        Seq::empty()
    } else if s.last().tag <= tag {
        kept_after(s.drop_last(), tag)
    } else {
        kept_after(s.drop_last(), tag).push(s.last())
    }
}

/// The pending entries with a tag at or below the cumulative threshold, in
/// their original order: what a cumulative sweep resolves, whatever
/// channel each entry belongs to.
pub open spec fn resolved_up_to(s: Seq<PendingEntry>, tag: DeliveryTag) -> Seq<PendingEntry>
    decreases s.len(),
{
    if s.len() == 0 {
        Seq::empty()
    } else if s.last().tag <= tag {
        resolved_up_to(s.drop_last(), tag).push(s.last())
    } else {
        resolved_up_to(s.drop_last(), tag)
    }
}

/// The pending entries belonging to `channel_id`, in their original order.
pub open spec fn on_channel(s: Seq<PendingEntry>, channel_id: u16) -> Seq<PendingEntry>
    decreases s.len(),
{
    if s.len() == 0 {
        Seq::empty()
    } else if s.last().channel_id == channel_id {
        on_channel(s.drop_last(), channel_id).push(s.last())
    } else {
        on_channel(s.drop_last(), channel_id)
    }
}

/// The pending entries of every other channel, in their original order.
pub open spec fn off_channel(s: Seq<PendingEntry>, channel_id: u16) -> Seq<PendingEntry>
    decreases s.len(),
{
    if s.len() == 0 {
        Seq::empty()
    } else if s.last().channel_id == channel_id {
        off_channel(s.drop_last(), channel_id)
    } else {
        off_channel(s.drop_last(), channel_id).push(s.last())
    }
}

/// The oldest queued returned message, if any: what one resolution
/// attaches.
pub open spec fn head_message(q: Seq<ReturnedMessage>) -> Option<ReturnedMessage> {
    if q.len() > 0 {
        Some(q.first())
    } else {
        None
    }
}

/// The queue after one resolution consumed its attachment.
pub open spec fn tail_messages(q: Seq<ReturnedMessage>) -> Seq<ReturnedMessage> {
    if q.len() > 0 {
        q.drop_first()
    } else {
        q
    }
}

/// The message attached to the `k`-th of several resolutions performed in
/// one sweep over a queue that initially held `q`.
pub open spec fn paired_message(q: Seq<ReturnedMessage>, k: int) -> Option<ReturnedMessage> {
    if k < q.len() {
        Some(q[k])
    } else {
        None
    }
}

/// How many queued messages a sweep of `wanted` resolutions consumes.
pub open spec fn consumed(wanted: int, available: int) -> int {
    if wanted <= available {
        wanted
    } else {
        available
    }
}

/// The outcome a resolving operation delivers.
pub open spec fn confirmation_of(success: bool, message: Option<ReturnedMessage>) -> Confirmation {
    if success {
        Confirmation::Ack(message)
    } else {
        Confirmation::Nack(message)
    }
}

/// The operation name carried in a precondition-violation error.
pub open spec fn operation_of(success: bool) -> Operation {
    if success {
        Operation::Ack
    } else {
        Operation::Nack
    }
}

/// `r` wakes exactly `subscribers` with `value`.
pub open spec fn resolution_is(r: Resolution, subscribers: Seq<u64>, value: ConfirmationResult) -> bool {
    r.subscribers@ == subscribers && r.value == value
}

/// `r` resolves entry `e` to `value`: it wakes exactly the subscriptions
/// attached to `e`'s broadcaster.
pub open spec fn resolves_entry(r: Resolution, e: PendingEntry, value: ConfirmationResult) -> bool {
    resolution_is(r, e.broadcaster.subscribers@, value)
}

/// The outbox grew by `k` records and kept everything already queued.
pub open spec fn appended(pre: Seq<Resolution>, post: Seq<Resolution>, k: int) -> bool {
    post.len() == pre.len() + k && post.take(pre.len() as int) == pre
}

/// What `register_pending` does: the previous last-pending subscription is
/// detached from its own broadcaster (if that tag is still pending), a
/// fresh entry for `tag` is appended whose broadcaster carries exactly two
/// subscriptions (the returned confirmation handle and the new last-pending
/// reference), and nothing is resolved.
pub open spec fn register_effect(
    pre: Inner,
    post: Inner,
    tag: DeliveryTag,
    channel_id: u16,
    pc: PublisherConfirm,
) -> bool {
    &&& post.pending@.len() == pre.pending@.len() + 1
    &&& (match pre.last {
        None => post.pending@.drop_last() == pre.pending@,
        Some(lp) => detach_effect(pre.pending@, post.pending@.drop_last(), lp),
    })
    &&& post.pending@.last().tag == tag
    &&& post.pending@.last().channel_id == channel_id
    &&& (post.last matches Some(lp2) && lp2.tag == tag && lp2.promise.id != pc.promise.id
        && post.pending@.last().broadcaster.subscribers@ == seq![pc.promise.id, lp2.promise.id])
    &&& post.returned_messages.waiting@ == pre.returned_messages.waiting@
    &&& post.resolutions@ == pre.resolutions@
}

/// Pointwise: the entry carrying the superseded last-pending tag loses
/// exactly that one subscription; every other entry is untouched.
pub open spec fn detach_effect(
    pre_p: Seq<PendingEntry>,
    post_p: Seq<PendingEntry>,
    lp: LastPending,
) -> bool {
    &&& post_p.len() == pre_p.len()
    &&& forall|i: int|
        0 <= i < pre_p.len() && pre_p[i].tag != lp.tag ==> post_p[i] == pre_p[i]
    &&& forall|i: int|
        0 <= i < pre_p.len() && pre_p[i].tag == lp.tag ==> {
            &&& post_p[i].tag == pre_p[i].tag
            &&& post_p[i].channel_id == pre_p[i].channel_id
            &&& post_p[i].broadcaster.next_subscriber == pre_p[i].broadcaster.next_subscriber
            &&& post_p[i].broadcaster.subscribers@ == without_id(
                pre_p[i].broadcaster.subscribers@,
                lp.promise.id,
            )
        }
}

/// What `get_last_pending` does: returns and clears the last-pending
/// reference, touching nothing else.
pub open spec fn get_last_effect(pre: Inner, post: Inner, r: Option<ConfirmationPromise>) -> bool {
    &&& post.last is None
    &&& post.pending@ == pre.pending@
    &&& post.returned_messages.waiting@ == pre.returned_messages.waiting@
    &&& post.resolutions@ == pre.resolutions@
    &&& (match pre.last {
        None => r is None,
        Some(lp) => r matches Some(p) && p == lp.promise,
    })
}

/// What `complete_pending` does: one resolution is queued for the given
/// broadcaster, carrying Ack or Nack with the oldest queued returned
/// message (if any) attached and consumed.
pub open spec fn complete_effect(
    pre: Inner,
    post: Inner,
    success: bool,
    resolver: ConfirmationBroadcaster,
) -> bool {
    &&& post.pending@ == pre.pending@
    &&& post.last == pre.last
    &&& post.returned_messages.waiting@ == tail_messages(pre.returned_messages.waiting@)
    &&& appended(pre.resolutions@, post.resolutions@, 1)
    &&& resolution_is(
        post.resolutions@.last(),
        resolver.subscribers@,
        Ok(confirmation_of(success, head_message(pre.returned_messages.waiting@))),
    )
}

/// What `drop_pending` (and so `ack`/`nack`) does. A pending `tag` is
/// removed and resolved to the matching outcome, exactly once. An unknown
/// `tag` is a protocol-precondition violation: the error names the tag,
/// the operation and the channel, and the state is left unchanged.
pub open spec fn drop_effect(
    pre: Inner,
    post: Inner,
    tag: DeliveryTag,
    success: bool,
    channel_id: u16,
    r: Result<(), AmqpError>,
) -> bool {
    if has_tag(pre.pending@, tag) {
        &&& r is Ok
        &&& post.pending@ == without_tag(pre.pending@, tag)
        &&& post.last == pre.last
        &&& post.returned_messages.waiting@ == tail_messages(pre.returned_messages.waiting@)
        &&& appended(pre.resolutions@, post.resolutions@, 1)
        &&& resolves_entry(
            post.resolutions@.last(),
            entry_of(pre.pending@, tag),
            Ok(confirmation_of(success, head_message(pre.returned_messages.waiting@))),
        )
    } else {
        &&& r == Err::<(), AmqpError>(
            (AmqpError {
                code: PRECONDITION_FAILED,
                operation: operation_of(success),
                delivery_tag: tag,
                channel_id,
            }),
        )
        &&& post == pre
    }
}

impl Inner {
    /// The tracker's internal invariant: pending delivery tags are unique,
    /// which the registration caller must guarantee.
    pub open spec fn wf(&self) -> bool {
        distinct_tags(self.pending@)
    }

    /// A tracker with no pending entries, no last-pending reference and an
    /// empty outbox, drawing attachments from `returned_messages`.
    pub fn new(returned_messages: ReturnedMessages) -> (r: Self)
        ensures
            r.wf(),
            r.last is None,
            r.pending@ == Seq::<PendingEntry>::empty(),
            r.returned_messages == returned_messages,
            r.resolutions@ == Seq::<Resolution>::empty(),
    {
        Inner { last: None, pending: Vec::new(), returned_messages, resolutions: Vec::new() }
    }

    /// Register a fresh pending entry for `delivery_tag` and hand back a
    /// confirmation handle subscribed to its broadcaster. The previous
    /// last-pending subscription is detached from its own broadcaster
    /// before being superseded. The caller is responsible for tag
    /// uniqueness; there is no error path.
    pub fn register_pending(&mut self, delivery_tag: DeliveryTag, channel_id: u16) -> (pc:
        PublisherConfirm)
        requires
            old(self).wf(),
            !has_tag(old(self).pending@, delivery_tag),
        ensures
            final(self).wf(),
            register_effect(*old(self), *final(self), delivery_tag, channel_id, pc),
    {
        let mut broadcaster = ConfirmationBroadcaster::default();
        let promise = broadcaster.subscribe();
        let pc = PublisherConfirm { promise };
        match self.last.take() {
            Some(lp) => {
                match find_tag(&self.pending, lp.tag) {
                    Some(i) => {
                        let mut e = self.pending.remove(i);
                        e.broadcaster.unsubscribe(lp.promise);
                        let ghost removed = self.pending@;
                        let ghost ev = e;
                        self.pending.insert(i, e);
                        proof {
                            old(self).pending@.remove_ensures(i as int);
                            removed.insert_ensures(i as int, ev);
                            assert(detach_effect(old(self).pending@, self.pending@, lp));
                        }
                    },
                    None => {
                        proof {
                            assert(detach_effect(old(self).pending@, self.pending@, lp));
                        }
                    },
                }
            },
            None => {},
        }
        let ghost mid = self.pending@;
        let last_promise = broadcaster.subscribe();
        proof {
            assert(broadcaster.subscribers@ =~= seq![pc.promise.id, last_promise.id]);
        }
        self.last = Some(LastPending { tag: delivery_tag, promise: last_promise });
        self.pending.push(PendingEntry { tag: delivery_tag, channel_id, broadcaster });
        proof {
            assert(self.pending@.drop_last() =~= mid);
            assert(forall|k: int|
                0 <= k < mid.len() ==> mid[k].tag == old(self).pending@[k].tag);
        }
        pc
    }

    /// Return (and clear) the last-pending reference; the pending set is
    /// untouched. Nothing is returned if no registration happened since
    /// the last call.
    pub fn get_last_pending(&mut self) -> (r: Option<ConfirmationPromise>)
        ensures
            get_last_effect(*old(self), *final(self), r),
    {
        match self.last.take() {
            Some(lp) => Some(lp.promise),
            None => None,
        }
    }

    /// Queue one resolution of `resolver` to Ack or Nack, attaching (and
    /// consuming) the oldest queued returned message, if any.
    pub fn complete_pending(&mut self, success: bool, resolver: ConfirmationBroadcaster)
        ensures
            complete_effect(*old(self), *final(self), success, resolver),
    {
        let returned_message = self.returned_messages.get_waiting_message();
        let resolution = resolver.swear(
            Ok(
                if success {
                    Confirmation::Ack(returned_message)
                } else {
                    Confirmation::Nack(returned_message)
                },
            ),
        );
        self.resolutions.push(resolution);
        proof {
            assert(self.resolutions@.take(old(self).resolutions@.len() as int) =~= old(
                self,
            ).resolutions@);
        }
    }

    /// Remove exactly the entry carrying `delivery_tag` and resolve it to
    /// the matching outcome. Fails with a precondition-violation error,
    /// naming the tag, the operation and the channel, when no such entry
    /// exists — a broker protocol violation surfaced to the caller.
    pub fn drop_pending(
        &mut self,
        delivery_tag: DeliveryTag,
        success: bool,
        channel_id: u16,
    ) -> (r: Result<(), AmqpError>)
        requires
            old(self).wf(),
        ensures
            final(self).wf(),
            drop_effect(*old(self), *final(self), delivery_tag, success, channel_id, r),
            r is Ok <==> has_tag(old(self).pending@, delivery_tag),
    {
        match find_tag(&self.pending, delivery_tag) {
            Some(i) => {
                let e = self.pending.remove(i);
                proof {
                    lemma_entry_is_unique(old(self).pending@, delivery_tag, i as int);
                    lemma_without_tag_remove(old(self).pending@, delivery_tag, i as int);
                    lemma_distinct_remove(old(self).pending@, i as int);
                }
                self.complete_pending(success, e.broadcaster);
                Ok(())
            },
            None => {
                Err(
                    AmqpError {
                        code: PRECONDITION_FAILED,
                        operation: if success {
                            Operation::Ack
                        } else {
                            Operation::Nack
                        },
                        delivery_tag,
                        channel_id,
                    },
                )
            },
        }
    }

    /// Unconditionally resolve every pending entry, regardless of channel,
    /// draining the pending set. Used for connection-wide shutdown where
    /// all channels are equally affected; there is no error path.
    pub fn drop_all(&mut self, success: bool)
        requires
            old(self).wf(),
        ensures
            final(self).wf(),
            drop_all_effect(*old(self), *final(self), success),
    {
        let ghost orig_p = old(self).pending@;
        let ghost orig_m = old(self).returned_messages.waiting@;
        let ghost orig_r = old(self).resolutions@;
        let ghost orig_last = old(self).last;
        let ghost mut j: int = 0;
        while self.pending.len() > 0
            invariant
                0 <= j <= orig_p.len(),
                self.pending@ == orig_p.skip(j),
                self.last == orig_last,
                self.resolutions@.len() == orig_r.len() + j,
                self.resolutions@.take(orig_r.len() as int) == orig_r,
                forall|k: int|
                    0 <= k < j ==> resolves_entry(
                        self.resolutions@[orig_r.len() + k],
                        orig_p[k],
                        Ok(confirmation_of(success, paired_message(orig_m, k))),
                    ),
                self.returned_messages.waiting@ == orig_m.skip(consumed(j, orig_m.len() as int)),
            decreases self.pending@.len(),
        {
            let e = self.pending.remove(0);
            proof {
                assert(e == orig_p[j]);
                assert(self.pending@ =~= orig_p.skip(j + 1));
            }
            let ghost pre_q = self.returned_messages.waiting@;
            let ghost pre_r = self.resolutions@;
            self.complete_pending(success, e.broadcaster);
            proof {
                if j < orig_m.len() {
                    assert(head_message(pre_q) == paired_message(orig_m, j));
                    assert(self.returned_messages.waiting@ =~= orig_m.skip(
                        consumed(j + 1, orig_m.len() as int),
                    ));
                } else {
                    assert(pre_q.len() == 0);
                    assert(self.returned_messages.waiting@ =~= orig_m.skip(
                        consumed(j + 1, orig_m.len() as int),
                    ));
                }
                assert(self.resolutions@.take(orig_r.len() as int) =~= orig_r);
                j = j + 1;
            }
        }
        proof {
            assert(j == orig_p.len());
        }
    }

    /// Cumulative resolution: resolve every still-pending entry whose tag
    /// is at or below `delivery_tag`, regardless of which channel
    /// registered it; `channel_id` is carried for error context only. All
    /// selected entries are attempted; under the single-lock discipline no
    /// individual resolution can fail, so the sweep always succeeds.
    #[allow(unused_variables)]
    pub fn complete_pending_before(
        &mut self,
        delivery_tag: DeliveryTag,
        success: bool,
        channel_id: u16,
    ) -> (r: Result<(), AmqpError>)
        requires
            old(self).wf(),
        ensures
            final(self).wf(),
            r is Ok,
            sweep_effect(*old(self), *final(self), delivery_tag, success),
    {
        let ghost orig_p = old(self).pending@;
        let ghost orig_m = old(self).returned_messages.waiting@;
        let ghost orig_r = old(self).resolutions@;
        let ghost orig_last = old(self).last;
        let mut i: usize = 0;
        let ghost mut j: int = 0;
        while i < self.pending.len()
            invariant
                0 <= j <= orig_p.len(),
                i == kept_after(orig_p.take(j), delivery_tag).len(),
                self.pending@ == kept_after(orig_p.take(j), delivery_tag) + orig_p.skip(j),
                distinct_tags(self.pending@),
                self.last == orig_last,
                self.resolutions@.len() == orig_r.len() + resolved_up_to(
                    orig_p.take(j),
                    delivery_tag,
                ).len(),
                self.resolutions@.take(orig_r.len() as int) == orig_r,
                forall|k: int|
                    0 <= k < resolved_up_to(orig_p.take(j), delivery_tag).len() ==> resolves_entry(
                        self.resolutions@[orig_r.len() + k],
                        resolved_up_to(orig_p.take(j), delivery_tag)[k],
                        Ok(confirmation_of(success, paired_message(orig_m, k))),
                    ),
                self.returned_messages.waiting@ == orig_m.skip(
                    consumed(
                        resolved_up_to(orig_p.take(j), delivery_tag).len() as int,
                        orig_m.len() as int,
                    ),
                ),
            decreases orig_p.len() - j,
        {
            proof {
                assert(orig_p.take(j + 1).drop_last() =~= orig_p.take(j));
                assert(orig_p.take(j + 1).last() == orig_p[j]);
                assert(self.pending@[i as int] == orig_p.skip(j)[0]);
            }
            if self.pending[i].tag <= delivery_tag {
                let ghost sel = resolved_up_to(orig_p.take(j), delivery_tag).len() as int;
                let ghost cur = self.pending@;
                let e = self.pending.remove(i);
                proof {
                    lemma_distinct_remove(cur, i as int);
                    assert(self.pending@ =~= kept_after(orig_p.take(j + 1), delivery_tag)
                        + orig_p.skip(j + 1));
                }
                let ghost pre_q = self.returned_messages.waiting@;
                self.complete_pending(success, e.broadcaster);
                proof {
                    if sel < orig_m.len() {
                        assert(head_message(pre_q) == paired_message(orig_m, sel));
                        assert(self.returned_messages.waiting@ =~= orig_m.skip(
                            consumed(sel + 1, orig_m.len() as int),
                        ));
                    } else {
                        assert(pre_q.len() == 0);
                        assert(self.returned_messages.waiting@ =~= orig_m.skip(
                            consumed(sel + 1, orig_m.len() as int),
                        ));
                    }
                    assert(self.resolutions@.take(orig_r.len() as int) =~= orig_r);
                }
            } else {
                i = i + 1;
                proof {
                    assert(self.pending@ =~= kept_after(orig_p.take(j + 1), delivery_tag)
                        + orig_p.skip(j + 1));
                }
            }
            proof {
                j = j + 1;
            }
        }
        proof {
            assert(orig_p.skip(j).len() == 0);
            assert(orig_p.take(j) =~= orig_p);
            assert(self.pending@ =~= kept_after(orig_p, delivery_tag));
        }
        Ok(())
    }

    /// Fail every pending entry belonging to `channel_id`: each is removed
    /// and resolved to the fault itself, never to Ack/Nack and with no
    /// returned message attached. Entries of other channels are untouched,
    /// so a channel-level error does not leak pending confirmations.
    pub fn on_channel_error(&mut self, channel_id: u16, error: ChannelError)
        requires
            old(self).wf(),
        ensures
            final(self).wf(),
            channel_error_effect(*old(self), *final(self), channel_id, error),
    {
        let ghost orig_p = old(self).pending@;
        let ghost orig_r = old(self).resolutions@;
        let ghost orig_last = old(self).last;
        let ghost orig_q = old(self).returned_messages.waiting@;
        let mut i: usize = 0;
        let ghost mut j: int = 0;
        while i < self.pending.len()
            invariant
                0 <= j <= orig_p.len(),
                i == off_channel(orig_p.take(j), channel_id).len(),
                self.pending@ == off_channel(orig_p.take(j), channel_id) + orig_p.skip(j),
                distinct_tags(self.pending@),
                self.last == orig_last,
                self.returned_messages.waiting@ == orig_q,
                self.resolutions@.len() == orig_r.len() + on_channel(
                    orig_p.take(j),
                    channel_id,
                ).len(),
                self.resolutions@.take(orig_r.len() as int) == orig_r,
                forall|k: int|
                    0 <= k < on_channel(orig_p.take(j), channel_id).len() ==> resolves_entry(
                        self.resolutions@[orig_r.len() + k],
                        on_channel(orig_p.take(j), channel_id)[k],
                        Err(error),
                    ),
            decreases orig_p.len() - j,
        {
            proof {
                assert(orig_p.take(j + 1).drop_last() =~= orig_p.take(j));
                assert(orig_p.take(j + 1).last() == orig_p[j]);
                assert(self.pending@[i as int] == orig_p.skip(j)[0]);
            }
            if self.pending[i].channel_id == channel_id {
                let ghost cur = self.pending@;
                let e = self.pending.remove(i);
                let resolution = e.broadcaster.swear(Err(error));
                self.resolutions.push(resolution);
                proof {
                    lemma_distinct_remove(cur, i as int);
                    assert(self.pending@ =~= off_channel(orig_p.take(j + 1), channel_id)
                        + orig_p.skip(j + 1));
                    assert(self.resolutions@.take(orig_r.len() as int) =~= orig_r);
                }
            } else {
                i = i + 1;
                proof {
                    assert(self.pending@ =~= off_channel(orig_p.take(j + 1), channel_id)
                        + orig_p.skip(j + 1));
                }
            }
            proof {
                j = j + 1;
            }
        }
        proof {
            assert(orig_p.take(j) =~= orig_p);
            assert(self.pending@ =~= off_channel(orig_p, channel_id));
        }
    }

    /// Resolve exactly the entry with `delivery_tag` to Ack; see
    /// `drop_pending` for the error case.
    pub fn ack(&mut self, delivery_tag: DeliveryTag, channel_id: u16) -> (r: Result<
        (),
        AmqpError,
    >)
        requires
            old(self).wf(),
        ensures
            final(self).wf(),
            drop_effect(*old(self), *final(self), delivery_tag, true, channel_id, r),
            r is Ok <==> has_tag(old(self).pending@, delivery_tag),
    {
        self.drop_pending(delivery_tag, true, channel_id)
    }

    /// Resolve exactly the entry with `delivery_tag` to Nack; see
    /// `drop_pending` for the error case.
    pub fn nack(&mut self, delivery_tag: DeliveryTag, channel_id: u16) -> (r: Result<
        (),
        AmqpError,
    >)
        requires
            old(self).wf(),
        ensures
            final(self).wf(),
            drop_effect(*old(self), *final(self), delivery_tag, false, channel_id, r),
            r is Ok <==> has_tag(old(self).pending@, delivery_tag),
    {
        self.drop_pending(delivery_tag, false, channel_id)
    }

    /// Resolve every pending entry to Ack and drain the pending set.
    pub fn ack_all_pending(&mut self)
        requires
            old(self).wf(),
        ensures
            final(self).wf(),
            drop_all_effect(*old(self), *final(self), true),
    {
        self.drop_all(true);
    }

    /// Resolve every pending entry to Nack and drain the pending set.
    pub fn nack_all_pending(&mut self)
        requires
            old(self).wf(),
        ensures
            final(self).wf(),
            drop_all_effect(*old(self), *final(self), false),
    {
        self.drop_all(false);
    }

    /// Cumulatively Ack every pending entry with a tag at or below
    /// `delivery_tag`, across all channels.
    pub fn ack_all_before(&mut self, delivery_tag: DeliveryTag, channel_id: u16) -> (r: Result<
        (),
        AmqpError,
    >)
        requires
            old(self).wf(),
        ensures
            final(self).wf(),
            r is Ok,
            sweep_effect(*old(self), *final(self), delivery_tag, true),
    {
        self.complete_pending_before(delivery_tag, true, channel_id)
    }

    /// Cumulatively Nack every pending entry with a tag at or below
    /// `delivery_tag`, across all channels.
    pub fn nack_all_before(&mut self, delivery_tag: DeliveryTag, channel_id: u16) -> (r: Result<
        (),
        AmqpError,
    >)
        requires
            old(self).wf(),
        ensures
            final(self).wf(),
            r is Ok,
            sweep_effect(*old(self), *final(self), delivery_tag, false),
    {
        self.complete_pending_before(delivery_tag, false, channel_id)
    }
}

/// What `drop_all` (and so `ack_all_pending`/`nack_all_pending`) does:
/// every pending entry, whatever its channel, is resolved to the given
/// outcome in registration order, each consuming one queued returned
/// message while any remain, and the pending set is drained. On an empty
/// pending set this is a no-op.
pub open spec fn drop_all_effect(pre: Inner, post: Inner, success: bool) -> bool {
    &&& post.pending@.len() == 0
    &&& post.last == pre.last
    &&& appended(pre.resolutions@, post.resolutions@, pre.pending@.len() as int)
    &&& forall|k: int|
        0 <= k < pre.pending@.len() ==> resolves_entry(
            post.resolutions@[pre.resolutions@.len() + k],
            pre.pending@[k],
            Ok(confirmation_of(success, paired_message(pre.returned_messages.waiting@, k))),
        )
    &&& post.returned_messages.waiting@ == pre.returned_messages.waiting@.skip(
        consumed(pre.pending@.len() as int, pre.returned_messages.waiting@.len() as int),
    )
}

/// What `complete_pending_before` (and so `ack_all_before`/
/// `nack_all_before`) does: cumulative resolution. Every still-pending
/// entry whose tag is at or below `tag` is resolved to the given outcome,
/// regardless of which channel registered it — the sweep is scope-wide,
/// not channel-scoped; entries above the threshold stay pending.
pub open spec fn sweep_effect(pre: Inner, post: Inner, tag: DeliveryTag, success: bool) -> bool {
    &&& post.pending@ == kept_after(pre.pending@, tag)
    &&& post.last == pre.last
    &&& appended(
        pre.resolutions@,
        post.resolutions@,
        resolved_up_to(pre.pending@, tag).len() as int,
    )
    &&& forall|k: int|
        0 <= k < resolved_up_to(pre.pending@, tag).len() ==> resolves_entry(
            post.resolutions@[pre.resolutions@.len() + k],
            resolved_up_to(pre.pending@, tag)[k],
            Ok(confirmation_of(success, paired_message(pre.returned_messages.waiting@, k))),
        )
    &&& post.returned_messages.waiting@ == pre.returned_messages.waiting@.skip(
        consumed(
            resolved_up_to(pre.pending@, tag).len() as int,
            pre.returned_messages.waiting@.len() as int,
        ),
    )
}

/// What `on_channel_error` does: every pending entry of `channel_id` is
/// resolved to the fault (never to Ack/Nack, and with no returned message
/// attached) and removed; entries of other channels are untouched.
pub open spec fn channel_error_effect(
    pre: Inner,
    post: Inner,
    channel_id: u16,
    error: ChannelError,
) -> bool {
    &&& post.pending@ == off_channel(pre.pending@, channel_id)
    &&& post.last == pre.last
    &&& appended(
        pre.resolutions@,
        post.resolutions@,
        on_channel(pre.pending@, channel_id).len() as int,
    )
    &&& forall|k: int|
        0 <= k < on_channel(pre.pending@, channel_id).len() ==> resolves_entry(
            post.resolutions@[pre.resolutions@.len() + k],
            on_channel(pre.pending@, channel_id)[k],
            Err(error),
        )
    &&& post.returned_messages.waiting@ == pre.returned_messages.waiting@
}

/// The index of the entry carrying `tag`, if one exists.
fn find_tag(pending: &Vec<PendingEntry>, tag: DeliveryTag) -> (r: Option<usize>)
    ensures
        match r {
            Some(i) => 0 <= i < pending@.len() && pending@[i as int].tag == tag,
            None => !has_tag(pending@, tag),
        },
{
    let mut i: usize = 0;
    while i < pending.len()
        invariant
            0 <= i <= pending@.len(),
            forall|k: int| 0 <= k < i ==> pending@[k].tag != tag,
        decreases pending@.len() - i,
    {
        if pending[i].tag == tag {
            return Some(i);
        }
        i = i + 1;
    }
    None
}

/// With distinct tags, an index carrying `tag` is the one `entry_index`
/// denotes.
proof fn lemma_entry_is_unique(s: Seq<PendingEntry>, tag: DeliveryTag, i: int)
    requires
        distinct_tags(s),
        0 <= i < s.len(),
        s[i].tag == tag,
    ensures
        has_tag(s, tag),
        entry_index(s, tag) == i,
        entry_of(s, tag) == s[i],
{
    assert(has_tag(s, tag));
    let k = entry_index(s, tag);
    assert(0 <= k < s.len() && s[k].tag == tag);
}

/// Removing one entry keeps the remaining tags distinct.
proof fn lemma_distinct_remove(s: Seq<PendingEntry>, i: int)
    requires
        distinct_tags(s),
        0 <= i < s.len(),
    ensures
        distinct_tags(s.remove(i)),
{
    s.remove_ensures(i);
}

/// A sequence free of `tag` is untouched by `without_tag`.
proof fn lemma_without_tag_absent(s: Seq<PendingEntry>, tag: DeliveryTag)
    requires
        forall|k: int| 0 <= k < s.len() ==> s[k].tag != tag,
    ensures
        without_tag(s, tag) == s,
    decreases s.len(),
{
    if s.len() == 0 {
        assert(without_tag(s, tag) =~= s);
    } else {
        lemma_without_tag_absent(s.drop_last(), tag);
        assert(s.last().tag != tag);
        assert(without_tag(s, tag) =~= s.drop_last().push(s.last()));
        assert(s.drop_last().push(s.last()) =~= s);
    }
}

/// Nothing `without_tag` keeps carries the removed tag.
proof fn lemma_without_tag_free(s: Seq<PendingEntry>, tag: DeliveryTag)
    ensures
        forall|k: int|
            0 <= k < without_tag(s, tag).len() ==> (#[trigger] without_tag(s, tag)[k]).tag != tag,
    decreases s.len(),
{
    if s.len() > 0 {
        lemma_without_tag_free(s.drop_last(), tag);
        let w = without_tag(s.drop_last(), tag);
        assert forall|k: int| 0 <= k < without_tag(s, tag).len() implies (#[trigger] without_tag(
            s,
            tag,
        )[k]).tag != tag by {
            if k < w.len() {
                assert(without_tag(s, tag)[k] == w[k]);
            } else {
                assert(without_tag(s, tag)[k] == s.last());
            }
        }
    }
}

/// An entry of another channel is kept, unchanged, by `off_channel`.
proof fn lemma_off_channel_contains(s: Seq<PendingEntry>, channel_id: u16, i: int)
    requires
        0 <= i < s.len(),
        s[i].channel_id != channel_id,
    ensures
        exists|k: int|
            0 <= k < off_channel(s, channel_id).len() && off_channel(s, channel_id)[k] == s[i],
    decreases s.len(),
{
    if i == s.len() - 1 {
        let k = off_channel(s.drop_last(), channel_id).len() as int;
        assert(off_channel(s, channel_id)[k] == s[i]);
    } else {
        lemma_off_channel_contains(s.drop_last(), channel_id, i);
        let k = choose|k: int|
            0 <= k < off_channel(s.drop_last(), channel_id).len() && off_channel(
                s.drop_last(),
                channel_id,
            )[k] == s.drop_last()[i];
        assert(s.drop_last()[i] == s[i]);
        assert(off_channel(s, channel_id)[k] == s[i]);
    }
}

/// An entry at or below the threshold is among what the sweep resolves.
proof fn lemma_resolved_up_to_contains(s: Seq<PendingEntry>, tag: DeliveryTag, i: int)
    requires
        0 <= i < s.len(),
        s[i].tag <= tag,
    ensures
        exists|k: int|
            0 <= k < resolved_up_to(s, tag).len() && resolved_up_to(s, tag)[k] == s[i],
    decreases s.len(),
{
    if i == s.len() - 1 {
        let k = resolved_up_to(s.drop_last(), tag).len() as int;
        assert(resolved_up_to(s, tag)[k] == s[i]);
    } else {
        lemma_resolved_up_to_contains(s.drop_last(), tag, i);
        let k = choose|k: int|
            0 <= k < resolved_up_to(s.drop_last(), tag).len() && resolved_up_to(
                s.drop_last(),
                tag,
            )[k] == s.drop_last()[i];
        assert(s.drop_last()[i] == s[i]);
        assert(resolved_up_to(s, tag)[k] == s[i]);
    }
}

/// An entry above the threshold is among what the sweep keeps pending.
proof fn lemma_kept_after_contains(s: Seq<PendingEntry>, tag: DeliveryTag, i: int)
    requires
        0 <= i < s.len(),
        s[i].tag > tag,
    ensures
        exists|k: int| 0 <= k < kept_after(s, tag).len() && kept_after(s, tag)[k] == s[i],
    decreases s.len(),
{
    if i == s.len() - 1 {
        let k = kept_after(s.drop_last(), tag).len() as int;
        assert(kept_after(s, tag)[k] == s[i]);
    } else {
        lemma_kept_after_contains(s.drop_last(), tag, i);
        let k = choose|k: int|
            0 <= k < kept_after(s.drop_last(), tag).len() && kept_after(s.drop_last(), tag)[k]
                == s.drop_last()[i];
        assert(s.drop_last()[i] == s[i]);
        assert(kept_after(s, tag)[k] == s[i]);
    }
}

/// Law: the cumulative sweep selects by tag alone. Every pending entry at
/// or below the threshold gets a resolution queued, whichever channel
/// registered it; every entry above the threshold is still pending
/// afterwards.
pub proof fn lemma_sweep_is_scope_wide(
    pre: Inner,
    post: Inner,
    tag: DeliveryTag,
    success: bool,
    i: int,
)
    requires
        pre.wf(),
        sweep_effect(pre, post, tag, success),
        0 <= i < pre.pending@.len(),
    ensures
        pre.pending@[i].tag <= tag ==> exists|k: int|
            0 <= k < resolved_up_to(pre.pending@, tag).len() && resolves_entry(
                post.resolutions@[pre.resolutions@.len() + k],
                pre.pending@[i],
                Ok(
                    confirmation_of(
                        success,
                        paired_message(pre.returned_messages.waiting@, k),
                    ),
                ),
            ),
        pre.pending@[i].tag > tag ==> exists|k: int|
            0 <= k < post.pending@.len() && post.pending@[k] == pre.pending@[i],
{
    if pre.pending@[i].tag <= tag {
        lemma_resolved_up_to_contains(pre.pending@, tag, i);
        let k = choose|k: int|
            0 <= k < resolved_up_to(pre.pending@, tag).len() && resolved_up_to(
                pre.pending@,
                tag,
            )[k] == pre.pending@[i];
        assert(resolves_entry(
            post.resolutions@[pre.resolutions@.len() + k],
            pre.pending@[i],
            Ok(confirmation_of(success, paired_message(pre.returned_messages.waiting@, k))),
        ));
    } else {
        lemma_kept_after_contains(pre.pending@, tag, i);
    }
}

/// Law: draining an empty pending set is a no-op: nothing is resolved and
/// nothing changes.
pub proof fn lemma_drop_all_on_empty_is_noop(pre: Inner, post: Inner, success: bool)
    requires
        pre.pending@.len() == 0,
        drop_all_effect(pre, post, success),
    ensures
        post.pending@ == pre.pending@,
        post.last == pre.last,
        post.resolutions@ == pre.resolutions@,
        post.returned_messages.waiting@ == pre.returned_messages.waiting@,
{
    assert(post.pending@ =~= pre.pending@);
    assert(post.resolutions@ =~= pre.resolutions@);
    assert(post.returned_messages.waiting@ =~= pre.returned_messages.waiting@);
}

/// Law: a tag that is registered and then acknowledged (or negatively
/// acknowledged) resolves its confirmation handle to the matching outcome
/// exactly once — a single resolution is queued, and it names the handle's
/// subscription — and the tag is no longer pending afterwards, so any
/// further resolution of the same tag fails as a precondition violation.
pub proof fn lemma_registered_tag_resolves(
    pre: Inner,
    mid: Inner,
    post: Inner,
    tag: DeliveryTag,
    channel_id: u16,
    success: bool,
    pc: PublisherConfirm,
    r: Result<(), AmqpError>,
)
    requires
        pre.wf(),
        !has_tag(pre.pending@, tag),
        register_effect(pre, mid, tag, channel_id, pc),
        mid.wf(),
        drop_effect(mid, post, tag, success, channel_id, r),
    ensures
        r is Ok,
        appended(mid.resolutions@, post.resolutions@, 1),
        post.resolutions@.last().subscribers@.contains(pc.promise.id),
        post.resolutions@.last().value == Ok::<Confirmation, ChannelError>(
            confirmation_of(success, head_message(mid.returned_messages.waiting@)),
        ),
        !has_tag(post.pending@, tag),
{
    let n = mid.pending@.len() - 1;
    assert(mid.pending@[n].tag == tag);
    assert(has_tag(mid.pending@, tag));
    lemma_entry_is_unique(mid.pending@, tag, n);
    assert(post.resolutions@.last().subscribers@[0] == pc.promise.id);
    lemma_without_tag_free(mid.pending@, tag);
}

/// Law: of two successive registrations, the first entry's last-pending
/// subscription is detached from its own broadcaster before the second is
/// installed — afterwards the first entry's broadcaster holds only the
/// first caller's confirmation handle — and the last-pending slot names
/// only the second registration: consuming it returns the second entry's
/// promise, and consuming it again returns nothing.
pub proof fn lemma_second_registration_supersedes(
    pre: Inner,
    mid: Inner,
    post: Inner,
    q1: Inner,
    q2: Inner,
    tag1: DeliveryTag,
    ch1: u16,
    pc1: PublisherConfirm,
    tag2: DeliveryTag,
    ch2: u16,
    pc2: PublisherConfirm,
    r1: Option<ConfirmationPromise>,
    r2: Option<ConfirmationPromise>,
)
    requires
        pre.wf(),
        !has_tag(pre.pending@, tag1),
        register_effect(pre, mid, tag1, ch1, pc1),
        mid.wf(),
        !has_tag(mid.pending@, tag2),
        register_effect(mid, post, tag2, ch2, pc2),
        post.wf(),
        get_last_effect(post, q1, r1),
        get_last_effect(q1, q2, r2),
    ensures
        has_tag(post.pending@, tag1),
        entry_of(post.pending@, tag1).broadcaster.subscribers@ == seq![pc1.promise.id],
        (post.last matches Some(lp) && lp.tag == tag2 && r1 == Some(lp.promise)),
        r2 is None,
{
    let n1 = mid.pending@.len() - 1;
    assert(mid.pending@[n1].tag == tag1);
    let lp1 = mid.last.unwrap();
    assert(mid.pending@[n1].broadcaster.subscribers@ == seq![pc1.promise.id, lp1.promise.id]);
    assert(post.pending@.drop_last()[n1] == post.pending@[n1]);
    assert(post.pending@[n1].tag == tag1);
    assert(post.pending@[n1].broadcaster.subscribers@ == without_id(
        seq![pc1.promise.id, lp1.promise.id],
        lp1.promise.id,
    ));
    let s2 = seq![pc1.promise.id, lp1.promise.id];
    assert(s2.last() == lp1.promise.id);
    assert(s2.drop_last() =~= seq![pc1.promise.id]);
    let s1 = seq![pc1.promise.id];
    assert(s1.last() == pc1.promise.id);
    assert(s1.drop_last() =~= Seq::<u64>::empty());
    assert(without_id(Seq::<u64>::empty(), lp1.promise.id) =~= Seq::<u64>::empty());
    assert(without_id(s1, lp1.promise.id) =~= seq![pc1.promise.id]);
    assert(has_tag(post.pending@, tag1));
    lemma_entry_is_unique(post.pending@, tag1, n1);
}

/// Law: a channel fault fails exactly its own channel's pending entries;
/// an entry of any other channel stays pending, unchanged, and is still
/// resolvable — a later acknowledgement of it succeeds and queues its
/// normal resolution.
pub proof fn lemma_channel_error_spares_other_channels(
    pre: Inner,
    post: Inner,
    fin: Inner,
    channel_id: u16,
    error: ChannelError,
    tag: DeliveryTag,
    success: bool,
    ack_channel: u16,
    r: Result<(), AmqpError>,
)
    requires
        pre.wf(),
        post.wf(),
        channel_error_effect(pre, post, channel_id, error),
        has_tag(pre.pending@, tag),
        entry_of(pre.pending@, tag).channel_id != channel_id,
        drop_effect(post, fin, tag, success, ack_channel, r),
    ensures
        has_tag(post.pending@, tag),
        entry_of(post.pending@, tag) == entry_of(pre.pending@, tag),
        r is Ok,
        resolves_entry(
            fin.resolutions@.last(),
            entry_of(pre.pending@, tag),
            Ok(confirmation_of(success, head_message(post.returned_messages.waiting@))),
        ),
{
    let i = entry_index(pre.pending@, tag);
    assert(0 <= i < pre.pending@.len() && pre.pending@[i].tag == tag);
    lemma_off_channel_contains(pre.pending@, channel_id, i);
    let k = choose|k: int|
        0 <= k < off_channel(pre.pending@, channel_id).len() && off_channel(
            pre.pending@,
            channel_id,
        )[k] == pre.pending@[i];
    assert(post.pending@[k].tag == tag);
    assert(has_tag(post.pending@, tag));
    lemma_entry_is_unique(post.pending@, tag, k);
}

/// With distinct tags, removing the entry at the index carrying `tag` is
/// exactly `without_tag`.
proof fn lemma_without_tag_remove(s: Seq<PendingEntry>, tag: DeliveryTag, i: int)
    requires
        distinct_tags(s),
        0 <= i < s.len(),
        s[i].tag == tag,
    ensures
        without_tag(s, tag) == s.remove(i),
    decreases s.len(),
{
    if i == s.len() - 1 {
        assert(forall|k: int| 0 <= k < s.drop_last().len() ==> s.drop_last()[k].tag != tag);
        lemma_without_tag_absent(s.drop_last(), tag);
        assert(s.remove(i) =~= s.drop_last());
    } else {
        assert(s.last().tag != tag);
        lemma_without_tag_remove(s.drop_last(), tag, i);
        assert(s.drop_last().remove(i).push(s.last()) =~= s.remove(i));
    }
}

} // verus!
