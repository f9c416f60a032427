use amqp_confirms::acknowledgement::Inner;
use amqp_confirms::confirmation::{
    AmqpError, ChannelError, Confirmation, Operation, ReturnedMessage, ReturnedMessages,
    PRECONDITION_FAILED,
};

fn fresh() -> Inner {
    Inner::new(ReturnedMessages::new())
}

fn message(reply_text: &str) -> ReturnedMessage {
    ReturnedMessage {
        reply_code: 312,
        reply_text: reply_text.to_string(),
        exchange: "amq.direct".to_string(),
        routing_key: "inbox".to_string(),
    }
}

fn fault() -> ChannelError {
    ChannelError { reply_code: 504, class_id: 60, method_id: 40 }
}

#[test]
fn register_then_ack_resolves_once() {
    let mut inner = fresh();
    let pc = inner.register_pending(5, 1);
    assert_eq!(inner.pending.len(), 1);
    assert_eq!(inner.pending[0].tag, 5);

    assert!(inner.ack(5, 1).is_ok());
    assert_eq!(inner.pending.len(), 0);
    assert_eq!(inner.resolutions.len(), 1);
    let r = &inner.resolutions[0];
    assert!(matches!(r.value, Ok(Confirmation::Ack(None))));
    assert!(r.subscribers.contains(&pc.promise.id));

    // the tag is gone: a second resolution is a precondition violation
    let err = inner.ack(5, 1).unwrap_err();
    assert_eq!(err.code, PRECONDITION_FAILED);
    assert_eq!(inner.resolutions.len(), 1);
}

#[test]
fn register_then_nack_resolves_to_nack() {
    let mut inner = fresh();
    let pc = inner.register_pending(9, 2);
    assert!(inner.nack(9, 2).is_ok());
    assert_eq!(inner.pending.len(), 0);
    assert_eq!(inner.resolutions.len(), 1);
    let r = &inner.resolutions[0];
    assert!(matches!(r.value, Ok(Confirmation::Nack(None))));
    assert!(r.subscribers.contains(&pc.promise.id));
}

#[test]
fn unknown_tag_fails_and_changes_nothing() {
    let mut inner = fresh();
    inner.register_pending(1, 3);
    let err = inner.ack(7, 3).unwrap_err();
    assert_eq!(
        err,
        AmqpError {
            code: PRECONDITION_FAILED,
            operation: Operation::Ack,
            delivery_tag: 7,
            channel_id: 3,
        }
    );
    let err = inner.nack(8, 4).unwrap_err();
    assert_eq!(
        err,
        AmqpError {
            code: PRECONDITION_FAILED,
            operation: Operation::Nack,
            delivery_tag: 8,
            channel_id: 4,
        }
    );
    assert_eq!(inner.pending.len(), 1);
    assert_eq!(inner.pending[0].tag, 1);
    assert_eq!(inner.resolutions.len(), 0);
}

#[test]
fn cumulative_ack_is_scope_wide_not_channel_scoped() {
    let mut inner = fresh();
    inner.register_pending(1, 7);
    // tag 2 belongs to a different channel: the sweep must resolve it too
    inner.register_pending(2, 9);
    inner.register_pending(3, 7);
    inner.register_pending(4, 7);

    assert!(inner.ack_all_before(3, 7).is_ok());
    assert_eq!(inner.pending.len(), 1);
    assert_eq!(inner.pending[0].tag, 4);
    assert_eq!(inner.resolutions.len(), 3);
    for r in &inner.resolutions {
        assert!(matches!(r.value, Ok(Confirmation::Ack(None))));
    }
}

#[test]
fn cumulative_nack_resolves_to_nack() {
    let mut inner = fresh();
    inner.register_pending(10, 1);
    inner.register_pending(20, 1);
    assert!(inner.nack_all_before(10, 1).is_ok());
    assert_eq!(inner.pending.len(), 1);
    assert_eq!(inner.pending[0].tag, 20);
    assert_eq!(inner.resolutions.len(), 1);
    assert!(matches!(inner.resolutions[0].value, Ok(Confirmation::Nack(None))));
}

#[test]
fn second_registration_detaches_first_last_pending() {
    let mut inner = fresh();
    let pc1 = inner.register_pending(1, 1);
    // the first entry's broadcaster holds the handle and the last-pending
    // subscription
    assert_eq!(inner.pending[0].broadcaster.subscribers.len(), 2);

    let pc2 = inner.register_pending(2, 1);
    // the first entry's last-pending subscription was detached: only the
    // first caller's handle is left on its broadcaster
    assert_eq!(inner.pending[0].broadcaster.subscribers, vec![pc1.promise.id]);
    assert_eq!(inner.pending[1].broadcaster.subscribers.len(), 2);

    // the slot holds only the second entry's own promise, consumed once
    let p = inner.get_last_pending().expect("a registration just happened");
    assert_ne!(p.id, pc2.promise.id);
    assert!(inner.pending[1].broadcaster.subscribers.contains(&p.id));
    assert!(inner.get_last_pending().is_none());
}

#[test]
fn channel_error_fails_only_its_channel() {
    let mut inner = fresh();
    inner.register_pending(1, 1);
    let pc2 = inner.register_pending(2, 2);
    inner.register_pending(3, 1);

    inner.on_channel_error(1, fault());
    assert_eq!(inner.pending.len(), 1);
    assert_eq!(inner.pending[0].tag, 2);
    assert_eq!(inner.resolutions.len(), 2);
    for r in &inner.resolutions {
        assert!(matches!(r.value, Err(e) if e == fault()));
    }

    // the spared entry is still resolvable by a later ack
    assert!(inner.ack(2, 2).is_ok());
    assert_eq!(inner.resolutions.len(), 3);
    let r = &inner.resolutions[2];
    assert!(matches!(r.value, Ok(Confirmation::Ack(None))));
    assert!(r.subscribers.contains(&pc2.promise.id));
}

#[test]
fn drop_all_drains_every_channel() {
    let mut inner = fresh();
    inner.register_pending(1, 1);
    inner.register_pending(2, 2);
    inner.register_pending(3, 3);
    inner.ack_all_pending();
    assert_eq!(inner.pending.len(), 0);
    assert_eq!(inner.resolutions.len(), 3);
    for r in &inner.resolutions {
        assert!(matches!(r.value, Ok(Confirmation::Ack(None))));
    }
    // on an empty pending set the drain is a no-op
    inner.ack_all_pending();
    inner.nack_all_pending();
    assert_eq!(inner.resolutions.len(), 3);
}

#[test]
fn nack_all_pending_resolves_to_nack() {
    let mut inner = fresh();
    inner.register_pending(1, 1);
    inner.register_pending(2, 1);
    inner.nack_all_pending();
    assert_eq!(inner.pending.len(), 0);
    assert_eq!(inner.resolutions.len(), 2);
    for r in &inner.resolutions {
        assert!(matches!(r.value, Ok(Confirmation::Nack(None))));
    }
}

#[test]
fn returned_messages_attach_oldest_first() {
    let mut inner = fresh();
    inner.returned_messages.register(message("no route"));
    inner.returned_messages.register(message("no consumers"));
    inner.register_pending(1, 1);
    inner.register_pending(2, 1);
    inner.register_pending(3, 1);
    inner.ack_all_pending();
    assert_eq!(inner.resolutions.len(), 3);
    match &inner.resolutions[0].value {
        Ok(Confirmation::Ack(Some(m))) => assert_eq!(m.reply_text, "no route"),
        other => panic!("expected an Ack with the oldest returned message, got {:?}", other),
    }
    match &inner.resolutions[1].value {
        Ok(Confirmation::Ack(Some(m))) => assert_eq!(m.reply_text, "no consumers"),
        other => panic!("expected an Ack with the second returned message, got {:?}", other),
    }
    assert!(matches!(inner.resolutions[2].value, Ok(Confirmation::Ack(None))));
    assert_eq!(inner.returned_messages.waiting.len(), 0);
}

#[test]
fn single_ack_consumes_one_returned_message() {
    let mut inner = fresh();
    inner.returned_messages.register(message("unroutable"));
    inner.register_pending(4, 2);
    assert!(inner.nack(4, 2).is_ok());
    match &inner.resolutions[0].value {
        Ok(Confirmation::Nack(Some(m))) => {
            assert_eq!(m.reply_code, 312);
            assert_eq!(m.exchange, "amq.direct");
            assert_eq!(m.routing_key, "inbox");
        },
        other => panic!("expected a Nack carrying the returned message, got {:?}", other),
    }
    assert_eq!(inner.returned_messages.waiting.len(), 0);
}

#[test]
fn channel_error_attaches_no_returned_message() {
    let mut inner = fresh();
    inner.returned_messages.register(message("left queued"));
    inner.register_pending(1, 1);
    inner.on_channel_error(1, fault());
    assert_eq!(inner.resolutions.len(), 1);
    assert!(matches!(inner.resolutions[0].value, Err(e) if e == fault()));
    // the fault path never consumes the returned-message queue
    assert_eq!(inner.returned_messages.waiting.len(), 1);
}

#[test]
fn get_last_pending_on_fresh_tracker_is_none() {
    let mut inner = fresh();
    assert!(inner.get_last_pending().is_none());
}
