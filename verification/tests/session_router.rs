use amclaw::command_router::RouteIntent;
use amclaw::session_router::{FlushItem, FlushReason, SessionEvent, SessionRouter, SessionSnapshot};

fn secs(n: u128) -> u128 {
    n * 1_000_000_000
}

#[test]
fn pending_messages_do_not_flush_immediately() {
    let now: u128 = secs(100);
    let mut router = SessionRouter::new(secs(5));

    let event = router.on_intent(
        "user-a",
        RouteIntent::ChatPending {
            text: "hello".to_string(),
        },
        now,
    );

    assert_eq!(event, SessionEvent::Noop);
}

#[test]
fn commit_flushes_buffered_messages() {
    let now: u128 = secs(100);
    let mut router = SessionRouter::new(secs(5));

    router.on_intent(
        "user-a",
        RouteIntent::ChatPending {
            text: "hello".to_string(),
        },
        now,
    );

    let event = router.on_intent(
        "user-a",
        RouteIntent::ChatCommit {
            text: "world".to_string(),
        },
        now + secs(1),
    );

    assert_eq!(
        event,
        SessionEvent::FlushNow {
            user_id: "user-a".to_string(),
            merged_text: "hello\nworld".to_string(),
            message_ids: Vec::new(),
            reason: FlushReason::Commit,
        }
    );
}

#[test]
fn continue_does_not_flush_immediately() {
    let now: u128 = secs(100);
    let mut router = SessionRouter::new(secs(5));

    let event = router.on_intent(
        "user-a",
        RouteIntent::ChatContinue {
            text: "hello".to_string(),
        },
        now,
    );

    assert_eq!(event, SessionEvent::Noop);
}

#[test]
fn expired_session_is_flushed() {
    let now: u128 = secs(100);
    let mut router = SessionRouter::new(secs(5));

    router.on_intent(
        "user-a",
        RouteIntent::ChatPending {
            text: "hello".to_string(),
        },
        now,
    );

    assert_eq!(
        router.flush_expired(now + secs(5)),
        vec![FlushItem {
            user_id: "user-a".to_string(),
            merged_text: "hello".to_string(),
            message_ids: Vec::new(),
            reason: FlushReason::Timeout,
        }]
    );
}

#[test]
fn users_are_isolated() {
    let now: u128 = secs(100);
    let mut router = SessionRouter::new(secs(5));

    router.on_intent(
        "user-a",
        RouteIntent::ChatPending {
            text: "hello".to_string(),
        },
        now,
    );
    router.on_intent(
        "user-b",
        RouteIntent::ChatPending {
            text: "world".to_string(),
        },
        now + secs(1),
    );

    assert_eq!(
        router.flush_expired(now + secs(5)),
        vec![FlushItem {
            user_id: "user-a".to_string(),
            merged_text: "hello".to_string(),
            message_ids: Vec::new(),
            reason: FlushReason::Timeout,
        }]
    );
}

#[test]
fn flushed_session_is_removed() {
    let now: u128 = secs(100);
    let mut router = SessionRouter::new(secs(5));

    router.on_intent(
        "user-a",
        RouteIntent::ChatPending {
            text: "hello".to_string(),
        },
        now,
    );

    let first = router.flush_expired(now + secs(6));
    let second = router.flush_expired(now + secs(7));

    assert_eq!(
        first,
        vec![FlushItem {
            user_id: "user-a".to_string(),
            merged_text: "hello".to_string(),
            message_ids: Vec::new(),
            reason: FlushReason::Timeout,
        }]
    );
    assert!(second.is_empty());
}

#[test]
fn message_ids_are_preserved_when_flushing() {
    let now: u128 = secs(100);
    let mut router = SessionRouter::new(secs(5));

    router.on_intent_with_message(
        "user-a",
        RouteIntent::ChatPending {
            text: "hello".to_string(),
        },
        Some("msg-1".to_string()),
        now,
    );

    let event = router.on_intent_with_message(
        "user-a",
        RouteIntent::ChatCommit {
            text: "world".to_string(),
        },
        Some("msg-2".to_string()),
        now + secs(1),
    );

    assert_eq!(
        event,
        SessionEvent::FlushNow {
            user_id: "user-a".to_string(),
            merged_text: "hello\nworld".to_string(),
            message_ids: vec!["msg-1".to_string(), "msg-2".to_string()],
            reason: FlushReason::Commit,
        }
    );
}

#[test]
fn next_flush_delay_tracks_soonest_session() {
    let now: u128 = secs(100);
    let mut router = SessionRouter::new(secs(5));

    router.on_intent(
        "user-a",
        RouteIntent::ChatPending {
            text: "hello".to_string(),
        },
        now,
    );
    router.on_intent(
        "user-b",
        RouteIntent::ChatPending {
            text: "world".to_string(),
        },
        now + secs(2),
    );

    assert_eq!(
        router.next_flush_delay(now + secs(3)),
        Some(secs(2))
    );
}

#[test]
fn session_snapshot_reflects_buffered_state() {
    let now: u128 = secs(100);
    let mut router = SessionRouter::new(secs(5));
    router.on_intent_with_message(
        "user-a",
        RouteIntent::ChatPending {
            text: "hello".to_string(),
        },
        Some("msg-1".to_string()),
        now,
    );
    router.on_intent_with_message(
        "user-a",
        RouteIntent::ChatContinue {
            text: "world".to_string(),
        },
        Some("msg-2".to_string()),
        now + secs(1),
    );

    assert_eq!(
        router.snapshot("user-a"),
        Some(SessionSnapshot {
            user_id: "user-a".to_string(),
            merged_text: "hello\nworld".to_string(),
            message_ids: vec!["msg-1".to_string(), "msg-2".to_string()],
        })
    );
}

#[test]
fn restore_session_allows_timeout_flush() {
    let now: u128 = secs(100);
    let mut router = SessionRouter::new(secs(5));
    router.restore_session(
        "user-a",
        "restored\nsession",
        vec!["msg-a".to_string(), "msg-b".to_string()],
        now,
    );

    assert_eq!(
        router.flush_expired(now + secs(5)),
        vec![FlushItem {
            user_id: "user-a".to_string(),
            merged_text: "restored\nsession".to_string(),
            message_ids: vec!["msg-a".to_string(), "msg-b".to_string()],
            reason: FlushReason::Timeout,
        }]
    );
}

fn say(text: &str) -> RouteIntent {
    RouteIntent::ChatPending { text: text.to_string() }
}

#[test]
fn a_message_is_added_to_the_snapshot_of_its_user() {
    let mut router = SessionRouter::new(secs(5));
    router.on_intent_with_message("user-a", say("one"), Some("m1".to_string()), secs(100));
    router.on_intent_with_message("user-b", say("other"), None, secs(101));
    router.on_intent_with_message("user-a", say("two"), Some("  ".to_string()), secs(102));
    router.on_intent_with_message("user-a", say("three"), Some("m3".to_string()), secs(103));
    assert_eq!(
        router.snapshot("user-a"),
        Some(SessionSnapshot {
            user_id: "user-a".to_string(),
            merged_text: "one\ntwo\nthree".to_string(),
            message_ids: vec!["m1".to_string(), "m3".to_string()],
        })
    );
    router.on_intent("user-a", RouteIntent::RecentTasksQuery, secs(104));
    router.on_intent(" ", say("lost"), secs(104));
    assert_eq!(router.snapshot(" "), None);
    let event = router.on_intent_with_message(
        "user-a",
        RouteIntent::ChatCommit { text: "four!!".to_string() },
        Some("m4".to_string()),
        secs(105),
    );
    assert_eq!(
        event,
        SessionEvent::FlushNow {
            user_id: "user-a".to_string(),
            merged_text: "one\ntwo\nthree\nfour!!".to_string(),
            message_ids: vec!["m1".to_string(), "m3".to_string(), "m4".to_string()],
            reason: FlushReason::Commit,
        }
    );
    assert_eq!(router.snapshot("user-a"), None);
    assert_eq!(router.snapshot("user-b").expect("应保留").merged_text, "other");
}

#[test]
fn the_delay_ends_when_something_expires() {
    let mut router = SessionRouter::new(secs(5));
    assert_eq!(router.next_flush_delay(secs(100)), None);
    router.on_intent("user-a", say("one"), secs(100));
    router.on_intent("user-b", say("two"), secs(102));
    let delay = router.next_flush_delay(secs(103)).expect("应有等待");
    assert_eq!(delay, secs(2));
    assert!(router.flush_expired(secs(103) + delay - 1).is_empty());
    let flushed = router.flush_expired(secs(103) + delay);
    assert_eq!(flushed.len(), 1);
    assert_eq!(flushed[0].user_id, "user-a");
    assert!(router.flush_expired(secs(103) + delay).is_empty());
    assert_eq!(router.snapshot("user-a"), None);
    assert_eq!(router.next_flush_delay(secs(107)), Some(0));
    assert_eq!(router.flush_expired(secs(107)).len(), 1);
}

#[test]
fn a_snapshot_put_back_replaces_what_was_there() {
    let mut router = SessionRouter::new(secs(5));
    router.on_intent_with_message("user-a", say("one\n two"), Some("m1".to_string()), secs(100));
    router.on_intent_with_message("user-a", say("three"), None, secs(101));
    let kept = router.snapshot("user-a").expect("应有快照");
    let mut other = SessionRouter::new(secs(9));
    other.on_intent("user-a", say("old"), secs(1));
    other.on_intent("user-b", say("stays"), secs(1));
    other.restore_session("user-a", &kept.merged_text, kept.message_ids.clone(), secs(2));
    assert_eq!(other.snapshot("user-a"), Some(kept));
    assert_eq!(other.snapshot("user-b").expect("应保留").merged_text, "stays");
    other.restore_session("user-b", " \n ", vec!["m9".to_string()], secs(3));
    assert_eq!(other.snapshot("user-b").expect("应保留").merged_text, "stays");
}
