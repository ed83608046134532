use std::sync::Arc;

use chat_relay::{
    parse_frame, Command, Event, OutboundQueue, PushOutcome, ReadOutcome, Registry, Session,
    SessionStep,
    QUEUE_CAPACITY,
};

fn drain(reg: &mut Registry, id: u64) -> Vec<String> {
    let mut out = Vec::new();
    while let Some(e) = reg.take_next(id) {
        out.push(e.render());
    }
    out
}

#[test]
fn empty_frame_is_ignored() {
    assert!(matches!(parse_frame(""), Command::Ignore));
}

#[test]
fn quit_is_recognised() {
    assert!(matches!(parse_frame("/quit"), Command::Quit));
}

#[test]
fn quit_with_argument_is_unknown() {
    assert!(matches!(parse_frame("/quit something"), Command::Unknown));
    assert!(matches!(parse_frame("/bogus"), Command::Unknown));
    assert!(matches!(parse_frame("/"), Command::Unknown));
}

#[test]
fn plain_frame_is_chat_verbatim() {
    match parse_frame("hello /quit") {
        Command::Chat(c) => assert_eq!(c, "hello /quit"),
        other => panic!("unexpected {:?}", other),
    }
    match parse_frame(" /quit") {
        Command::Chat(c) => assert_eq!(c, " /quit"),
        other => panic!("unexpected {:?}", other),
    }
}

#[test]
fn events_render_exactly() {
    assert_eq!(Event::user_joined("alice").render(), "[alice joined the chat]");
    assert_eq!(Event::user_left("alice").render(), "[alice left the chat]");
    assert_eq!(Event::chat("alice", "hi").render(), "alice: hi");
    assert_eq!(Event::chat("", "").render(), ": ");
}

#[test]
fn queue_is_fifo_and_bounded() {
    let mut q = OutboundQueue::new();
    for i in 0..QUEUE_CAPACITY {
        let e = Arc::new(Event::chat("a", &i.to_string()));
        assert_eq!(q.push(e), PushOutcome::Queued);
    }
    assert_eq!(q.len(), 1024);
    assert_eq!(q.push(Arc::new(Event::chat("a", "late"))), PushOutcome::Full);
    assert_eq!(q.pop().unwrap().render(), "a: 0");
    assert_eq!(q.pop().unwrap().render(), "a: 1");
    assert_eq!(q.len(), 1022);
    q.close();
    assert!(q.is_closed());
    assert_eq!(q.push(Arc::new(Event::chat("a", "x"))), PushOutcome::Closed);
    assert_eq!(q.len(), 1022);
}

#[test]
fn concurrent_joins_register_each_once() {
    let mut reg = Registry::new();
    for id in 0..50u64 {
        Session::join(&mut reg, id, format!("user{}", id));
    }
    assert_eq!(reg.len(), 50);
    for id in 0..50u64 {
        assert!(reg.contains(id));
    }
    assert!(!reg.contains(50));
    // the first peer heard every later join, the last none
    assert_eq!(drain(&mut reg, 0).len(), 49);
    assert_eq!(drain(&mut reg, 49).len(), 0);
}

#[test]
fn joins_beyond_capacity_prune_overflowing_queues() {
    let mut reg = Registry::new();
    for id in 0..1025u64 {
        Session::join(&mut reg, id, String::from("u"));
    }
    assert_eq!(reg.len(), 1025);
    Session::join(&mut reg, 1025, String::from("u"));
    // peer 0 already held 1024 announcements and is dropped
    assert!(!reg.contains(0));
    assert!(reg.contains(1));
    assert_eq!(reg.len(), 1025);
}

#[test]
fn chat_reaches_others_in_order_and_not_late_joiners() {
    let mut reg = Registry::new();
    let a = Session::join(&mut reg, 1, String::from("alice"));
    let _b = Session::join(&mut reg, 2, String::from("bob"));
    let _c = Session::join(&mut reg, 3, String::from("carol"));
    drain(&mut reg, 1);
    drain(&mut reg, 2);
    assert_eq!(a.handle_frame(&mut reg, "one"), SessionStep::Continue);
    assert_eq!(a.handle_frame(&mut reg, "two"), SessionStep::Continue);
    let _d = Session::join(&mut reg, 4, String::from("dave"));
    assert_eq!(drain(&mut reg, 2), vec!["alice: one", "alice: two", "[dave joined the chat]"]);
    assert_eq!(
        drain(&mut reg, 3),
        vec!["alice: one", "alice: two", "[dave joined the chat]"]
    );
    assert_eq!(drain(&mut reg, 1), vec!["[dave joined the chat]"]);
    assert_eq!(drain(&mut reg, 4), Vec::<String>::new());
}

#[test]
fn stalled_peer_does_not_block_others() {
    let mut reg = Registry::new();
    let a = Session::join(&mut reg, 1, String::from("a"));
    let _b = Session::join(&mut reg, 2, String::from("b"));
    let _c = Session::join(&mut reg, 3, String::from("c"));
    let _d = Session::join(&mut reg, 4, String::from("d"));
    drain(&mut reg, 3);
    drain(&mut reg, 4);
    let mut c_seen = 0;
    let mut d_seen = 0;
    // peer 2 never drains: it already holds two announcements
    for i in 0..1022 {
        a.handle_frame(&mut reg, &format!("m{}", i));
        c_seen += drain(&mut reg, 3).len();
        d_seen += drain(&mut reg, 4).len();
    }
    assert!(reg.contains(2));
    a.handle_frame(&mut reg, "overflow");
    assert!(!reg.contains(2));
    assert_eq!(drain(&mut reg, 3), vec!["a: overflow"]);
    assert_eq!(drain(&mut reg, 4), vec!["a: overflow"]);
    assert_eq!(c_seen, 1022);
    assert_eq!(d_seen, 1022);
}

#[test]
fn quit_unregisters_and_stops_delivery() {
    let mut reg = Registry::new();
    let a = Session::join(&mut reg, 1, String::from("alice"));
    let b = Session::join(&mut reg, 2, String::from("bob"));
    drain(&mut reg, 1);
    assert_eq!(a.handle_frame(&mut reg, "/quit"), SessionStep::Closed);
    assert!(!reg.contains(1));
    assert_eq!(drain(&mut reg, 2), vec!["[alice left the chat]"]);
    b.handle_frame(&mut reg, "anyone?");
    assert!(reg.take_next(1).is_none());
    assert_eq!(reg.len(), 1);
}

#[test]
fn empty_and_unknown_frames_change_nothing() {
    let mut reg = Registry::new();
    let a = Session::join(&mut reg, 1, String::from("alice"));
    let _b = Session::join(&mut reg, 2, String::from("bob"));
    drain(&mut reg, 1);
    assert_eq!(a.handle_frame(&mut reg, ""), SessionStep::Continue);
    assert_eq!(a.handle_frame(&mut reg, "/bogus"), SessionStep::Continue);
    assert_eq!(a.handle_frame(&mut reg, "/quit now"), SessionStep::Continue);
    assert!(reg.contains(1));
    assert_eq!(drain(&mut reg, 2), Vec::<String>::new());
    assert_eq!(a.handle_frame(&mut reg, "still here"), SessionStep::Continue);
    assert_eq!(drain(&mut reg, 2), vec!["alice: still here"]);
}

#[test]
fn closed_outbound_is_pruned_on_next_broadcast() {
    let mut reg = Registry::new();
    let a = Session::join(&mut reg, 1, String::from("alice"));
    let _b = Session::join(&mut reg, 2, String::from("bob"));
    reg.close_outbound(2);
    assert!(reg.contains(2));
    a.handle_frame(&mut reg, "hi");
    assert!(!reg.contains(2));
    reg.close_outbound(7);
    reg.remove(7);
    assert_eq!(reg.len(), 1);
}

#[test]
fn rejoining_identity_supersedes_the_old_queue() {
    let mut reg = Registry::new();
    let _a = Session::join(&mut reg, 1, String::from("alice"));
    let b = Session::join(&mut reg, 2, String::from("bob"));
    b.handle_frame(&mut reg, "x");
    reg.insert(1);
    assert_eq!(reg.len(), 2);
    assert_eq!(drain(&mut reg, 1), Vec::<String>::new());
}

#[test]
fn handshake_without_name_registers_nothing() {
    let mut reg = Registry::new();
    let _a = Session::join(&mut reg, 1, String::from("alice"));
    assert!(Session::handshake(&mut reg, 2, ReadOutcome::EndOfStream).is_none());
    assert!(Session::handshake(&mut reg, 3, ReadOutcome::Failed).is_none());
    assert_eq!(reg.len(), 1);
    assert_eq!(drain(&mut reg, 1), Vec::<String>::new());
}

#[test]
fn handshake_accepts_an_empty_name() {
    let mut reg = Registry::new();
    let _a = Session::join(&mut reg, 1, String::from("alice"));
    let s = Session::handshake(&mut reg, 2, ReadOutcome::Frame(String::new())).unwrap();
    assert_eq!(s.id, 2);
    assert_eq!(s.name, "");
    assert!(reg.contains(2));
    assert_eq!(drain(&mut reg, 1), vec!["[ joined the chat]"]);
}

#[test]
fn read_failure_ends_session_silently() {
    let mut reg = Registry::new();
    let a = Session::join(&mut reg, 1, String::from("alice"));
    let _b = Session::join(&mut reg, 2, String::from("bob"));
    assert_eq!(a.on_read(&mut reg, &ReadOutcome::Failed), SessionStep::Closed);
    assert_eq!(a.on_read(&mut reg, &ReadOutcome::EndOfStream), SessionStep::Closed);
    assert!(reg.contains(1));
    assert_eq!(drain(&mut reg, 2), Vec::<String>::new());
    let step = a.on_read(&mut reg, &ReadOutcome::Frame(String::from("hi")));
    assert_eq!(step, SessionStep::Continue);
    assert_eq!(drain(&mut reg, 2), vec!["alice: hi"]);
}
