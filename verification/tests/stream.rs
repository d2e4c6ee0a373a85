use relay_core::framing::parse_frame;
use relay_core::stream::StreamRoster;

#[test]
fn lone_session_gets_no_fanout() {
    // Scenario: connection C1 sends "alice: hi" as the only known session.
    let mut roster = StreamRoster::new();
    let frame = b"alice: hi".to_vec();
    let f = parse_frame(&frame).expect("well-formed frame");
    let writes = roster.handle_event(f.identity, 1, &f.payload);
    assert!(roster.contains_identity(&b"alice".to_vec()));
    assert!(writes.is_empty());
}

#[test]
fn two_sessions_relay_to_each_other_without_echo() {
    // Scenario: C1 ("alice") registers, then C2 ("bob") sends a message.
    let mut roster = StreamRoster::new();
    let hello = parse_frame(&b"alice: Hello from client".to_vec()).unwrap();
    let writes = roster.handle_event(hello.identity, 1, &hello.payload);
    assert!(writes.is_empty());

    let from_bob = parse_frame(&b"bob: hi alice".to_vec()).unwrap();
    let writes = roster.handle_event(from_bob.identity, 2, &from_bob.payload);
    assert!(roster.contains_identity(&b"bob".to_vec()));
    // Delivered to alice as "bob: <text>", never echoed to bob.
    assert_eq!(writes.len(), 1);
    assert_eq!(writes[0].handle, 1);
    assert_eq!(writes[0].bytes, b"bob: hi alice".to_vec());

    let from_alice = parse_frame(&b"alice: good day".to_vec()).unwrap();
    let writes = roster.handle_event(from_alice.identity, 1, &from_alice.payload);
    // Delivered to bob as "alice: <text>", never echoed to alice.
    assert_eq!(writes.len(), 1);
    assert_eq!(writes[0].handle, 2);
    assert_eq!(writes[0].bytes, b"alice: good day".to_vec());
}

#[test]
fn repeated_identity_makes_no_second_entry() {
    // Sending the same identity prefix twice on the same connection.
    let mut roster = StreamRoster::new();
    let first = parse_frame(&b"alice: one".to_vec()).unwrap();
    roster.handle_event(first.identity, 1, &first.payload);
    let second = parse_frame(&b"alice: two".to_vec()).unwrap();
    let writes = roster.handle_event(second.identity, 1, &second.payload);
    // Still only alice: her own repeat produced no recipients.
    assert!(writes.is_empty());

    // A third party sees exactly one write, so the roster holds one entry.
    let from_bob = parse_frame(&b"bob: probe".to_vec()).unwrap();
    let writes = roster.handle_event(from_bob.identity, 2, &from_bob.payload);
    assert_eq!(writes.len(), 1);
    assert_eq!(writes[0].handle, 1);
}

#[test]
fn malformed_frame_leaves_roster_unchanged() {
    // Scenario: a stream frame lacking ':' is dropped silently; the process
    // continues serving other sessions.
    let mut roster = StreamRoster::new();
    let ok = parse_frame(&b"alice: hi".to_vec()).unwrap();
    roster.handle_event(ok.identity, 1, &ok.payload);

    assert!(parse_frame(&b"garbage without delimiter".to_vec()).is_none());
    assert!(!roster.contains_identity(&b"garbage without delimiter".to_vec()));

    // Later traffic still flows.
    let from_bob = parse_frame(&b"bob: still here".to_vec()).unwrap();
    let writes = roster.handle_event(from_bob.identity, 2, &from_bob.payload);
    assert_eq!(writes.len(), 1);
    assert_eq!(writes[0].bytes, b"bob: still here".to_vec());
}

#[test]
fn identities_stay_registered() {
    let mut roster = StreamRoster::new();
    let names: [&[u8]; 3] = [b"alice", b"bob", b"carol"];
    for (i, name) in names.iter().enumerate() {
        roster.handle_event(name.to_vec(), i as u64, &b"hi".to_vec());
    }
    for name in names.iter() {
        assert!(roster.contains_identity(&name.to_vec()));
    }
}

#[test]
fn fanout_reaches_every_other_session_once() {
    let mut roster = StreamRoster::new();
    roster.handle_event(b"alice".to_vec(), 1, &b"x".to_vec());
    roster.handle_event(b"bob".to_vec(), 2, &b"x".to_vec());
    roster.handle_event(b"carol".to_vec(), 3, &b"x".to_vec());
    let writes = roster.handle_event(b"alice".to_vec(), 1, &b"ping".to_vec());
    let handles: Vec<u64> = writes.iter().map(|w| w.handle).collect();
    assert_eq!(handles, vec![2, 3]);
    for w in &writes {
        assert_eq!(w.bytes, b"alice: ping".to_vec());
    }
}
