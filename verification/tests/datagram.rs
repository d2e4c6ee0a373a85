use relay_core::datagram::{DatagramRoster, PeerAddr};

// 127.0.0.1 as a big-endian integer.
const LOOPBACK: u32 = 0x7f00_0001;

#[test]
fn first_datagram_is_recorded_not_forwarded() {
    // Scenario: a datagram from 127.0.0.1:40000 arrives with no other peer
    // known.
    let mut roster = DatagramRoster::new();
    let p = PeerAddr { ip: LOOPBACK, port: 40000 };
    let sends = roster.handle_datagram(p, &b"hello".to_vec());
    assert!(roster.contains_addr(p));
    assert!(sends.is_empty());
}

#[test]
fn datagrams_are_forwarded_to_other_peers_never_back() {
    let mut roster = DatagramRoster::new();
    let p = PeerAddr { ip: LOOPBACK, port: 40000 };
    let q = PeerAddr { ip: LOOPBACK, port: 40001 };

    let sends = roster.handle_datagram(p, &b"first".to_vec());
    assert!(sends.is_empty());

    // A later datagram from 40001 is forwarded to 40000.
    let sends = roster.handle_datagram(q, &b"second".to_vec());
    assert_eq!(sends.len(), 1);
    assert_eq!(sends[0].dest, p);
    assert_eq!(sends[0].payload, b"second".to_vec());

    // A subsequent datagram from 40000 is forwarded to 40001; neither is
    // ever sent back to its own source.
    let sends = roster.handle_datagram(p, &b"third".to_vec());
    assert_eq!(sends.len(), 1);
    assert_eq!(sends[0].dest, q);
    assert_eq!(sends[0].payload, b"third".to_vec());
}

#[test]
fn payload_is_forwarded_byte_for_byte() {
    let mut roster = DatagramRoster::new();
    let p = PeerAddr { ip: LOOPBACK, port: 40000 };
    let q = PeerAddr { ip: LOOPBACK, port: 40001 };
    roster.handle_datagram(p, &Vec::new());
    // Raw bytes, no prefix, nothing trimmed, invalid UTF-8 untouched.
    let payload = vec![0u8, 255, 58, 32, 9, 128];
    let sends = roster.handle_datagram(q, &payload);
    assert_eq!(sends.len(), 1);
    assert_eq!(sends[0].payload, payload);
}

#[test]
fn repeated_source_makes_no_second_entry() {
    let mut roster = DatagramRoster::new();
    let p = PeerAddr { ip: LOOPBACK, port: 40000 };
    let q = PeerAddr { ip: LOOPBACK, port: 40001 };
    roster.handle_datagram(p, &b"a".to_vec());
    roster.handle_datagram(p, &b"b".to_vec());
    // From q, exactly one send goes out: p is known once.
    let sends = roster.handle_datagram(q, &b"c".to_vec());
    assert_eq!(sends.len(), 1);
    assert_eq!(sends[0].dest, p);
}

#[test]
fn fanout_reaches_every_other_address_once() {
    let mut roster = DatagramRoster::new();
    let peers: Vec<PeerAddr> = (0..4).map(|k| PeerAddr { ip: LOOPBACK, port: 40000 + k }).collect();
    for p in &peers {
        roster.handle_datagram(*p, &b"join".to_vec());
    }
    let sends = roster.handle_datagram(peers[2], &b"ping".to_vec());
    let dests: Vec<PeerAddr> = sends.iter().map(|s| s.dest).collect();
    assert_eq!(dests, vec![peers[0], peers[1], peers[3]]);
}

#[test]
fn addresses_differing_only_in_port_are_distinct() {
    let mut roster = DatagramRoster::new();
    let p = PeerAddr { ip: LOOPBACK, port: 40000 };
    let q = PeerAddr { ip: LOOPBACK, port: 40001 };
    roster.handle_datagram(p, &b"x".to_vec());
    roster.handle_datagram(q, &b"y".to_vec());
    assert!(roster.contains_addr(p));
    assert!(roster.contains_addr(q));
    assert!(!roster.contains_addr(PeerAddr { ip: LOOPBACK, port: 40002 }));
}
