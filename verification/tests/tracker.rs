use bytes::BufMut;
use torrent::bencode::meta_info::InvalidLength;
use torrent::peer_id::{gen_peer_id, id_bytes, id_text};
use torrent::tracker::address::{join_address, tracker_address};
use torrent::tracker::exchange::{Action, Event, Exchange, Phase, Turn};
use torrent::tracker::peers::{Address, Peers};
use torrent::tracker::picker::TrackerPicker;
use torrent::tracker::udp::{retry_timeout, Announcement, TrackerError, UdpTracker};

const SECOND: u64 = 1_000_000_000;

fn tracker(reply: &[u8]) -> UdpTracker {
    let mut tracker = UdpTracker::new(0x01020304, 5);
    tracker.buf.put(reply);
    tracker
}

fn reply(numbers: &[u32], rest: &[u8]) -> Vec<u8> {
    let mut bytes: Vec<u8> = numbers.iter().flat_map(|n| n.to_be_bytes()).collect();
    bytes.extend_from_slice(rest);
    bytes
}

#[test]
fn connection_is_asked_for() {
    let mut tracker = tracker(b"left over");
    tracker.connect_request(0x0a0b0c0d);
    assert_eq!(
        &tracker.buf[..],
        [0, 0, 4, 0x17, 0x27, 0x10, 0x19, 0x80, 0, 0, 0, 0, 10, 11, 12, 13]
    );
    let tx_id = tracker.start_connect();
    assert_eq!(&tracker.buf[12..], tx_id.to_be_bytes());
    assert_eq!(tracker.request_sent(15), Err(TrackerError::ShortSend));
    assert_eq!(tracker.buf.len(), 16);
    assert_eq!(tracker.request_sent(16), Ok(()));
    assert!(tracker.buf.is_empty());
}

#[test]
fn connection_is_taken_up() {
    let bytes = reply(&[0, 7], &[1, 2, 3, 4, 5, 6, 7, 8]);
    let mut tracker = tracker(&bytes);
    assert!(tracker.accepts_connect_reply(7));
    assert_eq!(tracker.connect_reply(7, 99), Ok(()));
    assert_eq!(tracker.conn_id, 0x0102030405060708);
    assert_eq!(tracker.conn_id_ts, 99);
    assert_eq!(tracker.next_announce, 5);
    assert!(tracker.buf.is_empty());
}

#[test]
fn bad_connections_are_refused() {
    let error = |bytes: &[u8]| {
        let mut tracker = tracker(bytes);
        assert!(tracker.accepts_connect_reply(7));
        let error = tracker.connect_reply(7, 99).unwrap_err();
        assert_eq!((tracker.conn_id, tracker.conn_id_ts), (0, 5));
        error
    };
    assert_eq!(error(&reply(&[0, 7, 1], &[])), TrackerError::InvalidLength);
    assert_eq!(
        error(&reply(&[0, 7, 1, 2, 3], &[])),
        TrackerError::InvalidLength
    );
    assert_eq!(
        error(&reply(&[0, 8, 1, 2], &[])),
        TrackerError::WrongTransaction
    );
    assert_eq!(
        error(&reply(&[3, 7], b"too late")),
        TrackerError::Refused("too late".to_string())
    );
    assert_eq!(
        error(&reply(&[2, 7, 1, 2], &[])),
        TrackerError::UnexpectedAction {
            expected: 0,
            received: 2
        }
    );
}

#[test]
fn errors_have_to_be_text() {
    let bytes = reply(&[3, 7], &[0xff; 8]);
    assert!(!tracker(&bytes).accepts_connect_reply(7));
    assert!(tracker(&bytes).accepts_connect_reply(8));
    assert!(tracker(&bytes).accepts_announce_reply(7, 0));
    let longer = reply(&[3, 7], &[0xff; 12]);
    assert!(!tracker(&longer).accepts_announce_reply(7, 0));
    assert!(tracker(&longer).accepts_connect_reply(7));
    assert!(!tracker(&[]).accepts_announce_reply(7, u64::MAX));
}

#[test]
fn announcement_is_made() {
    let mut tracker = tracker(b"");
    tracker.conn_id = 0x1112131415161718;
    let announcement = Announcement {
        info_hash: [0xaa; 20],
        peer_id: [0xbb; 20],
        downloaded: 1,
        left: 2,
        uploaded: 3,
        port: 0x1ae1,
    };
    tracker.announce_request(0x0a0b0c0d, &announcement);
    let expected = [
        &[0x11, 0x12, 0x13, 0x14, 0x15, 0x16, 0x17, 0x18][..],
        &[0, 0, 0, 1, 10, 11, 12, 13],
        &[0xaa; 20],
        &[0xbb; 20],
        &[0, 0, 0, 0, 0, 0, 0, 1],
        &[0, 0, 0, 0, 0, 0, 0, 2],
        &[0, 0, 0, 0, 0, 0, 0, 3],
        &[0, 0, 0, 0, 0, 0, 0, 0],
        &[1, 2, 3, 4],
        &[0xff, 0xff, 0xff, 0xff],
        &[0x1a, 0xe1],
    ]
    .concat();
    assert_eq!(expected.len(), 98);
    assert_eq!(&tracker.buf[..], expected);
    let tx_id = tracker.announce(&announcement);
    assert_eq!(&tracker.buf[12..16], tx_id.to_be_bytes());
    assert_eq!(&tracker.buf[16..], &expected[16..]);
    assert_eq!(tracker.request_sent(98), Ok(()));
}

#[test]
fn peers_are_announced() {
    let bytes = reply(
        &[1, 7, 1800, 11, 12],
        &[10, 0, 0, 1, 0x1a, 0xe1, 192, 168, 1, 2, 0, 80],
    );
    let mut tracker = tracker(&bytes);
    assert!(tracker.accepts_announce_reply(7, 3));
    let (peers, seeders) = tracker.announce_reply(7, 3).unwrap();
    assert_eq!(seeders, 12);
    assert_eq!(
        peers,
        vec![
            Address {
                ip: [10, 0, 0, 1],
                port: 6881
            },
            Address {
                ip: [192, 168, 1, 2],
                port: 80
            },
        ]
    );
    assert_eq!(tracker.next_announce, 3 + 1800 * SECOND);
    assert!(tracker.buf.is_empty());
}

#[test]
fn bad_announcements_are_refused() {
    let error = |bytes: &[u8], next_announce: u64| {
        let mut tracker = tracker(bytes);
        assert!(tracker.accepts_announce_reply(7, 3));
        let error = tracker.announce_reply(7, 3).unwrap_err();
        assert_eq!(tracker.next_announce, next_announce);
        error
    };
    assert_eq!(
        error(&reply(&[1, 7, 0, 0], &[]), 5),
        TrackerError::InvalidLength
    );
    assert_eq!(
        error(&reply(&[1, 6, 0, 0, 0], &[]), 5),
        TrackerError::WrongTransaction
    );
    assert_eq!(
        error(&reply(&[3, 7], b"unknown hash"), 5),
        TrackerError::Refused("unknown hash".to_string())
    );
    assert_eq!(
        error(&reply(&[0, 7, 0, 0, 0], &[]), 5),
        TrackerError::UnexpectedAction {
            expected: 1,
            received: 0
        }
    );
    assert_eq!(
        error(&reply(&[1, 7, 2, 0, 0], &[1, 2, 3]), 3 + 2 * SECOND),
        TrackerError::InvalidPeers
    );
}

#[test]
fn announcements_keep_to_the_interval() {
    let tracker = tracker(b"");
    assert_eq!(tracker.may_announce(4), Err(TrackerError::TooEarly));
    assert_eq!(tracker.may_announce(5), Ok(()));
    assert!(!tracker.needs_connection(0));
    assert!(!tracker.needs_connection(5 + 60 * SECOND));
    assert!(tracker.needs_connection(6 + 60 * SECOND));
}

#[test]
fn attempts_wait_longer_and_longer() {
    let waits: Vec<Option<u64>> = (0..4).map(retry_timeout).collect();
    assert_eq!(waits, [Some(15), Some(45), Some(105), None]);
}

#[test]
fn address_is_taken_from_the_url() {
    assert_eq!(
        tracker_address("udp://tracker.example.org:1337/announce"),
        Ok("tracker.example.org:1337".to_string())
    );
    assert_eq!(
        tracker_address("udp://[2001:db8::1]:65535"),
        Ok("[2001:db8::1]:65535".to_string())
    );
    assert_eq!(tracker_address("no url"), Err(TrackerError::InvalidUrl));
    assert_eq!(tracker_address("data:x"), Err(TrackerError::MissingHost));
    assert_eq!(
        tracker_address("udp://tracker.example.org"),
        Err(TrackerError::MissingPort)
    );
    assert_eq!(
        tracker_address("http://tracker.example.org:80"),
        Err(TrackerError::MissingPort)
    );
}

#[test]
fn address_has_host_and_port() {
    let host = || Some("host".to_string());
    assert_eq!(join_address(host(), Some(0)), Ok("host:0".to_string()));
    assert_eq!(
        join_address(host(), Some(65535)),
        Ok("host:65535".to_string())
    );
    assert_eq!(join_address(None, None), Err(TrackerError::MissingHost));
    assert_eq!(join_address(host(), None), Err(TrackerError::MissingPort));
}

#[test]
fn tracker_is_set_up() {
    let (address, tracker) = UdpTracker::connect("udp://tracker.example.org:1337", 9).unwrap();
    assert_eq!(address, "tracker.example.org:1337");
    assert_eq!(tracker.conn_id, 0);
    assert_eq!((tracker.conn_id_ts, tracker.next_announce), (9, 9));
    assert!(tracker.buf.is_empty());
    assert!(matches!(
        UdpTracker::connect("no url", 9),
        Err(TrackerError::InvalidUrl)
    ));
}

#[test]
fn first_good_tracker_is_picked() {
    let list = vec![
        vec!["a".to_string(), "x".to_string()],
        vec!["b".to_string()],
        vec!["c".to_string()],
    ];
    let peers = |port| vec![Address { ip: [1; 4], port }];
    let mut picker = TrackerPicker::new();
    assert_eq!(picker.next_url(&list), Some(&"a".to_string()));
    assert_eq!(picker.answered(None), None);
    assert_eq!(picker.next_url(&list), Some(&"b".to_string()));
    assert_eq!(picker.answered(Some((peers(1), 4))), None);
    assert_eq!(picker.next_url(&list), Some(&"c".to_string()));
    assert_eq!(picker.answered(Some((peers(2), 5))), Some(peers(2)));
    assert_eq!(picker.next_url(&list), None);
}

#[test]
fn compact_peers_are_read() {
    let peers = Peers::from_bytes(&[1, 2, 3, 4, 0x1a, 0xe1, 5, 6, 7, 8, 0, 9])
        .ok()
        .unwrap();
    assert_eq!(peers.len(), 2);
    assert_eq!(peers[0].id, None);
    assert_eq!((peers[0].ip, peers[0].port), ([1, 2, 3, 4], 6881));
    assert_eq!((peers[1].ip, peers[1].port), ([5, 6, 7, 8], 9));
    assert_eq!(
        Peers::from_bytes(&[1, 2, 3, 4, 5]).err(),
        Some(InvalidLength { len: 5 })
    );
}

#[test]
fn peer_ids_are_letters_and_digits() {
    let id = gen_peer_id();
    assert_eq!(id.len(), 20);
    assert!(id.chars().all(|c| c.is_ascii_alphanumeric()));
    assert_eq!(&id_bytes(&id).unwrap()[..], id.as_bytes());
    assert_ne!(id, gen_peer_id());
}

#[test]
fn peer_ids_have_twenty_bytes() {
    assert_eq!(id_text(b"Az09"), "Az09");
    assert_eq!(id_bytes("too short"), None);
    assert_eq!(id_bytes("äääääääääää"), None);
    assert!(id_bytes("ääääääääää").is_some());
}

fn exchange(conn_id_ts: u64, next_announce: u64) -> Exchange {
    let mut tracker = tracker(b"");
    tracker.conn_id = 77;
    tracker.conn_id_ts = conn_id_ts;
    tracker.next_announce = next_announce;
    let announcement = Announcement {
        info_hash: [0xaa; 20],
        peer_id: [0xbb; 20],
        downloaded: 1,
        left: 2,
        uploaded: 3,
        port: 4,
    };
    Exchange::new(tracker, announcement)
}

fn step(exchange: Exchange, event: Event) -> Turn {
    assert!(exchange.accepts(&event));
    exchange.step(event)
}

fn tx_id(exchange: &Exchange) -> u32 {
    match exchange.phase {
        Phase::Connecting { tx_id, .. } => tx_id,
        Phase::Announcing { tx_id, .. } => tx_id,
        _ => panic!("no transaction"),
    }
}

#[test]
fn exchange_announces() {
    let turn = step(exchange(0, 0), Event::Proceed { now: 9 });
    assert!(matches!(turn.action, Action::Send { until } if until == 9 + 15 * SECOND));
    assert_eq!(turn.exchange.tracker.buf.len(), 98);
    assert_eq!(&turn.exchange.tracker.buf[..8], 77u64.to_be_bytes());
    let turn = step(turn.exchange, Event::Sent { n: 98, now: 10 });
    assert!(matches!(turn.action, Action::Receive { until } if until == 9 + 15 * SECOND));
    let mut exchange = turn.exchange;
    assert!(exchange.tracker.buf.is_empty());
    let id = tx_id(&exchange);
    exchange
        .tracker
        .buf
        .put(&reply(&[1, id, 2, 3, 4], &[1, 2, 3, 4, 0, 5])[..]);
    let turn = step(exchange, Event::Received { now: 11 });
    match turn.action {
        Action::Finish { peers, seeders } => {
            assert_eq!(seeders, 4);
            assert_eq!(
                peers,
                vec![Address {
                    ip: [1, 2, 3, 4],
                    port: 5
                }]
            );
        }
        _ => panic!("not finished"),
    }
    assert_eq!(turn.exchange.phase, Phase::Stopped);
    assert_eq!(turn.exchange.tracker.next_announce, 11 + 2 * SECOND);
}

#[test]
fn exchange_gets_a_new_connection() {
    let now = 61 * SECOND;
    let turn = step(exchange(0, 0), Event::Proceed { now });
    assert_eq!(turn.exchange.tracker.buf.len(), 16);
    let turn = step(turn.exchange, Event::Sent { n: 16, now });
    let mut exchange = turn.exchange;
    let id = tx_id(&exchange);
    exchange
        .tracker
        .buf
        .put(&reply(&[0, id], &[1, 2, 3, 4, 5, 6, 7, 8])[..]);
    let turn = step(exchange, Event::Received { now: now + 1 });
    assert!(turn.error.is_none());
    assert_eq!(turn.exchange.tracker.conn_id, 0x0102030405060708);
    assert_eq!(turn.exchange.tracker.conn_id_ts, now + 1);
    assert_eq!(
        &turn.exchange.tracker.buf[..8],
        [1, 2, 3, 4, 5, 6, 7, 8]
    );
    assert!(matches!(turn.action, Action::Send { until } if until == now + 15 * SECOND));
}

#[test]
fn exchange_gives_up_after_three_attempts() {
    let mut turn = step(exchange(0, 0), Event::Proceed { now: 0 });
    for attempt in 1..4 {
        turn = step(turn.exchange, Event::TimedOut { now: 15 * SECOND });
        assert_eq!(turn.exchange.attempts, attempt);
        assert!(matches!(turn.action, Action::Proceed));
        turn = step(turn.exchange, Event::Proceed { now: 20 * SECOND });
        match attempt {
            1 => assert!(matches!(turn.action, Action::Send { until } if until == 65 * SECOND)),
            2 => assert!(matches!(turn.action, Action::Send { until } if until == 125 * SECOND)),
            _ => assert!(matches!(turn.action, Action::GiveUp)),
        }
    }
    assert!(!turn.exchange.accepts(&Event::Proceed { now: 0 }));
}

#[test]
fn exchange_retries_the_connection() {
    let now = 61 * SECOND;
    let turn = step(exchange(0, 0), Event::Proceed { now });
    let turn = step(turn.exchange, Event::Sent { n: 15, now });
    assert_eq!(turn.error, Some(TrackerError::ShortSend));
    assert!(matches!(
        turn.exchange.phase,
        Phase::Connecting {
            tries: 1,
            sent: false,
            ..
        }
    ));
    // The try could last longer, but the attempt ends before.
    assert!(matches!(turn.action, Action::Send { until } if until == now + 15 * SECOND));
    let turn = step(turn.exchange, Event::Failed { now });
    assert!(matches!(
        turn.exchange.phase,
        Phase::Connecting { tries: 2, .. }
    ));
    let turn = step(turn.exchange, Event::Failed { now });
    assert_eq!(turn.exchange.phase, Phase::Starting);
    assert_eq!(turn.exchange.attempts, 1);

    let turn = step(turn.exchange, Event::Proceed { now });
    let end = now + 45 * SECOND;
    assert!(matches!(turn.action, Action::Send { until } if until == now + 15 * SECOND));
    let turn = step(turn.exchange, Event::TimedOut { now: now + 15 * SECOND });
    assert!(matches!(turn.action, Action::Send { until } if until == end));
    let turn = step(turn.exchange, Event::TimedOut { now: end });
    assert_eq!(turn.exchange.phase, Phase::Starting);
    assert_eq!(turn.exchange.attempts, 2);
}

#[test]
fn exchange_does_not_announce_too_early() {
    let mut turn = step(exchange(0, 8), Event::Proceed { now: 7 });
    assert_eq!(turn.error, Some(TrackerError::TooEarly));
    let mut steps = 1;
    while let Action::Proceed = turn.action {
        turn = step(turn.exchange, Event::Proceed { now: 7 });
        steps += 1;
    }
    assert!(matches!(turn.action, Action::GiveUp));
    assert_eq!(steps, 4);
}
