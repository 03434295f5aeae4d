use chat::server::{
    received_bytes, redaction, Addr, Connection, Fault, Ip, MessageOutcome, Server, Time,
    BAN_LIMIT_NS, MESSAGE_RATE_NS,
};

const T0: i128 = 1_700_000_000_000_000_000;
const SEC: i128 = 1_000_000_000;
const BAN: i128 = BAN_LIMIT_NS as i128;
const RATE: i128 = MESSAGE_RATE_NS as i128;

fn t(ns: i128) -> Time {
    Time { secs: ns.div_euclid(SEC) as i64, nanos: ns.rem_euclid(SEC) as u32 }
}

fn addr(last: u8, port: u16) -> Addr {
    Addr { ip: Ip::V4(0x7f00_0000 | last as u32), port }
}

fn server() -> Server<u32> {
    Server::with_token("ABC".to_string())
}

#[test]
fn connect_then_authenticate() {
    let mut s = server();
    let a = addr(1, 1000);
    assert!(matches!(s.client_connected(a, 11, t(T0)), Connection::Accepted));
    assert_eq!(s.connection(a), Some(&11));
    assert!(matches!(s.new_message(a, b"ABC", t(T0)), MessageOutcome::Authenticated));
    assert_eq!(s.connection(a), Some(&11));
}

#[test]
fn wrong_token_removes_client() {
    let mut s = server();
    let a = addr(1, 1000);
    s.client_connected(a, 11, t(T0));
    match s.new_message(a, b"abc", t(T0)) {
        MessageOutcome::AuthFailed(conn) => assert_eq!(conn, 11),
        _ => panic!("expected failed authentication"),
    }
    assert_eq!(s.connection(a), None);
    assert!(matches!(s.new_message(a, b"ABC", t(T0 + SEC)), MessageOutcome::UnknownClient));
}

#[test]
fn broadcast_goes_to_other_authenticated_clients() {
    let mut s = server();
    let (a, b, c) = (addr(1, 1), addr(2, 2), addr(3, 3));
    s.client_connected(a, 1, t(T0));
    s.client_connected(b, 2, t(T0));
    s.client_connected(c, 3, t(T0));
    s.new_message(a, b"ABC", t(T0));
    s.new_message(b, b"ABC", t(T0));
    match s.new_message(a, b"hello", t(T0 + 2 * SEC)) {
        MessageOutcome::Broadcast(to) => assert_eq!(to, vec![b]),
        _ => panic!("expected a broadcast"),
    }
}

#[test]
fn unauthenticated_message_is_a_token_try() {
    let mut s = server();
    let a = addr(1, 1);
    s.client_connected(a, 1, t(T0));
    assert!(matches!(s.new_message(a, b"hello", t(T0)), MessageOutcome::AuthFailed(1)));
}

#[test]
fn too_fast_is_a_strike() {
    let mut s = server();
    let a = addr(1, 1);
    s.client_connected(a, 1, t(T0));
    s.new_message(a, b"ABC", t(T0));
    assert!(matches!(s.new_message(a, b"x", t(T0 + SEC / 2)), MessageOutcome::Strike));
    assert!(matches!(s.new_message(a, b"x", t(T0 + RATE)), MessageOutcome::Broadcast(_)));
}

#[test]
fn invalid_utf8_is_a_strike() {
    let mut s = server();
    let a = addr(1, 1);
    s.client_connected(a, 1, t(T0));
    assert!(matches!(s.new_message(a, &[0xff, 0xfe], t(T0)), MessageOutcome::Strike));
}

#[test]
fn tenth_strike_bans_until_limit() {
    let mut s = server();
    let a = addr(1, 1);
    s.client_connected(a, 1, t(T0));
    s.new_message(a, b"ABC", t(T0));
    for i in 1..10i128 {
        assert!(matches!(s.new_message(a, b"x", t(T0 + i)), MessageOutcome::Strike));
    }
    let now = T0 + 10;
    match s.new_message(a, b"x", t(now)) {
        MessageOutcome::Banned { remaining_ns, invalid_text } => {
            assert_eq!(remaining_ns as i128, BAN - 10);
            assert!(!invalid_text);
        }
        _ => panic!("expected a ban"),
    }
    let same_ip = addr(1, 2);
    match s.client_connected(same_ip, 5, t(now + 100 * SEC)) {
        Connection::Banned { conn, remaining_ns } => {
            assert_eq!(conn, 5);
            assert_eq!(remaining_ns as i128, BAN - 100 * SEC);
        }
        _ => panic!("expected to be turned away"),
    }
    assert_eq!(s.connection(same_ip), None);
    assert!(matches!(s.client_connected(same_ip, 6, t(now + BAN)), Connection::Accepted));
    assert!(matches!(s.client_connected(addr(1, 3), 7, t(now + BAN + 1)), Connection::Accepted));
}

#[test]
fn ban_for_invalid_text_is_marked() {
    let mut s = server();
    let a = addr(9, 1);
    s.client_connected(a, 1, t(T0));
    let mut now = T0;
    for _ in 1..10 {
        now += 2 * SEC;
        assert!(matches!(s.new_message(a, &[0xc3], t(now)), MessageOutcome::Strike));
    }
    match s.new_message(a, &[0xc3], t(now + 2 * SEC)) {
        MessageOutcome::Banned { remaining_ns, invalid_text } => {
            assert!(invalid_text);
            assert_eq!(remaining_ns as i128, BAN - 22 * SEC);
        }
        _ => panic!("expected a ban"),
    }
}

#[test]
fn ban_with_clock_behind_counts_as_fresh() {
    let mut s = server();
    let a = addr(4, 1);
    s.client_connected(a, 1, t(T0));
    for i in 0..10i128 {
        s.new_message(a, &[0xff], t(T0 + i));
    }
    match s.client_connected(a, 2, t(T0 - SEC)) {
        Connection::Banned { remaining_ns, .. } => assert_eq!(remaining_ns as i128, BAN),
        _ => panic!("expected to be turned away"),
    }
}

#[test]
fn faults_are_reported() {
    let mut s = server();
    let a = addr(1, 1);
    s.client_connected(a, 1, t(T0));
    assert_eq!(s.message_fault(a, b"x", t(T0 - 3 * SEC)), Some(Fault::ClockWentBackwards));
    assert_eq!(s.message_fault(addr(2, 2), b"x", t(0)), None);
    assert_eq!(s.message_fault(a, b"x", t(T0)), None);
    for i in 0..9i128 {
        s.new_message(a, &[0xff], t(T0 - 2 * SEC + i));
    }
    assert_eq!(
        s.message_fault(a, &[0xff], t(T0 + BAN)),
        Some(Fault::BanTimeOverflow)
    );
    assert_eq!(s.message_fault(a, b"ok", t(T0 + BAN)), None);
}

#[test]
fn disconnected_client_is_forgotten() {
    let mut s = server();
    let a = addr(1, 1);
    s.client_connected(a, 1, t(T0));
    s.client_disconnected(a);
    assert_eq!(s.connection(a), None);
    assert!(matches!(s.new_message(a, b"ABC", t(T0)), MessageOutcome::UnknownClient));
}

#[test]
fn reconnect_replaces_client() {
    let mut s = server();
    let a = addr(1, 1);
    s.client_connected(a, 1, t(T0));
    s.new_message(a, b"ABC", t(T0));
    s.client_connected(a, 2, t(T0 + SEC));
    assert_eq!(s.connection(a), Some(&2));
    assert!(matches!(s.new_message(a, b"hello", t(T0 + SEC)), MessageOutcome::AuthFailed(2)));
}

#[test]
fn ipv6_addresses_are_distinct() {
    let mut s = server();
    let a = Addr { ip: Ip::V6(1), port: 5 };
    let b = Addr { ip: Ip::V4(1), port: 5 };
    s.client_connected(a, 1, t(T0));
    assert_eq!(s.connection(b), None);
    assert_eq!(s.connection(a), Some(&1));
}

#[test]
fn received_bytes_drops_control_characters() {
    assert_eq!(received_bytes(&[]), None);
    assert_eq!(received_bytes(b"hi\r\n"), Some(b"hi".to_vec()));
    assert_eq!(received_bytes(&[1, 2, 31]), Some(vec![]));
    assert_eq!(received_bytes(&[32, 200, 7]), Some(vec![32, 200]));
}

#[test]
fn redaction_in_sensitive_mode() {
    assert_eq!(redaction(true), Some("[REDACTED]".to_string()));
    assert_eq!(redaction(false), None);
}

#[test]
fn connect_near_and_before_the_epoch() {
    let mut s = server();
    let a = addr(1, 1);
    assert!(matches!(s.client_connected(a, 1, t(SEC)), Connection::Accepted));
    assert!(matches!(s.new_message(a, b"ABC", t(SEC)), MessageOutcome::Authenticated));
    let b = addr(2, 1);
    assert!(matches!(s.client_connected(b, 2, t(-5 * SEC - 7)), Connection::Accepted));
    assert_eq!(s.message_fault(b, b"ABC", t(-5 * SEC - 7)), None);
    assert!(matches!(s.new_message(b, b"ABC", t(-5 * SEC - 7)), MessageOutcome::Authenticated));
    match s.new_message(a, b"hi", t(3 * SEC)) {
        MessageOutcome::Broadcast(to) => assert_eq!(to, vec![b]),
        _ => panic!("expected a broadcast"),
    }
}

#[test]
fn ban_holds_for_every_port_until_limit() {
    let mut s = server();
    let a = addr(5, 1);
    s.client_connected(a, 1, t(T0));
    s.new_message(a, b"ABC", t(T0));
    for i in 1..=10i128 {
        s.new_message(a, b"x", t(T0 + i));
    }
    let banned_at = T0 + 10;
    for (k, port) in [2u16, 3, 4].iter().enumerate() {
        let now = banned_at + (k as i128) * 200 * SEC;
        match s.client_connected(addr(5, *port), 9, t(now)) {
            Connection::Banned { remaining_ns, .. } => {
                assert_eq!(remaining_ns as i128, BAN - (now - banned_at))
            }
            _ => panic!("expected to be turned away"),
        }
    }
    assert!(matches!(s.client_connected(addr(5, 9), 9, t(banned_at + BAN - 1)), Connection::Banned { .. }));
    assert!(matches!(s.client_connected(addr(5, 9), 9, t(banned_at + BAN)), Connection::Accepted));
    assert!(matches!(s.client_connected(addr(5, 10), 9, t(banned_at + BAN + 1)), Connection::Accepted));
}

#[test]
fn ban_kept_through_messages_from_the_banned_address() {
    let mut s = server();
    let a = addr(6, 1);
    let b = addr(6, 2);
    s.client_connected(a, 1, t(T0));
    s.client_connected(b, 2, t(T0));
    s.new_message(a, b"ABC", t(T0));
    s.new_message(b, b"ABC", t(T0));
    for i in 1..=10i128 {
        s.new_message(a, b"x", t(T0 + i));
    }
    let banned_at = T0 + 10;
    assert!(matches!(s.new_message(b, b"still here", t(T0 + 2 * SEC)), MessageOutcome::Broadcast(_)));
    match s.client_connected(addr(6, 3), 3, t(banned_at + 300 * SEC)) {
        Connection::Banned { remaining_ns, .. } => {
            assert_eq!(remaining_ns as i128, BAN - 300 * SEC)
        }
        _ => panic!("expected to be turned away"),
    }
}

#[test]
fn tokens_slightly_behind_the_connect_clock_are_on_time() {
    let mut s = server();
    let a = addr(7, 1);
    s.client_connected(a, 1, t(T0));
    assert!(matches!(s.new_message(a, b"ABC", t(T0 - RATE)), MessageOutcome::Authenticated));
}
