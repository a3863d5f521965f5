use bevy_badnet::channel::ChannelId;
use bevy_badnet::runtime::{alloc_token, Runtime};
use bevy_badnet::session::Session;

fn frame(channel: u64, data: &[u8]) -> Vec<u8> {
    let mut v = channel.to_le_bytes().to_vec();
    v.extend_from_slice(&(data.len() as u64).to_le_bytes());
    v.extend_from_slice(data);
    v
}

const SESSION_ASSIGNMENT: u64 = 0x69_420_69_420_69_420;
const EXIT_CODE: u64 = 0x420_69_420_69_420_69;

#[test]
fn alloc_token_reuses_first_free_slot() {
    let mut slots = vec![Some(1), None, None, Some(4)];
    assert_eq!(alloc_token(&mut slots), 1);
    assert_eq!(slots.len(), 4);
    let mut full = vec![Some(1), Some(2)];
    assert_eq!(alloc_token(&mut full), 2);
    assert_eq!(full, vec![Some(1), Some(2), None]);
    let mut empty: Vec<Option<u8>> = Vec::new();
    assert_eq!(alloc_token(&mut empty), 0);
    assert_eq!(empty, vec![None]);
}

#[test]
fn listeners_and_clients_take_slots_in_order() {
    let mut rt: Runtime<&str, u32> = Runtime::new();
    assert_eq!(rt.slot_count(), 0);
    assert_eq!(rt.add_listener("tcp"), 0);
    let s = Session::from_halves(1, 2);
    assert_eq!(rt.add_client(s, 40), 1);
    assert_eq!(rt.slot_count(), 2);
    assert_eq!(rt.listener_mut(0).map(|l| *l), Some("tcp"));
    assert!(rt.listener_mut(1).is_none());
    assert!(rt.connection_mut(0).is_none());
    assert!(rt.connection_mut(7).is_none());
    let conn = rt.connection_mut(1).unwrap();
    assert_eq!(conn.link, 40);
    assert_eq!(conn.client.session, s);
    assert!(conn.client.writable);
    let mut expected = frame(SESSION_ASSIGNMENT, &s.to_le_bytes());
    assert_eq!(conn.client.encoder.unwritten(), &expected[..]);
    rt.send_packets(s, vec![(ChannelId::from_bits(5), vec![1, 2, 3]), (ChannelId::from_bits(6), vec![])]);
    expected.extend(frame(5, &[1, 2, 3]));
    expected.extend(frame(6, &[]));
    assert_eq!(rt.connection_mut(1).unwrap().client.encoder.unwritten(), &expected[..]);
}

#[test]
fn packets_for_unknown_sessions_go_nowhere() {
    let mut rt: Runtime<(), u8> = Runtime::new();
    let s = Session::from_halves(3, 0);
    rt.add_client(s, 1);
    let before = rt.connection_mut(0).unwrap().client.encoder.len();
    rt.send_packets(Session::from_halves(4, 0), vec![(ChannelId::from_bits(5), vec![1])]);
    assert_eq!(rt.connection_mut(0).unwrap().client.encoder.len(), before);
}

#[test]
fn disconnect_frees_the_slot_and_queues_the_exit_code() {
    let mut rt: Runtime<(), u8> = Runtime::new();
    let a = Session::from_halves(10, 0);
    let b = Session::from_halves(11, 0);
    assert_eq!(rt.add_client(a, 1), 0);
    assert_eq!(rt.add_client(b, 2), 1);
    assert!(rt.disconnect(a, b"\"Quit\""));
    assert!(rt.connection_mut(0).is_none());
    assert_eq!(rt.closing_count(), 1);
    let closing = rt.closing_mut(0);
    assert_eq!(closing.link, 1);
    let mut expected = frame(SESSION_ASSIGNMENT, &a.to_le_bytes());
    expected.extend(frame(EXIT_CODE, b"\"Quit\""));
    assert_eq!(closing.client.encoder.unwritten(), &expected[..]);
    // the session is gone: a second request and later packets change nothing
    assert!(!rt.disconnect(a, b"x"));
    rt.send_packets(a, vec![(ChannelId::from_bits(5), vec![1])]);
    assert_eq!(rt.closing_count(), 1);
    assert_eq!(rt.closing_mut(0).client.encoder.len(), expected.len());
    // the freed slot is the next one taken
    let c = Session::from_halves(12, 0);
    assert_eq!(rt.add_client(c, 3), 0);
    assert_eq!(rt.slot_count(), 2);
    let gone = rt.drop_closing(0);
    assert_eq!(gone.link, 1);
    assert_eq!(rt.closing_count(), 0);
}

#[test]
fn close_by_token_and_writable_flags() {
    let mut rt: Runtime<(), u8> = Runtime::new();
    let a = Session::from_halves(20, 0);
    rt.add_listener(());
    let t = rt.add_client(a, 9);
    rt.set_writable(t, false);
    assert!(!rt.connection_mut(t).unwrap().client.writable);
    rt.set_writable(0, false);
    rt.set_writable(99, true);
    rt.set_writable(t, true);
    assert!(rt.connection_mut(t).unwrap().client.writable);
    assert_eq!(rt.note_received(t), a);
    assert_eq!(rt.close(t, b"bye"), a);
    assert!(rt.connection_mut(t).is_none());
    assert!(!rt.disconnect(a, b"again"));
    assert_eq!(rt.closing_count(), 1);
}

#[test]
fn accept_draws_a_session() {
    let mut rt: Runtime<(), u8> = Runtime::new();
    let (t, s) = rt.accept(5).expect("random source");
    assert_eq!(t, 0);
    assert_eq!(rt.connection_mut(0).unwrap().client.session, s);
    assert!(rt.disconnect(s, b""));
}

#[test]
fn drop_closing_moves_the_last_into_place() {
    let mut rt: Runtime<(), u8> = Runtime::new();
    for i in 0..3u8 {
        let s = Session::from_halves(30 + i as u64, 0);
        rt.add_client(s, i);
        assert!(rt.disconnect(s, b""));
    }
    assert_eq!(rt.closing_count(), 3);
    assert_eq!(rt.drop_closing(0).link, 0);
    assert_eq!(rt.closing_mut(0).link, 2);
    assert_eq!(rt.closing_mut(1).link, 1);
}
