use bevy_badnet::channel::ChannelId;
use bevy_badnet::session::Session;
use bevy_badnet::transport::{retry_datagram, IoOutcome, Tcp, Transport, TransportStats, Udp};

fn udp_frame(channel: u64, data: &[u8]) -> Vec<u8> {
    let mut v = channel.to_le_bytes().to_vec();
    v.extend_from_slice(&(data.len() as u16).to_le_bytes());
    v.extend_from_slice(data);
    v
}

#[test]
fn stats_count_and_roll_over() {
    let mut s = TransportStats::default();
    s.add_sent(10);
    s.add_sent(5);
    assert_eq!(s.packets_sent_recent, 2);
    assert_eq!(s.bytes_sent_recent, 15);
    s.add_recv(7);
    s.update_total();
    assert_eq!(s.packets_sent_total, 2);
    assert_eq!(s.bytes_sent_total, 15);
    assert_eq!(s.packets_sent_recent, 0);
    assert_eq!(s.bytes_sent_recent, 0);
    assert_eq!(s.bytes_recv_total, 7);
    assert_eq!(s.bytes_recv_recent, 0);
    assert_eq!(s.packets_recv_total, 1);
    assert_eq!(s.packets_recv_recent, 0);
    s.add_recv(3);
    s.add_sent(1);
    s.update_total();
    assert_eq!(s.packets_recv_total, 2);
    assert_eq!(s.bytes_recv_total, 10);
    assert_eq!(s.packets_sent_total, 3);
    assert_eq!(s.bytes_sent_total, 16);
}

#[test]
fn inbox_hands_out_arrivals_in_order() {
    let mut t = Transport::new(());
    let a = ChannelId::from_bits(1);
    let b = ChannelId::from_bits(2);
    t.add_incoming(a, vec![1]);
    t.add_incoming(b, vec![9]);
    t.add_incoming(a, vec![2, 2]);
    assert_eq!(t.recv(a), vec![vec![1], vec![2, 2]]);
    assert_eq!(t.recv(a), Vec::<Vec<u8>>::new());
    assert_eq!(t.recv(ChannelId::from_bits(3)), Vec::<Vec<u8>>::new());
    t.add_incoming(a, vec![3]);
    assert_eq!(t.recv(a), vec![vec![3]]);
    assert_eq!(t.recv(b), vec![vec![9]]);
}

#[test]
fn transport_counts_sent_bytes() {
    let mut t = Transport::new(5u8);
    t.count_sent(12);
    assert_eq!(t.stats().packets_sent_recent, 1);
    assert_eq!(t.stats().bytes_sent_recent, 12);
    *t.protocol_mut() = 6;
    assert_eq!(*t.protocol(), 6);
}

#[test]
fn tcp_queues_until_flush() {
    let session = Session::from_halves(4, 0);
    let mut tcp = Tcp::new(session);
    assert_eq!(tcp.session(), session);
    assert_eq!(tcp.flush(), None);
    tcp.send(ChannelId::from_bits(1), &[1, 2]);
    tcp.send(ChannelId::from_bits(2), &[]);
    assert_eq!(
        tcp.flush(),
        Some(vec![(ChannelId::from_bits(1), vec![1, 2]), (ChannelId::from_bits(2), vec![])])
    );
    assert_eq!(tcp.flush(), None);
}

#[test]
fn udp_batches_messages_into_datagrams() {
    let session = Session::from_halves(0x11, 0x22);
    let mut udp = Udp::new(session);
    assert_eq!(udp.session(), session);
    assert_eq!(udp.flush(), None);
    assert_eq!(udp.send(ChannelId::from_bits(3), &[1, 2, 3, 4, 5, 6, 7, 8, 9, 10]), None);
    let first = udp.flush().expect("more than 16 bytes are pending");
    assert_eq!(first, udp_frame(3, &[1, 2, 3, 4, 5, 6, 7, 8, 9, 10]));
    // the next datagram starts with the session's bytes only
    assert_eq!(udp.flush(), None);
    let big = vec![7u8; 1190];
    assert_eq!(udp.send(ChannelId::from_bits(4), &big), None);
    let full = udp.send(ChannelId::from_bits(5), &[1]).expect("the datagram is full");
    let mut expected = session.to_le_bytes().to_vec();
    expected.extend(udp_frame(4, &big));
    assert_eq!(full, expected);
    let last = udp.flush().expect("the second message is pending");
    let mut expected = session.to_le_bytes().to_vec();
    expected.extend(udp_frame(5, &[1]));
    assert_eq!(last, expected);
}

#[test]
fn udp_length_field_wraps() {
    let session = Session::from_halves(0, 0);
    let mut udp = Udp::new(session);
    let huge = vec![1u8; 65536 + 3];
    assert_eq!(udp.send(ChannelId::from_bits(1), &huge), None);
    let d = udp.flush().unwrap();
    assert_eq!(&d[8..10], &[3, 0]);
    assert_eq!(d.len(), 10 + 65539);
}

#[test]
fn datagram_retries() {
    assert!(retry_datagram(&IoOutcome::Interrupted, 2));
    assert!(retry_datagram(&IoOutcome::Interrupted, 3));
    assert!(retry_datagram(&IoOutcome::Interrupted, 100));
    assert!(retry_datagram(&IoOutcome::WouldBlock, 2));
    assert!(!retry_datagram(&IoOutcome::WouldBlock, 3));
    assert!(!retry_datagram(&IoOutcome::Done(4), 0));
    assert!(!retry_datagram(&IoOutcome::Failed { kind: "x".to_string() }, 0));
}
