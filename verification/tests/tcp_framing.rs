use bevy_badnet::channel::ChannelId;
use bevy_badnet::messages::DisconnectReason;
use bevy_badnet::session::Session;
use bevy_badnet::tcp::{FlushStep, ReadStep, TcpClient, TcpDecoder, TcpEncoder};
use bevy_badnet::transport::IoOutcome;

fn frame(channel: u64, data: &[u8]) -> Vec<u8> {
    let mut v = channel.to_le_bytes().to_vec();
    v.extend_from_slice(&(data.len() as u64).to_le_bytes());
    v.extend_from_slice(data);
    v
}

#[test]
fn encode_writes_channel_length_and_bytes() {
    let mut e = TcpEncoder::new();
    e.encode(ChannelId::from_bits(1), &[9, 8]);
    assert_eq!(e.unwritten(), &[1, 0, 0, 0, 0, 0, 0, 0, 2, 0, 0, 0, 0, 0, 0, 0, 9, 8][..]);
    e.encode(ChannelId::from_bits(0x0102), &[]);
    assert_eq!(e.len(), 34);
    assert_eq!(&e.unwritten()[18..], &frame(0x0102, &[])[..]);
}

#[test]
fn decode_returns_what_was_encoded() {
    let mut e = TcpEncoder::new();
    e.encode(ChannelId::from_bits(77), b"hello");
    e.encode(ChannelId::from_bits(78), b"");
    e.encode(ChannelId::from_bits(79), b"world!");
    let bytes = e.unwritten().to_vec();
    let mut d = TcpDecoder::new(1_000_000);
    assert_eq!(d.after_read(IoOutcome::Done(bytes.len()), &bytes), ReadStep::Read(bytes.len()));
    assert_eq!(d.decode(), Ok(Some((ChannelId::from_bits(77), b"hello".to_vec()))));
    assert_eq!(d.decode(), Ok(Some((ChannelId::from_bits(78), Vec::new()))));
    assert_eq!(d.decode(), Ok(Some((ChannelId::from_bits(79), b"world!".to_vec()))));
    assert_eq!(d.decode(), Ok(None));
}

#[test]
fn decode_waits_for_the_whole_message() {
    let bytes = frame(5, &[1, 2, 3]);
    let mut d = TcpDecoder::new(10);
    d.after_read(IoOutcome::Done(17), &bytes[..17]);
    assert_eq!(d.decode(), Ok(None));
    assert_eq!(d.decode(), Ok(None));
    d.after_read(IoOutcome::Done(2), &bytes[17..]);
    assert_eq!(d.decode(), Ok(Some((ChannelId::from_bits(5), vec![1, 2, 3]))));
    assert_eq!(d.decode(), Ok(None));
}

#[test]
fn decode_waits_for_the_whole_header() {
    let mut d = TcpDecoder::new(10);
    d.after_read(IoOutcome::Done(5), &[1, 2, 3, 4, 5]);
    assert_eq!(d.decode(), Ok(None));
    let bytes = frame(7, &[3, 4, 5]);
    let mut d = TcpDecoder::new(1_000_000);
    d.after_read(IoOutcome::Done(10), &bytes[..10]);
    assert_eq!(d.decode(), Ok(None));
    assert_eq!(d.decode(), Ok(None));
    d.after_read(IoOutcome::Done(5), &bytes[10..15]);
    assert_eq!(d.decode(), Ok(None));
    d.after_read(IoOutcome::Done(4), &bytes[15..]);
    assert_eq!(d.decode(), Ok(Some((ChannelId::from_bits(7), vec![3, 4, 5]))));
    assert_eq!(d.decode(), Ok(None));
}

#[test]
fn chunked_arrival_decodes_every_message() {
    let mut bytes = frame(1, &[10]);
    bytes.extend(frame(2, &[20, 21]));
    bytes.extend(frame(3, &[]));
    for size in 1..bytes.len() + 1 {
        let mut d = TcpDecoder::new(100);
        let mut packets = Vec::new();
        for chunk in bytes.chunks(size) {
            d.after_read(IoOutcome::Done(chunk.len()), chunk);
            let (mut got, reason) = d.decode_all();
            assert_eq!(reason, None);
            packets.append(&mut got);
        }
        assert_eq!(
            packets,
            vec![
                (ChannelId::from_bits(1), vec![10]),
                (ChannelId::from_bits(2), vec![20, 21]),
                (ChannelId::from_bits(3), vec![]),
            ]
        );
    }
}

#[test]
fn decode_refuses_oversized_message() {
    let bytes = frame(3, &[1, 2]);
    let mut d = TcpDecoder::new(1);
    d.after_read(IoOutcome::Done(bytes.len()), &bytes);
    assert_eq!(
        d.decode(),
        Err(DisconnectReason::ProtocolViolation { explanation: "Packet size limit exceeded.".to_string() })
    );
}

#[test]
fn decode_all_cuts_every_message() {
    let mut bytes = frame(1, &[10]);
    bytes.extend(frame(2, &[20, 21]));
    bytes.extend(&frame(3, &[30])[..3]);
    let mut d = TcpDecoder::new(100);
    d.after_read(IoOutcome::Done(bytes.len()), &bytes);
    let (packets, reason) = d.decode_all();
    assert_eq!(packets, vec![(ChannelId::from_bits(1), vec![10]), (ChannelId::from_bits(2), vec![20, 21])]);
    assert_eq!(reason, None);
}

#[test]
fn decode_all_stops_at_oversized_message() {
    let mut bytes = frame(1, &[10]);
    bytes.extend(frame(2, &[20, 21, 22]));
    let mut d = TcpDecoder::new(2);
    d.after_read(IoOutcome::Done(bytes.len()), &bytes);
    let (packets, reason) = d.decode_all();
    assert_eq!(packets, vec![(ChannelId::from_bits(1), vec![10])]);
    assert_eq!(
        reason,
        Some(DisconnectReason::ProtocolViolation { explanation: "Packet size limit exceeded.".to_string() })
    );
}

#[test]
fn read_outcomes() {
    let mut d = TcpDecoder::new(10);
    assert_eq!(d.after_read(IoOutcome::Done(0), &[]), ReadStep::Fail(DisconnectReason::Quit));
    assert_eq!(d.after_read(IoOutcome::Interrupted, &[]), ReadStep::Retry);
    assert_eq!(d.after_read(IoOutcome::WouldBlock, &[]), ReadStep::Read(0));
    assert_eq!(
        d.after_read(IoOutcome::Failed { kind: "connection reset".to_string() }, &[]),
        ReadStep::Fail(DisconnectReason::IoError { kind: "connection reset".to_string() })
    );
    assert_eq!(d.decode(), Ok(None));
}

#[test]
fn write_outcomes() {
    let mut e = TcpEncoder::new();
    e.encode(ChannelId::from_bits(1), &[1, 2, 3, 4]);
    assert_eq!(e.after_write(IoOutcome::Done(0)), FlushStep::Fail(DisconnectReason::Quit));
    assert_eq!(e.len(), 20);
    assert_eq!(e.after_write(IoOutcome::Done(17)), FlushStep::Continue);
    assert_eq!(e.unwritten(), &[2, 3, 4][..]);
    assert_eq!(e.after_write(IoOutcome::Interrupted), FlushStep::Continue);
    assert_eq!(e.after_write(IoOutcome::WouldBlock), FlushStep::Stop);
    assert_eq!(
        e.after_write(IoOutcome::Failed { kind: "broken pipe".to_string() }),
        FlushStep::Fail(DisconnectReason::IoError { kind: "broken pipe".to_string() })
    );
    assert_eq!(e.after_write(IoOutcome::Done(3)), FlushStep::Continue);
    assert!(!e.has_remaining());
}

#[test]
fn accepted_client_queues_its_session() {
    let session = Session::from_halves(0x0807_0605_0403_0201, 0x100f_0e0d_0c0b_0a09);
    let mut c = TcpClient::accepted(session);
    assert!(c.writable);
    let mut expected = frame(0x69_420_69_420_69_420, &session.to_le_bytes());
    assert_eq!(c.encoder.unwritten(), &expected[..]);
    c.queue_exit_code(b"\"Quit\"");
    expected.extend(frame(0x420_69_420_69_420_69, b"\"Quit\""));
    assert_eq!(c.encoder.unwritten(), &expected[..]);
}

#[test]
fn flush_timing() {
    let session = Session::from_halves(1, 0);
    let mut c = TcpClient::accepted(session);
    assert!(!c.should_flush(250_000_000));
    assert!(c.should_flush(250_000_001));
    c.writable = false;
    assert!(!c.should_flush(1_000_000_000));
    c.writable = true;
    let big = vec![0u8; 1000];
    c.encoder.encode(ChannelId::from_bits(2), &big);
    assert!(c.should_flush(0));
    let n = c.encoder.len();
    c.encoder.after_write(IoOutcome::Done(n));
    assert!(!c.should_flush(1_000_000_000));
}
