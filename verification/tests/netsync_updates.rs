use bevy_badnet::channel::ChannelId;
use bevy_badnet::netsync::{can_unpack, split_update_header, ComponentSync, LocalEntity, RemoteEntity, SyncEntityId};
use bevy_badnet::version::Version;

fn entry(channel: u64, data: &[u8]) -> Vec<u8> {
    let mut v = channel.to_le_bytes().to_vec();
    v.extend_from_slice(&(data.len() as u16).to_le_bytes());
    v.extend_from_slice(data);
    v
}

#[test]
fn local_entity_fills_and_restarts_updates() {
    let mut e = LocalEntity::new(SyncEntityId::from_bits(7));
    assert_eq!(e.id(), SyncEntityId::from_bits(7));
    assert_eq!(e.get_send_buffer(), &[7, 0, 0, 0, 1, 0, 0, 0][..]);
    e.encode(ChannelId::from_bits(0x1_0005), &[1, 2, 3]);
    assert_eq!(e.get_send_buffer(), &[7, 0, 0, 0, 1, 0, 0, 0, 5, 0, 3, 0, 1, 2, 3][..]);
    e.clear();
    assert_eq!(e.get_send_buffer(), &[7, 0, 0, 0, 2, 0, 0, 0][..]);
    e.clear();
    assert_eq!(e.get_send_buffer(), &[7, 0, 0, 0, 3, 0, 0, 0][..]);
}

#[test]
fn update_header_is_read_back() {
    let mut e = LocalEntity::new(SyncEntityId::from_bits(0x0102_0304));
    e.encode(ChannelId::from_bits(9), &[42]);
    let (id, version, rest) = split_update_header(e.get_send_buffer()).expect("header present");
    assert_eq!(id, SyncEntityId::from_bits(0x0102_0304));
    assert_eq!(version, Version::from_bits(1));
    assert_eq!(rest, &[9, 0, 1, 0, 42][..]);
    assert!(split_update_header(&[1, 2, 3, 4, 5, 6, 7]).is_none());
}

#[test]
fn remote_entity_takes_latest_update() {
    let mut r = RemoteEntity::new(SyncEntityId::from_bits(3), 10);
    assert_eq!(r.id(), SyncEntityId::from_bits(3));
    assert_eq!(r.version(), Version::from_bits(0));
    assert_eq!(r.last_update_tick(), 10);
    let mut buf = entry(9, &[4, 5]);
    buf.extend(entry(11, &[]));
    buf.extend(entry(9, &[6]));
    assert!(can_unpack(&buf));
    r.unpack_component_updates(&buf, 12, Version::from_bits(4));
    assert_eq!(r.version(), Version::from_bits(4));
    assert_eq!(r.last_update_tick(), 12);
    assert_eq!(r.get_update(ChannelId::from_bits(9)), Some(&vec![6]));
    assert_eq!(r.get_update(ChannelId::from_bits(11)), Some(&vec![]));
    assert_eq!(r.get_update(ChannelId::from_bits(1)), None);
    r.unpack_component_updates(&entry(1, &[8]), 13, Version::from_bits(5));
    assert_eq!(r.get_update(ChannelId::from_bits(9)), None);
    assert_eq!(r.get_update(ChannelId::from_bits(1)), Some(&vec![8]));
}

#[test]
fn unpack_stops_at_a_short_entry() {
    let mut buf = entry(2, &[1]);
    let mut cut = entry(3, &[1, 2, 3]);
    cut.truncate(11);
    buf.extend(cut);
    assert!(can_unpack(&buf));
    let mut r = RemoteEntity::new(SyncEntityId::from_bits(1), 0);
    r.unpack_component_updates(&buf, 1, Version::from_bits(1));
    assert_eq!(r.get_update(ChannelId::from_bits(2)), Some(&vec![1]));
    assert_eq!(r.get_update(ChannelId::from_bits(3)), None);
}

#[test]
fn unpack_refuses_a_tail_shorter_than_a_header() {
    assert!(can_unpack(&[1, 2, 3]));
    assert!(!can_unpack(&[1, 2, 3, 4, 5]));
    let mut buf = entry(2, &[1]);
    buf.extend_from_slice(&[0, 0, 0, 0, 0, 0]);
    assert!(!can_unpack(&buf));
}

#[test]
fn updates_count_since_the_last_run() {
    let r = RemoteEntity::new(SyncEntityId::from_bits(1), 12);
    assert!(r.updated_since(11, 13));
    assert!(!r.updated_since(12, 13));
    assert!(!r.updated_since(13, 14));
    // ages are counted modulo 2^32 from the current run
    let w = RemoteEntity::new(SyncEntityId::from_bits(1), 0);
    assert!(w.updated_since(u32::MAX, 2));
    assert!(!w.updated_since(1, 2));
    // ages beyond the cap are all alike
    let old = RemoteEntity::new(SyncEntityId::from_bits(1), 100);
    assert!(!old.updated_since(0, 3_600_000_000));
    assert!(old.updated_since(0, 3_000_000_000));
}

#[test]
fn component_sync_decodes_removes_or_leaves() {
    let mut r = RemoteEntity::new(SyncEntityId::from_bits(1), 5);
    r.unpack_component_updates(&entry(9, &[4, 5]), 20, Version::from_bits(1));
    let nine = ChannelId::from_bits(9);
    let ten = ChannelId::from_bits(10);
    assert!(matches!(r.component_sync(nine, 19, 21, false), ComponentSync::Decode(d) if d == &vec![4, 5]));
    assert!(matches!(r.component_sync(nine, 19, 21, true), ComponentSync::Decode(_)));
    assert!(matches!(r.component_sync(ten, 19, 21, true), ComponentSync::Remove));
    assert!(matches!(r.component_sync(ten, 19, 21, false), ComponentSync::Unchanged));
    assert!(matches!(r.component_sync(nine, 20, 21, true), ComponentSync::Unchanged));
    assert!(matches!(r.component_sync(ten, 20, 21, true), ComponentSync::Unchanged));
}

#[test]
fn stale_updates_are_dropped() {
    let mut r = RemoteEntity::new(SyncEntityId::from_bits(2), 1);
    assert!(r.take_update(&entry(9, &[1]), 5, Version::from_bits(3)));
    assert_eq!(r.version(), Version::from_bits(3));
    assert_eq!(r.last_update_tick(), 5);
    assert!(!r.take_update(&entry(9, &[2]), 6, Version::from_bits(3)));
    assert!(!r.take_update(&entry(9, &[3]), 7, Version::from_bits(2)));
    assert_eq!(r.get_update(ChannelId::from_bits(9)), Some(&vec![1]));
    assert_eq!(r.last_update_tick(), 5);
    assert!(r.take_update(&entry(9, &[4]), 8, Version::from_bits(4)));
    assert_eq!(r.get_update(ChannelId::from_bits(9)), Some(&vec![4]));
}

#[test]
fn sent_entry_is_read_with_an_eight_byte_channel() {
    // the sender writes a two-byte channel, the receiver reads eight bytes
    let mut e = LocalEntity::new(SyncEntityId::from_bits(4));
    e.encode(ChannelId::from_bits(5), &[0, 0, 0, 0, 0, 0]);
    let (id, version, rest) = split_update_header(e.get_send_buffer()).expect("header present");
    assert_eq!(rest, &[5, 0, 6, 0, 0, 0, 0, 0, 0, 0][..]);
    assert!(can_unpack(rest));
    let mut r = RemoteEntity::new(id, 0);
    assert!(r.take_update(rest, 1, version));
    assert_eq!(r.get_update(ChannelId::from_bits(5)), None);
    assert_eq!(r.get_update(ChannelId::from_bits(393221)), Some(&vec![]));
}
