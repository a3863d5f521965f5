use bevy_badnet::channel::ChannelId;
use bevy_badnet::session::Session;
use bevy_badnet::version::Version;

#[test]
fn session_from_halves_places_upper_half_high() {
    let s = Session::from_halves(1, 2);
    let bytes = s.to_le_bytes();
    assert_eq!(bytes, [1, 0, 0, 0, 0, 0, 0, 0, 2, 0, 0, 0, 0, 0, 0, 0]);
}

#[test]
fn session_bytes_roundtrip_on_values() {
    let s = Session::from_halves(0xdead_beef_0102_0304, 0xffff_0000_1234_5678);
    assert_eq!(Session::from_le_bytes(s.to_le_bytes()), s);
    let bytes = [7u8, 200, 3, 0, 255, 1, 2, 3, 4, 5, 6, 7, 8, 9, 10, 11];
    assert_eq!(Session::from_le_bytes(bytes).to_le_bytes(), bytes);
}

#[test]
fn session_bytes_are_little_endian() {
    let bytes = [0x34u8, 0x12, 0, 0, 0, 0, 0, 0, 0, 0, 0, 0, 0, 0, 0, 0];
    assert_eq!(Session::from_le_bytes(bytes), Session::from_halves(0x1234, 0));
    let top = [0u8, 0, 0, 0, 0, 0, 0, 0, 0, 0, 0, 0, 0, 0, 0, 0x80];
    assert_eq!(Session::from_le_bytes(top), Session::from_halves(0, 0x8000_0000_0000_0000));
}

#[test]
fn random_sessions_differ() {
    let a = Session::new().expect("random source");
    let b = Session::new().expect("random source");
    assert_ne!(a, b);
}

#[test]
fn version_take_returns_current_and_advances() {
    let mut v = Version::from_bits(5);
    let taken = v.take();
    assert_eq!(taken.to_bits(), 5);
    assert_eq!(v.to_bits(), 6);
    assert!(v.is_newer_than(taken));
    assert!(!taken.is_newer_than(v));
    assert!(!v.is_newer_than(v));
}

#[test]
fn version_constants() {
    assert_eq!(Version::zero().to_bits(), 0);
    assert_eq!(Version::one().to_bits(), 1);
    assert!(Version::one().is_newer_than(Version::zero()));
}

#[test]
fn channel_from_str_is_seeded_xxh64() {
    let expected = xxhash_rust::const_xxh64::xxh64(b"my_crate::Position", 0x9e3779b97f4a7c15);
    assert_eq!(ChannelId::from_str("my_crate::Position").to_bits(), expected);
    assert_ne!(ChannelId::from_str("a").to_bits(), ChannelId::from_str("b").to_bits());
    assert_ne!(ChannelId::from_str("").to_bits(), 0);
}

#[test]
fn channel_constants() {
    assert_eq!(ChannelId::exit_code().to_bits(), 0x420_69_420_69_420_69);
    assert_eq!(ChannelId::session_assignment().to_bits(), 0x69_420_69_420_69_420);
    assert_eq!(ChannelId::from_bits(17), ChannelId::from_bits(17));
}
