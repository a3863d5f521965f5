//! Channels: the 64-bit identifiers that tag every message with its kind.
use vstd::prelude::*;
use vstd::string::StringSliceAdditionalSpecFns;

verus! {

/// What `xxhash_rust::const_xxh64::xxh64` returns for `input` and `seed`.
pub uninterp spec fn xxh64_digest(input: Seq<u8>, seed: u64) -> u64;

/// Hashes `input` with `xxhash_rust::const_xxh64::xxh64` under `seed`.
/// The result is named, not described: it equals `xxh64_digest` of the bytes and the seed.
#[verifier::external_body]
fn xxh64(input: &[u8], seed: u64) -> (res: u64)
    ensures
        res == xxh64_digest(input@, seed),
{
    xxhash_rust::const_xxh64::xxh64(input, seed)
}

/// The seed under which channel names are hashed.
pub const CHANNEL_SEED: u64 = 0x9e3779b97f4a7c15u64;

/// The channel on which a closing side sends its reason for disconnecting.
pub const EXIT_CODE_BITS: u64 = 0x420_69_420_69_420_69u64;

/// The channel on which a server tells a client its session.
pub const SESSION_ASSIGNMENT_BITS: u64 = 0x69_420_69_420_69_420u64;

/// A unique identifier for a channel.
#[derive(Copy, Clone, Debug, Hash, PartialEq, Eq, PartialOrd, Ord, Structural)]
pub struct ChannelId(pub(crate) u64);

impl View for ChannelId {
    type V = u64;

    closed spec fn view(&self) -> u64 {
        self.0
    }
}

impl ChannelId {
    /// The channel that carries a disconnection reason.
    pub fn exit_code() -> (c: ChannelId)
        ensures
            c@ == EXIT_CODE_BITS,
    {
        ChannelId(EXIT_CODE_BITS)
    }

    /// The channel that carries a session assignment.
    pub fn session_assignment() -> (c: ChannelId)
        ensures
            c@ == SESSION_ASSIGNMENT_BITS,
    {
        ChannelId(SESSION_ASSIGNMENT_BITS)
    }

    /// The channel named `s`: the xxh64 hash of its UTF-8 bytes under `CHANNEL_SEED`.
    pub fn from_str(s: &str) -> (c: ChannelId)
        ensures
            c@ == xxh64_digest(s.spec_bytes(), CHANNEL_SEED),
    {
        ChannelId(xxh64(s.as_bytes(), CHANNEL_SEED))
    }

    /// The channel whose identifier is `bits`.
    pub fn from_bits(bits: u64) -> (c: ChannelId)
        ensures
            c@ == bits,
    {
        ChannelId(bits)
    }

    /// The identifier of this channel.
    pub fn to_bits(self) -> (bits: u64)
        ensures
            bits == self@,
    {
        self.0
    }
}

/// Two channels with the same identifier are the same channel.
pub proof fn channel_bits_determine_channel(a: ChannelId, b: ChannelId)
    requires
        a@ == b@,
    ensures
        a == b,
{
}

} // verus!
