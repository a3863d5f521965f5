//! Sessions: the 128-bit numbers that name a connection on both ends.
use vstd::prelude::*;

use crate::wire::{byte_span, le_bytes, le_value, lemma_le_bytes_len, lemma_le_bytes_of_value, lemma_le_value_of_bytes, push_le, read_le};

verus! {

#[verifier::external_type_specification]
#[verifier::external_body]
pub struct ExRandomError(getrandom::Error);

/// Draws a `u64` from the operating system's random source with `getrandom::u64`.
/// The value is chance: nothing is claimed of it, nor of when the call fails.
#[verifier::external_body]
fn random_u64() -> (res: Result<u64, getrandom::Error>) {
    getrandom::u64()
}

/// A 128-bit random number that uniquely identifies a connection.
#[derive(Copy, Clone, Debug, Hash, PartialEq, Eq, PartialOrd, Ord, Structural)]
pub struct Session(u128);

impl View for Session {
    type V = u128;

    closed spec fn view(&self) -> u128 {
        self.0
    }
}

/// `2^64`, the weight of the upper half of a session.
pub open spec fn half_span() -> int {
    0x1_0000_0000_0000_0000
}

impl Session {
    /// A fresh session made of two random `u64` halves, the lower drawn first.
    /// `None` when the random source fails.
    pub fn new() -> (res: Option<Session>) {
        let lower = match random_u64() {
            Ok(v) => v,
            Err(_) => {
                return None;
            },
        };
        let upper = match random_u64() {
            Ok(v) => v,
            Err(_) => {
                return None;
            },
        };
        Some(Session::from_halves(lower, upper))
    }

    /// The session numbered `bits`.
    pub(crate) fn from_bits(bits: u128) -> (s: Session)
        ensures
            s@ == bits,
    {
        Session(bits)
    }

    /// The number of this session.
    pub(crate) fn to_bits(self) -> (bits: u128)
        ensures
            bits == self@,
    {
        self.0
    }

    /// The session whose lower 64 bits are `lower` and whose upper 64 bits are `upper`.
    pub fn from_halves(lower: u64, upper: u64) -> (s: Session)
        ensures
            s@ == lower + upper * half_span(),
    {
        let l = lower as u128;
        let u = upper as u128;
        let v = l | (u << 64u32);
        assert(l | (u << 64u32) == l + u * 0x1_0000_0000_0000_0000u128) by (bit_vector)
            requires
                l <= 0xffff_ffff_ffff_ffffu128,
                u <= 0xffff_ffff_ffff_ffffu128,
        ;
        Session(v)
    }

    /// The session's 16 bytes, least significant first.
    pub fn to_le_bytes(self) -> (b: [u8; 16])
        ensures
            b@ == le_bytes(self@ as nat, 16),
    {
        let mut v: Vec<u8> = Vec::new();
        push_le(&mut v, self.0, 16);
        proof {
            lemma_le_bytes_len(self.0 as nat, 16);
        }
        let mut out = [0u8; 16];
        let mut i: usize = 0;
        while i < 16
            invariant
                i <= 16,
                v@ == le_bytes(self@ as nat, 16),
                v@.len() == 16,
                forall|j: int| 0 <= j < i ==> out@[j] == v@[j],
            decreases 16 - i,
        {
            out[i] = v[i];
            i = i + 1;
        }
        assert(out@ =~= v@);
        out
    }

    /// The session whose 16 bytes, least significant first, are `bytes`.
    pub fn from_le_bytes(bytes: [u8; 16]) -> (s: Session)
        ensures
            s@ as nat == le_value(bytes@),
    {
        let r = read_le(bytes.as_slice(), 0, 16);
        assert(bytes@.subrange(0, 16) =~= bytes@);
        Session(r)
    }
}

/// Two sessions with the same number are the same session.
pub proof fn session_number_determines_session(a: Session, b: Session)
    requires
        a@ == b@,
    ensures
        a == b,
{
}

/// A session written with `to_le_bytes` is read back by `from_le_bytes`.
pub proof fn session_bytes_roundtrip(s: Session)
    ensures
        le_value(le_bytes(s@ as nat, 16)) == s@,
{
    reveal_with_fuel(byte_span, 17);
    lemma_le_value_of_bytes(s@ as nat, 16);
}

/// Any 16 bytes read by `from_le_bytes` are written back unchanged by `to_le_bytes`.
pub proof fn session_number_roundtrip(bytes: Seq<u8>)
    requires
        bytes.len() == 16,
    ensures
        le_bytes(le_value(bytes), 16) == bytes,
{
    lemma_le_bytes_of_value(bytes);
}

} // verus!
