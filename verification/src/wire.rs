//! Little-endian integers on the wire: the byte layout that every frame of this
//! library is built from, with the functions that write and read it.
use vstd::prelude::*;

verus! {

/// `256` raised to the power `n`: the number of values that `n` bytes can hold.
pub open spec fn byte_span(n: nat) -> nat
    decreases n,
{
    if n == 0 {
        1
    } else {
        256 * byte_span((n - 1) as nat)
    }
}

/// The `n` least significant bytes of `x`, least significant first.
pub open spec fn le_bytes(x: nat, n: nat) -> Seq<u8>
    decreases n,
{
    if n == 0 {
        Seq::empty()
    } else {
        seq![(x % 256) as u8] + le_bytes(x / 256, (n - 1) as nat)
    }
}

/// The number that the bytes `s` encode, least significant byte first.
pub open spec fn le_value(s: Seq<u8>) -> nat
    decreases s.len(),
{
    if s.len() == 0 {
        0
    } else {
        s[0] as nat + 256 * le_value(s.drop_first())
    }
}

/// The number stored in the `n` bytes of `s` that begin at `start`.
pub open spec fn le_field(s: Seq<u8>, start: int, n: int) -> nat {
    le_value(s.subrange(start, start + n))
}

pub proof fn lemma_le_bytes_len(x: nat, n: nat)
    ensures
        le_bytes(x, n).len() == n,
    decreases n,
{
    if n > 0 {
        lemma_le_bytes_len(x / 256, (n - 1) as nat);
    }
}

pub proof fn lemma_byte_span_positive(n: nat)
    ensures
        byte_span(n) >= 1,
    decreases n,
{
    if n > 0 {
        lemma_byte_span_positive((n - 1) as nat);
    }
}

pub proof fn lemma_byte_span_monotonic(m: nat, n: nat)
    requires
        m <= n,
    ensures
        byte_span(m) <= byte_span(n),
    decreases n,
{
    if m < n {
        lemma_byte_span_monotonic(m, (n - 1) as nat);
        lemma_byte_span_positive((n - 1) as nat);
    }
}

/// The bytes of a number read back as that number.
pub proof fn lemma_le_value_of_bytes(x: nat, n: nat)
    requires
        x < byte_span(n),
    ensures
        le_value(le_bytes(x, n)) == x,
    decreases n,
{
    if n > 0 {
        let rest = le_bytes(x / 256, (n - 1) as nat);
        lemma_le_value_of_bytes(x / 256, (n - 1) as nat);
        assert((seq![(x % 256) as u8] + rest).drop_first() =~= rest);
    }
}

/// A number read from bytes never exceeds what that many bytes can hold.
pub proof fn lemma_le_value_bound(s: Seq<u8>)
    ensures
        le_value(s) < byte_span(s.len()),
    decreases s.len(),
{
    if s.len() > 0 {
        lemma_le_value_bound(s.drop_first());
    }
}

/// Writing back the number read from bytes gives the same bytes.
pub proof fn lemma_le_bytes_of_value(s: Seq<u8>)
    ensures
        le_bytes(le_value(s), s.len()) == s,
    decreases s.len(),
{
    if s.len() > 0 {
        let v = le_value(s);
        let r = le_value(s.drop_first());
        assert(v == s[0] as nat + 256 * r);
        assert(v % 256 == s[0] as nat);
        assert(v / 256 == r);
        lemma_le_bytes_of_value(s.drop_first());
        assert(le_bytes(v, s.len()) =~= s);
    }
}

/// Appends the `n` least significant bytes of `x` to `buf`, least significant first.
pub fn push_le(buf: &mut Vec<u8>, x: u128, n: usize)
    ensures
        final(buf)@ == old(buf)@ + le_bytes(x as nat, n as nat),
{
    let mut v: u128 = x;
    let mut i: usize = 0;
    while i < n
        invariant
            i <= n,
            old(buf)@ + le_bytes(x as nat, n as nat) =~= buf@ + le_bytes(v as nat, (n - i) as nat),
        decreases n - i,
    {
        let ghost before = buf@;
        let ghost k = (n - i) as nat;
        let ghost w = v as nat;
        buf.push((v % 256) as u8);
        v = v / 256;
        i = i + 1;
        proof {
            assert(le_bytes(w, k) == seq![(w % 256) as u8] + le_bytes(w / 256, (k - 1) as nat));
            assert(before + le_bytes(w, k) =~= buf@ + le_bytes(v as nat, (n - i) as nat));
        }
    }
    assert(le_bytes(v as nat, 0) =~= Seq::<u8>::empty());
}

} // verus!

verus! {

/// Reads the number stored in the `n` bytes of `s` that begin at `start`,
/// least significant byte first.
pub fn read_le(s: &[u8], start: usize, n: usize) -> (r: u128)
    requires
        start + n <= s@.len(),
        n <= 16,
    ensures
        r as nat == le_field(s@, start as int, n as int),
        (r as nat) < byte_span(n as nat),
{
    let mut v: u128 = 0;
    let mut i: usize = n;
    let len: usize = s.len();
    proof {
        assert(s@.subrange(start + n, start + n) =~= Seq::<u8>::empty());
        reveal_with_fuel(byte_span, 17);
    }
    while i > 0
        invariant
            i <= n <= 16,
            start + n <= s@.len(),
            len == s@.len(),
            v as nat == le_value(s@.subrange(start + i, start + n)),
            (v as nat) < byte_span((n - i) as nat),
            byte_span(16) == 0x1_0000_0000_0000_0000_0000_0000_0000_0000,
        decreases i,
    {
        let ghost old_v = v as nat;
        i = i - 1;
        proof {
            lemma_byte_span_monotonic((n - i - 1) as nat, 15);
            assert(byte_span(16) == 256 * byte_span(15));
            assert(s@.subrange(start + i, start + n).drop_first() =~= s@.subrange(
                start + i + 1,
                start + n,
            ));
        }
        let b: u8 = s[start + i];
        v = v * 256;
        v = v + b as u128;
        proof {
            assert(byte_span((n - i) as nat) == 256 * byte_span((n - i - 1) as nat));
        }
    }
    v
}

} // verus!
