//! Versions: the counters that order the successive updates of a synchronized entity.
use vstd::prelude::*;

verus! {

/// A counter that orders the successive states of a synchronized entity.
#[derive(Copy, Clone, Debug, Hash, Default, PartialEq, Eq, PartialOrd, Ord, Structural)]
pub struct Version(pub(crate) u32);

impl View for Version {
    type V = u32;

    closed spec fn view(&self) -> u32 {
        self.0
    }
}

impl Version {
    /// The version of an entity that no update has reached yet.
    pub fn zero() -> (v: Version)
        ensures
            v@ == 0,
    {
        Version(0)
    }

    /// The first version that a synchronized entity sends.
    pub fn one() -> (v: Version)
        ensures
            v@ == 1,
    {
        Version(1)
    }

    /// Returns the current version and advances `self` to the next one.
    pub fn take(&mut self) -> (ret: Version)
        requires
            old(self)@ < u32::MAX,
        ensures
            ret == *old(self),
            final(self)@ == old(self)@ + 1,
    {
        let ret = *self;
        self.0 = self.0 + 1;
        ret
    }

    pub fn from_bits(bits: u32) -> (v: Version)
        ensures
            v@ == bits,
    {
        Version(bits)
    }

    pub fn to_bits(self) -> (bits: u32)
        ensures
            bits == self@,
    {
        self.0
    }

    /// True when `self` comes strictly after `other`.
    pub fn is_newer_than(self, other: Version) -> (b: bool)
        ensures
            b == (self@ > other@),
    {
        self.0 > other.0
    }
}

/// `is_newer_than` is a strict order: no version is newer than itself,
/// and it chains.
pub proof fn newer_is_strict_order(a: Version, b: Version, c: Version)
    ensures
        !(a@ > a@),
        (a@ > b@ && b@ > c@) ==> a@ > c@,
        (a@ > b@) ==> !(b@ > a@),
{
}

/// A version is determined by its bits, so `from_bits` and `to_bits` undo each other.
pub proof fn version_bits_determine_version(v: Version, w: Version)
    requires
        v@ == w@,
    ensures
        v == w,
{
}

} // verus!
