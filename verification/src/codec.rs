//! The traits by which a synchronized component is turned into bytes and back.
//! Users implement them for their own codecs; nothing here is claimed of what an
//! implementation returns.
use vstd::prelude::*;

verus! {

/// Turns a component into the bytes that are sent for it.
pub trait Encoder<T>: Default + Send + Sync + 'static {
    fn encode(&mut self, item: &T) -> &[u8];
}

/// Turns received bytes back into a component.
pub trait Decoder<T>: Default + Send + Sync + 'static {
    type Error: core::fmt::Debug;

    fn decode(&mut self, buf: &[u8]) -> Result<T, Self::Error>;
}

} // verus!
