//! Trait-based dispatch used by generated static graphs to move payloads
//! between endpoints.
use vstd::prelude::*;

verus! {

/// Moves the payload of endpoint `Src` into endpoint `Dst`; the
/// implementation is picked by the endpoint types.
pub trait ConnectEndpoints<Src, Dst> {
    fn connect(src: &Src, dst: &mut Dst);
}

/// Reference to value: the destination takes the referenced payload.
impl<T: Copy> ConnectEndpoints<&T, T> for () {
    fn connect(src: &&T, dst: &mut T)
        ensures
            *final(dst) == **src,
    {
        *dst = **src;
    }
}

/// Reads the effective payload of a value endpoint, whatever its storage.
pub trait ReadValueEndpoint {
    type Value;

    fn read_value(&self) -> Self::Value;
}

/// Adds one more source into a destination that an earlier `connect`
/// initialised (fan-in): streams sum, event queues append.
pub trait AccumulateEndpoints<Src, Dst> {
    fn accumulate(src: &Src, dst: &mut Dst);
}

} // verus!
