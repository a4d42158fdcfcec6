use vstd::prelude::*;

verus! {

/// The broker-local identity of a logical peer, stable across reconnects.
#[derive(Clone, Copy, Debug, PartialEq, Eq, Structural, Hash)]
pub struct ConnectionID(pub u32);

} // verus!
