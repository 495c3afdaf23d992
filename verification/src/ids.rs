//! Identifiers for nodes and layers: opaque, unique within their owning
//! container, which assigns them from a private counter and never reuses
//! one.

use vstd::prelude::*;
use crate::textfmt::{dec_digits, u64_to_dec};

verus! {

/// The identity of a node, stable from the moment its graph admits it.
#[derive(Clone, Copy, Debug, PartialEq, Eq, Hash, Structural, PartialOrd, Ord)]
pub struct NodeId(pub u64);

impl NodeId {
    /// The decimal rendering of the identifier.
    pub fn to_string(&self) -> (s: String)
        ensures
            s@ == dec_digits(self.0 as int),
    {
        u64_to_dec(self.0)
    }
}

/// The identity of a layer, stable from the moment its document admits it.
#[derive(Clone, Copy, Debug, PartialEq, Eq, Hash, Structural, PartialOrd, Ord)]
pub struct LayerId(pub u64);

impl LayerId {
    /// The decimal rendering of the identifier.
    pub fn to_string(&self) -> (s: String)
        ensures
            s@ == dec_digits(self.0 as int),
    {
        u64_to_dec(self.0)
    }
}

} // verus!
