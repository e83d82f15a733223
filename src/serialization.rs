use vstd::prelude::*;

use crate::errors::FixSerializeError;

verus! {

/// A type that can write itself as FIX wire bytes.
pub trait FixDeserializeModel {
    fn deserialize_fix(&self) -> Vec<u8>;
}

/// A type that can be read from FIX wire bytes.
pub trait FixSerializeModel: Sized {
    fn serialize_fix(payload: &[u8]) -> Result<Self, FixSerializeError>;
}

} // verus!
