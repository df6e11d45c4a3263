//! The sharded store: entity capabilities, the merge-resolver strategy, and
//! the embedded-engine-backed store itself.

pub mod entities;
pub mod errors;
pub mod sled;

use crate::storage::errors::Data;
use vstd::prelude::*;

verus! {

/// An entity that can be written to storage as an opaque byte payload.
pub trait ToStorage: Sized {
    /// The byte payload this entity is stored as.
    spec fn spec_bytes(&self) -> Seq<u8>;

    fn to_bytes(&self) -> (r: Vec<u8>)
        ensures
            r@ == self.spec_bytes(),
    ;
}

/// An entity that can be read back from its stored byte payload.
pub trait FromStorage: Sized {
    /// Total decoding function: `None` stands for corrupt or incompatible
    /// bytes.
    spec fn spec_decode(b: Seq<u8>) -> Option<Self>;

    fn from_bytes(input: &[u8]) -> (r: Result<Self, Data>)
        ensures
            match r {
                Ok(t) => Self::spec_decode(input@) == Some(t),
                Err(e) => Self::spec_decode(input@) is None && e is Serialization,
            },
    ;
}

/// A storable entity: it also knows the partition its shard is chosen by and
/// the primary key it is addressed with inside that shard.
pub trait ToFromStorage: ToStorage + FromStorage + Copy {
    /// The partition number; the store picks the shard as
    /// `partition mod shard_count`.
    spec fn spec_partition(&self) -> int;

    /// The primary key within the shard.
    spec fn spec_key(&self) -> Seq<char>;

    fn partition(&self) -> (r: usize)
        ensures
            r as int == self.spec_partition(),
    ;

    fn primary_key(&self) -> (r: String)
        ensures
            r@ == self.spec_key(),
    ;
}

/// The strategy the store runs when a `create_or_update` finds an existing
/// entity under the incoming entity's key: a pure function from the stored
/// and the incoming entity to the merged one, or to a domain error. Being
/// pure, it is always safe to re-issue after a lost compare-and-swap race.
pub trait MergeResolver<T> {
    /// What the merge returns, as a total function.
    spec fn spec_merge(old: T, new: T) -> Result<T, Data>;

    fn merge(old: &T, new: &T) -> (r: Result<T, Data>)
        ensures
            r == Self::spec_merge(*old, *new),
    ;
}

} // verus!
