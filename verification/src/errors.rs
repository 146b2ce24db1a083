//! What can go wrong in the storage engine.

use vstd::prelude::*;

verus! {

/// The failures of the storage engine.
#[derive(Clone, Copy, Debug, PartialEq, Eq, Structural)]
pub enum ErrorKind {
    /// The logical database asked for is none that this configuration has.
    DbNotExist,
    /// A store of that logical database exists already.
    DbAlreadyExist,
    /// What was read from a backing store is no valid store: a row that is
    /// no node, a row under a key that is not its content hash, a key that
    /// occurs twice, a child or a root that the store does not hold, or an
    /// epoch recorded twice.
    Corrupt,
    /// Two different nodes have the same content hash.
    HashCollision,
    /// The epoch has a root already; a recorded root is never replaced.
    EpochAlreadyCommitted,
}

} // verus!
