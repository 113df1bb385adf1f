use vstd::prelude::*;

verus! {

/// The errors a `LeveledHashMap` operation can report.  All of them describe
/// bad caller input; none of them leaves the structure changed, except where
/// an operation's contract says otherwise.
#[derive(Debug, Clone, Copy, PartialEq, Eq)]
pub enum LeveledHashMapError {
    /// The key chain, together with its start level, addresses a level beyond
    /// the deepest existing one (by more than the one-new-level allowance for
    /// inserts).
    KeyTooMany,
    /// The chain's lineage up to `level` was consistent, but `key` is absent
    /// from that level.
    KeyNotExist { level: usize, key: u64 },
    /// The key chain has no elements.
    KeyChainEmpty,
    /// `key` exists at `level`, but its recorded parent is `last_key`, not the
    /// preceding chain element: a cross-branch collision or a wrong chain.
    KeyChainIncorrect { level: usize, key: u64, last_key: Option<u64> },
}

} // verus!
