//! Versioned transaction handles of the surrounding computation engine.
//!
//! The engine itself (its key-value state and computation graph) is outside
//! this core; the handle is modeled by the one piece of state the public
//! operations read and advance: the version of the underlying state, plus
//! the count of changes registered since that version.

use vstd::prelude::*;

verus! {

/// A version of the key-value state underlying the computation engine.
#[derive(Clone, Copy, PartialEq, Eq, Structural, Debug, Hash)]
pub struct VersionNumber(pub u64);

/// The base handle from which computations start. Computations on a
/// transaction see the state at the version current when the transaction was
/// created; changes registered on it take effect only at `commit`.
#[derive(Clone, Copy, PartialEq, Eq, Structural, Debug)]
pub struct DiceTransaction {
    pub version: VersionNumber,
    pub pending_changes: u64,
}

/// Marker bounding `DiceEquivalent` to the types of this module.
pub trait Sealed {}

impl Sealed for DiceTransaction {}

impl Sealed for VersionNumber {}

/// Types that expose the state version by which transaction equivalence is
/// judged: two handles are equivalent when every computation made from one
/// could be shared with the other.
pub trait DiceEquivalent: Sealed {
    spec fn version_spec(&self) -> VersionNumber;

    fn version_for_equivalence(&self) -> (r: VersionNumber)
        ensures
            r == self.version_spec(),
    ;
}

impl DiceEquivalent for DiceTransaction {
    open spec fn version_spec(&self) -> VersionNumber {
        self.version
    }

    fn version_for_equivalence(&self) -> (r: VersionNumber)
        ensures
            r == self.version_spec(),
    {
        self.version
    }
}

impl DiceEquivalent for VersionNumber {
    open spec fn version_spec(&self) -> VersionNumber {
        *self
    }

    fn version_for_equivalence(&self) -> (r: VersionNumber)
        ensures
            r == self.version_spec(),
    {
        *self
    }
}

impl DiceTransaction {
    /// A fresh transaction at the given state version, with no changes
    /// registered.
    pub fn new(version: VersionNumber) -> (r: DiceTransaction)
        ensures
            r.version == version,
            r.pending_changes == 0,
    {
        DiceTransaction { version, pending_changes: 0 }
    }

    /// Registers one change, to be applied at the next commit.
    pub fn changed(&mut self)
        requires
            old(self).pending_changes < u64::MAX,
        ensures
            final(self).version == old(self).version,
            final(self).pending_changes == old(self).pending_changes + 1,
    {
        self.pending_changes = self.pending_changes + 1;
    }

    /// Commits the registered changes to the newest version: with changes
    /// pending the state moves to the next version, otherwise the version is
    /// unchanged. The returned transaction has nothing pending.
    pub fn commit(self) -> (r: DiceTransaction)
        requires
            self.version.0 < u64::MAX,
        ensures
            r.pending_changes == 0,
            self.pending_changes > 0 ==> r.version.0 == self.version.0 + 1,
            self.pending_changes == 0 ==> r.version == self.version,
    {
        if self.pending_changes > 0 {
            DiceTransaction { version: VersionNumber(self.version.0 + 1), pending_changes: 0 }
        } else {
            DiceTransaction { version: self.version, pending_changes: 0 }
        }
    }

    /// Takes the engine's state map out of the transaction for disposal.
    /// The map and its disposal live outside this model, so the visible
    /// handle comes back unchanged.
    pub fn unstable_take(self) -> (r: DiceTransaction)
        ensures
            r == self,
    {
        self
    }

    /// Whether the two handles are equivalent: based on the same underlying
    /// version of the state, so computations between them can be shared.
    pub fn equivalent<E: DiceEquivalent>(&self, other: &E) -> (r: bool)
        ensures
            r == (self.version == other.version_spec()),
    {
        self.version_for_equivalence() == other.version_for_equivalence()
    }

    /// The state version this transaction sees.
    pub fn version(&self) -> (r: VersionNumber)
        ensures
            r == self.version,
    {
        self.version
    }
}

} // verus!
