use vstd::prelude::*;

verus! {

/// An opaque token identifying one tape-network family.
///
/// A tape takes its origin at creation and the conversions between a
/// tape and its sealed network carry it forward, so every phase of one
/// linear history shares one origin; same-origin checks are plain
/// equality. Being a `Copy` integer, it rides inside every symbol
/// without costing `Copy`.
///
/// Minting a process-globally fresh origin takes a process-wide
/// counter; the library takes the minted token as a value.
#[derive(Debug, Clone, Copy, PartialEq, Eq, Hash, Structural)]
pub struct Origin(u64);

impl Origin {
    /// Wraps a minted family token.
    pub fn from_token(token: u64) -> (origin: Origin)
        ensures
            origin.token() == token,
    {
        Origin(token)
    }

    /// The family token.
    pub closed spec fn token(self) -> u64 {
        self.0
    }

    /// Returns the family token.
    pub fn value(self) -> (token: u64)
        ensures
            token == self.token(),
    {
        self.0
    }
}

} // verus!
