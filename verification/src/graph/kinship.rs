use vstd::prelude::*;

use super::origin::Origin;
use super::symbol::Symbol;

verus! {

/// The kinship check every detached carrier makes when it meets a name:
/// same family, and a position this carrier covers.
#[derive(Debug, Clone, Copy)]
pub struct Kinship {
    origin: Origin,
    length: usize,
}

impl Kinship {
    /// Returns the check of a carrier covering `length` nodes of the
    /// `origin` family.
    pub fn over(origin: Origin, length: usize) -> (kinship: Kinship)
        ensures
            kinship.family_spec() == origin,
            kinship.length_spec() == length,
    {
        Kinship { origin, length }
    }

    /// The family this carrier belongs to.
    pub closed spec fn family_spec(self) -> Origin {
        self.origin
    }

    /// How many nodes this carrier covers.
    pub closed spec fn length_spec(self) -> usize {
        self.length
    }

    /// Whether `symbol` names a node of this carrier's family.
    pub fn is_kin(&self, symbol: Symbol) -> (kin: bool)
        ensures
            kin == (symbol.origin == self.family_spec()),
    {
        symbol.origin == self.origin
    }

    /// The family half alone: `symbol` must name a node of this
    /// carrier's network; a symbol of another network is a bug at the
    /// call site.
    pub fn family(&self, symbol: Symbol)
        requires
            symbol.origin == self.family_spec(),
    {
    }

    /// Locates `symbol` under the whole check, answering its position.
    /// The symbol must belong to this family and lie within the covered
    /// length.
    pub fn locate(&self, symbol: Symbol) -> (index: usize)
        requires
            symbol.origin == self.family_spec(),
            symbol.id.0 < self.length_spec(),
        ensures
            index == symbol.id.0,
            index < self.length_spec(),
    {
        self.family(symbol);
        symbol.id.index()
    }

    /// Locates `symbol`, answering `None` when it belongs to another
    /// family or lies past the covered length.
    pub fn try_locate(&self, symbol: Symbol) -> (index: Option<usize>)
        ensures
            index is Some <==> (symbol.origin == self.family_spec() && symbol.id.0 < self.length_spec()),
            index matches Some(i) ==> i == symbol.id.0,
    {
        if self.is_kin(symbol) && symbol.id.index() < self.length {
            Some(self.locate(symbol))
        } else {
            None
        }
    }
}

} // verus!
