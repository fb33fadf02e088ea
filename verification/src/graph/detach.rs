//! Detaching recorded handles: turning proxies, and any collection of
//! them, into the names that outlive the recording phase.

use vstd::prelude::*;

use super::symbol::Symbol;
use super::tape::Value;

verus! {

/// Turns a handle, or a collection of handles, into its detached form: a
/// value becomes its [`Symbol`], what is already detached stays as it is,
/// and collections detach element by element, keeping their layout.
pub trait Detach: Sized {
    /// The detached form.
    type Detached;

    /// Whether `detached` is the detached form of `self`.
    spec fn detaches_to(&self, detached: Self::Detached) -> bool;

    /// Returns the detached form of this handle.
    fn detach(self) -> (detached: Self::Detached)
        ensures
            self.detaches_to(detached),
    ;
}

impl Detach for Value {
    type Detached = Symbol;

    /// A value detaches to the symbol of its family and position.
    open spec fn detaches_to(&self, detached: Symbol) -> bool {
        detached.origin == self.origin_spec() && detached.id.0 == self.index_spec()
    }

    fn detach(self) -> (detached: Symbol) {
        self.symbol()
    }
}

impl Detach for Symbol {
    type Detached = Symbol;

    /// A symbol is already detached.
    open spec fn detaches_to(&self, detached: Symbol) -> bool {
        detached == *self
    }

    fn detach(self) -> (detached: Symbol) {
        self
    }
}

impl Detach for () {
    type Detached = ();

    /// Nothing detaches to nothing.
    open spec fn detaches_to(&self, detached: ()) -> bool {
        true
    }

    fn detach(self) -> (detached: ()) {
    }
}

impl<T: Detach> Detach for Vec<T> {
    type Detached = Vec<T::Detached>;

    /// A vector detaches element by element, in order.
    open spec fn detaches_to(&self, detached: Vec<T::Detached>) -> bool {
        &&& detached@.len() == self@.len()
        &&& forall|k: int| 0 <= k < self@.len() ==> #[trigger] self@[k].detaches_to(detached@[k])
    }

    fn detach(self) -> (detached: Vec<T::Detached>) {
        let ghost items = self@;
        let mut rest = self;
        let mut reversed: Vec<T> = Vec::new();
        while rest.len() > 0
            invariant
                rest@.len() + reversed@.len() == items.len(),
                rest@ == items.subrange(0, rest@.len() as int),
                forall|k: int| 0 <= k < reversed@.len() ==> #[trigger] reversed@[k] == items[items.len() - 1 - k],
            decreases rest@.len(),
        {
            let item = rest.pop().unwrap();
            reversed.push(item);
        }
        let mut detached: Vec<T::Detached> = Vec::new();
        while reversed.len() > 0
            invariant
                reversed@.len() + detached@.len() == items.len(),
                forall|k: int| 0 <= k < reversed@.len() ==> #[trigger] reversed@[k] == items[items.len() - 1 - k],
                forall|k: int| 0 <= k < detached@.len() ==> #[trigger] items[k].detaches_to(detached@[k]),
            decreases reversed@.len(),
        {
            let item = reversed.pop().unwrap();
            detached.push(item.detach());
        }
        detached
    }
}

impl<A: Detach, B: Detach> Detach for (A, B) {
    type Detached = (A::Detached, B::Detached);

    /// A pair detaches part by part.
    open spec fn detaches_to(&self, detached: (A::Detached, B::Detached)) -> bool {
        self.0.detaches_to(detached.0) && self.1.detaches_to(detached.1)
    }

    fn detach(self) -> (detached: (A::Detached, B::Detached)) {
        let (first, second) = self;
        (first.detach(), second.detach())
    }
}

impl<A: Detach, B: Detach, C: Detach> Detach for (A, B, C) {
    type Detached = (A::Detached, B::Detached, C::Detached);

    /// A triple detaches part by part.
    open spec fn detaches_to(&self, detached: (A::Detached, B::Detached, C::Detached)) -> bool {
        self.0.detaches_to(detached.0) && self.1.detaches_to(detached.1) && self.2.detaches_to(detached.2)
    }

    fn detach(self) -> (detached: (A::Detached, B::Detached, C::Detached)) {
        let (first, second, third) = self;
        (first.detach(), second.detach(), third.detach())
    }
}

impl<A: Detach, B: Detach, C: Detach, D: Detach> Detach for (A, B, C, D) {
    type Detached = (A::Detached, B::Detached, C::Detached, D::Detached);

    /// A quadruple detaches part by part.
    open spec fn detaches_to(&self, detached: (A::Detached, B::Detached, C::Detached, D::Detached)) -> bool {
        &&& self.0.detaches_to(detached.0)
        &&& self.1.detaches_to(detached.1)
        &&& self.2.detaches_to(detached.2)
        &&& self.3.detaches_to(detached.3)
    }

    fn detach(self) -> (detached: (A::Detached, B::Detached, C::Detached, D::Detached)) {
        let (first, second, third, fourth) = self;
        (first.detach(), second.detach(), third.detach(), fourth.detach())
    }
}

} // verus!
