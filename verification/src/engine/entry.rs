use vstd::prelude::*;

use crate::graph::network::Network;
use crate::graph::symbol::Symbol;

verus! {

/// The numerics posture a plan's runs execute under.
#[derive(Debug, Clone, Copy, PartialEq, Eq, Structural)]
pub enum Numerics {
    /// Engages the compiled backend chain above its cost thresholds: the
    /// default.
    Fast,
    /// Makes the backend chain decline every task, so runs compute on the
    /// built-in reference paths, bit-identical in every build.
    Exact,
}

/// A function exported from a network: the declared reading -- roots,
/// observes, memory posture, numerics -- that every executor takes.
///
/// The entry names its roots (what must be computed; no root is
/// special), the extra interior values to observe (readable after a
/// run, alongside the roots), and whether run buffers support the
/// engine reverse scan. An entry never touches the graph, so it is
/// cheap and re-runnable; its roots and observes are symbols, valid
/// across reopens.
#[derive(Debug, Clone)]
pub struct Entry {
    /// The closure sources a run must compute; every root is readable
    /// after a run.
    pub roots: Vec<Symbol>,
    /// The interior values the caller also declared readable, alongside
    /// the roots.
    pub observe: Vec<Symbol>,
    /// Whether run buffers retain what the engine reverse scan reads.
    pub backward: bool,
    /// The numerics posture the entry's runs execute under.
    pub numerics: Numerics,
}

impl Entry {
    /// Opens a request over `roots`, the closure sources a run must
    /// compute; every root is readable after a run. It observes nothing
    /// more, is forward-only, and runs under [`Numerics::Fast`].
    pub fn roots(roots: Vec<Symbol>) -> (entry: Entry)
        ensures
            entry.roots@ == roots@,
            entry.observe@ == Seq::<Symbol>::empty(),
            !entry.backward,
            entry.numerics == Numerics::Fast,
    {
        Entry { roots, observe: Vec::new(), backward: false, numerics: Numerics::Fast }
    }

    /// Adds interior values the caller also wants readable after a run;
    /// like roots, they seed the plan's reachability closure. Repeated
    /// calls accumulate, in order.
    pub fn observe(self, extra: Vec<Symbol>) -> (entry: Entry)
        ensures
            entry.roots@ == self.roots@,
            entry.observe@ == self.observe@ + extra@,
            entry.backward == self.backward,
            entry.numerics == self.numerics,
    {
        let mut entry = self;
        let mut extra = extra;
        entry.observe.append(&mut extra);
        entry
    }

    /// Requests runs that answer the engine reverse scan: buffers retain
    /// what the scan reads. A request that never calls this compiles a
    /// forward-only plan.
    pub fn backward(self) -> (entry: Entry)
        ensures
            entry.roots@ == self.roots@,
            entry.observe@ == self.observe@,
            entry.backward,
            entry.numerics == self.numerics,
    {
        let mut entry = self;
        entry.backward = true;
        entry
    }

    /// Chooses the numerics posture of the plan's runs.
    pub fn numerics(self, numerics: Numerics) -> (entry: Entry)
        ensures
            entry.roots@ == self.roots@,
            entry.observe@ == self.observe@,
            entry.backward == self.backward,
            entry.numerics == numerics,
    {
        let mut entry = self;
        entry.numerics = numerics;
        entry
    }
}

/// An entry bound to the network it reads: the common road from a sealed
/// network to running or lowering its declared reading.
#[derive(Debug)]
pub struct BoundEntry<'network, E> {
    network: &'network Network<E>,
    entry: Entry,
}

impl<'network, E> BoundEntry<'network, E> {
    /// The network this entry is bound to.
    pub closed spec fn network_spec(&self) -> Network<E> {
        *self.network
    }

    /// The declared reading this bound entry carries.
    pub closed spec fn entry_spec(&self) -> Entry {
        self.entry
    }

    /// Returns the declared reading this bound entry carries: the
    /// borrowing twin of [`into_entry`](BoundEntry::into_entry).
    pub fn entry(&self) -> (entry: &Entry)
        ensures
            *entry == self.entry_spec(),
    {
        &self.entry
    }

    /// Adds interior values to observe after a run, in order.
    pub fn observe(self, extra: Vec<Symbol>) -> (bound: BoundEntry<'network, E>)
        ensures
            bound.network_spec() == self.network_spec(),
            bound.entry_spec().roots@ == self.entry_spec().roots@,
            bound.entry_spec().observe@ == self.entry_spec().observe@ + extra@,
            bound.entry_spec().backward == self.entry_spec().backward,
            bound.entry_spec().numerics == self.entry_spec().numerics,
    {
        BoundEntry { network: self.network, entry: self.entry.observe(extra) }
    }

    /// Requests runs that answer the engine reverse scan.
    pub fn backward(self) -> (bound: BoundEntry<'network, E>)
        ensures
            bound.network_spec() == self.network_spec(),
            bound.entry_spec().roots@ == self.entry_spec().roots@,
            bound.entry_spec().observe@ == self.entry_spec().observe@,
            bound.entry_spec().backward,
            bound.entry_spec().numerics == self.entry_spec().numerics,
    {
        BoundEntry { network: self.network, entry: self.entry.backward() }
    }

    /// Chooses the numerics posture of the entry's runs.
    pub fn numerics(self, numerics: Numerics) -> (bound: BoundEntry<'network, E>)
        ensures
            bound.network_spec() == self.network_spec(),
            bound.entry_spec().roots@ == self.entry_spec().roots@,
            bound.entry_spec().observe@ == self.entry_spec().observe@,
            bound.entry_spec().backward == self.entry_spec().backward,
            bound.entry_spec().numerics == numerics,
    {
        BoundEntry { network: self.network, entry: self.entry.numerics(numerics) }
    }

    /// Detaches the entry for storage: symbols stay valid across reopens,
    /// and the entry binds again later.
    pub fn into_entry(self) -> (entry: Entry)
        ensures
            entry == self.entry_spec(),
    {
        self.entry
    }
}

impl<E> Network<E> {
    /// Opens an entry over `roots` bound to this network.
    pub fn entry(&self, roots: Vec<Symbol>) -> (bound: BoundEntry<'_, E>)
        ensures
            bound.network_spec() == *self,
            bound.entry_spec().roots@ == roots@,
            bound.entry_spec().observe@ == Seq::<Symbol>::empty(),
            !bound.entry_spec().backward,
            bound.entry_spec().numerics == Numerics::Fast,
    {
        BoundEntry { network: self, entry: Entry::roots(roots) }
    }
}

} // verus!
