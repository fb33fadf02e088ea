use vstd::prelude::*;

use super::origin::Origin;
use super::symbol::Symbol;
use super::tape::{Tape, Value};
use super::ValueId;
use crate::tensor::Tensor;

verus! {

/// The sealed phase of a recording: an immutable computation-graph spec.
///
/// A network is only ever born from a tape ([`Tape::into_network`]), and
/// [`Network::into_tape`] consumes it to reopen recording. The consuming
/// pair keeps one family's history linear by ownership, so symbols stay
/// valid across every round trip. It is deliberately not `Clone`: a
/// second sealed copy could be reopened into a divergent future.
#[derive(Debug)]
pub struct Network<E> {
    recording: Tape<E>,
}

impl<E> Network<E> {
    /// The recording this network seals.
    pub closed spec fn recording(&self) -> Tape<E> {
        self.recording
    }

    /// Reopens the network for further recording, consuming it: the
    /// inverse of [`Tape::into_network`]. The tape keeps the same origin
    /// and every recorded node.
    pub fn into_tape(self) -> (tape: Tape<E>)
        ensures
            tape == self.recording(),
    {
        self.recording
    }

    /// Returns the number of recorded nodes.
    pub fn len(&self) -> (len: usize)
        ensures
            len == self.recording().len_spec(),
    {
        self.recording.len()
    }

    /// Returns `true` if it holds no nodes.
    pub fn is_empty(&self) -> (empty: bool)
        ensures
            empty == (self.recording().len_spec() == 0),
    {
        self.recording.is_empty()
    }

    /// Returns the origin token of this network's family.
    pub fn origin(&self) -> (origin: Origin)
        ensures
            origin == self.recording().origin_spec(),
    {
        self.recording.origin()
    }

    /// Locates the node `symbol` names on this network: a symbol of this
    /// family for a node allocated in it.
    pub fn locate(&self, symbol: Symbol) -> (id: ValueId)
        requires
            symbol.origin == self.recording().origin_spec(),
            symbol.id.0 < self.recording().len_spec(),
        ensures
            id == symbol.id,
    {
        symbol.id
    }
}

impl<E: Copy> Network<E> {
    /// Returns a copy of the stored payload of the node `symbol` names: a
    /// leaf's constant, a parameter's record-site initial or an input's
    /// default, and `None` for a computed node.
    pub fn payload(&self, symbol: Symbol) -> (payload: Option<Tensor<E>>)
        requires
            self.recording().well_formed(),
            symbol.origin == self.recording().origin_spec(),
            symbol.id.0 < self.recording().len_spec(),
        ensures
            self.recording().stored_as(symbol.id.0 as int, payload),
    {
        self.recording.payload(symbol)
    }
}

impl<E> Tape<E> {
    /// Seals the recording into an immutable [`Network`], consuming the
    /// tape; the recorded columns move without copying.
    pub fn into_network(self) -> (network: Network<E>)
        ensures
            network.recording() == self,
    {
        Network { recording: self }
    }
}

/// Sealing a tape and reopening the network gives back the recording: the
/// family and every node are kept, so every value recorded before keeps
/// naming its node, with the same opcode, operand links, shape and
/// payload, and
/// extension appends after them.
pub proof fn law_reopening_keeps_every_node<E>(tape: Tape<E>, network: Network<E>, reopened: Tape<E>, value: Value)
    requires
        tape.well_formed(),
        network.recording() == tape,
        reopened == network.recording(),
        tape.holds(value),
    ensures
        reopened.well_formed(),
        reopened.appends(&tape, 0),
        reopened.len_spec() == tape.len_spec(),
        reopened.holds(value),
        reopened.opcodes_spec()[value.index_spec() as int] == tape.opcodes_spec()[value.index_spec() as int],
        reopened.links_spec()[value.index_spec() as int] == tape.links_spec()[value.index_spec() as int],
        reopened.extents(value) == tape.extents(value),
        reopened.payloads_spec()[value.index_spec() as int] == tape.payloads_spec()[value.index_spec() as int],
{
    Tape::lemma_appends_nothing(tape);
}

} // verus!
