use std::sync::Arc;

use vstd::prelude::*;

use super::ValueId;
use crate::op::slot::SlotId;

verus! {

/// Whether the node positions rise strictly: slots are installed in
/// recording order.
pub open spec fn strictly_increasing(nodes: Seq<usize>) -> bool {
    forall|i: int, j: int| 0 <= i < j < nodes.len() ==> nodes[i] < nodes[j]
}

/// A dense, slot-indexed table of payloads with their tape nodes.
///
/// Parameters and inputs share this layout: each slot holds one payload
/// and the node position of the structure node that names that slot.
/// [`SlotId`] is the row index, assigned only here on
/// [`install`](Self::install), so loads stay O(1) and bulk steps stay
/// O(slots).
#[derive(Debug)]
pub struct SlotStore<Data> {
    payloads: Vec<Data>,
    nodes: Vec<ValueId>,
}

impl<Data> SlotStore<Data> {
    /// The payloads in slot order.
    pub closed spec fn payloads_spec(&self) -> Seq<Data> {
        self.payloads@
    }

    /// The node positions in slot order.
    pub closed spec fn nodes_spec(&self) -> Seq<usize> {
        self.nodes@.map_values(|node: ValueId| node.0)
    }

    /// Whether every slot pairs one payload with one node, and the nodes
    /// rise strictly in slot order.
    pub open spec fn well_formed(&self) -> bool {
        &&& self.payloads_spec().len() == self.nodes_spec().len()
        &&& strictly_increasing(self.nodes_spec())
    }

    /// Creates an empty store.
    pub fn new() -> (store: SlotStore<Data>)
        ensures
            store.payloads_spec() == Seq::<Data>::empty(),
            store.nodes_spec() == Seq::<usize>::empty(),
            store.well_formed(),
    {
        let store = SlotStore { payloads: Vec::new(), nodes: Vec::new() };
        assert(store.nodes_spec() =~= Seq::<usize>::empty());
        store
    }

    /// Returns the number of allocated slots.
    pub fn len(&self) -> (len: usize)
        ensures
            len == self.payloads_spec().len(),
    {
        self.payloads.len()
    }

    /// Returns the payloads in slot order.
    pub fn payloads(&self) -> (payloads: &[Data])
        ensures
            payloads@ == self.payloads_spec(),
    {
        self.payloads.as_slice()
    }

    /// Allocates a slot for `data`, records its structure node via
    /// `record`, and stores the returned node link.
    ///
    /// `record` receives the new [`SlotId`] so it can embed the slot in a
    /// node and push a structure row; it returns that row's position.
    /// Payload and node are committed together when `record` returns.
    pub fn install(&mut self, data: Data, record: impl FnOnce(SlotId) -> ValueId) -> (node: ValueId)
        requires
            old(self).payloads_spec().len() == old(self).nodes_spec().len(),
            call_requires(record, (SlotId::new_spec(old(self).payloads_spec().len() as usize),)),
        ensures
            call_ensures(record, (SlotId::new_spec(old(self).payloads_spec().len() as usize),), node),
            final(self).payloads_spec() == old(self).payloads_spec().push(data),
            final(self).nodes_spec() == old(self).nodes_spec().push(node.0),
    {
        let slot = SlotId::new(self.payloads.len());
        assert(slot == SlotId::new_spec(old(self).payloads_spec().len() as usize));
        self.payloads.push(data);
        let node = record(slot);
        let ghost before = self.nodes@;
        self.nodes.push(node);
        assert(self.nodes@.map_values(|n: ValueId| n.0) =~= before.map_values(|n: ValueId| n.0).push(node.0));
        node
    }

    /// Builds a store from `(node, payload)` rows in slot order.
    pub fn from_rows(rows: Vec<(ValueId, Data)>) -> (store: SlotStore<Data>)
        ensures
            store.payloads_spec() == rows@.map_values(|row: (ValueId, Data)| row.1),
            store.nodes_spec() == rows@.map_values(|row: (ValueId, Data)| row.0.0),
    {
        let mut payloads: Vec<Data> = Vec::new();
        let mut nodes: Vec<ValueId> = Vec::new();
        let ghost all = rows@;
        for row in it: rows
            invariant
                it.seq() == all,
                payloads@ == all.subrange(0, it.index() as int).map_values(|row: (ValueId, Data)| row.1),
                nodes@.map_values(|n: ValueId| n.0) == all.subrange(0, it.index() as int).map_values(
                    |row: (ValueId, Data)| row.0.0),
        {
            let (node, payload) = row;
            let ghost before = nodes@;
            nodes.push(node);
            assert(nodes@.map_values(|n: ValueId| n.0) =~= before.map_values(|n: ValueId| n.0).push(node.0));
            payloads.push(payload);
            proof {
                assert(payloads@ =~= all.subrange(0, it.index() + 1).map_values(|row: (ValueId, Data)| row.1));
                assert(nodes@.map_values(|n: ValueId| n.0) =~= all.subrange(0, it.index() + 1).map_values(
                    |row: (ValueId, Data)| row.0.0));
            }
        }
        assert(all.subrange(0, all.len() as int) =~= all);
        SlotStore { payloads, nodes }
    }

    /// Replaces the payload at `slot`, which must be allocated.
    pub fn set(&mut self, slot: SlotId, data: Data)
        requires
            slot.index_spec() < old(self).payloads_spec().len(),
        ensures
            final(self).payloads_spec() == old(self).payloads_spec().update(slot.index_spec() as int, data),
            final(self).nodes_spec() == old(self).nodes_spec(),
    {
        self.payloads.set(slot.index(), data);
    }

    /// Returns the node behind the highest slot, or `None` for an empty
    /// store.
    pub fn last_node(&self) -> (node: Option<ValueId>)
        ensures
            self.nodes_spec().len() == 0 ==> node is None,
            self.nodes_spec().len() > 0 ==> (node matches Some(n) && n.0 == self.nodes_spec().last()),
    {
        if self.nodes.len() == 0 {
            None
        } else {
            Some(self.nodes[self.nodes.len() - 1])
        }
    }

    /// Returns the slot whose structure node is `node`, or `None` if no
    /// slot links to it.
    ///
    /// Slots are installed in recording order, so the node column rises
    /// strictly and the lookup is a binary search.
    pub fn slot_of(&self, node: ValueId) -> (slot: Option<SlotId>)
        requires
            strictly_increasing(self.nodes_spec()),
        ensures
            slot is None <==> !self.nodes_spec().contains(node.0),
            slot matches Some(s) ==> s.index_spec() < self.nodes_spec().len()
                && self.nodes_spec()[s.index_spec() as int] == node.0,
    {
        let target = node.index();
        assert(self.nodes_spec().len() == self.nodes@.len());
        let mut low: usize = 0;
        let mut high: usize = self.nodes.len();
        while low < high
            invariant
                high <= self.nodes@.len(),
                self.nodes_spec().len() == self.nodes@.len(),
                target == node.0,
                low <= high,
                strictly_increasing(self.nodes_spec()),
                forall|i: int| 0 <= i < low ==> #[trigger] self.nodes_spec()[i] < target,
                forall|i: int| high <= i < self.nodes_spec().len() ==> #[trigger] self.nodes_spec()[i] > target,
            decreases high - low,
        {
            let middle = low + (high - low) / 2;
            let found = self.nodes[middle].index();
            assert(found == self.nodes_spec()[middle as int]);
            if found == target {
                assert(self.nodes_spec().contains(target));
                return Some(SlotId::new(middle));
            } else if found < target {
                low = middle + 1;
            } else {
                high = middle;
            }
        }
        assert(!self.nodes_spec().contains(target)) by {
            if self.nodes_spec().contains(target) {
                let i = choose|i: int| 0 <= i < self.nodes_spec().len() && self.nodes_spec()[i] == target;
                assert(self.nodes_spec()[i] == target);
            }
        }
        None
    }

    /// Returns a store with the same node links and `payloads` replaced:
    /// the training-step transition for parameters. The payload count
    /// must match the store's slots.
    pub fn with_payloads(&self, payloads: Vec<Data>) -> (store: SlotStore<Data>)
        requires
            payloads@.len() == self.nodes_spec().len(),
        ensures
            store.payloads_spec() == payloads@,
            store.nodes_spec() == self.nodes_spec(),
    {
        let nodes = self.nodes.clone();
        assert(nodes@ =~= self.nodes@);
        SlotStore { payloads, nodes }
    }

    /// Returns the node positions in slot order.
    pub fn nodes(&self) -> (nodes: Vec<usize>)
        ensures
            nodes@ == self.nodes_spec(),
    {
        let mut positions: Vec<usize> = Vec::new();
        let mut slot: usize = 0;
        while slot < self.nodes.len()
            invariant
                slot <= self.nodes@.len(),
                positions@ == self.nodes_spec().subrange(0, slot as int),
            decreases self.nodes@.len() - slot,
        {
            positions.push(self.nodes[slot].index());
            slot = slot + 1;
            assert(positions@ =~= self.nodes_spec().subrange(0, slot as int));
        }
        assert(positions@ =~= self.nodes_spec());
        positions
    }
}

impl<Data: Clone> SlotStore<Data> {
    /// Returns `defaults` with `bindings` overlaid, later bindings of a
    /// slot winning: the feed overlay of a run, sharing the default store
    /// untouched when nothing is bound. Every bound slot must be
    /// allocated.
    pub fn overlaid(defaults: &Arc<SlotStore<Data>>, bindings: Vec<(SlotId, Data)>) -> (store: Arc<SlotStore<Data>>)
        requires
            forall|b: int| 0 <= b < bindings@.len() ==> #[trigger] bindings@[b].0.index_spec()
                < defaults.payloads_spec().len(),
        ensures
            store.nodes_spec() == defaults.nodes_spec(),
            store.payloads_spec().len() == defaults.payloads_spec().len(),
            forall|b: int| 0 <= b < bindings@.len()
                && (forall|later: int| b < later < bindings@.len() ==> bindings@[later].0 != bindings@[b].0)
                ==> store.payloads_spec()[#[trigger] bindings@[b].0.index_spec() as int] == bindings@[b].1,
    {
        if bindings.len() == 0 {
            return Arc::clone(defaults);
        }
        let base: &SlotStore<Data> = defaults;
        let payloads = base.payloads.clone();
        let nodes = base.nodes.clone();
        assert(nodes@ =~= base.nodes@);
        let mut overlaid = SlotStore { payloads, nodes };
        let ghost all = bindings@;
        for binding in it: bindings
            invariant
                it.seq() == all,
                overlaid.nodes_spec() == base.nodes_spec(),
                overlaid.payloads_spec().len() == base.payloads_spec().len(),
                forall|b: int| 0 <= b < all.len() ==> #[trigger] all[b].0.index_spec() < base.payloads_spec().len(),
                forall|b: int| 0 <= b < it.index()
                    && (forall|later: int| b < later < it.index() ==> all[later].0 != all[b].0)
                    ==> overlaid.payloads_spec()[#[trigger] all[b].0.index_spec() as int] == all[b].1,
        {
            let (slot, payload) = binding;
            let ghost applied = it.index() + 1;
            overlaid.set(slot, payload);
            proof {
                assert forall|b: int| 0 <= b < applied
                    && (forall|later: int| b < later < applied ==> all[later].0 != all[b].0)
                    implies overlaid.payloads_spec()[#[trigger] all[b].0.index_spec() as int] == all[b].1 by {
                    if b < applied - 1 {
                        assert(all[applied - 1].0 != all[b].0);
                        SlotId::lemma_index_determines(all[applied - 1].0, all[b].0);
                    }
                }
            }
        }
        Arc::new(overlaid)
    }
}

/// Installing a payload makes its node findable: the new node lands in
/// the last slot, and the store stays ordered when the node comes after
/// every node already installed.
pub proof fn law_installed_node_is_found(nodes: Seq<usize>, node: usize)
    requires
        strictly_increasing(nodes),
        nodes.len() == 0 || nodes.last() < node,
    ensures
        strictly_increasing(nodes.push(node)),
        nodes.push(node)[nodes.len() as int] == node,
        nodes.push(node).contains(node),
{
    assert(nodes.push(node)[nodes.len() as int] == node);
    assert forall|i: int, j: int| 0 <= i < j < nodes.push(node).len() implies nodes.push(node)[i] < nodes.push(
        node,
    )[j] by {
        if j == nodes.len() {
            if i < nodes.len() - 1 {
                assert(nodes[i] < nodes[nodes.len() - 1]);
            }
        }
    }
}

} // verus!
