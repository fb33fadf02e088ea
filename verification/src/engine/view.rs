//! A plan's read-only window onto recorded structure: the lookups the
//! pattern matchers walk a formula with, and the interior test that
//! keeps a matched group sound to fuse.

use vstd::prelude::*;

use crate::graph::opcode::Opcode;
use crate::graph::tape::Tape;
use crate::graph::ValueId;
use crate::shape::Shape;

verus! {

/// The number of times `node` occurs among the first `upto` links.
pub open spec fn occurrences(links: Seq<ValueId>, node: int, upto: int) -> nat
    decreases upto,
{
    if upto <= 0 {
        0
    } else {
        occurrences(links, node, upto - 1) + if links[upto - 1].0 as int == node { 1nat } else { 0nat }
    }
}

/// `count` capped at two: all the interior test needs to tell.
pub open spec fn capped(count: nat) -> nat {
    if count >= 2 { 2 } else { count }
}

/// The structure of one plan under matching: the recorded nodes, which of
/// them the plan wants computed, and which of them must stay readable
/// after the run (the keep-set).
#[derive(Debug)]
pub struct PlanView<'a, E> {
    tape: &'a Tape<E>,
    wanted: &'a [bool],
    readable: &'a [bool],
}

impl<'a, E> PlanView<'a, E> {
    /// The recorded structure this view reads.
    pub closed spec fn tape_spec(&self) -> Tape<E> {
        *self.tape
    }

    /// For every node, whether the plan wants it computed.
    pub closed spec fn wanted_spec(&self) -> Seq<bool> {
        self.wanted@
    }

    /// For every node, whether it must stay readable after the run.
    pub closed spec fn readable_spec(&self) -> Seq<bool> {
        self.readable@
    }

    /// The number of nodes in view.
    pub open spec fn len(&self) -> nat {
        self.tape_spec().len_spec()
    }

    /// The recording is well formed, its nodes are numbered by machine
    /// words, and both masks cover every node.
    pub open spec fn well_formed(&self) -> bool {
        &&& self.tape_spec().well_formed()
        &&& self.len() <= usize::MAX
        &&& self.wanted_spec().len() == self.len()
        &&& self.readable_spec().len() == self.len()
    }

    /// The opcode of node `index`, `None` past the last node.
    pub open spec fn opcode(&self, index: int) -> Option<Opcode> {
        if 0 <= index < self.len() {
            Some(self.tape_spec().opcodes_spec()[index])
        } else {
            None
        }
    }

    /// The operand links of node `index`.
    pub open spec fn links(&self, index: int) -> Seq<ValueId> {
        self.tape_spec().links_spec()[index]
    }

    /// The node operand `k` of node `index` reads.
    pub open spec fn link(&self, index: int, k: int) -> int {
        self.links(index)[k].0 as int
    }

    /// The single operand of node `index`, `None` unless it has exactly
    /// one.
    pub open spec fn sole(&self, index: int) -> Option<int> {
        if 0 <= index < self.len() && self.links(index).len() == 1 {
            Some(self.link(index, 0))
        } else {
            None
        }
    }

    /// The count node `index` holds if it is a counted literal.
    pub open spec fn counted(&self, index: int) -> Option<usize> {
        self.tape_spec().counts_spec()[index]
    }

    /// The recorded shape of node `index`.
    pub open spec fn axes(&self, index: int) -> Seq<usize> {
        self.tape_spec().shapes_spec()[index]
    }

    /// How many operand links of the wanted nodes below `upto` read
    /// `node`.
    pub open spec fn uses_below(&self, node: int, upto: int) -> nat
        decreases upto,
    {
        if upto <= 0 {
            0
        } else {
            self.uses_below(node, upto - 1) + if self.wanted_spec()[upto - 1] {
                occurrences(self.links(upto - 1), node, self.links(upto - 1).len() as int)
            } else {
                0nat
            }
        }
    }

    /// Whether node `index` may be an interior of a fused group: wanted,
    /// outside the keep-set, and consumed exactly once among the wanted
    /// nodes.
    pub open spec fn interior(&self, index: int) -> bool {
        &&& 0 <= index < self.len()
        &&& self.wanted_spec()[index]
        &&& !self.readable_spec()[index]
        &&& self.uses_below(index, self.len() as int) == 1
    }

    /// Opens a view of `tape` under the plan's `wanted` and `readable`
    /// masks, one entry per recorded node.
    pub fn new(tape: &'a Tape<E>, wanted: &'a [bool], readable: &'a [bool]) -> (view: Self)
        requires
            tape.well_formed(),
            wanted@.len() == tape.len_spec(),
            readable@.len() == tape.len_spec(),
        ensures
            view.well_formed(),
            view.tape_spec() == *tape,
            view.wanted_spec() == wanted@,
            view.readable_spec() == readable@,
    {
        let _length = tape.len();
        PlanView { tape, wanted, readable }
    }

    /// Returns the number of nodes in view.
    pub fn node_count(&self) -> (count: usize)
        ensures
            count == self.len(),
    {
        self.tape.len()
    }

    /// Returns the opcode of node `index`, `None` past the last node.
    pub fn op(&self, index: usize) -> (opcode: Option<&Opcode>)
        requires
            self.well_formed(),
        ensures
            opcode == match self.opcode(index as int) {
                Some(recorded) => Some(&recorded),
                None => None::<&Opcode>,
            },
    {
        if index < self.tape.len() {
            Some(self.tape.opcode_at(index))
        } else {
            None
        }
    }

    /// Returns the operand links of node `index`.
    pub fn operands(&self, index: usize) -> (links: &[ValueId])
        requires
            self.well_formed(),
            index < self.len(),
        ensures
            links@ == self.links(index as int),
    {
        self.tape.links_at(index)
    }

    /// Returns the single operand of node `index`, `None` unless it has
    /// exactly one.
    pub fn sole_operand(&self, index: usize) -> (operand: Option<usize>)
        requires
            self.well_formed(),
        ensures
            operand matches Some(node) ==> self.sole(index as int) == Some(node as int),
            operand is None ==> self.sole(index as int) is None,
    {
        if index < self.tape.len() {
            let links = self.tape.links_at(index);
            if links.len() == 1 {
                return Some(links[0].0);
            }
        }
        None
    }

    /// Returns the recorded shape of node `index`.
    pub fn shape(&self, index: usize) -> (shape: &Shape)
        requires
            self.well_formed(),
            index < self.len(),
        ensures
            shape@ == self.axes(index as int),
    {
        self.tape.shape_at(index)
    }

    /// Returns the count node `index` holds if it is a counted literal.
    pub fn count(&self, index: usize) -> (count: Option<usize>)
        requires
            self.well_formed(),
            index < self.len(),
        ensures
            count == self.counted(index as int),
    {
        self.tape.count_at(index)
    }

    /// Whether node `index` may be an interior of a fused group: wanted,
    /// outside the keep-set, and consumed exactly once among the wanted
    /// nodes.
    pub fn interior_ok(&self, index: usize) -> (ok: bool)
        requires
            self.well_formed(),
        ensures
            ok == self.interior(index as int),
    {
        let length = self.tape.len();
        if index >= length || !self.wanted[index] || self.readable[index] {
            return false;
        }
        let mut uses: usize = 0;
        let mut node: usize = 0;
        while node < length
            invariant
                self.well_formed(),
                length == self.len(),
                node <= length,
                uses == capped(self.uses_below(index as int, node as int)),
            decreases length - node,
        {
            if self.wanted[node] {
                let links = self.tape.links_at(node);
                let mut k: usize = 0;
                let ghost before = self.uses_below(index as int, node as int);
                while k < links.len()
                    invariant
                        self.well_formed(),
                        node < length,
                        links@ == self.links(node as int),
                        k <= links@.len(),
                        uses == capped(before + occurrences(links@, index as int, k as int)),
                    decreases links@.len() - k,
                {
                    if links[k].0 == index && uses < 2 {
                        uses = uses + 1;
                    }
                    k = k + 1;
                }
            }
            node = node + 1;
        }
        uses == 1
    }
}

} // verus!
