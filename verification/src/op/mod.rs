//! The closed operation vocabulary: each operation's arity, the
//! payloads its derivative rule reads, and the record-time shape rule
//! that validates its operands.

use vstd::prelude::*;

pub mod broadcast;
pub mod broadcast_along;
pub mod fold;
pub mod gather;
pub mod input;
pub mod log_softmax;
pub mod log_sum_exp;
pub mod map;
pub mod matmul;
pub mod maximum;
pub mod mul;
pub mod op;
pub mod parameter;
pub mod permute;
pub mod powf;
pub mod reshape;
pub mod slot;
pub mod step;
pub mod sub;
pub mod unfold;

verus! {

/// Which payload values an operation's derivative rule reads: the
/// read contract behind training-plan liveness.
///
/// `operands[i]` marks a read of the operand at position `i`; `output`
/// marks a read of the node's own computed payload. The operand width
/// is the vocabulary's maximum arity.
#[derive(Debug, Clone, Copy)]
pub struct Reads {
    /// Whether the rule reads each operand's payload, by position.
    pub operands: [bool; 2],
    /// Whether the rule reads the node's own output payload.
    pub output: bool,
}

impl Reads {
    /// Returns the contract of a rule that reads no payload at all.
    pub fn nothing() -> (reads: Reads)
        ensures
            reads_exactly(reads, false, false, false),
    {
        let reads = Reads { operands: [false, false], output: false };
        assert(reads.operands@ =~= seq![false, false]);
        reads
    }

    /// Returns the contract reading the operands marked in `left` and
    /// `right` and, when `output` holds, the node's own output.
    pub fn of(left: bool, right: bool, output: bool) -> (reads: Reads)
        ensures
            reads_exactly(reads, left, right, output),
    {
        let reads = Reads { operands: [left, right], output };
        assert(reads.operands@ =~= seq![left, right]);
        reads
    }
}

/// Whether `reads` marks exactly the `left` and `right` operands and,
/// when `output` holds, the node's own output.
pub open spec fn reads_exactly(reads: Reads, left: bool, right: bool, output: bool) -> bool {
    &&& reads.operands@ == seq![left, right]
    &&& reads.output == output
}

/// Returns the single operand of a unary operation.
pub fn unary<T>(operands: &[T]) -> (operand: &T)
    requires
        operands@.len() == 1,
    ensures
        *operand == operands@[0],
{
    &operands[0]
}

/// Returns the `[left, right]` operands of a binary operation.
pub fn binary<T>(operands: &[T]) -> (pair: (&T, &T))
    requires
        operands@.len() == 2,
    ensures
        *pair.0 == operands@[0],
        *pair.1 == operands@[1],
{
    (&operands[0], &operands[1])
}

} // verus!
