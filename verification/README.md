# topos

The shape, layout, tensor and graph-recording core of an autodiff
compiler stack, written in Verus with its behaviour stated as contracts
and proved.

## Layout

- `src/shape.rs` — extents, volumes and their representability.
- `src/layout.rs` — strided layouts: row-major strides, transposes,
  permutations, narrowed and windowed views, reshapes that stay views,
  and the multi-index arithmetic behind them.
- `src/reorder.rs` — sums and products over reordered axes, which a
  permuted view needs for its volume, reach and addresses.
- `src/inline.rs` — the inline stride row, kept in a `SmallVec`; the
  tape's operand links (`src/graph/operands.rs`) are kept in one too.
- `src/storage.rs`, `src/tensor.rs` — tensors over dense, constant and
  one-hot selection storage, their views and the operations on them.
  Element arithmetic (sums, products, maxima) is passed in as closures,
  and each contract states the order in which they are applied.
- `src/op/` — the operation vocabulary: arities, derivative read sets,
  record-time shape rules and the `Op` dispatch.
- `src/graph/` — the recording tape with the payloads of its source
  nodes, sealed networks, symbols and their detaching, slot stores, the
  composite operations recorded from primitives, `express`, which
  re-records an opcode over operand values, and reverse mode as recording:
  each opcode's derivative rule (`Opcode::vjp`) and the reverse scan that
  records gradients onto the tape (`Tape::vjp`, `Tape::differentiate`).
  Their contracts name the recorded nodes: `rule_entry` gives, per opcode
  and operand, the node structure of each cotangent, and `gradients`
  states that each reached node's gradient is the chain of additions, onto
  a recorded zero, of the cotangents its consumers' rules recorded from
  their own gradients, in scan order. The scan requires every computed
  node to obey its shape rule and to be reversible (`rules_hold`): a
  reduction, log-softmax, log-sum-exp or pad must act on a non-empty
  axis, since its adjoint spreads or narrows back along it. A new tape
  obeys the rules, and every recorder keeps them, the scan included, so
  a gradient can be differentiated again.
- `src/engine/` — exported entries, a plan's view of recorded structure,
  the matchers that recognize fusable groups in it (im2col convolution
  chains, max-pool window folds, batch normalization in both modes), the
  fused calls, and the catalog that elects disjoint groups.
- `app/` — what stays outside the verified library: minting family
  tokens, the floating-point error function pair, thread-safety
  assertions, and rendering tensors as text.
