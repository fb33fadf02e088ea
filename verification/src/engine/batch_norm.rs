//! Matching the recorded batch-normalization diamond, in training mode
//! (statistics reduced from the batch) and in inference mode (statistics
//! supplied).

use vstd::prelude::*;

use crate::engine::catalog::Candidate;
use crate::engine::pattern::{BatchNormalization, Pattern};
use crate::engine::view::PlanView;
use crate::graph::opcode::Opcode;
use crate::op::map::MapOperation;
use crate::shape::{fits, volume_of};

verus! {

/// The shared tail both modes record, rooted at the trailing shift `Add`
/// at `index`: `centered / broadcast(sqrt(variance + broadcast(epsilon)))
/// * broadcast(scale) + broadcast(shift)` over a rank-2 value, with
/// `centered = input - broadcast(mean)`, every `broadcast_along` along the
/// batch axis 0 and `epsilon` a single-value leaf. It gives the group
/// with its statistics unclassified, the tail's nodes and the centering
/// node.
pub open spec fn norm_tail<E>(view: &PlanView<E>, index: int) -> Option<(BatchNormalization, Seq<usize>, int)> {
    if !(view.opcode(index) matches Some(Opcode::Add)) || view.axes(index).len() != 2 || view.links(index).len() < 2 {
        None
    } else {
        let scaled = view.link(index, 0);
        let shift_bcast = view.link(index, 1);
        match view.opcode(shift_bcast) {
            Some(Opcode::BroadcastAlong { axis: shift_axis, extent: _ }) => if !(view.opcode(scaled) matches Some(
                Opcode::Mul,
            )) || view.sole(shift_bcast) is None || view.links(scaled).len() < 2 {
                None
            } else {
                let shift = view.sole(shift_bcast).unwrap();
                let normalized = view.link(scaled, 0);
                let scale_bcast = view.link(scaled, 1);
                match view.opcode(scale_bcast) {
                    Some(Opcode::BroadcastAlong { axis: scale_axis, extent: _ }) => if shift_axis != 0 || scale_axis != 0
                        || view.sole(scale_bcast) is None || !(view.opcode(normalized) matches Some(Opcode::Div))
                        || view.links(normalized).len() < 2 {
                        None
                    } else {
                        let scale = view.sole(scale_bcast).unwrap();
                        let centered = view.link(normalized, 0);
                        let dev_bcast = view.link(normalized, 1);
                        match view.opcode(dev_bcast) {
                            Some(Opcode::BroadcastAlong { axis: dev_axis, extent: _ }) => if dev_axis != 0
                                || view.sole(dev_bcast) is None {
                                None
                            } else {
                                norm_deviation(view, scaled, shift_bcast, shift, normalized, scale_bcast, scale, centered, dev_bcast)
                            },
                            _ => None,
                        }
                    },
                    _ => None,
                }
            },
            _ => None,
        }
    }
}

/// The tail from the deviation broadcast down: the square root of the
/// variance plus the broadcast single-value epsilon leaf, and the centering
/// `Sub` of the mean broadcast along the batch axis from the input.
pub open spec fn norm_deviation<E>(
    view: &PlanView<E>,
    scaled: int,
    shift_bcast: int,
    shift: int,
    normalized: int,
    scale_bcast: int,
    scale: int,
    centered: int,
    dev_bcast: int,
) -> Option<(BatchNormalization, Seq<usize>, int)> {
    let deviation = view.sole(dev_bcast).unwrap();
    if !(view.opcode(deviation) matches Some(Opcode::ElementMap { operation: MapOperation::Sqrt }))
        || view.sole(deviation) is None {
        None
    } else {
        let var_plus = view.sole(deviation).unwrap();
        if !(view.opcode(var_plus) matches Some(Opcode::Add)) || view.links(var_plus).len() < 2 {
            None
        } else {
            let variance = view.link(var_plus, 0);
            let eps_bcast = view.link(var_plus, 1);
            if !(view.opcode(eps_bcast) matches Some(Opcode::Broadcast { .. })) || view.sole(eps_bcast) is None {
                None
            } else {
                let epsilon = view.sole(eps_bcast).unwrap();
                if !(view.opcode(epsilon) matches Some(Opcode::Leaf)) || !fits(view.axes(epsilon))
                    || volume_of(view.axes(epsilon)) != 1 || !(view.opcode(centered) matches Some(Opcode::Sub))
                    || view.links(centered).len() < 2 {
                    None
                } else {
                    let input = view.link(centered, 0);
                    let mean_bcast = view.link(centered, 1);
                    match view.opcode(mean_bcast) {
                        Some(Opcode::BroadcastAlong { axis: mean_axis, extent: _ }) => if mean_axis != 0
                            || view.sole(mean_bcast) is None {
                            None
                        } else {
                            let mean = view.sole(mean_bcast).unwrap();
                            Some((
                                BatchNormalization {
                                    input: input as usize,
                                    scale: scale as usize,
                                    shift: shift as usize,
                                    epsilon: epsilon as usize,
                                    mean: mean as usize,
                                    variance: variance as usize,
                                },
                                seq![
                                    scaled as usize,
                                    shift_bcast as usize,
                                    scale_bcast as usize,
                                    normalized as usize,
                                    dev_bcast as usize,
                                    deviation as usize,
                                    var_plus as usize,
                                    eps_bcast as usize,
                                    centered as usize,
                                    mean_bcast as usize,
                                ],
                                centered,
                            ))
                        },
                        _ => None,
                    }
                }
            }
        }
    }
}

/// The reduction behind a recorded `mean_along(0)` at `node`:
/// `Div(SumAlong(source, 0), count)` where `count` is the counted literal
/// of `node`'s shape holding the source's batch extent. It gives the
/// source, the sum and the count leaf.
pub open spec fn mean_along<E>(view: &PlanView<E>, node: int) -> Option<(int, int, int)> {
    if !(view.opcode(node) matches Some(Opcode::Div)) || view.links(node).len() < 2 {
        None
    } else {
        let sum = view.link(node, 0);
        let count = view.link(node, 1);
        match view.opcode(sum) {
            Some(Opcode::SumAlong { axis }) => if axis != 0 || !(view.opcode(count) matches Some(Opcode::Leaf))
                || view.sole(sum) is None {
                None
            } else {
                let source = view.sole(sum).unwrap();
                if view.axes(source).len() == 0 || view.counted(count) != Some(view.axes(source)[0])
                    || view.axes(count) != view.axes(node) {
                    None
                } else {
                    Some((source, sum, count))
                }
            },
            _ => None,
        }
    }
}

/// The training-mode group rooted at `index`: the shared tail whose mean
/// is the batch `mean_along` of the input and whose variance is the batch
/// `mean_along` of the centering times itself. It gives the group, its
/// interiors (the tail's, then both reductions and the square) and its
/// named results, the mean and the variance.
pub open spec fn training_match<E>(view: &PlanView<E>, index: int) -> Option<(BatchNormalization, Seq<usize>, Seq<usize>)> {
    match norm_tail(view, index) {
        None => None,
        Some((group, interiors, centered)) => match mean_along(view, group.mean as int) {
            None => None,
            Some((mean_source, mean_sum, mean_count)) => if mean_source != group.input {
                None
            } else {
                match mean_along(view, group.variance as int) {
                    None => None,
                    Some((squared, var_sum, var_count)) => if !(view.opcode(squared) matches Some(Opcode::Mul))
                        || view.links(squared).len() < 2 || view.link(squared, 0) != centered
                        || view.link(squared, 1) != centered {
                        None
                    } else {
                        Some((
                            group,
                            interiors + seq![
                                mean_sum as usize,
                                mean_count as usize,
                                squared as usize,
                                var_sum as usize,
                                var_count as usize,
                            ],
                            seq![group.mean, group.variance],
                        ))
                    },
                }
            },
        },
    }
}

/// Whether node `node` spreads `source` along the batch axis 0.
pub open spec fn spreads<E>(view: &PlanView<E>, node: int, source: int) -> bool {
    &&& (view.opcode(node) matches Some(Opcode::BroadcastAlong { axis, extent: _ }) && axis == 0)
    &&& view.sole(node) == Some(source)
}

/// A matched batch normalization names each operand by its place in the
/// formula the root computes, `(input - mean) / sqrt(variance + epsilon)
/// * scale + shift`, every statistic and parameter spread along the batch
/// axis and epsilon a single-value leaf under a broadcast: the root adds
/// the spread shift to a product whose right factor is the spread scale
/// and whose left is a quotient of the centering `input - mean` by the
/// spread square root of `variance + epsilon`.
pub proof fn law_norm_group_follows_the_formula<E>(view: &PlanView<E>, index: int)
    requires
        view.well_formed(),
    ensures
        norm_tail(view, index) matches Some((group, nodes, centered)) ==> {
            let scaled = view.link(index, 0);
            let normalized = view.link(scaled, 0);
            let deviation = view.sole(view.link(normalized, 1)).unwrap();
            let var_plus = view.sole(deviation).unwrap();
            &&& view.opcode(index) == Some(Opcode::Add)
            &&& view.opcode(scaled) == Some(Opcode::Mul)
            &&& spreads(view, view.link(index, 1), group.shift as int)
            &&& spreads(view, view.link(scaled, 1), group.scale as int)
            &&& view.opcode(normalized) == Some(Opcode::Div)
            &&& centered == view.link(normalized, 0)
            &&& view.opcode(centered) == Some(Opcode::Sub)
            &&& view.link(centered, 0) == group.input as int
            &&& spreads(view, view.link(centered, 1), group.mean as int)
            &&& spreads(view, view.link(normalized, 1), deviation)
            &&& view.opcode(deviation) == Some(Opcode::ElementMap { operation: MapOperation::Sqrt })
            &&& view.opcode(var_plus) == Some(Opcode::Add)
            &&& view.link(var_plus, 0) == group.variance as int
            &&& (view.opcode(view.link(var_plus, 1)) matches Some(Opcode::Broadcast { .. }))
            &&& view.sole(view.link(var_plus, 1)) == Some(group.epsilon as int)
            &&& view.opcode(group.epsilon as int) == Some(Opcode::Leaf)
        },
{
}

/// A matched training-mode batch normalization reduces its statistics
/// from its own input: the mean is the batch `mean_along` of the input,
/// and the variance the batch `mean_along` of the centering times itself.
pub proof fn law_training_statistics_follow_the_input<E>(view: &PlanView<E>, index: int)
    requires
        view.well_formed(),
    ensures
        training_match(view, index) matches Some((group, nodes, named)) ==> {
            let centered = norm_tail(view, index).unwrap().2;
            &&& (mean_along(view, group.mean as int) matches Some((source, _, _)) && source == group.input as int)
            &&& (mean_along(view, group.variance as int) matches Some((squared, _, _)) && view.opcode(squared) == Some(
                Opcode::Mul,
            ) && view.link(squared, 0) == centered && view.link(squared, 1) == centered)
            &&& named == seq![group.mean, group.variance]
        },
{
}

/// The tail of a match: the group, its nodes and the centering node.
struct Tail {
    group: BatchNormalization,
    interiors: Vec<usize>,
    centered: usize,
}

/// Whether the node at `node` records `Opcode::Add`.
fn is_add<E>(view: &PlanView<E>, node: usize) -> (add: bool)
    requires
        view.well_formed(),
    ensures
        add == (view.opcode(node as int) matches Some(Opcode::Add)),
{
    match view.op(node) {
        Some(Opcode::Add) => true,
        _ => false,
    }
}

/// Whether the node at `node` records `Opcode::Mul`.
fn is_mul<E>(view: &PlanView<E>, node: usize) -> (mul: bool)
    requires
        view.well_formed(),
    ensures
        mul == (view.opcode(node as int) matches Some(Opcode::Mul)),
{
    match view.op(node) {
        Some(Opcode::Mul) => true,
        _ => false,
    }
}

/// Returns the axis of the `broadcast_along` at `node`, `None` for any
/// other node.
fn along_axis<E>(view: &PlanView<E>, node: usize) -> (axis: Option<usize>)
    requires
        view.well_formed(),
    ensures
        match view.opcode(node as int) {
            Some(Opcode::BroadcastAlong { axis: recorded, extent: _ }) => axis == Some(recorded),
            _ => axis is None,
        },
{
    match view.op(node) {
        Some(Opcode::BroadcastAlong { axis, extent: _ }) => Some(*axis),
        _ => None,
    }
}

/// Returns the two operands of `node` when it has at least two.
fn pair<E>(view: &PlanView<E>, node: usize) -> (operands: Option<(usize, usize)>)
    requires
        view.well_formed(),
        node < view.len(),
    ensures
        view.links(node as int).len() < 2 ==> operands is None,
        view.links(node as int).len() >= 2 ==> operands == Some(
            (view.link(node as int, 0) as usize, view.link(node as int, 1) as usize),
        ),
{
    let links = view.operands(node);
    if links.len() < 2 {
        None
    } else {
        Some((links[0].0, links[1].0))
    }
}

/// Matches the shared normalization tail rooted at the `Add` at `index`.
fn match_tail<E>(index: usize, view: &PlanView<E>) -> (tail: Option<Tail>)
    requires
        view.well_formed(),
    ensures
        match norm_tail(view, index as int) {
            Some((group, interiors, centered)) => tail matches Some(found) && found.group == group
                && found.interiors@ == interiors && found.centered == centered,
            None => tail is None,
        },
{
    if !is_add(view, index) {
        return None;
    }
    if view.shape(index).rank() != 2 {
        return None;
    }
    let (scaled, shift_bcast) = match pair(view, index) {
        Some(operands) => operands,
        None => return None,
    };
    let shift_axis = match along_axis(view, shift_bcast) {
        Some(axis) => axis,
        None => return None,
    };
    if !is_mul(view, scaled) {
        return None;
    }
    let shift = match view.sole_operand(shift_bcast) {
        Some(node) => node,
        None => return None,
    };
    let (normalized, scale_bcast) = match pair(view, scaled) {
        Some(operands) => operands,
        None => return None,
    };
    let scale_axis = match along_axis(view, scale_bcast) {
        Some(axis) => axis,
        None => return None,
    };
    if shift_axis != 0 || scale_axis != 0 {
        return None;
    }
    let scale = match view.sole_operand(scale_bcast) {
        Some(node) => node,
        None => return None,
    };
    match view.op(normalized) {
        Some(Opcode::Div) => {},
        _ => return None,
    }
    let (centered, dev_bcast) = match pair(view, normalized) {
        Some(operands) => operands,
        None => return None,
    };
    let dev_axis = match along_axis(view, dev_bcast) {
        Some(axis) => axis,
        None => return None,
    };
    if dev_axis != 0 {
        return None;
    }
    let deviation = match view.sole_operand(dev_bcast) {
        Some(node) => node,
        None => return None,
    };
    match view.op(deviation) {
        Some(Opcode::ElementMap { operation: MapOperation::Sqrt }) => {},
        _ => return None,
    }
    let var_plus = match view.sole_operand(deviation) {
        Some(node) => node,
        None => return None,
    };
    if !is_add(view, var_plus) {
        return None;
    }
    let (variance, eps_bcast) = match pair(view, var_plus) {
        Some(operands) => operands,
        None => return None,
    };
    match view.op(eps_bcast) {
        Some(Opcode::Broadcast { .. }) => {},
        _ => return None,
    }
    let epsilon = match view.sole_operand(eps_bcast) {
        Some(node) => node,
        None => return None,
    };
    // The raise renders epsilon as the operation's attribute, so it must
    // be a single-value leaf whose payload emission can read.
    match view.op(epsilon) {
        Some(Opcode::Leaf) => {},
        _ => return None,
    }
    match view.shape(epsilon).checked_volume() {
        Some(1) => {},
        _ => return None,
    }
    match view.op(centered) {
        Some(Opcode::Sub) => {},
        _ => return None,
    }
    let (input, mean_bcast) = match pair(view, centered) {
        Some(operands) => operands,
        None => return None,
    };
    let mean_axis = match along_axis(view, mean_bcast) {
        Some(axis) => axis,
        None => return None,
    };
    if mean_axis != 0 {
        return None;
    }
    let mean = match view.sole_operand(mean_bcast) {
        Some(node) => node,
        None => return None,
    };
    let interiors: Vec<usize> = vec![
        scaled,
        shift_bcast,
        scale_bcast,
        normalized,
        dev_bcast,
        deviation,
        var_plus,
        eps_bcast,
        centered,
        mean_bcast,
    ];
    Some(Tail { group: BatchNormalization { input, scale, shift, epsilon, mean, variance }, interiors, centered })
}

/// Returns the reduction behind a recorded `mean_along(0)` at `node` --
/// `Div(SumAlong(source, 0), counted leaf)` -- as the source, the sum and
/// the count leaf. The leaf must be the counted literal of the reduced
/// shape holding the source's batch extent: an unverified divisor would
/// raise a formula that is not a mean.
fn mean_along_of<E>(node: usize, view: &PlanView<E>) -> (found: Option<(usize, usize, usize)>)
    requires
        view.well_formed(),
    ensures
        match mean_along(view, node as int) {
            Some((source, sum, count)) => found == Some((source as usize, sum as usize, count as usize)),
            None => found is None,
        },
{
    match view.op(node) {
        Some(Opcode::Div) => {},
        _ => return None,
    }
    let (sum, count) = match pair(view, node) {
        Some(operands) => operands,
        None => return None,
    };
    match view.op(sum) {
        Some(Opcode::SumAlong { axis }) => {
            if *axis != 0 {
                return None;
            }
        },
        _ => return None,
    }
    match view.op(count) {
        Some(Opcode::Leaf) => {},
        _ => return None,
    }
    let source = match view.sole_operand(sum) {
        Some(node) => node,
        None => return None,
    };
    let source_axes = view.shape(source).axes();
    if source_axes.len() == 0 {
        return None;
    }
    let batch = source_axes[0];
    match view.count(count) {
        Some(held) => if held != batch {
            return None;
        },
        None => return None,
    }
    if !view.shape(count).same_as(view.shape(node)) {
        return None;
    }
    Some((source, sum, count))
}

/// Matches the training-mode batch-normalization formula rooted at
/// `index`: the shared tail whose statistics are the batch's own
/// `mean_along` reductions of the input and of the squared centering. The
/// mean and variance are named results; everything else in the diamond is
/// an unnamed interior.
pub fn match_training<E>(index: usize, view: &PlanView<E>) -> (found: Option<Candidate>)
    requires
        view.well_formed(),
    ensures
        match training_match(view, index as int) {
            Some((group, interiors, named)) => found matches Some(candidate) && candidate.pattern
                == Pattern::BatchNormTraining(group) && candidate.root == index && candidate.interiors@ == interiors
                && candidate.named@ == named,
            None => found is None,
        },
{
    let tail = match match_tail(index, view) {
        Some(tail) => tail,
        None => return None,
    };
    let (mean_source, mean_sum, mean_count) = match mean_along_of(tail.group.mean, view) {
        Some(found) => found,
        None => return None,
    };
    if mean_source != tail.group.input {
        return None;
    }
    let (squared, var_sum, var_count) = match mean_along_of(tail.group.variance, view) {
        Some(found) => found,
        None => return None,
    };
    if !is_mul(view, squared) {
        return None;
    }
    let (left, right) = match pair(view, squared) {
        Some(operands) => operands,
        None => return None,
    };
    if left != tail.centered || right != tail.centered {
        return None;
    }
    let mut interiors = tail.interiors;
    let ghost before = interiors@;
    interiors.push(mean_sum);
    interiors.push(mean_count);
    interiors.push(squared);
    interiors.push(var_sum);
    interiors.push(var_count);
    proof {
        assert(interiors@ =~= before + seq![mean_sum, mean_count, squared, var_sum, var_count]);
    }
    let named: Vec<usize> = vec![tail.group.mean, tail.group.variance];
    Some(Candidate { pattern: Pattern::BatchNormTraining(tail.group), root: index, interiors, named })
}

/// Matches the inference-mode batch-normalization formula rooted at
/// `index`: the shared tail over supplied statistics, naming nothing.
pub fn match_inference<E>(index: usize, view: &PlanView<E>) -> (found: Option<Candidate>)
    requires
        view.well_formed(),
    ensures
        match norm_tail(view, index as int) {
            Some((group, interiors, _)) => found matches Some(candidate) && candidate.pattern
                == Pattern::BatchNormInference(group) && candidate.root == index && candidate.interiors@ == interiors
                && candidate.named@.len() == 0,
            None => found is None,
        },
{
    let tail = match match_tail(index, view) {
        Some(tail) => tail,
        None => return None,
    };
    Some(Candidate {
        pattern: Pattern::BatchNormInference(tail.group),
        root: index,
        interiors: tail.interiors,
        named: Vec::new(),
    })
}

} // verus!
