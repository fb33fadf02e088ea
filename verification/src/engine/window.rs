//! Matching the canonical im2col chain that feeds a `matmul`: the group a
//! fusing run computes as one windowed product.

use vstd::prelude::*;

use crate::engine::catalog::Candidate;
use crate::engine::pattern::{Pattern, WindowProduct};
use crate::engine::view::PlanView;
use crate::graph::opcode::Opcode;

verus! {

/// Whether `value` fits in a machine word.
pub open spec fn word(value: int) -> bool {
    0 <= value <= usize::MAX
}

/// The `[rows, columns]` a window product over a source of `axes`, padded
/// by `padding` on every spatial side, produces with a `kernel_height` x
/// `kernel_width` kernel stepping by `stride`; `None` where the windows do
/// not fit or an extent leaves the machine word.
pub open spec fn window_geometry(
    axes: Seq<usize>,
    padding: int,
    kernel_height: int,
    kernel_width: int,
    stride: int,
) -> Option<(int, int)> {
    let padded_height = axes[2] + 2 * padding;
    let padded_width = axes[3] + 2 * padding;
    if stride == 0 || padded_height < kernel_height || padded_width < kernel_width {
        None
    } else {
        let out_height = (padded_height - kernel_height) / stride + 1;
        let out_width = (padded_width - kernel_width) / stride + 1;
        let batch_rows = axes[0] * out_height;
        let rows = batch_rows * out_width;
        let channel_columns = axes[1] * kernel_height;
        let columns = channel_columns * kernel_width;
        if word(out_height) && word(out_width) && word(batch_rows) && word(rows) && word(channel_columns)
            && word(columns) {
            Some((rows, columns))
        } else {
            None
        }
    }
}

/// Folds the symmetric zero pads below the unfolds into the call: from
/// `source`, two interior pads -- width at axis 3 over height at axis 2,
/// both starting at the same offset and padding a rank-4 base
/// symmetrically -- give the base, their offset and the chain extended by
/// both pads; anything else leaves `source` itself, unpadded.
pub open spec fn folded_pads<E>(view: &PlanView<E>, source: int, chain: Seq<usize>) -> (int, int, Seq<usize>) {
    match view.opcode(source) {
        Some(Opcode::Pad { axis: width_axis, start: width_start, full_extent: full_width }) => {
            if view.interior(source) && width_axis == 3 && view.sole(source) is Some {
                let below = view.sole(source).unwrap();
                match view.opcode(below) {
                    Some(Opcode::Pad { axis: height_axis, start: height_start, full_extent: full_height }) => {
                        if view.sole(below) is Some && view.interior(below) && height_axis == 2
                            && view.axes(view.sole(below).unwrap()).len() == 4 && height_start == width_start
                            && full_height == view.axes(view.sole(below).unwrap())[2] + 2 * height_start
                            && full_width == view.axes(view.sole(below).unwrap())[3] + 2 * width_start {
                            (view.sole(below).unwrap(), height_start as int, chain.push(source as usize).push(below as usize))
                        } else {
                            (source, 0, chain)
                        }
                    },
                    _ => (source, 0, chain),
                }
            } else {
                (source, 0, chain)
            }
        },
        _ => (source, 0, chain),
    }
}

/// The group the chain below the two unfolds closes into: the source
/// after the pads fold, and a geometry whose product the root's reshape
/// already has.
pub open spec fn closed_window<E>(
    view: &PlanView<E>,
    kernel: int,
    reshape: Seq<usize>,
    chain: Seq<usize>,
    below: int,
    kernel_height: int,
    kernel_width: int,
    stride: int,
) -> Option<(WindowProduct, Seq<usize>)> {
    let (source, padding, chain) = folded_pads(view, below, chain);
    let axes = view.axes(source);
    if axes.len() != 4 {
        None
    } else {
        match window_geometry(axes, padding, kernel_height, kernel_width, stride) {
            Some((rows, columns)) => if reshape[0] == rows && reshape[1] == columns {
                Some((
                    WindowProduct {
                        source: source as usize,
                        kernel: kernel as usize,
                        kernel_height: kernel_height as usize,
                        kernel_width: kernel_width as usize,
                        stride: stride as usize,
                        padding: padding as usize,
                    },
                    chain,
                ))
            } else {
                None
            },
            None => None,
        }
    }
}

/// The im2col group rooted at the `matmul` at `index`:
/// `reshape(permute(unfold(unfold(pad(pad(x)?)?))))` into a rank-2
/// reshape, the lane permute `[0, 2, 4, 1, 3, 5]`, an undilated unfold of
/// the width axis 4 over an undilated unfold of the height axis 2 with the
/// same step, each of them an interior; with the geometry of that
/// convolution. Its chain lists the reshape, the permute, the two unfolds
/// and then the folded pads.
pub open spec fn window_match<E>(view: &PlanView<E>, index: int) -> Option<(WindowProduct, Seq<usize>)> {
    if !(view.opcode(index) matches Some(Opcode::MatMul)) || view.links(index).len() < 2 {
        None
    } else {
        let lhs = view.link(index, 0);
        let kernel = view.link(index, 1);
        match view.opcode(lhs) {
            Some(Opcode::Reshape { shape }) => if !view.interior(lhs) || shape@.len() != 2 || view.sole(lhs) is None {
                None
            } else {
                let permuted = view.sole(lhs).unwrap();
                match view.opcode(permuted) {
                    Some(Opcode::Permute { order }) => if !view.interior(permuted) || order@ != seq![0usize, 2, 4, 1, 3, 5]
                        || view.sole(permuted) is None {
                        None
                    } else {
                        let windows_w = view.sole(permuted).unwrap();
                        match view.opcode(windows_w) {
                            Some(Opcode::Unfold { axis, size, step, dilation }) => if !view.interior(windows_w) || axis != 4
                                || dilation != 1 || view.sole(windows_w) is None {
                                None
                            } else {
                                let windows_h = view.sole(windows_w).unwrap();
                                match view.opcode(windows_h) {
                                    Some(Opcode::Unfold { axis: axis_h, size: size_h, step: step_h, dilation: dilation_h }) => {
                                        if !view.interior(windows_h) || axis_h != 2 || dilation_h != 1 || step_h != step
                                            || view.sole(windows_h) is None {
                                            None
                                        } else {
                                            closed_window(
                                                view,
                                                kernel,
                                                shape@,
                                                seq![lhs as usize, permuted as usize, windows_w as usize, windows_h as usize],
                                                view.sole(windows_h).unwrap(),
                                                size_h as int,
                                                size as int,
                                                step as int,
                                            )
                                        }
                                    },
                                    _ => None,
                                }
                            },
                            _ => None,
                        }
                    },
                    _ => None,
                }
            },
            _ => None,
        }
    }
}

/// The pads folded into a group are private to it: every node they add to
/// the chain is an interior.
proof fn lemma_folded_pads_private<E>(view: &PlanView<E>, source: int, chain: Seq<usize>)
    requires
        view.well_formed(),
        forall|k: int| 0 <= k < chain.len() ==> view.interior(#[trigger] chain[k] as int),
    ensures
        forall|k: int|
            0 <= k < folded_pads(view, source, chain).2.len() ==> view.interior(
                #[trigger] folded_pads(view, source, chain).2[k] as int,
            ),
{
    let extended = folded_pads(view, source, chain).2;
    if extended.len() != chain.len() {
        let below = view.sole(source).unwrap();
        assert(extended == chain.push(source as usize).push(below as usize));
        assert forall|k: int| 0 <= k < extended.len() implies view.interior(#[trigger] extended[k] as int) by {
            if k < chain.len() {
                assert(extended[k] == chain[k]);
            } else if k == chain.len() {
                assert(extended[k] as int == source);
            } else {
                assert(extended[k] as int == below);
            }
        }
    }
}

/// A matched im2col chain is private to its group: every node it claims
/// is wanted, outside the keep-set, and consumed exactly once among the
/// wanted nodes, so a kept or shared node inside the chain bars the match.
pub proof fn law_window_chain_is_private<E>(view: &PlanView<E>, index: int)
    requires
        view.well_formed(),
    ensures
        window_match(view, index) matches Some((group, chain)) ==> forall|k: int|
            0 <= k < chain.len() ==> view.interior(#[trigger] chain[k] as int),
{
    if let Some((group, chain)) = window_match(view, index) {
        let lhs = view.link(index, 0);
        let permuted = view.sole(lhs).unwrap();
        let windows_w = view.sole(permuted).unwrap();
        let windows_h = view.sole(windows_w).unwrap();
        let head = seq![lhs as usize, permuted as usize, windows_w as usize, windows_h as usize];
        assert forall|k: int| 0 <= k < head.len() implies view.interior(#[trigger] head[k] as int) by {
            if k == 0 {
                assert(head[k] as int == lhs);
            } else if k == 1 {
                assert(head[k] as int == permuted);
            } else if k == 2 {
                assert(head[k] as int == windows_w);
            } else {
                assert(head[k] as int == windows_h);
            }
        }
        lemma_folded_pads_private(view, view.sole(windows_h).unwrap(), head);
    }
}

/// A matched window product reads its geometry off the chain it
/// replaces: the chain runs down from the product's patches operand
/// through the permute to the unfold of the width axis 4 and the unfold
/// of the height axis 2 under it; the kernel height is the height
/// unfold's window size, the kernel width the width unfold's, and the
/// stride their common step.
pub proof fn law_window_geometry_follows_the_unfolds<E>(view: &PlanView<E>, index: int)
    requires
        view.well_formed(),
    ensures
        window_match(view, index) matches Some((group, chain)) ==> {
            &&& chain.len() >= 4
            &&& chain[0] as int == view.link(index, 0)
            &&& view.sole(chain[0] as int) == Some(chain[1] as int)
            &&& view.sole(chain[1] as int) == Some(chain[2] as int)
            &&& view.sole(chain[2] as int) == Some(chain[3] as int)
            &&& (view.opcode(chain[2] as int) matches Some(Opcode::Unfold { axis, size, step, dilation }) && axis == 4
                && size == group.kernel_width && step == group.stride && dilation == 1)
            &&& (view.opcode(chain[3] as int) matches Some(Opcode::Unfold { axis, size, step, dilation }) && axis == 2
                && size == group.kernel_height && step == group.stride && dilation == 1)
            &&& group.kernel as int == view.link(index, 1)
            &&& (chain.len() == 4 ==> group.padding == 0 && view.sole(chain[3] as int) == Some(group.source as int))
            &&& (chain.len() != 4 ==> {
                &&& chain.len() == 6
                &&& view.sole(chain[3] as int) == Some(chain[4] as int)
                &&& view.sole(chain[4] as int) == Some(chain[5] as int)
                &&& view.sole(chain[5] as int) == Some(group.source as int)
                &&& (view.opcode(chain[4] as int) matches Some(Opcode::Pad { axis, start, full_extent: _ }) && axis == 3
                    && start == group.padding)
                &&& (view.opcode(chain[5] as int) matches Some(Opcode::Pad { axis, start, full_extent: _ }) && axis == 2
                    && start == group.padding)
            })
        },
{
    if let Some((group, chain)) = window_match(view, index) {
        let lhs = view.link(index, 0);
        let permuted = view.sole(lhs).unwrap();
        let windows_w = view.sole(permuted).unwrap();
        let windows_h = view.sole(windows_w).unwrap();
        let head = seq![lhs as usize, permuted as usize, windows_w as usize, windows_h as usize];
        let below = view.sole(windows_h).unwrap();
        let extended = folded_pads(view, below, head).2;
        assert(extended.len() >= 4 && extended[0] == head[0] && extended[1] == head[1] && extended[2] == head[2]
            && extended[3] == head[3]);
        if extended.len() != 4 {
            let width_pad = below;
            let height_pad = view.sole(width_pad).unwrap();
            assert(extended == head.push(width_pad as usize).push(height_pad as usize));
            assert(width_pad >= 0 && height_pad >= 0);
        }
        assert(lhs >= 0 && permuted >= 0 && windows_w >= 0 && windows_h >= 0);
    }
}

/// A kept or shared node where the im2col chain below a product would run
/// bars the match: the patches reshape, the permutation under it, or
/// either unfold under that, where it is not an interior of the view.
pub proof fn law_kept_interior_bars_the_match<E>(view: &PlanView<E>, index: int)
    requires
        view.well_formed(),
    ensures
        !view.interior(view.link(index, 0)) ==> window_match(view, index) is None,
        view.sole(view.link(index, 0)) matches Some(permuted) && !view.interior(permuted) ==> window_match(view, index) is None,
        view.sole(view.link(index, 0)) matches Some(permuted) && view.sole(permuted) matches Some(windows_w)
            && !view.interior(windows_w) ==> window_match(view, index) is None,
        view.sole(view.link(index, 0)) matches Some(permuted) && view.sole(permuted) matches Some(windows_w) && view.sole(
            windows_w,
        ) matches Some(windows_h) && !view.interior(windows_h) ==> window_match(view, index) is None,
{
}

/// Whether `found` is the candidate a match at `index` answers with `group`:
/// a window product rooted there, claiming `chain` and naming nothing.
pub open spec fn window_candidate(found: Candidate, index: int, group: (WindowProduct, Seq<usize>)) -> bool {
    &&& found.pattern == Pattern::WindowProduct(group.0)
    &&& found.root == index
    &&& found.interiors@ == group.1
    &&& found.named@.len() == 0
}

/// Computes the output geometry of the window product over a source of
/// `axes` padded by `padding` to `padded_height` x `padded_width`: `None`
/// where the windows do not fit or an extent leaves the machine word.
fn geometry(
    axes: &[usize],
    padding: usize,
    padded_height: usize,
    padded_width: usize,
    kernel_height: usize,
    kernel_width: usize,
    stride: usize,
) -> (extents: Option<(usize, usize)>)
    requires
        axes@.len() == 4,
        padded_height == axes@[2] + 2 * padding,
        padded_width == axes@[3] + 2 * padding,
    ensures
        match window_geometry(axes@, padding as int, kernel_height as int, kernel_width as int, stride as int) {
            Some((rows, columns)) => extents == Some((rows as usize, columns as usize)),
            None => extents is None,
        },
{
    if stride == 0 || padded_height < kernel_height || padded_width < kernel_width {
        return None;
    }
    let out_height = match ((padded_height - kernel_height) / stride).checked_add(1) {
        Some(extent) => extent,
        None => return None,
    };
    let out_width = match ((padded_width - kernel_width) / stride).checked_add(1) {
        Some(extent) => extent,
        None => return None,
    };
    let batch_rows = match axes[0].checked_mul(out_height) {
        Some(rows) => rows,
        None => return None,
    };
    let rows = match batch_rows.checked_mul(out_width) {
        Some(rows) => rows,
        None => return None,
    };
    let channel_columns = match axes[1].checked_mul(kernel_height) {
        Some(columns) => columns,
        None => return None,
    };
    let columns = match channel_columns.checked_mul(kernel_width) {
        Some(columns) => columns,
        None => return None,
    };
    Some((rows, columns))
}

/// Whether `full` is `extent` padded by `start` on both sides.
fn padded_to(extent: usize, start: usize, full: usize) -> (padded: bool)
    ensures
        padded == (full == extent + 2 * start),
{
    full >= extent && (full - extent) % 2 == 0 && (full - extent) / 2 == start
}

/// Whether `order` is the im2col lane permute `[0, 2, 4, 1, 3, 5]`.
fn lane_order(order: &Vec<usize>) -> (lanes: bool)
    ensures
        lanes == (order@ == seq![0usize, 2, 4, 1, 3, 5]),
{
    let lanes = order.len() == 6 && order[0] == 0 && order[1] == 2 && order[2] == 4 && order[3] == 1 && order[4] == 3
        && order[5] == 5;
    proof {
        if lanes {
            assert(order@ =~= seq![0usize, 2, 4, 1, 3, 5]);
        }
    }
    lanes
}

/// Folds the symmetric zero pads below the unfolds, extending `chain` by
/// them; returns the source, the padding and, where the pads folded, the
/// padded height and width.
fn fold_pads<E>(view: &PlanView<E>, source: usize, chain: &mut Vec<usize>) -> (folded: (usize, usize, Option<(usize, usize)>))
    requires
        view.well_formed(),
        source < view.len(),
    ensures
        (folded.0 as int, folded.1 as int, final(chain)@) == folded_pads(view, source as int, old(chain)@),
        folded.0 < view.len(),
        folded.2 matches Some((height, width)) ==> {
            &&& view.axes(folded.0 as int).len() == 4
            &&& height == view.axes(folded.0 as int)[2] + 2 * folded.1
            &&& width == view.axes(folded.0 as int)[3] + 2 * folded.1
        },
        folded.2 is None ==> folded.1 == 0,
{
    let (width_start, full_width) = match view.op(source) {
        Some(Opcode::Pad { axis, start, full_extent }) => {
            if !view.interior_ok(source) || *axis != 3 {
                return (source, 0, None);
            }
            (*start, *full_extent)
        },
        _ => return (source, 0, None),
    };
    let below = match view.sole_operand(source) {
        Some(node) => node,
        None => return (source, 0, None),
    };
    let (height_axis, height_start, full_height) = match view.op(below) {
        Some(Opcode::Pad { axis, start, full_extent }) => (*axis, *start, *full_extent),
        _ => return (source, 0, None),
    };
    let base = match view.sole_operand(below) {
        Some(node) => node,
        None => return (source, 0, None),
    };
    let base_axes = view.shape(base).axes();
    if view.interior_ok(below) && height_axis == 2 && base_axes.len() == 4 && height_start == width_start
        && padded_to(base_axes[2], height_start, full_height) && padded_to(base_axes[3], width_start, full_width) {
        chain.push(source);
        chain.push(below);
        (base, height_start, Some((full_height, full_width)))
    } else {
        (source, 0, None)
    }
}

/// Matches the canonical im2col chain feeding the `matmul` at `index` --
/// `reshape(permute(unfold(unfold(pad(pad(x)?)?))))` with the convolution's
/// geometry -- and returns the candidate group. The chain's nodes must be
/// interiors: wanted, outside the keep-set, and consumed exactly once.
pub fn match_at<E>(index: usize, view: &PlanView<E>) -> (found: Option<Candidate>)
    requires
        view.well_formed(),
    ensures
        match window_match(view, index as int) {
            Some(group) => found matches Some(candidate) && window_candidate(candidate, index as int, group),
            None => found is None,
        },
        found matches Some(candidate) ==> candidate.root == index && candidate.named@.len() == 0 && forall|k: int|
            0 <= k < candidate.interiors@.len() ==> view.interior(#[trigger] candidate.interiors@[k] as int),
{
    proof {
        law_window_chain_is_private(view, index as int);
    }
    match view.op(index) {
        Some(Opcode::MatMul) => {},
        _ => return None,
    }
    let links = view.operands(index);
    if links.len() < 2 {
        return None;
    }
    let lhs = links[0].0;
    let kernel = links[1].0;
    let reshape = match view.op(lhs) {
        Some(Opcode::Reshape { shape }) => shape,
        _ => return None,
    };
    if !view.interior_ok(lhs) || reshape.rank() != 2 {
        return None;
    }
    let permuted = match view.sole_operand(lhs) {
        Some(node) => node,
        None => return None,
    };
    let order = match view.op(permuted) {
        Some(Opcode::Permute { order }) => order,
        _ => return None,
    };
    if !view.interior_ok(permuted) || !lane_order(order) {
        return None;
    }
    let windows_w = match view.sole_operand(permuted) {
        Some(node) => node,
        None => return None,
    };
    let (kernel_width, stride) = match view.op(windows_w) {
        Some(Opcode::Unfold { axis, size, step, dilation }) => {
            if !view.interior_ok(windows_w) || *axis != 4 || *dilation != 1 {
                return None;
            }
            (*size, *step)
        },
        _ => return None,
    };
    let windows_h = match view.sole_operand(windows_w) {
        Some(node) => node,
        None => return None,
    };
    let kernel_height = match view.op(windows_h) {
        Some(Opcode::Unfold { axis, size, step, dilation }) => {
            if !view.interior_ok(windows_h) || *axis != 2 || *dilation != 1 || *step != stride {
                return None;
            }
            *size
        },
        _ => return None,
    };
    let below = match view.sole_operand(windows_h) {
        Some(node) => node,
        None => return None,
    };
    let mut chain: Vec<usize> = vec![lhs, permuted, windows_w, windows_h];
    let ghost start = chain@;
    let (source, padding, padded) = fold_pads(view, below, &mut chain);
    let axes = view.shape(source).axes();
    if axes.len() != 4 {
        return None;
    }
    let (padded_height, padded_width) = match padded {
        Some(extents) => extents,
        None => (axes[2], axes[3]),
    };
    let (rows, columns) = match geometry(axes, padding, padded_height, padded_width, kernel_height, kernel_width, stride) {
        Some(extents) => extents,
        None => return None,
    };
    let reshape_axes = reshape.axes();
    if reshape_axes[0] != rows || reshape_axes[1] != columns {
        return None;
    }
    proof {
        assert(start =~= seq![lhs, permuted, windows_w, windows_h]);
    }
    Some(Candidate {
        pattern: Pattern::WindowProduct(WindowProduct { source, kernel, kernel_height, kernel_width, stride, padding }),
        root: index,
        interiors: chain,
        named: Vec::new(),
    })
}

} // verus!
