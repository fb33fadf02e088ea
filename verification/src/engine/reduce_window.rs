//! Matching the canonical max-pool window fold: the group a fusing run
//! computes as one direct window walk.

use vstd::prelude::*;

use crate::engine::catalog::Candidate;
use crate::engine::pattern::{Pattern, ReduceWindow};
use crate::engine::view::PlanView;
use crate::graph::opcode::Opcode;

verus! {

/// The lane a `narrow(4, start, 1)` at `node` reads, given the lanes node
/// learned so far: its start and the lanes node, `None` where `node` is no
/// such narrow or narrows another node than the one learned.
pub open spec fn lane<E>(view: &PlanView<E>, node: int, lanes: Option<usize>) -> Option<(usize, usize)> {
    match view.opcode(node) {
        Some(Opcode::Narrow { axis, start, len }) => if axis != 4 || len != 1 || view.sole(node) is None {
            None
        } else {
            let operand = view.sole(node).unwrap() as usize;
            match lanes {
                Some(learned) => if learned != operand {
                    None
                } else {
                    Some((start, learned))
                },
                None => Some((start, operand)),
            }
        },
        _ => None,
    }
}

/// The left-associated `maximum` fold below `current`: the fold nodes and
/// their right-hand lane narrows, top-down, the lane starts they read, the
/// bottom operand the fold starts from, and the lanes node learned; `None`
/// where a right-hand operand is no lane of the one lanes node.
pub open spec fn descent<E>(view: &PlanView<E>, current: int, lanes: Option<usize>) -> Option<(Seq<usize>, Seq<usize>, int, Option<usize>)>
    decreases current,
{
    if !(0 <= current < view.len()) || !(view.opcode(current) matches Some(Opcode::Maximum)) {
        Some((Seq::empty(), Seq::empty(), current, lanes))
    } else if view.links(current).len() < 2 || !(0 <= view.link(current, 0) < current) {
        None
    } else {
        let right = view.link(current, 1);
        match lane(view, right, lanes) {
            None => None,
            Some((start, learned)) => match descent(view, view.link(current, 0), Some(learned)) {
                None => None,
                Some((nodes, starts, bottom, last)) => Some(
                    (seq![current as usize, right as usize] + nodes, seq![start] + starts, bottom, last),
                ),
            },
        }
    }
}

/// `rest` with `nodes` and `starts` in front of its own.
pub open spec fn prefixed(
    nodes: Seq<usize>,
    starts: Seq<usize>,
    rest: Option<(Seq<usize>, Seq<usize>, int, Option<usize>)>,
) -> Option<(Seq<usize>, Seq<usize>, int, Option<usize>)> {
    match rest {
        None => None,
        Some((more, later, bottom, lanes)) => Some((nodes + more, starts + later, bottom, lanes)),
    }
}

/// Whether `starts`, read top-down, name the lanes `count - 1` down to `1`
/// of a fold of `count = starts.len() + 1` lanes in row-major lane order.
pub open spec fn descending(starts: Seq<usize>) -> bool {
    forall|k: int| 0 <= k < starts.len() ==> #[trigger] starts[k] == starts.len() - k
}

/// The lanes head over `lanes`: the merging reshape to
/// `[batch, channels, out_height, out_width, size * size]`, the lane
/// permute `[0, 1, 2, 4, 3, 5]`, and two undilated square unfolds of the
/// same size and step over the width axis 4 and the height axis 2 of a
/// rank-4 source; a fold of `count = size * size` lanes whose squeeze
/// `reshape` is `[batch, channels, out_height, out_width]`.
pub open spec fn pool_head<E>(view: &PlanView<E>, lanes: int, count: int, reshape: Seq<usize>) -> Option<(ReduceWindow, Seq<usize>)> {
    match view.opcode(lanes) {
        Some(Opcode::Reshape { shape: merged }) => if view.sole(lanes) is None {
            None
        } else {
            let permuted = view.sole(lanes).unwrap();
            match view.opcode(permuted) {
                Some(Opcode::Permute { order }) => if order@ != seq![0usize, 1, 2, 4, 3, 5] || view.sole(permuted) is None {
                    None
                } else {
                    let windows_w = view.sole(permuted).unwrap();
                    match view.opcode(windows_w) {
                        Some(Opcode::Unfold { axis, size, step, dilation }) => if axis != 4 || dilation != 1
                            || view.sole(windows_w) is None {
                            None
                        } else {
                            let windows_h = view.sole(windows_w).unwrap();
                            match view.opcode(windows_h) {
                                Some(Opcode::Unfold { axis: axis_h, size: size_h, step: step_h, dilation: dilation_h }) => {
                                    if axis_h != 2 || dilation_h != 1 || size_h != size || step_h != step
                                        || view.sole(windows_h) is None {
                                        None
                                    } else {
                                        let source = view.sole(windows_h).unwrap();
                                        let axes = view.axes(source);
                                        if axes.len() != 4 || count != size * size || step == 0 || axes[2] < size
                                            || axes[3] < size {
                                            None
                                        } else {
                                            let out_height = (axes[2] - size) / step as int + 1;
                                            let out_width = (axes[3] - size) / step as int + 1;
                                            if merged@.len() == 5 && merged@[0] == axes[0] && merged@[1] == axes[1]
                                                && merged@[2] == out_height && merged@[3] == out_width
                                                && merged@[4] == size * size && reshape[0] == axes[0]
                                                && reshape[1] == axes[1] && reshape[2] == out_height
                                                && reshape[3] == out_width {
                                                Some((
                                                    ReduceWindow { source: source as usize, size, stride: step },
                                                    seq![lanes as usize, permuted as usize, windows_w as usize, windows_h as usize],
                                                ))
                                            } else {
                                                None
                                            }
                                        }
                                    }
                                },
                                _ => None,
                            }
                        },
                        _ => None,
                    }
                },
                _ => None,
            }
        },
        _ => None,
    }
}

/// The max-pool group rooted at the squeeze `reshape` at `index`: a rank-4
/// reshape of a rank-5 value whose lane axis has folded to one and whose
/// leading axes it keeps, over a left-associated `maximum` fold of the
/// lane narrows `0, 1, ..` of one lanes head. Its interiors are the fold
/// top-down with each right-hand lane, the bottom lane, and the head.
pub open spec fn pool_match<E>(view: &PlanView<E>, index: int) -> Option<(ReduceWindow, Seq<usize>)> {
    match view.opcode(index) {
        Some(Opcode::Reshape { shape }) => if shape@.len() != 4 || view.sole(index) is None {
            None
        } else {
            let folded = view.sole(index).unwrap();
            let folded_axes = view.axes(folded);
            if folded_axes.len() != 5 || folded_axes[4] != 1 || shape@ != folded_axes.subrange(0, 4) {
                None
            } else {
                pool_fold(view, folded, shape@)
            }
        },
        _ => None,
    }
}

/// The max-pool group over the `maximum` fold at `folded` under the
/// squeeze `reshape`: the fold descends to the lane-0 narrow, reads the
/// lanes in row-major order, and the lanes head closes the geometry.
pub open spec fn pool_fold<E>(view: &PlanView<E>, folded: int, reshape: Seq<usize>) -> Option<(ReduceWindow, Seq<usize>)> {
    match descent(view, folded, None) {
        None => None,
        Some((nodes, starts, bottom, lanes)) => match lane(view, bottom, lanes) {
            None => None,
            Some((start, learned)) => if start != 0 || !descending(starts) {
                None
            } else {
                match pool_head(view, learned as int, starts.len() + 1int, reshape) {
                    None => None,
                    Some((group, head)) => Some((group, nodes.push(bottom as usize) + head)),
                }
            },
        },
    }
}

/// A matched max-pool group reads its window off the lanes head it
/// replaces: the head runs from the lanes reshape through the permute to
/// the unfold of the width axis 4 and the unfold of the height axis 2
/// under it, over the group's source; the window size is both unfolds'
/// window size and the stride both unfolds' step.
pub proof fn law_pool_window_follows_the_unfolds<E>(view: &PlanView<E>, lanes: int, count: int, reshape: Seq<usize>)
    requires
        view.well_formed(),
    ensures
        pool_head(view, lanes, count, reshape) matches Some((group, head)) ==> {
            &&& head.len() == 4
            &&& head[0] as int == lanes
            &&& view.sole(head[0] as int) == Some(head[1] as int)
            &&& view.sole(head[1] as int) == Some(head[2] as int)
            &&& view.sole(head[2] as int) == Some(head[3] as int)
            &&& view.sole(head[3] as int) == Some(group.source as int)
            &&& (view.opcode(head[2] as int) matches Some(Opcode::Unfold { axis, size, step, dilation }) && axis == 4
                && size == group.size && step == group.stride && dilation == 1)
            &&& (view.opcode(head[3] as int) matches Some(Opcode::Unfold { axis, size, step, dilation }) && axis == 2
                && size == group.size && step == group.stride && dilation == 1)
        },
{
    if let Some((group, head)) = pool_head(view, lanes, count, reshape) {
        let permuted = view.sole(lanes).unwrap();
        let windows_w = view.sole(permuted).unwrap();
        let windows_h = view.sole(windows_w).unwrap();
        let source = view.sole(windows_h).unwrap();
        assert(lanes >= 0 && permuted >= 0 && windows_w >= 0 && windows_h >= 0 && source >= 0);
    }
}

/// A matched max-pool group rooted at `index` reads its window off the
/// chain it replaces: the last four nodes of the chain are the lanes head,
/// whose width and height unfolds have the group's window size as their
/// size and its stride as their step, over the group's source.
pub proof fn law_pool_match_window_follows_the_unfolds<E>(view: &PlanView<E>, index: int)
    requires
        view.well_formed(),
    ensures
        pool_match(view, index) matches Some((group, chain)) ==> {
            let n = chain.len() as int;
            &&& n >= 4
            &&& view.sole(chain[n - 2] as int) == Some(chain[n - 1] as int)
            &&& view.sole(chain[n - 1] as int) == Some(group.source as int)
            &&& (view.opcode(chain[n - 2] as int) matches Some(Opcode::Unfold { axis, size, step, dilation }) && axis == 4
                && size == group.size && step == group.stride && dilation == 1)
            &&& (view.opcode(chain[n - 1] as int) matches Some(Opcode::Unfold { axis, size, step, dilation }) && axis == 2
                && size == group.size && step == group.stride && dilation == 1)
        },
{
    if let Some((group, chain)) = pool_match(view, index) {
        let folded = view.sole(index).unwrap();
        match view.opcode(index) {
            Some(Opcode::Reshape { shape }) => {
                match descent(view, folded, None) {
                    Some((nodes, starts, bottom, lanes)) => {
                        match lane(view, bottom, lanes) {
                            Some((start, learned)) => {
                                law_pool_window_follows_the_unfolds(view, learned as int, starts.len() + 1int, shape@);
                                let head = pool_head(view, learned as int, starts.len() + 1int, shape@).unwrap().1;
                                let prefix = nodes.push(bottom as usize);
                                assert(chain == prefix + head);
                                assert(chain[chain.len() - 2] == head[2]);
                                assert(chain[chain.len() - 1] == head[3]);
                            },
                            None => {},
                        }
                    },
                    None => {},
                }
            },
            _ => {},
        }
    }
}

/// Whether `found` is the candidate a match at `index` answers with `group`:
/// a max-pool window group rooted there, claiming the interiors and naming
/// nothing.
pub open spec fn pool_candidate(found: Candidate, index: int, group: (ReduceWindow, Seq<usize>)) -> bool {
    &&& found.pattern == Pattern::ReduceWindow(group.0)
    &&& found.root == index
    &&& found.interiors@ == group.1
    &&& found.named@.len() == 0
}

/// Returns the lane start of `index` if it is a `narrow(4, start, 1)` of
/// the one shared lanes node, learning that node on first sight.
fn lane_start<E>(index: usize, view: &PlanView<E>, lanes: &mut Option<usize>) -> (start: Option<usize>)
    requires
        view.well_formed(),
    ensures
        match lane(view, index as int, *old(lanes)) {
            Some((first, learned)) => start == Some(first) && *final(lanes) == Some(learned),
            None => start is None,
        },
{
    let (start, len) = match view.op(index) {
        Some(Opcode::Narrow { axis, start, len }) => {
            if *axis != 4 {
                return None;
            }
            (*start, *len)
        },
        _ => return None,
    };
    if len != 1 {
        return None;
    }
    let operand = match view.sole_operand(index) {
        Some(node) => node,
        None => return None,
    };
    match *lanes {
        Some(learned) => if learned != operand {
            None
        } else {
            Some(start)
        },
        None => {
            *lanes = Some(operand);
            Some(start)
        },
    }
}

/// Whether the node at `current` is a step of the `maximum` fold.
fn is_fold_step<E>(view: &PlanView<E>, current: usize) -> (step: bool)
    requires
        view.well_formed(),
    ensures
        step == (view.opcode(current as int) matches Some(Opcode::Maximum)),
{
    match view.op(current) {
        Some(Opcode::Maximum) => true,
        _ => false,
    }
}

/// Whether `order` is the pool lane permute `[0, 1, 2, 4, 3, 5]`.
fn pool_order(order: &Vec<usize>) -> (lanes: bool)
    ensures
        lanes == (order@ == seq![0usize, 1, 2, 4, 3, 5]),
{
    let lanes = order.len() == 6 && order[0] == 0 && order[1] == 1 && order[2] == 2 && order[3] == 4 && order[4] == 3
        && order[5] == 5;
    proof {
        if lanes {
            assert(order@ =~= seq![0usize, 1, 2, 4, 3, 5]);
        }
    }
    lanes
}

/// Matches the lanes head over `lanes` for a fold of `count` lanes under
/// the squeeze `reshape`.
fn match_head<E>(view: &PlanView<E>, lanes: usize, count: usize, reshape: &[usize]) -> (head: Option<(ReduceWindow, Vec<usize>)>)
    requires
        view.well_formed(),
        reshape@.len() == 4,
    ensures
        match pool_head(view, lanes as int, count as int, reshape@) {
            Some((group, nodes)) => head matches Some((found, chain)) && found == group && chain@ == nodes,
            None => head is None,
        },
{
    let merged = match view.op(lanes) {
        Some(Opcode::Reshape { shape }) => shape,
        _ => return None,
    };
    let permuted = match view.sole_operand(lanes) {
        Some(node) => node,
        None => return None,
    };
    let order = match view.op(permuted) {
        Some(Opcode::Permute { order }) => order,
        _ => return None,
    };
    if !pool_order(order) {
        return None;
    }
    let windows_w = match view.sole_operand(permuted) {
        Some(node) => node,
        None => return None,
    };
    let (size, stride) = match view.op(windows_w) {
        Some(Opcode::Unfold { axis, size, step, dilation }) => {
            if *axis != 4 || *dilation != 1 {
                return None;
            }
            (*size, *step)
        },
        _ => return None,
    };
    let windows_h = match view.sole_operand(windows_w) {
        Some(node) => node,
        None => return None,
    };
    match view.op(windows_h) {
        Some(Opcode::Unfold { axis, size: size_h, step, dilation }) => {
            if *axis != 2 || *dilation != 1 || *size_h != size || *step != stride {
                return None;
            }
        },
        _ => return None,
    }
    let source = match view.sole_operand(windows_h) {
        Some(node) => node,
        None => return None,
    };
    let axes = view.shape(source).axes();
    if axes.len() != 4 || stride == 0 || axes[2] < size || axes[3] < size {
        return None;
    }
    let lanes_per_window = match size.checked_mul(size) {
        Some(lanes_per_window) => lanes_per_window,
        None => return None,
    };
    if count != lanes_per_window {
        return None;
    }
    let out_height = match ((axes[2] - size) / stride).checked_add(1) {
        Some(extent) => extent,
        None => return None,
    };
    let out_width = match ((axes[3] - size) / stride).checked_add(1) {
        Some(extent) => extent,
        None => return None,
    };
    let merged_axes = merged.axes();
    if merged_axes.len() != 5 || merged_axes[0] != axes[0] || merged_axes[1] != axes[1] || merged_axes[2] != out_height
        || merged_axes[3] != out_width || merged_axes[4] != lanes_per_window {
        return None;
    }
    if reshape[0] != axes[0] || reshape[1] != axes[1] || reshape[2] != out_height || reshape[3] != out_width {
        return None;
    }
    let chain: Vec<usize> = vec![lanes, permuted, windows_w, windows_h];
    Some((ReduceWindow { source, size, stride }, chain))
}

/// Matches the canonical max-pool window chain rooted at `index` -- the
/// squeeze reshape of a left-associated `maximum` fold over the lane
/// narrows of `reshape(permute(unfold(unfold(x))))` -- and returns the
/// candidate group.
pub fn match_at<E>(index: usize, view: &PlanView<E>) -> (found: Option<Candidate>)
    requires
        view.well_formed(),
    ensures
        match pool_match(view, index as int) {
            Some(group) => found matches Some(candidate) && pool_candidate(candidate, index as int, group),
            None => found is None,
        },
{
    let reshape = match view.op(index) {
        Some(Opcode::Reshape { shape }) => shape,
        _ => return None,
    };
    if reshape.rank() != 4 {
        return None;
    }
    let folded = match view.sole_operand(index) {
        Some(node) => node,
        None => return None,
    };
    let folded_axes = view.shape(folded).axes();
    let squeezed = reshape.axes();
    if folded_axes.len() != 5 || folded_axes[4] != 1 || squeezed[0] != folded_axes[0] || squeezed[1] != folded_axes[1]
        || squeezed[2] != folded_axes[2] || squeezed[3] != folded_axes[3] {
        proof {
            if folded_axes@.len() == 5 && folded_axes@[4] == 1 {
                assert(squeezed@ != folded_axes@.subrange(0, 4));
            }
        }
        return None;
    }
    proof {
        assert(squeezed@ =~= folded_axes@.subrange(0, 4));
    }

    // Descend the left-associated fold: every right operand is one lane
    // narrow, and the chain bottoms out at the lane-0 narrow.
    let mut interiors: Vec<usize> = Vec::new();
    let mut lanes: Option<usize> = None;
    let mut starts: Vec<usize> = Vec::new();
    let mut current = folded;
    proof {
        assert(interiors@ + Seq::<usize>::empty() =~= Seq::<usize>::empty());
        match descent(view, folded as int, None) {
            Some((nodes, later, bottom, learned)) => {
                assert(interiors@ + nodes =~= nodes);
                assert(starts@ + later =~= later);
            },
            None => {},
        }
    }
    while is_fold_step(view, current)
        invariant
            view.well_formed(),
            current < view.len(),
            interiors@.len() == 2 * starts@.len(),
            squeezed@.len() == 4,
            pool_match(view, index as int) == pool_fold(view, folded as int, squeezed@),
            descent(view, folded as int, None) == prefixed(interiors@, starts@, descent(view, current as int, lanes)),
        decreases current,
    {
        let links = view.operands(current);
        if links.len() < 2 {
            return None;
        }
        let left = links[0].0;
        let right = links[1].0;
        let ghost before = lanes;
        let start = match lane_start(right, view, &mut lanes) {
            Some(start) => start,
            None => return None,
        };
        proof {
            let rest = descent(view, left as int, lanes);
            match rest {
                Some((nodes, later, bottom, learned)) => {
                    assert(interiors@ + (seq![current, right] + nodes) =~= interiors@.push(current).push(right) + nodes);
                    assert(starts@ + (seq![start] + later) =~= starts@.push(start) + later);
                },
                None => {},
            }
        }
        interiors.push(current);
        interiors.push(right);
        starts.push(start);
        current = left;
    }
    proof {
        assert(interiors@ + Seq::<usize>::empty() =~= interiors@);
        assert(starts@ + Seq::<usize>::empty() =~= starts@);
    }
    let ghost descended = interiors@;
    let bottom_start = match lane_start(current, view, &mut lanes) {
        Some(start) => start,
        None => return None,
    };
    if bottom_start != 0 {
        return None;
    }
    let learned = match lanes {
        Some(node) => node,
        None => return None,
    };
    interiors.push(current);
    let total = interiors.len();

    // Row-major lane order: the fold reads lanes `0, 1, ..` bottom-up, so
    // the descent sees the tail-first suffix.
    let count = starts.len() + 1;
    let mut ordered = true;
    let mut k: usize = 0;
    while k < starts.len()
        invariant
            k <= starts@.len(),
            ordered == (forall|j: int| 0 <= j < k ==> #[trigger] starts@[j] == starts@.len() - j),
        decreases starts@.len() - k,
    {
        if starts[k] != starts.len() - k {
            ordered = false;
        }
        k = k + 1;
    }
    if !ordered {
        return None;
    }
    let (group, head) = match match_head(view, learned, count, squeezed) {
        Some(matched) => matched,
        None => return None,
    };
    let mut claimed = interiors;
    let mut position: usize = 0;
    let ghost prefix = claimed@;
    while position < head.len()
        invariant
            position <= head@.len(),
            claimed@ == prefix + head@.subrange(0, position as int),
        decreases head@.len() - position,
    {
        claimed.push(head[position]);
        position = position + 1;
        proof {
            assert(prefix + head@.subrange(0, position as int) =~= (prefix + head@.subrange(0, position - 1)).push(
                head@[position - 1],
            ));
        }
    }
    proof {
        assert(head@.subrange(0, head@.len() as int) =~= head@);
        assert(prefix == descended.push(current));
    }
    Some(Candidate { pattern: Pattern::ReduceWindow(group), root: index, interiors: claimed, named: Vec::new() })
}

} // verus!
