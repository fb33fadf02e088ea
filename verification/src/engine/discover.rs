//! Discovery: every matcher run at every node of a plan, pooling the
//! candidate groups in priority order for the catalog to elect from.

use vstd::prelude::*;

use crate::engine::batch_norm::{match_inference, match_training, mean_along, norm_tail, training_match};
use crate::engine::catalog::{Candidate, Candidates};
use crate::engine::pattern::Pattern;
use crate::engine::reduce_window::{descent, lane, pool_candidate, pool_head, pool_match};
use crate::engine::view::PlanView;
use crate::engine::window::{law_window_chain_is_private, window_candidate, window_match};
use crate::engine::{reduce_window, window};

verus! {

/// The matchers in catalog order: the im2col window product, the max-pool
/// window reduction, then batch normalization in training mode before the
/// inference mode its tail also matches.
pub open spec fn matcher_count() -> int {
    4
}

/// Whether matcher `kind` finds a group rooted at `index`.
pub open spec fn found<E>(view: &PlanView<E>, index: int, kind: int) -> bool {
    if kind == 0 {
        window_match(view, index) is Some
    } else if kind == 1 {
        pool_match(view, index) is Some
    } else if kind == 2 {
        training_match(view, index) is Some
    } else {
        norm_tail(view, index) is Some
    }
}

/// Whether `candidate` is what matcher `kind` answers at `index`.
pub open spec fn answers<E>(view: &PlanView<E>, index: int, kind: int, candidate: Candidate) -> bool {
    if kind == 0 {
        window_match(view, index) matches Some(group) && window_candidate(candidate, index, group)
    } else if kind == 1 {
        pool_match(view, index) matches Some(group) && pool_candidate(candidate, index, group)
    } else if kind == 2 {
        &&& training_match(view, index) matches Some((group, interiors, named))
        &&& candidate.pattern == Pattern::BatchNormTraining(group)
        &&& candidate.root == index
        &&& candidate.interiors@ == interiors
        &&& candidate.named@ == named
    } else {
        &&& norm_tail(view, index) matches Some((group, interiors, _))
        &&& candidate.pattern == Pattern::BatchNormInference(group)
        &&& candidate.root == index
        &&& candidate.interiors@ == interiors
        &&& candidate.named@.len() == 0
    }
}

/// The `(node, matcher)` slots of the groups found at `index` by the
/// matchers before `kind`, in catalog order.
pub open spec fn found_at<E>(view: &PlanView<E>, index: int, kind: int) -> Seq<(int, int)>
    decreases kind,
{
    if kind <= 0 {
        Seq::empty()
    } else {
        found_at(view, index, kind - 1) + if found(view, index, kind - 1) {
            seq![(index, kind - 1)]
        } else {
            Seq::empty()
        }
    }
}

/// The `(node, matcher)` slots of every group found at the nodes below
/// `upto`: node by node in allocation order, catalog order at each node.
pub open spec fn slots<E>(view: &PlanView<E>, upto: int) -> Seq<(int, int)>
    decreases upto,
{
    if upto <= 0 {
        Seq::empty()
    } else {
        slots(view, upto - 1) + found_at(view, upto - 1, matcher_count())
    }
}

/// The fold a descent walks stays on the plan: its nodes, and a bottom
/// that reads a lane, are recorded nodes.
proof fn lemma_descent_within<E>(view: &PlanView<E>, current: int, lanes: Option<usize>)
    requires
        view.well_formed(),
    ensures
        descent(view, current, lanes) matches Some((nodes, starts, bottom, learned)) ==> forall|k: int|
            0 <= k < nodes.len() ==> #[trigger] nodes[k] < view.len(),
    decreases current,
{
    if 0 <= current < view.len() && view.links(current).len() >= 2 && 0 <= view.link(current, 0) < current {
        let right = view.link(current, 1);
        if let Some((start, learned)) = lane(view, right, lanes) {
            lemma_descent_within(view, view.link(current, 0), Some(learned));
            if let Some((nodes, starts, bottom, last)) = descent(view, view.link(current, 0), Some(learned)) {
                let whole = seq![current as usize, right as usize] + nodes;
                assert forall|k: int| 0 <= k < whole.len() implies #[trigger] whole[k] < view.len() by {
                    if k >= 2 {
                        assert(whole[k] == nodes[k - 2]);
                    }
                }
            }
        }
    }
}

/// Every node a window product claims is a node of the plan.
proof fn lemma_window_within<E>(view: &PlanView<E>, index: int, candidate: Candidate)
    requires
        view.well_formed(),
        0 <= index < view.len(),
        answers(view, index, 0, candidate),
    ensures
        candidate.within(view.len()),
{
    law_window_chain_is_private(view, index);
}

/// Every node a window reduction claims is a node of the plan.
proof fn lemma_pool_within<E>(view: &PlanView<E>, index: int, candidate: Candidate)
    requires
        view.well_formed(),
        0 <= index < view.len(),
        answers(view, index, 1, candidate),
    ensures
        candidate.within(view.len()),
{
    let folded = view.sole(index).unwrap();
    lemma_descent_within(view, folded, None);
    let (nodes, starts, bottom, lanes) = descent(view, folded, None).unwrap();
    let (start, learned) = lane(view, bottom, lanes).unwrap();
    let (group, head) = pool_head(view, learned as int, starts.len() + 1int, view.axes(folded).subrange(0, 4)).unwrap();
    let claimed = nodes.push(bottom as usize) + head;
    assert(candidate.interiors@ == claimed);
    assert forall|k: int| 0 <= k < claimed.len() implies #[trigger] claimed[k] < view.len() by {
        if k < nodes.len() {
            assert(claimed[k] == nodes[k]);
        } else if k == nodes.len() {
            assert(claimed[k] as int == bottom);
        } else {
            assert(claimed[k] == head[k - nodes.len() - 1]);
        }
    }
}

/// Every node a batch-normalization tail claims is a node of the plan.
proof fn lemma_tail_within<E>(view: &PlanView<E>, index: int)
    requires
        view.well_formed(),
    ensures
        norm_tail(view, index) matches Some((group, interiors, centered)) ==> {
            &&& forall|k: int| 0 <= k < interiors.len() ==> #[trigger] interiors[k] < view.len()
            &&& group.mean < view.len()
            &&& group.variance < view.len()
            &&& 0 <= centered < view.len()
        },
{
}

/// The reduction behind a recorded mean stays on the plan.
proof fn lemma_mean_within<E>(view: &PlanView<E>, node: int)
    requires
        view.well_formed(),
    ensures
        mean_along(view, node) matches Some((source, sum, count)) ==> {
            &&& 0 <= source < view.len()
            &&& 0 <= sum < view.len()
            &&& 0 <= count < view.len()
        },
{
}

/// Every node a matched group claims is a node of the plan.
proof fn lemma_found_within<E>(view: &PlanView<E>, index: int, kind: int, candidate: Candidate)
    requires
        view.well_formed(),
        0 <= index < view.len(),
        answers(view, index, kind, candidate),
    ensures
        candidate.within(view.len()),
{
    if kind == 0 {
        lemma_window_within(view, index, candidate);
    } else if kind == 1 {
        lemma_pool_within(view, index, candidate);
    } else if kind == 2 {
        lemma_tail_within(view, index);
        let (group, tail, centered) = norm_tail(view, index).unwrap();
        lemma_mean_within(view, group.mean as int);
        lemma_mean_within(view, group.variance as int);
        let (mean_source, mean_sum, mean_count) = mean_along(view, group.mean as int).unwrap();
        let (squared, var_sum, var_count) = mean_along(view, group.variance as int).unwrap();
        let extra = seq![mean_sum as usize, mean_count as usize, squared as usize, var_sum as usize, var_count as usize];
        let claimed = tail + extra;
        assert(candidate.interiors@ == claimed);
        assert forall|k: int| 0 <= k < claimed.len() implies #[trigger] claimed[k] < view.len() by {
            if k < tail.len() {
                assert(claimed[k] == tail[k]);
            } else {
                assert(claimed[k] == extra[k - tail.len()]);
            }
        }
    } else {
        lemma_tail_within(view, index);
    }
}

/// Appends what matcher `kind` found at `index`, if anything, to the
/// candidates of the slots before it.
fn push_found<E>(list: &mut Vec<Candidate>, found_here: Option<Candidate>, view: &PlanView<E>, index: usize, kind: Ghost<int>)
    requires
        view.well_formed(),
        index < view.len(),
        0 <= kind@ < matcher_count(),
        found_here is Some <==> found(view, index as int, kind@),
        found_here matches Some(candidate) ==> answers(view, index as int, kind@, candidate),
        old(list)@.len() == (slots(view, index as int) + found_at(view, index as int, kind@)).len(),
        forall|k: int|
            0 <= k < old(list)@.len() ==> answers(
                view,
                #[trigger] (slots(view, index as int) + found_at(view, index as int, kind@))[k].0,
                (slots(view, index as int) + found_at(view, index as int, kind@))[k].1,
                old(list)@[k],
            ),
        forall|k: int| 0 <= k < old(list)@.len() ==> #[trigger] old(list)@[k].within(view.len()),
    ensures
        final(list)@.len() == (slots(view, index as int) + found_at(view, index as int, kind@ + 1)).len(),
        forall|k: int|
            0 <= k < final(list)@.len() ==> answers(
                view,
                #[trigger] (slots(view, index as int) + found_at(view, index as int, kind@ + 1))[k].0,
                (slots(view, index as int) + found_at(view, index as int, kind@ + 1))[k].1,
                final(list)@[k],
            ),
        forall|k: int| 0 <= k < final(list)@.len() ==> #[trigger] final(list)@[k].within(view.len()),
{
    let ghost before = slots(view, index as int) + found_at(view, index as int, kind@);
    let ghost after = slots(view, index as int) + found_at(view, index as int, kind@ + 1);
    match found_here {
        Some(candidate) => {
            proof {
                lemma_found_within(view, index as int, kind@, candidate);
                assert(after =~= before.push((index as int, kind@)));
            }
            list.push(candidate);
        },
        None => {
            proof {
                assert(after =~= before);
            }
        },
    }
}

/// Pools the candidate groups of every node of the plan in `view`: node
/// by node in allocation order, and at each node the window product, the
/// window reduction, training-mode and then inference-mode batch
/// normalization, each that matches.
pub fn discover<E>(view: &PlanView<E>) -> (pool: Candidates)
    requires
        view.well_formed(),
    ensures
        pool.well_formed(),
        pool.length_spec() == view.len(),
        pool.list_spec().len() == slots(view, view.len() as int).len(),
        forall|k: int|
            0 <= k < pool.list_spec().len() ==> answers(
                view,
                #[trigger] slots(view, view.len() as int)[k].0,
                slots(view, view.len() as int)[k].1,
                pool.list_spec()[k],
            ),
{
    let length = view.node_count();
    let mut list: Vec<Candidate> = Vec::new();
    let mut index: usize = 0;
    while index < length
        invariant
            view.well_formed(),
            length == view.len(),
            index <= length,
            list@.len() == slots(view, index as int).len(),
            forall|k: int|
                0 <= k < list@.len() ==> answers(
                    view,
                    #[trigger] slots(view, index as int)[k].0,
                    slots(view, index as int)[k].1,
                    list@[k],
                ),
            forall|k: int| 0 <= k < list@.len() ==> #[trigger] list@[k].within(length as nat),
        decreases length - index,
    {
        proof {
            assert(slots(view, index as int) + found_at(view, index as int, 0) =~= slots(view, index as int));
        }
        push_found(&mut list, window::match_at(index, view), view, index, Ghost(0));
        push_found(&mut list, reduce_window::match_at(index, view), view, index, Ghost(1));
        push_found(&mut list, match_training(index, view), view, index, Ghost(2));
        push_found(&mut list, match_inference(index, view), view, index, Ghost(3));
        index = index + 1;
    }
    let pool = Candidates::new(length, list);
    pool.unwrap()
}

} // verus!
