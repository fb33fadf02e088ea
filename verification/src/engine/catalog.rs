use vstd::prelude::*;

use crate::engine::pattern::Pattern;

verus! {

/// One matched region of a plan: the pattern rooted at `root`, the
/// interior nodes the pattern's action replaces, and the named results
/// it produces besides the root.
#[derive(Debug, Clone)]
pub struct Candidate {
    /// The recognized pattern.
    pub pattern: Pattern,
    /// The node the pattern is rooted at.
    pub root: usize,
    /// The interior nodes the pattern's action never materializes.
    pub interiors: Vec<usize>,
    /// The named results the action produces besides the root.
    pub named: Vec<usize>,
}

impl Candidate {
    /// Whether `node` is one of the nodes this candidate claims when
    /// elected: its root, an interior, or a named result.
    pub open spec fn covers(&self, node: int) -> bool {
        node == self.root as int || self.replaces(node)
    }

    /// Whether `node` is an interior or a named result of this
    /// candidate: a node its action replaces.
    pub open spec fn replaces(&self, node: int) -> bool {
        0 <= node <= usize::MAX && (self.interiors@.contains(node as usize) || self.named@.contains(node as usize))
    }

    /// Whether every node this candidate claims lies below `length`.
    pub open spec fn within(&self, length: nat) -> bool {
        &&& self.root < length
        &&& forall|k: int| 0 <= k < self.interiors@.len() ==> #[trigger] self.interiors@[k] < length
        &&& forall|k: int| 0 <= k < self.named@.len() ==> #[trigger] self.named@[k] < length
    }
}

/// The plan's candidate pool over `length` nodes, in priority order.
#[derive(Debug, Clone)]
pub struct Candidates {
    length: usize,
    list: Vec<Candidate>,
}

impl Candidates {
    /// The number of plan nodes the pool ranges over.
    pub closed spec fn length_spec(&self) -> nat {
        self.length as nat
    }

    /// The candidates, in priority order.
    pub closed spec fn list_spec(&self) -> Seq<Candidate> {
        self.list@
    }

    /// Every candidate claims only nodes of the plan.
    pub open spec fn well_formed(&self) -> bool {
        forall|i: int| 0 <= i < self.list_spec().len() ==> #[trigger] self.list_spec()[i].within(self.length_spec())
    }

    /// Pools `list` over a plan of `length` nodes; `None` when some
    /// candidate names a node past the plan.
    pub fn new(length: usize, list: Vec<Candidate>) -> (pool: Option<Candidates>)
        ensures
            (forall|i: int| 0 <= i < list@.len() ==> #[trigger] list@[i].within(length as nat)) <==> pool is Some,
            pool matches Some(pool) ==> pool.length_spec() == length && pool.list_spec() == list@ && pool.well_formed(),
    {
        let mut i: usize = 0;
        while i < list.len()
            invariant
                i <= list@.len(),
                forall|j: int| 0 <= j < i ==> #[trigger] list@[j].within(length as nat),
            decreases list@.len() - i,
        {
            if !within(&list[i], length) {
                return None;
            }
            i += 1;
        }
        Some(Candidates { length, list })
    }

    /// Returns the number of plan nodes the pool ranges over.
    pub fn length(&self) -> (length: usize)
        ensures
            length == self.length_spec(),
    {
        self.length
    }

    /// Returns the candidates in priority order.
    pub fn candidates(&self) -> (list: &[Candidate])
        ensures
            list@ == self.list_spec(),
    {
        self.list.as_slice()
    }
}

/// Returns whether every node `candidate` claims lies below `length`.
fn within(candidate: &Candidate, length: usize) -> (inside: bool)
    ensures
        inside == candidate.within(length as nat),
{
    if candidate.root >= length {
        return false;
    }
    let mut k: usize = 0;
    while k < candidate.interiors.len()
        invariant
            k <= candidate.interiors@.len(),
            forall|j: int| 0 <= j < k ==> #[trigger] candidate.interiors@[j] < length,
        decreases candidate.interiors@.len() - k,
    {
        if candidate.interiors[k] >= length {
            return false;
        }
        k += 1;
    }
    let mut k: usize = 0;
    while k < candidate.named.len()
        invariant
            k <= candidate.named@.len(),
            forall|j: int| 0 <= j < k ==> #[trigger] candidate.named@[j] < length,
            forall|j: int| 0 <= j < candidate.interiors@.len() ==> #[trigger] candidate.interiors@[j] < length,
        decreases candidate.named@.len() - k,
    {
        if candidate.named[k] >= length {
            return false;
        }
        k += 1;
    }
    true
}

/// The state of an election: the pattern elected at each root, the
/// skip mask of replaced nodes, and the nodes claimed so far.
pub type Ballot = (Seq<Option<Pattern>>, Seq<bool>, Seq<bool>);

/// Whether none of the nodes `candidate` claims is claimed yet.
pub open spec fn free(claimed: Seq<bool>, candidate: Candidate) -> bool {
    &&& !claimed[candidate.root as int]
    &&& forall|k: int| 0 <= k < candidate.interiors@.len() ==> !claimed[#[trigger] candidate.interiors@[k] as int]
    &&& forall|k: int| 0 <= k < candidate.named@.len() ==> !claimed[#[trigger] candidate.named@[k] as int]
}

/// The ballot before any candidate is considered, over `length` nodes.
pub open spec fn opening(length: nat) -> Ballot {
    (Seq::new(length, |i: int| None), Seq::new(length, |i: int| false), Seq::new(length, |i: int| false))
}

/// Considers `candidate` with the repertoire's verdict `supported`: a
/// supported candidate whose nodes are all free claims them, marks its
/// interiors and named results replaced, and is elected at its root;
/// any other candidate leaves the ballot unchanged.
pub open spec fn consider(ballot: Ballot, candidate: Candidate, supported: bool) -> Ballot {
    if supported && free(ballot.2, candidate) {
        (
            ballot.0.update(candidate.root as int, Some(candidate.pattern)),
            Seq::new(ballot.1.len(), |i: int| ballot.1[i] || candidate.replaces(i)),
            Seq::new(ballot.2.len(), |i: int| ballot.2[i] || candidate.covers(i)),
        )
    } else {
        ballot
    }
}

/// The ballot after the first `count` candidates of `list` are
/// considered, in order, under the verdicts `verdicts`.
pub open spec fn ballot_after(list: Seq<Candidate>, verdicts: Seq<bool>, length: nat, count: nat) -> Ballot
    decreases count,
{
    if count == 0 {
        opening(length)
    } else {
        let before = ballot_after(list, verdicts, length, (count - 1) as nat);
        consider(before, list[count - 1], verdicts[count - 1])
    }
}

/// Whether the candidate at `index` is elected: supported, and with all
/// of its nodes still free when it is considered.
pub open spec fn elected(list: Seq<Candidate>, verdicts: Seq<bool>, length: nat, index: nat) -> bool {
    verdicts[index as int] && free(ballot_after(list, verdicts, length, index).2, list[index as int])
}

/// Whether a catalog that acts on `at` and skips `interior` is the
/// election of `list` under `verdicts` over `length` nodes, told by the
/// elected candidates: a candidate is elected exactly when it is supported
/// and none of its nodes is covered by a candidate elected before it;
/// each root carries exactly the pattern of the elected candidate rooted
/// there; a node is skipped exactly when an elected candidate replaces
/// it; and no node is covered by two elected candidates.
pub open spec fn elects(
    at: Seq<Option<Pattern>>,
    interior: Seq<bool>,
    list: Seq<Candidate>,
    verdicts: Seq<bool>,
    length: nat,
) -> bool {
    &&& at.len() == length
    &&& interior.len() == length
    &&& forall|k: int|
        0 <= k < list.len() ==> (#[trigger] elected(list, verdicts, length, k as nat) <==> verdicts[k] && forall|
            node: int,
            j: int,
        |
            0 <= j < k && #[trigger] list[k].covers(node) && #[trigger] elected(list, verdicts, length, j as nat)
                ==> !list[j].covers(node))
    &&& forall|node: int|
        0 <= node < length ==> ((#[trigger] at[node]) matches Some(pattern) ==> exists|k: int|
            0 <= k < list.len() && #[trigger] elected(list, verdicts, length, k as nat) && list[k].root == node
                && list[k].pattern == pattern)
    &&& forall|k: int|
        0 <= k < list.len() && #[trigger] elected(list, verdicts, length, k as nat) ==> at[list[k].root as int] == Some(
            list[k].pattern,
        )
    &&& forall|node: int|
        0 <= node < length ==> ((#[trigger] interior[node]) <==> exists|k: int|
            0 <= k < list.len() && #[trigger] elected(list, verdicts, length, k as nat) && list[k].replaces(node))
    &&& forall|first: int, second: int, node: int|
        #![trigger elected(list, verdicts, length, first as nat), elected(list, verdicts, length, second as nat), list[first].covers(node)]
        0 <= first < second < list.len() && elected(list, verdicts, length, first as nat) && elected(
            list,
            verdicts,
            length,
            second as nat,
        ) ==> !(list[first].covers(node) && list[second].covers(node))
}

/// Whether `verdicts` are answers `supports` can give on the patterns
/// of `list`, position for position.
pub open spec fn answers<F: Fn(&Pattern) -> bool>(supports: F, list: Seq<Candidate>, verdicts: Seq<bool>) -> bool {
    &&& verdicts.len() == list.len()
    &&& forall|i: int| 0 <= i < list.len() ==> supports.ensures((&list[i].pattern,), #[trigger] verdicts[i])
}

/// One consumer's election over the plan's candidate pool: the pattern
/// this consumer acts on at each root, and the skip mask of interior and
/// named nodes those actions replace.
#[derive(Debug, Clone)]
pub struct Catalog {
    at: Vec<Option<Pattern>>,
    interior: Vec<bool>,
}

impl Catalog {
    /// The pattern elected at each root.
    pub closed spec fn at_spec(&self) -> Seq<Option<Pattern>> {
        self.at@
    }

    /// The skip mask of replaced nodes.
    pub closed spec fn interior_spec(&self) -> Seq<bool> {
        self.interior@
    }

    /// Elects a consumer's catalog from the pool: walks the candidates in
    /// priority order and claims, first-wins, every candidate the
    /// repertoire `supports` whose nodes are all still free.
    /// Unsupported candidates do not claim, so their regions stay free
    /// for later supported candidates.
    pub fn elect<F: Fn(&Pattern) -> bool>(candidates: &Candidates, supports: F) -> (catalog: Catalog)
        requires
            candidates.well_formed(),
            forall|pattern: Pattern| #[trigger] supports.requires((&pattern,)),
        ensures
            exists|verdicts: Seq<bool>| {
                &&& answers(supports, candidates.list_spec(), verdicts)
                &&& catalog.at_spec() == ballot_after(candidates.list_spec(), verdicts, candidates.length_spec(), candidates.list_spec().len()).0
                &&& catalog.interior_spec() == ballot_after(candidates.list_spec(), verdicts, candidates.length_spec(), candidates.list_spec().len()).1
                &&& elects(catalog.at_spec(), catalog.interior_spec(), candidates.list_spec(), verdicts, candidates.length_spec())
            },
    {
        let length = candidates.length();
        let list = candidates.candidates();
        let mut at: Vec<Option<Pattern>> = Vec::new();
        let mut interior: Vec<bool> = Vec::new();
        let mut claimed: Vec<bool> = Vec::new();
        let mut n: usize = 0;
        while n < length
            invariant
                n <= length,
                at@ == Seq::new(n as nat, |i: int| None::<Pattern>),
                interior@ == Seq::new(n as nat, |i: int| false),
                claimed@ == Seq::new(n as nat, |i: int| false),
            decreases length - n,
        {
            at.push(None);
            interior.push(false);
            claimed.push(false);
            n += 1;
        }
        let ghost mut verdicts: Seq<bool> = Seq::empty();
        let mut index: usize = 0;
        while index < list.len()
            invariant
                length == candidates.length_spec(),
                list@ == candidates.list_spec(),
                candidates.well_formed(),
                forall|pattern: Pattern| #[trigger] supports.requires((&pattern,)),
                index <= list@.len(),
                verdicts.len() == index,
                forall|i: int| 0 <= i < index ==> supports.ensures((&list@[i].pattern,), #[trigger] verdicts[i]),
                at@ == ballot_after(list@, verdicts, length as nat, index as nat).0,
                interior@ == ballot_after(list@, verdicts, length as nat, index as nat).1,
                claimed@ == ballot_after(list@, verdicts, length as nat, index as nat).2,
            decreases list@.len() - index,
        {
            let candidate = &list[index];
            let supported = supports(&candidate.pattern);
            proof {
                lemma_ballot_lengths(list@, verdicts, length as nat, index as nat);
            }
            let open = supported && is_free(&claimed, candidate, Ghost(length as nat));
            if open {
                claim(&mut at, &mut interior, &mut claimed, candidate);
            }
            proof {
                let extended = verdicts.push(supported);
                lemma_ballot_extends(list@, verdicts, supported, length as nat, index as nat);
                verdicts = extended;
            }
            index += 1;
        }
        proof {
            assert(list@.len() == index);
            assert(answers(supports, candidates.list_spec(), verdicts));
            let items = list@;
            let nodes = length as nat;
            let count = items.len();
            lemma_ballot_lengths(items, verdicts, nodes, count);
            assert forall|k: int| 0 <= k < items.len() implies (#[trigger] elected(items, verdicts, nodes, k as nat)
                <==> verdicts[k] && forall|node: int, j: int|
                0 <= j < k && #[trigger] items[k].covers(node) && #[trigger] elected(items, verdicts, nodes, j as nat)
                    ==> !items[j].covers(node)) by {
                law_first_wins(items, verdicts, nodes, k as nat);
            }
            assert forall|node: int| 0 <= node < nodes implies ((#[trigger] at@[node]) matches Some(pattern) ==> exists|k: int|
                0 <= k < items.len() && #[trigger] elected(items, verdicts, nodes, k as nat) && items[k].root == node
                    && items[k].pattern == pattern) by {
                law_ballot_tracks_elected(items, verdicts, nodes, count, node);
            }
            assert forall|k: int| 0 <= k < items.len() && #[trigger] elected(items, verdicts, nodes, k as nat) implies at@[
                items[k].root as int] == Some(items[k].pattern) by {
                assert(items[k].within(nodes));
                law_ballot_tracks_elected(items, verdicts, nodes, count, items[k].root as int);
            }
            assert forall|node: int| 0 <= node < nodes implies ((#[trigger] interior@[node]) <==> exists|k: int|
                0 <= k < items.len() && #[trigger] elected(items, verdicts, nodes, k as nat) && items[k].replaces(node)) by {
                law_ballot_tracks_elected(items, verdicts, nodes, count, node);
            }
            assert forall|first: int, second: int, node: int|
                #![trigger elected(items, verdicts, nodes, first as nat), elected(items, verdicts, nodes, second as nat), items[first].covers(node)]
                0 <= first < second < items.len() && elected(items, verdicts, nodes, first as nat) && elected(
                    items,
                    verdicts,
                    nodes,
                    second as nat,
                ) implies !(items[first].covers(node) && items[second].covers(node)) by {
                law_elected_claims_are_disjoint(items, verdicts, nodes, first as nat, second as nat, node);
            }
            assert(elects(at@, interior@, items, verdicts, nodes));
        }
        Catalog { at, interior }
    }

    /// Returns the pattern this consumer acts on at `index`, if any.
    pub fn at(&self, index: usize) -> (pattern: Option<&Pattern>)
        requires
            index < self.at_spec().len(),
        ensures
            pattern == match self.at_spec()[index as int] {
                Some(elected) => Some(&elected),
                None => None,
            },
    {
        self.at[index].as_ref()
    }

    /// Returns whether this consumer's actions replace node `index`: an
    /// interior or named result of some elected entry.
    pub fn interior(&self, index: usize) -> (replaced: bool)
        requires
            index < self.interior_spec().len(),
        ensures
            replaced == self.interior_spec()[index as int],
    {
        self.interior[index]
    }

    /// Returns how many entries this consumer elected.
    pub fn groups(&self) -> (groups: usize)
        ensures
            groups == elected_count(self.at_spec()),
    {
        let mut groups: usize = 0;
        let mut index: usize = 0;
        while index < self.at.len()
            invariant
                index <= self.at@.len(),
                groups == elected_count(self.at@.take(index as int)),
                groups <= index,
            decreases self.at@.len() - index,
        {
            proof {
                assert(self.at@.take(index as int + 1).drop_last() =~= self.at@.take(index as int));
            }
            if self.at[index].is_some() {
                groups += 1;
            }
            index += 1;
        }
        proof {
            assert(self.at@.take(index as int) =~= self.at@);
        }
        groups
    }

    /// Returns the elected entries in root order: each root and the
    /// pattern this consumer acts on there.
    pub fn entries(&self) -> (entries: Vec<(usize, Pattern)>)
        ensures
            entries@ == elected_entries(self.at_spec(), self.at_spec().len()),
    {
        let mut entries: Vec<(usize, Pattern)> = Vec::new();
        let mut index: usize = 0;
        while index < self.at.len()
            invariant
                index <= self.at@.len(),
                entries@ == elected_entries(self.at@, index as nat),
            decreases self.at@.len() - index,
        {
            match self.at[index] {
                Some(pattern) => {
                    entries.push((index, pattern));
                },
                None => {},
            }
            index += 1;
        }
        entries
    }
}

/// The number of roots at which `at` elects a pattern.
pub open spec fn elected_count(at: Seq<Option<Pattern>>) -> nat
    decreases at.len(),
{
    if at.len() == 0 {
        0
    } else {
        elected_count(at.drop_last()) + if at.last() is Some { 1nat } else { 0nat }
    }
}

/// The elected entries among the first `count` roots of `at`, in root
/// order.
pub open spec fn elected_entries(at: Seq<Option<Pattern>>, count: nat) -> Seq<(usize, Pattern)>
    decreases count,
{
    if count == 0 {
        Seq::empty()
    } else {
        let before = elected_entries(at, (count - 1) as nat);
        match at[count - 1] {
            Some(pattern) => before.push(((count - 1) as usize, pattern)),
            None => before,
        }
    }
}

/// Returns whether every node `candidate` claims is still unclaimed.
fn is_free(claimed: &Vec<bool>, candidate: &Candidate, Ghost(length): Ghost<nat>) -> (open: bool)
    requires
        claimed@.len() == length,
        candidate.within(length),
    ensures
        open == free(claimed@, *candidate),
{
    if claimed[candidate.root] {
        return false;
    }
    let mut k: usize = 0;
    while k < candidate.interiors.len()
        invariant
            claimed@.len() == length,
            candidate.within(length),
            k <= candidate.interiors@.len(),
            forall|j: int| 0 <= j < k ==> !claimed@[#[trigger] candidate.interiors@[j] as int],
        decreases candidate.interiors@.len() - k,
    {
        if claimed[candidate.interiors[k]] {
            return false;
        }
        k += 1;
    }
    let mut k: usize = 0;
    while k < candidate.named.len()
        invariant
            claimed@.len() == length,
            candidate.within(length),
            k <= candidate.named@.len(),
            forall|j: int| 0 <= j < k ==> !claimed@[#[trigger] candidate.named@[j] as int],
            forall|j: int| 0 <= j < candidate.interiors@.len() ==> !claimed@[#[trigger] candidate.interiors@[j] as int],
        decreases candidate.named@.len() - k,
    {
        if claimed[candidate.named[k]] {
            return false;
        }
        k += 1;
    }
    true
}

/// Whether one of the first `upto` entries of `nodes` is `node`.
pub open spec fn lists(nodes: Seq<usize>, upto: int, node: int) -> bool {
    exists|j: int| 0 <= j < upto && #[trigger] nodes[j] as int == node
}

/// Listing one more entry adds exactly that entry.
proof fn lemma_lists_step(nodes: Seq<usize>, upto: int, node: int)
    requires
        0 <= upto < nodes.len(),
    ensures
        lists(nodes, upto + 1, node) == (lists(nodes, upto, node) || nodes[upto] as int == node),
{
    if lists(nodes, upto + 1, node) && nodes[upto] as int != node {
        let j = choose|j: int| 0 <= j < upto + 1 && #[trigger] nodes[j] as int == node;
        assert(0 <= j < upto && nodes[j] as int == node);
    }
}

/// Listing every entry of `nodes` is containment.
proof fn lemma_lists_all(nodes: Seq<usize>, node: int)
    requires
        0 <= node <= usize::MAX,
    ensures
        lists(nodes, nodes.len() as int, node) == nodes.contains(node as usize),
{
    if nodes.contains(node as usize) {
        let j = choose|j: int| 0 <= j < nodes.len() && nodes[j] == node as usize;
        assert(nodes[j] as int == node);
    }
}

/// Claims every node of `candidate`, marks its interiors and named
/// results replaced, and elects its pattern at its root.
fn claim(at: &mut Vec<Option<Pattern>>, interior: &mut Vec<bool>, claimed: &mut Vec<bool>, candidate: &Candidate)
    requires
        old(at)@.len() == old(claimed)@.len(),
        old(interior)@.len() == old(claimed)@.len(),
        candidate.within(old(claimed)@.len()),
    ensures
        final(at)@ == old(at)@.update(candidate.root as int, Some(candidate.pattern)),
        final(interior)@ == Seq::new(old(interior)@.len(), |i: int| old(interior)@[i] || candidate.replaces(i)),
        final(claimed)@ == Seq::new(old(claimed)@.len(), |i: int| old(claimed)@[i] || candidate.covers(i)),
{
    let size = claimed.len();
    let ghost claimed0 = claimed@;
    let ghost interior0 = interior@;
    let ghost length = claimed@.len();
    let ghost interiors = candidate.interiors@;
    let ghost named = candidate.named@;
    claimed.set(candidate.root, true);
    let mut k: usize = 0;
    while k < candidate.interiors.len()
        invariant
            candidate.within(length),
            interiors == candidate.interiors@,
            claimed@.len() == length,
            interior@.len() == length,
            length == size,
            k <= interiors.len(),
            forall|i: int| 0 <= i < length ==> #[trigger] claimed@[i] == (claimed0[i] || i == candidate.root as int || lists(interiors, k as int, i)),
            forall|i: int| 0 <= i < length ==> #[trigger] interior@[i] == (interior0[i] || lists(interiors, k as int, i)),
        decreases interiors.len() - k,
    {
        let node = candidate.interiors[k];
        proof {
            assert forall|i: int| 0 <= i < length implies lists(interiors, k + 1, i) == (lists(interiors, k as int, i) || node as int == i) by {
                lemma_lists_step(interiors, k as int, i);
            }
        }
        claimed.set(node, true);
        interior.set(node, true);
        k += 1;
    }
    let mut k: usize = 0;
    while k < candidate.named.len()
        invariant
            candidate.within(length),
            interiors == candidate.interiors@,
            named == candidate.named@,
            claimed@.len() == length,
            interior@.len() == length,
            length == size,
            k <= named.len(),
            forall|i: int| 0 <= i < length ==> #[trigger] claimed@[i] == (claimed0[i] || i == candidate.root as int || lists(interiors, interiors.len() as int, i) || lists(named, k as int, i)),
            forall|i: int| 0 <= i < length ==> #[trigger] interior@[i] == (interior0[i] || lists(interiors, interiors.len() as int, i) || lists(named, k as int, i)),
        decreases named.len() - k,
    {
        let node = candidate.named[k];
        proof {
            assert forall|i: int| 0 <= i < length implies lists(named, k + 1, i) == (lists(named, k as int, i) || node as int == i) by {
                lemma_lists_step(named, k as int, i);
            }
        }
        claimed.set(node, true);
        interior.set(node, true);
        k += 1;
    }
    at.set(candidate.root, Some(candidate.pattern));
    proof {
        assert forall|i: int| 0 <= i < length implies lists(interiors, interiors.len() as int, i) == interiors.contains(i as usize)
            && lists(named, named.len() as int, i) == named.contains(i as usize) by {
            lemma_lists_all(interiors, i);
            lemma_lists_all(named, i);
        }
        assert(claimed@ =~= Seq::new(claimed0.len(), |i: int| claimed0[i] || candidate.covers(i)));
        assert(interior@ =~= Seq::new(interior0.len(), |i: int| interior0[i] || candidate.replaces(i)));
    }
}

/// Electing is claiming: within one catalog, two elected candidates
/// never share a node -- no root, interior or named result is claimed
/// twice.
pub proof fn law_elected_claims_are_disjoint(
    list: Seq<Candidate>,
    verdicts: Seq<bool>,
    length: nat,
    first: nat,
    second: nat,
    node: int,
)
    requires
        forall|i: int| 0 <= i < list.len() ==> #[trigger] list[i].within(length),
        verdicts.len() == list.len(),
        first < second < list.len(),
        elected(list, verdicts, length, first),
        elected(list, verdicts, length, second),
    ensures
        !(list[first as int].covers(node) && list[second as int].covers(node)),
{
    if list[first as int].covers(node) && list[second as int].covers(node) {
        let winner = list[first as int];
        let later = list[second as int];
        assert(winner.within(length));
        assert(later.within(length));
        lemma_covered_node_in_range(winner, length, node);
        lemma_ballot_lengths(list, verdicts, length, first);
        lemma_ballot_lengths(list, verdicts, length, second);
        assert(ballot_after(list, verdicts, length, first + 1).2[node]);
        lemma_claims_persist(list, verdicts, length, first + 1, second, node);
        lemma_free_excludes(ballot_after(list, verdicts, length, second).2, later, node);
    }
}

/// The ballot tracks the elected candidates: after `count` candidates, a
/// node is claimed exactly when an elected one among them covers it,
/// replaced exactly when an elected one replaces it, and a root carries
/// exactly the pattern of the elected candidate rooted there.
pub proof fn law_ballot_tracks_elected(list: Seq<Candidate>, verdicts: Seq<bool>, length: nat, count: nat, node: int)
    requires
        forall|i: int| 0 <= i < list.len() ==> #[trigger] list[i].within(length),
        verdicts.len() == list.len(),
        count <= list.len(),
        0 <= node < length,
    ensures
        ballot_after(list, verdicts, length, count).2[node] <==> exists|k: int|
            0 <= k < count && #[trigger] elected(list, verdicts, length, k as nat) && list[k].covers(node),
        ballot_after(list, verdicts, length, count).1[node] <==> exists|k: int|
            0 <= k < count && #[trigger] elected(list, verdicts, length, k as nat) && list[k].replaces(node),
        ballot_after(list, verdicts, length, count).0[node] matches Some(pattern) ==> exists|k: int|
            0 <= k < count && #[trigger] elected(list, verdicts, length, k as nat) && list[k].root == node
                && list[k].pattern == pattern,
        forall|k: int|
            0 <= k < count && #[trigger] elected(list, verdicts, length, k as nat) && list[k].root == node
                ==> ballot_after(list, verdicts, length, count).0[node] == Some(list[k].pattern),
    decreases count,
{
    lemma_ballot_lengths(list, verdicts, length, count);
    if count > 0 {
        let last = (count - 1) as nat;
        law_ballot_tracks_elected(list, verdicts, length, last, node);
        lemma_ballot_lengths(list, verdicts, length, last);
        let before = ballot_after(list, verdicts, length, last);
        let candidate = list[last as int];
        assert(candidate.within(length));
        if elected(list, verdicts, length, last) {
            if candidate.covers(node) {
                assert(elected(list, verdicts, length, last) && list[last as int].covers(node));
            }
            if candidate.replaces(node) {
                assert(elected(list, verdicts, length, last) && list[last as int].replaces(node));
            }
            if candidate.root as int == node {
                assert(elected(list, verdicts, length, last) && list[last as int].root == node);
                // An earlier elected candidate rooted here would have
                // claimed the root this one found free.
                assert forall|k: int|
                    0 <= k < count && #[trigger] elected(list, verdicts, length, k as nat) && list[k].root == node
                    implies ballot_after(list, verdicts, length, count).0[node] == Some(list[k].pattern) by {
                    if k < last {
                        assert(list[k].covers(node));
                        assert(before.2[node]);
                    }
                }
            }
        }
    }
}

/// No root elects a pattern in a sequence of empty entries.
proof fn lemma_nothing_elected(at: Seq<Option<Pattern>>)
    requires
        forall|i: int| 0 <= i < at.len() ==> (#[trigger] at[i]) is None,
    ensures
        elected_count(at) == 0,
    decreases at.len(),
{
    if at.len() > 0 {
        assert forall|i: int| 0 <= i < at.drop_last().len() implies (#[trigger] at.drop_last()[i]) is None by {
            assert(at.drop_last()[i] == at[i]);
        }
        lemma_nothing_elected(at.drop_last());
    }
}

/// A repertoire that supports none of the first `count` candidates
/// elects nothing among them: the ballot stays the opening one, so the
/// catalog acts at no root, replaces no node and counts no groups.
pub proof fn law_empty_repertoire_elects_nothing(list: Seq<Candidate>, verdicts: Seq<bool>, length: nat, count: nat)
    requires
        forall|i: int| 0 <= i < count ==> !(#[trigger] verdicts[i]),
    ensures
        ballot_after(list, verdicts, length, count) == opening(length),
        elected_count(ballot_after(list, verdicts, length, count).0) == 0,
        forall|i: int| 0 <= i < length ==> (#[trigger] ballot_after(list, verdicts, length, count).0[i]) is None
            && !ballot_after(list, verdicts, length, count).1[i],
    decreases count,
{
    if count > 0 {
        law_empty_repertoire_elects_nothing(list, verdicts, length, (count - 1) as nat);
    }
    lemma_nothing_elected(opening(length).0);
}

/// First wins: a candidate is elected exactly when the repertoire supports
/// it and none of its nodes is covered by a candidate elected before it;
/// an unsupported candidate claims nothing.
pub proof fn law_first_wins(list: Seq<Candidate>, verdicts: Seq<bool>, length: nat, index: nat)
    requires
        forall|i: int| 0 <= i < list.len() ==> #[trigger] list[i].within(length),
        verdicts.len() == list.len(),
        index < list.len(),
    ensures
        elected(list, verdicts, length, index) <==> verdicts[index as int] && forall|node: int, k: int|
            0 <= k < index && #[trigger] list[index as int].covers(node) && #[trigger] elected(list, verdicts, length, k as nat)
                ==> !list[k].covers(node),
{
    let candidate = list[index as int];
    let claimed = ballot_after(list, verdicts, length, index).2;
    assert(candidate.within(length));
    lemma_ballot_lengths(list, verdicts, length, index);
    if verdicts[index as int] {
        if free(claimed, candidate) {
            assert forall|node: int, k: int|
                0 <= k < index && #[trigger] list[index as int].covers(node) && #[trigger] elected(list, verdicts, length, k as nat)
                implies !list[k].covers(node) by {
                lemma_covered_node_in_range(candidate, length, node);
                law_ballot_tracks_elected(list, verdicts, length, index, node);
                lemma_free_excludes(claimed, candidate, node);
            }
        } else {
            let node = if claimed[candidate.root as int] {
                candidate.root as int
            } else if exists|k: int| 0 <= k < candidate.interiors@.len() && claimed[#[trigger] candidate.interiors@[k] as int] {
                let k = choose|k: int| 0 <= k < candidate.interiors@.len() && claimed[#[trigger] candidate.interiors@[k] as int];
                candidate.interiors@[k] as int
            } else {
                let k = choose|k: int| 0 <= k < candidate.named@.len() && claimed[#[trigger] candidate.named@[k] as int];
                candidate.named@[k] as int
            };
            assert(claimed[node] && candidate.covers(node));
            lemma_covered_node_in_range(candidate, length, node);
            law_ballot_tracks_elected(list, verdicts, length, index, node);
            let k = choose|k: int| 0 <= k < index && #[trigger] elected(list, verdicts, length, k as nat) && list[k].covers(node);
            assert(list[index as int].covers(node) && elected(list, verdicts, length, k as nat));
        }
    }
}

/// A node a candidate covers lies inside the plan.
proof fn lemma_covered_node_in_range(candidate: Candidate, length: nat, node: int)
    requires
        candidate.within(length),
        candidate.covers(node),
    ensures
        0 <= node < length,
{
    if node != candidate.root as int {
        if candidate.interiors@.contains(node as usize) {
            let k = choose|k: int| 0 <= k < candidate.interiors@.len() && candidate.interiors@[k] == node as usize;
            assert(candidate.interiors@[k] < length);
        } else {
            let k = choose|k: int| 0 <= k < candidate.named@.len() && candidate.named@[k] == node as usize;
            assert(candidate.named@[k] < length);
        }
    }
}

/// A free candidate has none of its nodes claimed.
proof fn lemma_free_excludes(claimed: Seq<bool>, candidate: Candidate, node: int)
    requires
        free(claimed, candidate),
        candidate.covers(node),
    ensures
        !claimed[node],
{
    if node != candidate.root as int {
        if candidate.interiors@.contains(node as usize) {
            let k = choose|k: int| 0 <= k < candidate.interiors@.len() && candidate.interiors@[k] == node as usize;
            assert(!claimed[candidate.interiors@[k] as int]);
        } else {
            let k = choose|k: int| 0 <= k < candidate.named@.len() && candidate.named@[k] == node as usize;
            assert(!claimed[candidate.named@[k] as int]);
        }
    }
}

/// Once claimed, a node stays claimed for the rest of the election.
proof fn lemma_claims_persist(list: Seq<Candidate>, verdicts: Seq<bool>, length: nat, from: nat, to: nat, node: int)
    requires
        forall|i: int| 0 <= i < list.len() ==> #[trigger] list[i].within(length),
        from <= to <= list.len(),
        to <= verdicts.len(),
        0 <= node < length,
        ballot_after(list, verdicts, length, from).2[node],
    ensures
        ballot_after(list, verdicts, length, to).2[node],
    decreases to - from,
{
    if from < to {
        lemma_ballot_lengths(list, verdicts, length, from);
        assert(ballot_after(list, verdicts, length, from + 1).2[node]);
        lemma_claims_persist(list, verdicts, length, from + 1, to, node);
    }
}

/// Every ballot keeps one entry per plan node.
proof fn lemma_ballot_lengths(list: Seq<Candidate>, verdicts: Seq<bool>, length: nat, count: nat)
    requires
        forall|i: int| 0 <= i < list.len() ==> #[trigger] list[i].within(length),
        count <= list.len(),
        count <= verdicts.len(),
    ensures
        ballot_after(list, verdicts, length, count).0.len() == length,
        ballot_after(list, verdicts, length, count).1.len() == length,
        ballot_after(list, verdicts, length, count).2.len() == length,
    decreases count,
{
    if count > 0 {
        lemma_ballot_lengths(list, verdicts, length, (count - 1) as nat);
        assert(list[count - 1].within(length));
    }
}

/// Considering one more candidate extends the ballot by one step.
proof fn lemma_ballot_extends(list: Seq<Candidate>, verdicts: Seq<bool>, verdict: bool, length: nat, count: nat)
    requires
        count < list.len(),
        verdicts.len() == count,
    ensures
        ballot_after(list, verdicts.push(verdict), length, count + 1)
            == consider(ballot_after(list, verdicts, length, count), list[count as int], verdict),
{
    lemma_ballot_prefix(list, verdicts, verdicts.push(verdict), length, count);
}

/// The ballot after `count` steps reads only the first `count` verdicts.
proof fn lemma_ballot_prefix(list: Seq<Candidate>, left: Seq<bool>, right: Seq<bool>, length: nat, count: nat)
    requires
        count <= left.len(),
        count <= right.len(),
        forall|i: int| 0 <= i < count ==> left[i] == right[i],
    ensures
        ballot_after(list, left, length, count) == ballot_after(list, right, length, count),
    decreases count,
{
    if count > 0 {
        lemma_ballot_prefix(list, left, right, length, (count - 1) as nat);
    }
}

} // verus!
