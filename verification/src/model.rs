//! The extraction as mathematics: what one visit of a node does to the
//! per-class bests, what a round does, and where the rounds come to rest.
use crate::graph::GraphView;
use crate::total::{lemma_total_fits, total_cost, total_limit};
use vstd::prelude::*;

verus! {

/// The best that is known for one class: the classes it rests on, each with
/// the cost it adds, the sum of those costs, and the node that was chosen.
pub struct Best {
    pub costs: Map<usize, u64>,
    pub total: nat,
    pub choice: usize,
}

/// The cost mapping gathered from the first `upto` children of node `n`.
///
/// There is none if one of those children belongs to a class without a best,
/// or to a class whose best rests on the class of `n` itself: taking `n`
/// would close a cycle. Otherwise the mappings of the children are merged in
/// order, and an entry that is already there stays as it is.
pub open spec fn gather(g: GraphView, bests: Map<usize, Best>, n: int, upto: int) -> Option<
    Map<usize, u64>,
>
    decreases upto,
{
    if upto <= 0 {
        Some(Map::empty())
    } else {
        match gather(g, bests, n, upto - 1) {
            None => None,
            Some(merged) => {
                let d = g.child_class(n, upto - 1);
                if bests.contains_key(d) && !bests[d].costs.contains_key(g.class_of(n)) {
                    Some(bests[d].costs.union_prefer_right(merged))
                } else {
                    None
                }
            },
        }
    }
}

/// What node `n` offers to its class, given the bests as they stand: the
/// merged mappings of all its children, its own cost under its own class,
/// and the sum of it all.
pub open spec fn candidate(g: GraphView, bests: Map<usize, Best>, n: int) -> Option<Best> {
    match gather(g, bests, n, g.nodes[n].children.len() as int) {
        None => None,
        Some(merged) => {
            let costs = merged.insert(g.class_of(n), g.nodes[n].cost);
            Some(Best { costs, total: total_cost(costs), choice: n as usize })
        },
    }
}

/// An offer is taken where the class has no best yet, or where it is
/// strictly cheaper than the best.
pub open spec fn improves(bests: Map<usize, Best>, class: usize, offer: Best) -> bool {
    !bests.contains_key(class) || offer.total < bests[class].total
}

/// The bests after node `n` was visited.
pub open spec fn visit(g: GraphView, bests: Map<usize, Best>, n: int) -> Map<usize, Best> {
    match candidate(g, bests, n) {
        None => bests,
        Some(offer) => if improves(bests, g.class_of(n), offer) {
            bests.insert(g.class_of(n), offer)
        } else {
            bests
        },
    }
}

/// The bests after the nodes `0 .. upto` were visited in order, each visit
/// seeing what the visits before it left.
pub open spec fn sweep(g: GraphView, bests: Map<usize, Best>, upto: int) -> Map<usize, Best>
    decreases upto,
{
    if upto <= 0 {
        bests
    } else {
        visit(g, sweep(g, bests, upto - 1), upto - 1)
    }
}

/// The bests after one round: every node visited once.
pub open spec fn round(g: GraphView, bests: Map<usize, Best>) -> Map<usize, Best> {
    sweep(g, bests, g.nodes.len() as int)
}

/// The bests after `r` rounds, starting with no best at all.
pub open spec fn after_rounds(g: GraphView, r: nat) -> Map<usize, Best>
    decreases r,
{
    if r == 0 {
        Map::empty()
    } else {
        round(g, after_rounds(g, (r - 1) as nat))
    }
}

/// A further round would change nothing.
pub open spec fn settled(g: GraphView, bests: Map<usize, Best>) -> bool {
    round(g, bests) == bests
}

/// `r` rounds bring the bests to rest, and fewer do not.
pub open spec fn settles_at(g: GraphView, r: nat) -> bool {
    &&& settled(g, after_rounds(g, r))
    &&& forall|j: nat| j < r ==> !settled(g, #[trigger] after_rounds(g, j))
}

/// The number of rounds after which the bests are at rest.
pub open spec fn settling_round(g: GraphView) -> nat {
    choose|r: nat| settles_at(g, r)
}

/// The bests that extraction ends with.
pub open spec fn final_bests(g: GraphView) -> Map<usize, Best> {
    after_rounds(g, settling_round(g))
}

/// The node chosen for each class that has a best.
pub open spec fn choices(bests: Map<usize, Best>) -> Map<usize, usize> {
    Map::new(|c: usize| bests.contains_key(c), |c: usize| bests[c].choice)
}

/// What extraction returns for the graph: the node chosen for each class
/// that has a best when the rounds have come to rest.
pub open spec fn extraction(g: GraphView) -> Map<usize, usize> {
    choices(final_bests(g))
}

/// What holds of the best of a class at all times: the class is one of the
/// graph, the chosen node is a node of that class, the mapping holds only
/// classes of the graph, among them the class itself at the cost of the
/// chosen node, and the total is the sum of the mapping.
pub open spec fn best_ok(g: GraphView, class: usize, best: Best) -> bool {
    &&& class < g.num_classes
    &&& forall|k: usize| best.costs.contains_key(k) ==> k < g.num_classes
    &&& best.choice < g.nodes.len()
    &&& g.class_of(best.choice as int) == class
    &&& best.costs.contains_key(class)
    &&& best.costs[class] == g.nodes[best.choice as int].cost
    &&& best.total == total_cost(best.costs)
}

/// Every best is in order.
pub open spec fn bests_ok(g: GraphView, bests: Map<usize, Best>) -> bool {
    forall|c: usize| bests.contains_key(c) ==> best_ok(g, c, #[trigger] bests[c])
}

/// What class `c` weighs in the potential: its total where it has a best,
/// and more than any total where it has none.
pub open spec fn weight(bests: Map<usize, Best>, c: nat) -> nat {
    if c <= usize::MAX && bests.contains_key(c as usize) {
        bests[c as usize].total
    } else {
        total_limit() + 1
    }
}

/// The sum of the weights of the classes below `n`.
pub open spec fn potential_below(bests: Map<usize, Best>, n: nat) -> nat
    decreases n,
{
    if n == 0 {
        0
    } else {
        potential_below(bests, (n - 1) as nat) + weight(bests, (n - 1) as nat)
    }
}

/// The potential of the bests: it falls with every change that a visit
/// makes, and cannot fall below zero.
pub open spec fn potential(g: GraphView, bests: Map<usize, Best>) -> nat {
    potential_below(bests, g.num_classes as nat)
}

/// Once the gathering has failed at a child, it fails for every longer
/// prefix of the children.
pub proof fn lemma_gather_stays_none(g: GraphView, bests: Map<usize, Best>, n: int, i: int, j: int)
    requires
        i <= j,
        gather(g, bests, n, i) is None,
    ensures
        gather(g, bests, n, j) is None,
    decreases j - i,
{
    if i < j {
        lemma_gather_stays_none(g, bests, n, i, j - 1);
    }
}

/// Where the gathering succeeds, every child that went into it belongs to
/// a class with a best, and that best does not rest on the class of the
/// node; so the gathered mapping does not hold the class of the node.
pub proof fn lemma_gather_children(g: GraphView, bests: Map<usize, Best>, n: int, upto: int)
    requires
        gather(g, bests, n, upto) is Some,
    ensures
        !gather(g, bests, n, upto)->0.contains_key(g.class_of(n)),
        forall|k: int|
            0 <= k < upto ==> {
                &&& bests.contains_key(#[trigger] g.child_class(n, k))
                &&& !bests[g.child_class(n, k)].costs.contains_key(g.class_of(n))
            },
    decreases upto,
{
    if upto > 0 {
        lemma_gather_children(g, bests, n, upto - 1);
    }
}

/// A gathered mapping holds every class that the best of a child rests on,
/// and nothing else.
pub proof fn lemma_gather_keys(g: GraphView, bests: Map<usize, Best>, n: int, upto: int)
    requires
        gather(g, bests, n, upto) is Some,
    ensures
        forall|k: int, key: usize|
            0 <= k < upto && (#[trigger] bests[g.child_class(n, k)].costs.contains_key(key))
                ==> gather(g, bests, n, upto)->0.contains_key(key),
        forall|key: usize| #[trigger]
            gather(g, bests, n, upto)->0.contains_key(key) ==> exists|k: int|
                0 <= k < upto && (#[trigger] bests[g.child_class(n, k)].costs.contains_key(key)),
    decreases upto,
{
    if upto > 0 {
        lemma_gather_keys(g, bests, n, upto - 1);
        let merged = gather(g, bests, n, upto - 1)->0;
        let d = g.child_class(n, upto - 1);
        assert forall|key: usize| #[trigger]
            gather(g, bests, n, upto)->0.contains_key(key) implies exists|k: int|
            0 <= k < upto && (#[trigger] bests[g.child_class(n, k)].costs.contains_key(key)) by {
            if merged.contains_key(key) {
                let k = choose|k: int|
                    0 <= k < upto - 1 && (#[trigger] bests[g.child_class(n, k)].costs.contains_key(
                        key,
                    ));
                assert(0 <= k < upto && bests[g.child_class(n, k)].costs.contains_key(key));
            } else {
                assert(bests[g.child_class(n, upto - 1)].costs.contains_key(key));
            }
        }
    }
}

/// Setting the best of one class changes the potential by the difference
/// of its weight.
pub proof fn lemma_potential_insert(bests: Map<usize, Best>, class: usize, best: Best, n: nat)
    ensures
        potential_below(bests.insert(class, best), n) + (if class < n {
            weight(bests, class as nat)
        } else {
            0
        }) == potential_below(bests, n) + (if class < n {
            best.total
        } else {
            0
        }),
    decreases n,
{
    if n > 0 {
        lemma_potential_insert(bests, class, best, (n - 1) as nat);
    }
}

/// What a node offers is in order as the best of its class.
pub proof fn lemma_candidate_ok(g: GraphView, bests: Map<usize, Best>, n: int)
    requires
        g.wf(),
        0 <= n < g.nodes.len(),
        bests_ok(g, bests),
        candidate(g, bests, n) is Some,
    ensures
        best_ok(g, g.class_of(n), candidate(g, bests, n)->0),
        candidate(g, bests, n)->0.total <= total_limit(),
{
    assert(g.node_ok(n));
    lemma_total_fits(candidate(g, bests, n)->0.costs);
    let upto = g.nodes[n].children.len() as int;
    lemma_gather_children(g, bests, n, upto);
    lemma_gather_keys(g, bests, n, upto);
    let merged = gather(g, bests, n, upto)->0;
    assert forall|key: usize| merged.contains_key(key) implies key < g.num_classes by {
        let k = choose|k: int|
            0 <= k < upto && (#[trigger] bests[g.child_class(n, k)].costs.contains_key(key));
        assert(bests.contains_key(g.child_class(n, k)));
        assert(best_ok(g, g.child_class(n, k), bests[g.child_class(n, k)]));
    }
}

/// A visit keeps the bests in order, and either changes nothing or lowers
/// the potential.
pub proof fn lemma_visit(g: GraphView, bests: Map<usize, Best>, n: int)
    requires
        g.wf(),
        0 <= n < g.nodes.len(),
        bests_ok(g, bests),
    ensures
        bests_ok(g, visit(g, bests, n)),
        visit(g, bests, n) == bests || potential(g, visit(g, bests, n)) < potential(g, bests),
{
    let class = g.class_of(n);
    if candidate(g, bests, n) is Some {
        let offer = candidate(g, bests, n)->0;
        lemma_candidate_ok(g, bests, n);
        if improves(bests, class, offer) {
            lemma_potential_insert(bests, class, offer, g.num_classes as nat);
            if bests.contains_key(class) {
                assert(best_ok(g, class, bests[class]));
            }
        }
    }
}

} // verus!
