//! The greedy extractor: rounds over all nodes, repeated until no class
//! improves.
use crate::fx::{has_key, key_list, lookup, put};
use crate::graph::Graph;
use crate::laws::{chosen_child, lemma_rounds_grounded, lemma_settles_once};
use crate::model::{
    after_rounds, best_ok, bests_ok, candidate, choices, extraction, final_bests, gather,
    lemma_gather_children, lemma_gather_stays_none, lemma_visit, potential, round, settled,
    settles_at, settling_round, sweep, visit, Best,
};
use crate::result::ExtractionResult;
use crate::total::{lemma_total_empty, lemma_total_fits, lemma_total_insert, total_cost};
use rustc_hash::FxHashMap;
use vstd::prelude::*;

verus! {

/// The best known for one class while the extraction runs.
pub struct CostSet {
    /// The cost added by each class that the choice rests on, the class
    /// itself among them.
    pub costs: FxHashMap<usize, u64>,
    /// The sum of `costs`.
    pub total: u128,
    /// The node that gave this mapping.
    pub choice: usize,
}

impl View for CostSet {
    type V = Best;

    open spec fn view(&self) -> Best {
        Best { costs: self.costs@, total: self.total as nat, choice: self.choice }
    }
}

/// The bests that a store holds, as mathematical values.
pub open spec fn bests_of(store: Map<usize, CostSet>) -> Map<usize, Best> {
    Map::new(|c: usize| store.contains_key(c), |c: usize| store[c]@)
}

/// Merges the entries of `from` into `into`, leaving every entry that is
/// already there as it is, and keeps `total` the sum of `into`.
fn absorb(into: &mut FxHashMap<usize, u64>, total: &mut u128, from: &FxHashMap<usize, u64>)
    requires
        *old(total) == total_cost(old(into)@),
    ensures
        final(into)@ == from@.union_prefer_right(old(into)@),
        *final(total) == total_cost(final(into)@),
{
    let ghost before = into@;
    let keys = key_list(from);
    let mut i: usize = 0;
    while i < keys.len()
        invariant
            i <= keys@.len(),
            keys@.no_duplicates(),
            forall|k: usize| keys@.contains(k) <==> from@.contains_key(k),
            *total == total_cost(into@),
            forall|j: int| 0 <= j < i ==> into@.contains_key(#[trigger] keys@[j]),
            forall|k: usize| #[trigger]
                before.contains_key(k) ==> into@.contains_key(k) && into@[k] == before[k],
            forall|k: usize| #[trigger]
                into@.contains_key(k) && !before.contains_key(k) ==> from@.contains_key(k)
                    && into@[k] == from@[k],
        decreases keys@.len() - i,
    {
        let key = keys[i];
        assert(keys@.contains(key));
        if !has_key(into, key) {
            let cost = *lookup(from, key).unwrap();
            proof {
                lemma_total_insert(into@, key, cost);
                lemma_total_fits(into@.insert(key, cost));
            }
            put(into, key, cost);
            *total = *total + cost as u128;
        }
        i += 1;
    }
    assert(into@ =~= from@.union_prefer_right(before)) by {
        assert forall|k: usize| from@.contains_key(k) implies into@.contains_key(k) by {
            assert(keys@.contains(k));
            let j = choose|j: int| 0 <= j < keys@.len() && keys@[j] == k;
            assert(into@.contains_key(keys@[j]));
        }
    }
}

/// What node `n` offers to its class, given the bests in `store`.
fn candidate_for(graph: &Graph, store: &FxHashMap<usize, CostSet>, n: usize) -> (offer: Option<
    CostSet,
>)
    requires
        n < graph@.nodes.len(),
        bests_ok(graph@, bests_of(store@)),
    ensures
        offer is Some == candidate(graph@, bests_of(store@), n as int) is Some,
        offer is Some ==> offer->0@ == candidate(graph@, bests_of(store@), n as int)->0,
{
    let ghost g = graph@;
    let ghost bests = bests_of(store@);
    let node = graph.node(n);
    let class = node.class;
    let count = graph.num_nodes();
    let mut costs: FxHashMap<usize, u64> = FxHashMap::default();
    let mut total: u128 = 0;
    proof {
        assert(costs@ =~= Map::<usize, u64>::empty());
        lemma_total_empty();
    }
    let mut k: usize = 0;
    while k < node.children.len()
        invariant
            k <= node.children@.len(),
            n < g.nodes.len(),
            g == graph@,
            g.wf(),
            bests == bests_of(store@),
            node@ == g.nodes[n as int],
            class == g.class_of(n as int),
            gather(g, bests, n as int, k as int) == Some(costs@),
            total == total_cost(costs@),
        decreases node.children@.len() - k,
    {
        let child = node.children[k];
        assert(g.node_ok(n as int));
        assert(g.nodes[n as int].children[k as int] < g.nodes.len());
        let child_class = graph.node(child).class;
        assert(child_class == g.child_class(n as int, k as int));
        match lookup(store, child_class) {
            None => {
                proof {
                    lemma_gather_stays_none(
                        g,
                        bests,
                        n as int,
                        k as int + 1,
                        node.children@.len() as int,
                    );
                }
                return None;
            },
            Some(best) => {
                assert(bests[child_class].costs == best.costs@);
                if has_key(&best.costs, class) {
                    proof {
                        lemma_gather_stays_none(
                            g,
                            bests,
                            n as int,
                            k as int + 1,
                            node.children@.len() as int,
                        );
                    }
                    return None;
                }
                absorb(&mut costs, &mut total, &best.costs);
            },
        }
        k += 1;
    }
    proof {
        lemma_gather_children(g, bests, n as int, node.children@.len() as int);
        lemma_total_insert(costs@, class, node.cost);
        lemma_total_fits(costs@.insert(class, node.cost));
    }
    put(&mut costs, class, node.cost);
    total = total + node.cost as u128;
    Some(CostSet { costs, total, choice: n })
}

/// Visits node `n`: where it offers its class something better than the
/// class has, the offer becomes the best of the class.
fn visit_node(graph: &Graph, store: &mut FxHashMap<usize, CostSet>, n: usize) -> (improved: bool)
    requires
        n < graph@.nodes.len(),
        bests_ok(graph@, bests_of(old(store)@)),
    ensures
        bests_of(final(store)@) == visit(graph@, bests_of(old(store)@), n as int),
        improved == (bests_of(final(store)@) != bests_of(old(store)@)),
{
    let ghost before = bests_of(store@);
    match candidate_for(graph, store, n) {
        None => false,
        Some(offer) => {
            let class = graph.node(n).class;
            let better = match lookup(store, class) {
                None => true,
                Some(best) => offer.total < best.total,
            };
            if better {
                let ghost taken = offer@;
                put(store, class, offer);
                assert(bests_of(store@) =~= before.insert(class, taken));
                assert(bests_of(store@)[class] == taken);
                true
            } else {
                false
            }
        },
    }
}

/// One round: visits every node once, in order. Says whether any class
/// improved.
fn run_round(graph: &Graph, store: &mut FxHashMap<usize, CostSet>) -> (improved: bool)
    requires
        bests_ok(graph@, bests_of(old(store)@)),
    ensures
        bests_of(final(store)@) == round(graph@, bests_of(old(store)@)),
        bests_ok(graph@, bests_of(final(store)@)),
        improved == (bests_of(final(store)@) != bests_of(old(store)@)),
        improved ==> potential(graph@, bests_of(final(store)@)) < potential(
            graph@,
            bests_of(old(store)@),
        ),
{
    let ghost g = graph@;
    let ghost before = bests_of(store@);
    let count = graph.num_nodes();
    let mut improved = false;
    let mut n: usize = 0;
    while n < count
        invariant
            n <= count,
            count == g.nodes.len(),
            g == graph@,
            g.wf(),
            bests_of(store@) == sweep(g, before, n as int),
            bests_ok(g, bests_of(store@)),
            !improved ==> bests_of(store@) == before,
            improved ==> potential(g, bests_of(store@)) < potential(g, before),
            potential(g, bests_of(store@)) <= potential(g, before),
        decreases count - n,
    {
        proof {
            lemma_visit(g, bests_of(store@), n as int);
        }
        let changed = visit_node(graph, store, n);
        if changed {
            improved = true;
        }
        n += 1;
    }
    improved
}

/// Extraction by greedy rounds with shared costs.
pub struct GreedyDagExtractor;

impl GreedyDagExtractor {
    /// The best of every class that can be resolved, as it stands when the
    /// rounds have come to rest.
    ///
    /// Starting with no best at all, rounds over all nodes are repeated until
    /// one of them improves no class. A best that a visit sets is seen by
    /// the visits that follow it in the same round.
    pub fn cost_sets(&self, graph: &Graph) -> (store: FxHashMap<usize, CostSet>)
        ensures
            bests_of(store@) == final_bests(graph@),
            bests_ok(graph@, bests_of(store@)),
            settles_at(graph@, settling_round(graph@)),
    {
        let ghost g = graph@;
        let mut store: FxHashMap<usize, CostSet> = FxHashMap::default();
        let ghost mut rounds: nat = 0;
        assert(bests_of(store@) =~= after_rounds(g, 0));
        let mut keep_going = true;
        while keep_going
            invariant
                g == graph@,
                bests_of(store@) == after_rounds(g, rounds),
                bests_ok(g, bests_of(store@)),
                !keep_going ==> settled(g, bests_of(store@)),
                forall|j: nat| j < rounds ==> !settled(g, #[trigger] after_rounds(g, j)),
            decreases
                    potential(g, bests_of(store@)),
                    (if keep_going {
                        1int
                    } else {
                        0int
                    }),
        {
            let improved = run_round(graph, &mut store);
            proof {
                if improved {
                    assert(!settled(g, after_rounds(g, rounds)));
                    assert(after_rounds(g, rounds + 1) == round(g, after_rounds(g, rounds)));
                    rounds = rounds + 1;
                }
            }
            keep_going = improved;
        }
        proof {
            assert(settles_at(g, rounds));
            lemma_settles_once(g, rounds, settling_round(g));
        }
        store
    }

    /// Chooses one node for every class that can be resolved without a
    /// cycle: the node that gave the class its best. A class that could not
    /// be resolved is absent from the result.
    ///
    /// All classes are treated alike: `_roots` names the classes that the
    /// caller is interested in and restricts nothing.
    pub fn extract(&self, graph: &Graph, _roots: &[usize]) -> (result: ExtractionResult)
        ensures
            result@ == extraction(graph@),
            settles_at(graph@, settling_round(graph@)),
            forall|c: usize| #[trigger]
                result@.contains_key(c) ==> {
                    &&& c < graph@.num_classes
                    &&& result@[c] < graph@.nodes.len()
                    &&& graph@.class_of(result@[c] as int) == c
                },
            forall|c: usize, k: int|
                result@.contains_key(c) && 0 <= k < graph@.nodes[result@[c] as int].children.len()
                    ==> result@.contains_key(#[trigger] graph@.child_class(result@[c] as int, k)),
    {
        let ghost g = graph@;
        let classes = graph.num_classes();
        let store = self.cost_sets(graph);
        let ghost bests = bests_of(store@);
        proof {
            lemma_rounds_grounded(g, settling_round(g));
        }
        let mut result = ExtractionResult::new();
        let mut class: usize = 0;
        while class < classes
            invariant
                class <= classes,
                classes == g.num_classes,
                bests == bests_of(store@),
                bests_ok(g, bests),
                forall|c: usize|
                    #![trigger result@.contains_key(c)]
                    #![trigger bests.contains_key(c)]
                    result@.contains_key(c) <==> c < class && bests.contains_key(c),
                forall|c: usize| #[trigger]
                    result@.contains_key(c) ==> result@[c] == bests[c].choice,
            decreases classes - class,
        {
            match lookup(&store, class) {
                None => {},
                Some(best) => {
                    result.choose_node(class, best.choice);
                },
            }
            class += 1;
        }
        assert(result@ =~= choices(bests)) by {
            assert forall|c: usize| bests.contains_key(c) implies c < classes by {
                assert(best_ok(g, c, bests[c]));
            }
        }
        assert forall|c: usize| #[trigger] result@.contains_key(c) implies {
            &&& c < g.num_classes
            &&& result@[c] < g.nodes.len()
            &&& g.class_of(result@[c] as int) == c
        } by {
            assert(best_ok(g, c, bests[c]));
        }
        assert forall|c: usize, k: int|
            result@.contains_key(c) && 0 <= k < g.nodes[result@[c] as int].children.len()
            implies result@.contains_key(#[trigger] g.child_class(result@[c] as int, k)) by {
            assert(chosen_child(g, bests, c, k) == g.child_class(result@[c] as int, k));
        }
        result
    }
}

} // verus!
