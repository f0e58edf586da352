//! What holds of every extraction, proved of the model that
//! [`GreedyDagExtractor::extract`](crate::extractor::GreedyDagExtractor::extract)
//! is proved to follow.
use crate::graph::GraphView;
use crate::model::{
    after_rounds, best_ok, bests_ok, candidate, extraction, final_bests, gather, improves,
    lemma_candidate_ok, lemma_gather_children, lemma_gather_keys, lemma_visit, potential,
    potential_below, round, settled, settles_at, settling_round, sweep, visit, Best,
};
use crate::total::{lemma_merge_counts_once, lemma_total_insert, total_cost, total_limit};
use vstd::prelude::*;

verus! {

/// Every class that had a best still has one, and it is either the very
/// same best or one with a strictly smaller total.
pub open spec fn no_worse(before: Map<usize, Best>, after: Map<usize, Best>) -> bool {
    forall|c: usize| #[trigger]
        before.contains_key(c) ==> after.contains_key(c) && (after[c] == before[c]
            || after[c].total < before[c].total)
}

/// A visit leaves no class worse off: the best of a class changes only for
/// a strictly smaller total.
pub proof fn lemma_visit_no_worse(g: GraphView, bests: Map<usize, Best>, n: int)
    ensures
        no_worse(bests, visit(g, bests, n)),
{
}

/// Neither does any number of visits in a row.
pub proof fn lemma_sweep_no_worse(g: GraphView, bests: Map<usize, Best>, upto: int)
    ensures
        no_worse(bests, sweep(g, bests, upto)),
    decreases upto,
{
    if upto > 0 {
        lemma_sweep_no_worse(g, bests, upto - 1);
        lemma_visit_no_worse(g, sweep(g, bests, upto - 1), upto - 1);
    }
}

/// Over the whole run the total recorded for a class never rises. Between any two rounds the best of a class is unchanged or
/// has become strictly cheaper, and a class that has a best keeps one.
pub proof fn lemma_totals_never_rise(g: GraphView, earlier: nat, later: nat)
    requires
        earlier <= later,
    ensures
        no_worse(after_rounds(g, earlier), after_rounds(g, later)),
    decreases later - earlier,
{
    if earlier < later {
        lemma_totals_never_rise(g, earlier, (later - 1) as nat);
        lemma_sweep_no_worse(g, after_rounds(g, (later - 1) as nat), g.nodes.len() as int);
    }
}

/// Any number of visits keeps the bests in order, and either changes
/// nothing or lowers the potential.
pub proof fn lemma_sweep(g: GraphView, bests: Map<usize, Best>, upto: int)
    requires
        g.wf(),
        upto <= g.nodes.len(),
        bests_ok(g, bests),
    ensures
        bests_ok(g, sweep(g, bests, upto)),
        sweep(g, bests, upto) == bests || potential(g, sweep(g, bests, upto)) < potential(
            g,
            bests,
        ),
    decreases upto,
{
    if upto > 0 {
        lemma_sweep(g, bests, upto - 1);
        lemma_visit(g, sweep(g, bests, upto - 1), upto - 1);
    }
}

/// The bests are in order after every round.
pub proof fn lemma_rounds_ok(g: GraphView, r: nat)
    requires
        g.wf(),
    ensures
        bests_ok(g, after_rounds(g, r)),
    decreases r,
{
    if r > 0 {
        lemma_rounds_ok(g, (r - 1) as nat);
        lemma_sweep(g, after_rounds(g, (r - 1) as nat), g.nodes.len() as int);
    }
}

/// The number of rounds that can improve anything: the number of classes
/// times the number of values that a total can take.
pub open spec fn round_limit(g: GraphView) -> nat {
    (g.num_classes as nat) * (total_limit() + 1)
}

proof fn lemma_potential_of_nothing(n: nat)
    ensures
        potential_below(Map::<usize, Best>::empty(), n) == n * (total_limit() + 1),
    decreases n,
{
    let unit = total_limit() + 1;
    if n == 0 {
        assert(0 * unit == 0) by (nonlinear_arith);
    } else {
        lemma_potential_of_nothing((n - 1) as nat);
        let nothing = Map::<usize, Best>::empty();
        assert(!nothing.contains_key((n - 1) as usize));
        assert(potential_below(nothing, n) == potential_below(nothing, (n - 1) as nat) + unit);
        assert(n * unit == (n - 1) * unit + unit) by (nonlinear_arith);
    }
}

proof fn lemma_search(g: GraphView, r: nat)
    requires
        g.wf(),
        forall|j: nat| j < r ==> !settled(g, #[trigger] after_rounds(g, j)),
        potential(g, after_rounds(g, r)) + r <= round_limit(g),
    ensures
        exists|at: nat| settles_at(g, at) && at <= round_limit(g),
    decreases potential(g, after_rounds(g, r)),
{
    let bests = after_rounds(g, r);
    if settled(g, bests) {
        assert(settles_at(g, r));
    } else {
        lemma_rounds_ok(g, r);
        lemma_sweep(g, bests, g.nodes.len() as int);
        assert(after_rounds(g, r + 1) == round(g, bests));
        lemma_search(g, r + 1);
    }
}

/// Two numbers of rounds at which the bests first come to rest are the same
/// number.
pub proof fn lemma_settles_once(g: GraphView, a: nat, b: nat)
    requires
        settles_at(g, a),
        settles_at(g, b),
    ensures
        a == b,
{
    if a < b {
        assert(!settled(g, after_rounds(g, a)));
    } else if b < a {
        assert(!settled(g, after_rounds(g, b)));
    }
}

/// On every graph the rounds come to rest, and no more rounds improve
/// anything than there are classes times values of a total.
pub proof fn lemma_settles(g: GraphView)
    requires
        g.wf(),
    ensures
        settles_at(g, settling_round(g)),
        settling_round(g) <= round_limit(g),
{
    lemma_potential_of_nothing(g.num_classes as nat);
    assert(after_rounds(g, 0) == Map::<usize, Best>::empty());
    lemma_search(g, 0);
    let at = choose|at: nat| settles_at(g, at) && at <= round_limit(g);
    lemma_settles_once(g, at, settling_round(g));
}

/// Every node of a class in `classes` has a child of a class in `classes`:
/// no class of the set can be resolved before another one of the set is. A
/// class without nodes may belong to such a set, and so may a class whose
/// every node needs one.
pub open spec fn barred(g: GraphView, classes: Set<usize>) -> bool {
    forall|n: int|
        0 <= n < g.nodes.len() && classes.contains(#[trigger] g.class_of(n)) ==> exists|k: int|
            0 <= k < g.nodes[n].children.len() && classes.contains(#[trigger] g.child_class(n, k))
}

/// None of `classes` has a best.
pub open spec fn avoids(bests: Map<usize, Best>, classes: Set<usize>) -> bool {
    forall|c: usize| #[trigger] bests.contains_key(c) ==> !classes.contains(c)
}

/// A visit gives no barred class a best.
pub proof fn lemma_visit_avoids(g: GraphView, bests: Map<usize, Best>, n: int, classes: Set<usize>)
    requires
        0 <= n < g.nodes.len(),
        barred(g, classes),
        avoids(bests, classes),
    ensures
        avoids(visit(g, bests, n), classes),
{
    if candidate(g, bests, n) is Some && classes.contains(g.class_of(n)) {
        let upto = g.nodes[n].children.len() as int;
        lemma_gather_children(g, bests, n, upto);
        let k = choose|k: int|
            0 <= k < g.nodes[n].children.len() && classes.contains(#[trigger] g.child_class(n, k));
        assert(bests.contains_key(g.child_class(n, k)));
    }
}

/// Nor does any number of visits in a row.
pub proof fn lemma_sweep_avoids(
    g: GraphView,
    bests: Map<usize, Best>,
    upto: int,
    classes: Set<usize>,
)
    requires
        upto <= g.nodes.len(),
        barred(g, classes),
        avoids(bests, classes),
    ensures
        avoids(sweep(g, bests, upto), classes),
    decreases upto,
{
    if upto > 0 {
        lemma_sweep_avoids(g, bests, upto - 1, classes);
        lemma_visit_avoids(g, sweep(g, bests, upto - 1), upto - 1, classes);
    }
}

/// Nor any number of rounds.
pub proof fn lemma_rounds_avoid(g: GraphView, r: nat, classes: Set<usize>)
    requires
        barred(g, classes),
    ensures
        avoids(after_rounds(g, r), classes),
    decreases r,
{
    if r > 0 {
        lemma_rounds_avoid(g, (r - 1) as nat, classes);
        lemma_sweep_avoids(g, after_rounds(g, (r - 1) as nat), g.nodes.len() as int, classes);
    }
}

/// A class that has no node, or whose every node needs, directly or through
/// other classes, a class that has none, is absent from the result. More
/// generally no class of a barred set is in the result.
pub proof fn lemma_barred_classes_absent(g: GraphView, classes: Set<usize>)
    requires
        barred(g, classes),
    ensures
        forall|c: usize| classes.contains(c) ==> !(#[trigger] extraction(g).contains_key(c)),
{
    lemma_rounds_avoid(g, settling_round(g), classes);
    assert(avoids(final_bests(g), classes));
}

/// Every class that a best rests on has a best itself.
pub open spec fn keys_resolved(bests: Map<usize, Best>) -> bool {
    forall|c: usize, key: usize|
        bests.contains_key(c) && #[trigger] bests[c].costs.contains_key(key) ==> bests.contains_key(
            key,
        )
}

/// A visit keeps it so.
pub proof fn lemma_visit_keys_resolved(g: GraphView, bests: Map<usize, Best>, n: int)
    requires
        keys_resolved(bests),
    ensures
        keys_resolved(visit(g, bests, n)),
{
    let after = visit(g, bests, n);
    if after != bests {
        let class = g.class_of(n);
        let upto = g.nodes[n].children.len() as int;
        lemma_gather_children(g, bests, n, upto);
        lemma_gather_keys(g, bests, n, upto);
        assert forall|c: usize, key: usize|
            after.contains_key(c) && #[trigger] after[c].costs.contains_key(
                key,
            ) implies after.contains_key(key) by {
            if c == class && key != class {
                let merged = gather(g, bests, n, upto)->0;
                assert(merged.contains_key(key));
                let k = choose|k: int|
                    0 <= k < upto && (#[trigger] bests[g.child_class(n, k)].costs.contains_key(key));
                assert(bests.contains_key(g.child_class(n, k)));
            }
        }
    }
}

/// So does any number of visits in a row.
pub proof fn lemma_sweep_keys_resolved(g: GraphView, bests: Map<usize, Best>, upto: int)
    requires
        keys_resolved(bests),
    ensures
        keys_resolved(sweep(g, bests, upto)),
    decreases upto,
{
    if upto > 0 {
        lemma_sweep_keys_resolved(g, bests, upto - 1);
        lemma_visit_keys_resolved(g, sweep(g, bests, upto - 1), upto - 1);
    }
}

/// After every round, every class that a best rests on has a best itself.
pub proof fn lemma_rounds_keys_resolved(g: GraphView, r: nat)
    ensures
        keys_resolved(after_rounds(g, r)),
    decreases r,
{
    if r > 0 {
        lemma_rounds_keys_resolved(g, (r - 1) as nat);
        lemma_sweep_keys_resolved(g, after_rounds(g, (r - 1) as nat), g.nodes.len() as int);
    }
}

/// Where the gathering fails, one of the children is at fault: its class
/// has no best, or its best rests on the class of the node.
pub proof fn lemma_gather_fails_at_a_child(
    g: GraphView,
    bests: Map<usize, Best>,
    n: int,
    upto: int,
)
    requires
        gather(g, bests, n, upto) is None,
    ensures
        exists|k: int|
            0 <= k < upto && (!bests.contains_key(#[trigger] g.child_class(n, k)) || bests[g.child_class(
                n,
                k,
            )].costs.contains_key(g.class_of(n))),
    decreases upto,
{
    if upto > 0 {
        if gather(g, bests, n, upto - 1) is None {
            lemma_gather_fails_at_a_child(g, bests, n, upto - 1);
            let k = choose|k: int|
                0 <= k < upto - 1 && (!bests.contains_key(#[trigger] g.child_class(n, k))
                    || bests[g.child_class(n, k)].costs.contains_key(g.class_of(n)));
            assert(0 <= k < upto && (!bests.contains_key(g.child_class(n, k)) || bests[g.child_class(
                n,
                k,
            )].costs.contains_key(g.class_of(n))));
        } else {
            let k = upto - 1;
            assert(!bests.contains_key(g.child_class(n, k)) || bests[g.child_class(
                n,
                k,
            )].costs.contains_key(g.class_of(n)));
        }
    }
}

proof fn lemma_potential_never_rises(g: GraphView, bests: Map<usize, Best>, from: int, upto: int)
    requires
        g.wf(),
        0 <= from <= upto <= g.nodes.len(),
        bests_ok(g, bests),
    ensures
        potential(g, sweep(g, bests, upto)) <= potential(g, sweep(g, bests, from)),
    decreases upto - from,
{
    if from < upto {
        lemma_potential_never_rises(g, bests, from, upto - 1);
        lemma_sweep(g, bests, upto - 1);
        lemma_visit(g, sweep(g, bests, upto - 1), upto - 1);
    }
}

/// Where a round changes nothing, no visit of it changes anything.
pub proof fn lemma_settled_visits_change_nothing(g: GraphView, bests: Map<usize, Best>, n: int)
    requires
        g.wf(),
        bests_ok(g, bests),
        settled(g, bests),
        0 <= n < g.nodes.len(),
    ensures
        visit(g, bests, n) == bests,
{
    let last = g.nodes.len() as int;
    lemma_sweep(g, bests, n);
    lemma_potential_never_rises(g, bests, n, last);
    assert(sweep(g, bests, n) == bests);
    lemma_sweep(g, bests, n + 1);
    lemma_potential_never_rises(g, bests, n + 1, last);
    assert(sweep(g, bests, n + 1) == bests);
}

/// At rest no node has anything better to offer: whatever a node offers,
/// its class has a best that costs no more.
pub proof fn lemma_no_offer_is_cheaper(g: GraphView, n: int)
    requires
        g.wf(),
        0 <= n < g.nodes.len(),
        candidate(g, final_bests(g), n) is Some,
    ensures
        final_bests(g).contains_key(g.class_of(n)),
        final_bests(g)[g.class_of(n)].total <= candidate(g, final_bests(g), n)->0.total,
{
    lemma_settles(g);
    lemma_rounds_ok(g, settling_round(g));
    lemma_settled_visits_change_nothing(g, final_bests(g), n);
    let bests = final_bests(g);
    let offer = candidate(g, bests, n)->0;
    if improves(bests, g.class_of(n), offer) {
        let after = bests.insert(g.class_of(n), offer);
        assert(after[g.class_of(n)] == offer);
        assert(visit(g, bests, n) == after);
    }
}

/// The classes that the result leaves out.
pub open spec fn unresolved(g: GraphView) -> Set<usize> {
    Set::new(|c: usize| !extraction(g).contains_key(c))
}

/// Every class that can be resolved is resolved: the classes that the
/// result leaves out are barred, each of their nodes having a child of a
/// class that is left out too. With [`lemma_barred_classes_absent`] this
/// says which classes the result holds: all but those of the largest barred
/// set.
pub proof fn lemma_unresolved_classes_are_barred(g: GraphView)
    requires
        g.wf(),
    ensures
        barred(g, unresolved(g)),
{
    lemma_settles(g);
    lemma_rounds_ok(g, settling_round(g));
    lemma_rounds_keys_resolved(g, settling_round(g));
    let bests = final_bests(g);
    let out = unresolved(g);
    assert forall|n: int|
        0 <= n < g.nodes.len() && out.contains(#[trigger] g.class_of(n)) implies exists|k: int|
        0 <= k < g.nodes[n].children.len() && out.contains(#[trigger] g.child_class(n, k)) by {
        let class = g.class_of(n);
        let upto = g.nodes[n].children.len() as int;
        assert(!bests.contains_key(class));
        lemma_settled_visits_change_nothing(g, bests, n);
        if candidate(g, bests, n) is Some {
            let offer = candidate(g, bests, n)->0;
            assert(improves(bests, class, offer));
            assert(bests.insert(class, offer).contains_key(class));
            assert(false);
        }
        lemma_gather_fails_at_a_child(g, bests, n, upto);
        let k = choose|k: int|
            0 <= k < upto && (!bests.contains_key(#[trigger] g.child_class(n, k)) || bests[g.child_class(
                n,
                k,
            )].costs.contains_key(class));
        assert(!bests.contains_key(g.child_class(n, k)));
        assert(out.contains(g.child_class(n, k)));
    }
}

/// A child adds to the gathered mapping the costs of those classes only
/// that the children before it have not brought: a class that several
/// children rest on is counted once.
pub proof fn lemma_child_adds_new_classes_only(
    g: GraphView,
    bests: Map<usize, Best>,
    n: int,
    upto: int,
)
    requires
        upto > 0,
        gather(g, bests, n, upto) is Some,
    ensures
        gather(g, bests, n, upto - 1) is Some,
        total_cost(gather(g, bests, n, upto)->0) == total_cost(gather(g, bests, n, upto - 1)->0)
            + total_cost(
            bests[g.child_class(n, upto - 1)].costs.remove_keys(
                gather(g, bests, n, upto - 1)->0.dom(),
            ),
        ),
{
    lemma_merge_counts_once(
        gather(g, bests, n, upto - 1)->0,
        bests[g.child_class(n, upto - 1)].costs,
    );
}

/// What a node offers costs what the merged mappings of its children cost,
/// and the cost of the node once on top.
pub proof fn lemma_offer_total(g: GraphView, bests: Map<usize, Best>, n: int)
    requires
        candidate(g, bests, n) is Some,
    ensures
        gather(g, bests, n, g.nodes[n].children.len() as int) is Some,
        candidate(g, bests, n)->0.total == total_cost(
            gather(g, bests, n, g.nodes[n].children.len() as int)->0,
        ) + g.nodes[n].cost,
{
    let upto = g.nodes[n].children.len() as int;
    lemma_gather_children(g, bests, n, upto);
    lemma_total_insert(gather(g, bests, n, upto)->0, g.class_of(n), g.nodes[n].cost);
}

/// The class of the `k`-th child of the node chosen for class `c`.
pub open spec fn chosen_child(g: GraphView, bests: Map<usize, Best>, c: usize, k: int) -> usize {
    g.child_class(bests[c].choice as int, k)
}

/// The number of children of the node chosen for class `c`.
pub open spec fn chosen_arity(g: GraphView, bests: Map<usize, Best>, c: usize) -> int {
    g.nodes[bests[c].choice as int].children.len() as int
}

/// Class `c` has a best, and `d` is the class of a child of the node chosen
/// for `c`.
pub open spec fn steps_to(g: GraphView, bests: Map<usize, Best>, c: usize, d: usize) -> bool {
    bests.contains_key(c) && exists|k: int|
        0 <= k < chosen_arity(g, bests, c) && #[trigger] chosen_child(g, bests, c, k) == d
}

/// A walk: it starts at a class that has a best, and each further class is
/// the class of a child of the node chosen for the class before it.
pub open spec fn is_walk(g: GraphView, bests: Map<usize, Best>, walk: Seq<usize>) -> bool {
    &&& walk.len() > 0
    &&& bests.contains_key(walk[0])
    &&& forall|i: int| 0 < i < walk.len() ==> steps_to(g, bests, walk[i - 1], #[trigger] walk[i])
}

/// Every child of a chosen node belongs to another class, which has a best
/// and on which the best of the chooser rests; and no two classes are each
/// the class of a child of the node chosen for the other.
pub open spec fn grounded(g: GraphView, bests: Map<usize, Best>) -> bool {
    &&& forall|c: usize, k: int|
        bests.contains_key(c) && 0 <= k < chosen_arity(g, bests, c) ==> {
            let d = #[trigger] chosen_child(g, bests, c, k);
            &&& d != c
            &&& bests.contains_key(d)
            &&& bests[c].costs.contains_key(d)
        }
    &&& forall|c: usize, d: usize| #[trigger]
        steps_to(g, bests, c, d) ==> !steps_to(g, bests, d, c)
}

/// A visit keeps the bests grounded.
pub proof fn lemma_visit_grounded(g: GraphView, bests: Map<usize, Best>, n: int)
    requires
        g.wf(),
        0 <= n < g.nodes.len(),
        bests_ok(g, bests),
        grounded(g, bests),
    ensures
        grounded(g, visit(g, bests, n)),
{
    let after = visit(g, bests, n);
    if after != bests {
        let class = g.class_of(n);
        let offer = candidate(g, bests, n)->0;
        let upto = g.nodes[n].children.len() as int;
        lemma_candidate_ok(g, bests, n);
        lemma_gather_children(g, bests, n, upto);
        lemma_gather_keys(g, bests, n, upto);
        assert(after == bests.insert(class, offer));
        assert forall|c: usize, k: int|
            after.contains_key(c) && 0 <= k < chosen_arity(g, after, c) implies ({
            let d = #[trigger] chosen_child(g, after, c, k);
            &&& d != c
            &&& after.contains_key(d)
            &&& after[c].costs.contains_key(d)
        }) by {
            if c == class {
                let d = g.child_class(n, k);
                assert(bests.contains_key(d));
                assert(best_ok(g, d, bests[d]));
                assert(bests[d].costs.contains_key(d));
            } else {
                assert(chosen_child(g, after, c, k) == chosen_child(g, bests, c, k));
            }
        }
        assert forall|c: usize, d: usize| #[trigger] steps_to(g, after, c, d) implies !steps_to(
            g,
            after,
            d,
            c,
        ) by {
            if steps_to(g, after, d, c) {
                let k = choose|k: int|
                    0 <= k < chosen_arity(g, after, c) && #[trigger] chosen_child(g, after, c, k)
                        == d;
                let j = choose|j: int|
                    0 <= j < chosen_arity(g, after, d) && #[trigger] chosen_child(g, after, d, j)
                        == c;
                if c == class && d == class {
                    assert(chosen_child(g, after, c, k) != c);
                } else if c == class {
                    // the new choice for `c` has a child of class `d`, whose
                    // best rests on `c`: the visit would have skipped it
                    assert(g.child_class(n, k) == d);
                    assert(chosen_child(g, bests, d, j) == c);
                    assert(bests[d].costs.contains_key(c));
                } else if d == class {
                    assert(g.child_class(n, j) == c);
                    assert(chosen_child(g, bests, c, k) == d);
                    assert(bests[c].costs.contains_key(d));
                } else {
                    assert(chosen_child(g, bests, c, k) == d);
                    assert(chosen_child(g, bests, d, j) == c);
                    assert(steps_to(g, bests, c, d));
                    assert(steps_to(g, bests, d, c));
                }
            }
        }
    }
}

/// So does any number of visits in a row.
pub proof fn lemma_sweep_grounded(g: GraphView, bests: Map<usize, Best>, upto: int)
    requires
        g.wf(),
        upto <= g.nodes.len(),
        bests_ok(g, bests),
        grounded(g, bests),
    ensures
        grounded(g, sweep(g, bests, upto)),
    decreases upto,
{
    if upto > 0 {
        lemma_sweep_grounded(g, bests, upto - 1);
        lemma_sweep(g, bests, upto - 1);
        lemma_visit_grounded(g, sweep(g, bests, upto - 1), upto - 1);
    }
}

/// After every round the bests are grounded: every child of a chosen node
/// belongs to a class that is resolved too, no chosen node has a child of
/// its own class, and no two chosen nodes have a child of each other's
/// class. A walk along chosen nodes therefore never ends at a class without
/// a choice, and does not return to a class after one step or two.
pub proof fn lemma_rounds_grounded(g: GraphView, r: nat)
    requires
        g.wf(),
    ensures
        grounded(g, after_rounds(g, r)),
    decreases r,
{
    if r > 0 {
        lemma_rounds_grounded(g, (r - 1) as nat);
        lemma_rounds_ok(g, (r - 1) as nat);
        lemma_sweep_grounded(g, after_rounds(g, (r - 1) as nat), g.nodes.len() as int);
    }
}

/// Every best is what its chosen node would offer now: no best rests on a
/// class whose own best has changed since.
pub open spec fn up_to_date(g: GraphView, bests: Map<usize, Best>) -> bool {
    forall|c: usize| #[trigger]
        bests.contains_key(c) ==> candidate(g, bests, bests[c].choice as int) == Some(bests[c])
}

/// The best of `c` rests on every class that the best of `d` rests on, and
/// the best of `d` does not rest on `c`. Costs may differ; only the classes
/// count.
pub open spec fn rests_on(bests: Map<usize, Best>, c: usize, d: usize) -> bool {
    &&& bests.contains_key(c)
    &&& bests.contains_key(d)
    &&& !bests[d].costs.contains_key(c)
    &&& forall|key: usize| bests[d].costs.contains_key(key) ==> bests[c].costs.contains_key(key)
}

/// The best of every class rests on the best of the class of each child of
/// its chosen node.
pub open spec fn rests_on_children(g: GraphView, bests: Map<usize, Best>) -> bool {
    forall|c: usize, k: int|
        bests.contains_key(c) && 0 <= k < chosen_arity(g, bests, c) ==> rests_on(
            bests,
            c,
            #[trigger] chosen_child(g, bests, c, k),
        )
}

/// Every step of the walk goes from a class to one that its best rests on.
pub open spec fn descends(bests: Map<usize, Best>, walk: Seq<usize>) -> bool {
    forall|s: int| 0 < s < walk.len() ==> rests_on(bests, walk[s - 1], #[trigger] walk[s])
}

/// Bests that are up to date rest on what the bests of their children rest
/// on.
pub proof fn lemma_up_to_date_rests_on_children(g: GraphView, bests: Map<usize, Best>)
    requires
        bests_ok(g, bests),
        up_to_date(g, bests),
    ensures
        rests_on_children(g, bests),
{
    assert forall|c: usize, k: int|
        bests.contains_key(c) && 0 <= k < chosen_arity(g, bests, c) implies rests_on(
        bests,
        c,
        #[trigger] chosen_child(g, bests, c, k),
    ) by {
        let n = bests[c].choice as int;
        let upto = g.nodes[n].children.len() as int;
        let d = chosen_child(g, bests, c, k);
        assert(best_ok(g, c, bests[c]));
        assert(candidate(g, bests, n) == Some(bests[c]));
        lemma_gather_children(g, bests, n, upto);
        lemma_gather_keys(g, bests, n, upto);
        assert(g.child_class(n, k) == d);
        assert forall|key: usize| bests[d].costs.contains_key(key) implies bests[c].costs.contains_key(
            key,
        ) by {
            assert(bests[g.child_class(n, k)].costs.contains_key(key));
        }
    }
}

/// Where every best rests on the bests of its children, every walk
/// descends.
pub proof fn lemma_walks_descend(g: GraphView, bests: Map<usize, Best>, walk: Seq<usize>)
    requires
        rests_on_children(g, bests),
        is_walk(g, bests, walk),
    ensures
        descends(bests, walk),
{
    assert forall|s: int| 0 < s < walk.len() implies rests_on(
        bests,
        walk[s - 1],
        #[trigger] walk[s],
    ) by {
        let c = walk[s - 1];
        assert(steps_to(g, bests, c, walk[s]));
        let k = choose|k: int|
            0 <= k < chosen_arity(g, bests, c) && #[trigger] chosen_child(g, bests, c, k)
                == walk[s];
    }
}

/// The number of keys below `n` that the mapping holds.
pub open spec fn keys_below(costs: Map<usize, u64>, n: nat) -> nat
    decreases n,
{
    if n == 0 {
        0
    } else {
        keys_below(costs, (n - 1) as nat) + (if costs.contains_key((n - 1) as usize) {
            1nat
        } else {
            0nat
        })
    }
}

proof fn lemma_fewer_keys(small: Map<usize, u64>, large: Map<usize, u64>, extra: usize, n: nat)
    requires
        n <= usize::MAX + 1,
        forall|k: usize| small.contains_key(k) ==> large.contains_key(k),
        large.contains_key(extra),
        !small.contains_key(extra),
    ensures
        keys_below(small, n) <= keys_below(large, n),
        extra < n ==> keys_below(small, n) < keys_below(large, n),
    decreases n,
{
    if n > 0 {
        lemma_fewer_keys(small, large, extra, (n - 1) as nat);
    }
}

/// A best rests on strictly more classes than a best that it rests on.
pub proof fn lemma_step_descends(g: GraphView, bests: Map<usize, Best>, c: usize, d: usize)
    requires
        bests_ok(g, bests),
        rests_on(bests, c, d),
    ensures
        keys_below(bests[d].costs, g.num_classes as nat) < keys_below(
            bests[c].costs,
            g.num_classes as nat,
        ),
{
    assert(best_ok(g, c, bests[c]));
    lemma_fewer_keys(bests[d].costs, bests[c].costs, c, g.num_classes as nat);
}

proof fn lemma_walk_descends(g: GraphView, bests: Map<usize, Best>, walk: Seq<usize>, i: int, j: int)
    requires
        bests_ok(g, bests),
        descends(bests, walk),
        0 <= i < j < walk.len(),
    ensures
        keys_below(bests[walk[j]].costs, g.num_classes as nat) < keys_below(
            bests[walk[i]].costs,
            g.num_classes as nat,
        ),
    decreases j - i,
{
    assert(rests_on(bests, walk[j - 1], walk[j]));
    lemma_step_descends(g, bests, walk[j - 1], walk[j]);
    if i < j - 1 {
        lemma_walk_descends(g, bests, walk, i, j - 1);
    }
}

/// A walk along chosen nodes, each step of which goes from a class to one
/// that its best rests on, never comes to a class that it has seen before.
pub proof fn lemma_walk_never_returns(
    g: GraphView,
    bests: Map<usize, Best>,
    walk: Seq<usize>,
    i: int,
    j: int,
)
    requires
        bests_ok(g, bests),
        is_walk(g, bests, walk),
        descends(bests, walk),
        0 <= i < j < walk.len(),
    ensures
        walk[i] != walk[j],
{
    lemma_walk_descends(g, bests, walk, i, j);
}

/// Where the bests that extraction ends with rest on the bests of their
/// children, as they do when they are up to date, no walk along the chosen
/// nodes of the result revisits a class.
///
/// Not every graph ends like that. A best may rest on a class whose own
/// best was replaced later, and bests that are stale in this way can leave
/// classes choosing nodes that need one another. What holds of every result
/// is [`lemma_rounds_grounded`].
pub proof fn lemma_result_acyclic(g: GraphView, walk: Seq<usize>, i: int, j: int)
    requires
        g.wf(),
        rests_on_children(g, final_bests(g)) || up_to_date(g, final_bests(g)),
        is_walk(g, final_bests(g), walk),
        0 <= i < j < walk.len(),
    ensures
        walk[i] != walk[j],
{
    lemma_rounds_ok(g, settling_round(g));
    if up_to_date(g, final_bests(g)) {
        lemma_up_to_date_rests_on_children(g, final_bests(g));
    }
    lemma_walks_descend(g, final_bests(g), walk);
    lemma_walk_never_returns(g, final_bests(g), walk, i, j);
}

} // verus!
