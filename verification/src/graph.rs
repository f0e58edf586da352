//! The equivalence graph that extraction reads.
//!
//! Classes are numbered `0 .. num_classes` and nodes `0 .. nodes.len()`; the
//! position of a node in the graph is its identifier and also its place in
//! the order in which a round visits the nodes.
use vstd::prelude::*;

verus! {

/// One candidate operation: the class it belongs to, its own cost, and the
/// nodes it takes as arguments, in order. A child stands for the class that
/// owns it.
#[derive(Debug)]
pub struct Node {
    pub class: usize,
    pub cost: u64,
    pub children: Vec<usize>,
}

/// What a [`Node`] holds, as mathematical values.
pub struct NodeView {
    pub class: usize,
    pub cost: u64,
    pub children: Seq<usize>,
}

impl View for Node {
    type V = NodeView;

    open spec fn view(&self) -> NodeView {
        NodeView { class: self.class, cost: self.cost, children: self.children@ }
    }
}

/// What a [`Graph`] holds, as mathematical values.
pub struct GraphView {
    pub nodes: Seq<NodeView>,
    pub num_classes: usize,
}

impl GraphView {
    /// Node `n` names a class of the graph, and each of its children is a
    /// node of the graph.
    pub open spec fn node_ok(self, n: int) -> bool {
        &&& self.nodes[n].class < self.num_classes
        &&& forall|k: int|
            0 <= k < self.nodes[n].children.len() ==> (#[trigger] self.nodes[n].children[k])
                < self.nodes.len()
    }

    /// Every node is well formed, and the positions of the nodes are
    /// machine integers.
    pub open spec fn wf(self) -> bool {
        &&& self.nodes.len() <= usize::MAX
        &&& forall|n: int| 0 <= n < self.nodes.len() ==> #[trigger] self.node_ok(n)
    }

    /// The class that owns node `n`.
    pub open spec fn class_of(self, n: int) -> usize {
        self.nodes[n].class
    }

    /// The class that owns the `k`-th child of node `n`.
    pub open spec fn child_class(self, n: int, k: int) -> usize {
        self.nodes[self.nodes[n].children[k] as int].class
    }

    /// Node `n` is the first one that is not well formed.
    pub open spec fn first_bad(self, n: int) -> bool {
        &&& 0 <= n < self.nodes.len()
        &&& !self.node_ok(n)
        &&& forall|j: int| 0 <= j < n ==> #[trigger] self.node_ok(j)
    }
}

/// Why a list of nodes is not a graph.
#[derive(Debug, PartialEq, Eq)]
pub enum GraphError {
    /// The node at this position names a class that the graph does not have.
    UnknownClass { node: usize },
    /// The node at this position has a child that is no node of the graph.
    UnknownChild { node: usize },
}

/// A well-formed equivalence graph. It is built once, checked as it is
/// built, and only read afterwards; whatever reads it is told that it is
/// well formed.
pub struct Graph {
    nodes: Vec<Node>,
    num_classes: usize,
}

/// The views of a list of nodes, in order.
pub open spec fn node_views(nodes: Seq<Node>) -> Seq<NodeView> {
    Seq::new(nodes.len(), |i: int| nodes[i]@)
}

impl View for Graph {
    type V = GraphView;

    closed spec fn view(&self) -> GraphView {
        GraphView { nodes: node_views(self.nodes@), num_classes: self.num_classes }
    }
}

fn children_in_range(children: &Vec<usize>, limit: usize) -> (ok: bool)
    ensures
        ok == (forall|k: int| 0 <= k < children@.len() ==> (#[trigger] children@[k]) < limit),
{
    let mut k: usize = 0;
    while k < children.len()
        invariant
            k <= children@.len(),
            forall|j: int| 0 <= j < k ==> (#[trigger] children@[j]) < limit,
        decreases children@.len() - k,
    {
        if children[k] >= limit {
            return false;
        }
        k += 1;
    }
    true
}

impl Graph {
    #[verifier::type_invariant]
    spec fn well_formed(self) -> bool {
        self@.wf()
    }

    /// Makes a graph of `nodes`, whose classes are `0 .. num_classes`.
    ///
    /// The list is accepted exactly when every node names a class below
    /// `num_classes` and only has children that are positions of the list.
    /// Otherwise the error names the first node that is at fault, and says
    /// whether its class or, its class being in order, one of its children
    /// is unknown.
    pub fn new(nodes: Vec<Node>, num_classes: usize) -> (made: Result<Graph, GraphError>)
        ensures
            match made {
                Ok(g) => {
                    &&& g@ == (GraphView { nodes: node_views(nodes@), num_classes })
                    &&& g@.wf()
                },
                Err(GraphError::UnknownClass { node }) => {
                    let v = GraphView { nodes: node_views(nodes@), num_classes };
                    v.first_bad(node as int) && v.nodes[node as int].class >= num_classes
                },
                Err(GraphError::UnknownChild { node }) => {
                    let v = GraphView { nodes: node_views(nodes@), num_classes };
                    v.first_bad(node as int) && v.nodes[node as int].class < num_classes
                },
            },
    {
        let ghost v = GraphView { nodes: node_views(nodes@), num_classes };
        let mut n: usize = 0;
        while n < nodes.len()
            invariant
                n <= nodes@.len(),
                v == (GraphView { nodes: node_views(nodes@), num_classes }),
                forall|j: int| 0 <= j < n ==> #[trigger] v.node_ok(j),
            decreases nodes@.len() - n,
        {
            assert(v.nodes[n as int] == nodes@[n as int]@);
            assert(v.nodes.len() == nodes@.len());
            if nodes[n].class >= num_classes {
                return Err(GraphError::UnknownClass { node: n });
            }
            if !children_in_range(&nodes[n].children, nodes.len()) {
                proof {
                    let kids = nodes@[n as int].children@;
                    let k = choose|k: int| 0 <= k < kids.len() && !(#[trigger] kids[k] < nodes@.len());
                    assert(v.nodes[n as int].children[k] >= v.nodes.len());
                }
                return Err(GraphError::UnknownChild { node: n });
            }
            assert(v.node_ok(n as int));
            n += 1;
        }
        Ok(Graph { nodes, num_classes })
    }

    /// The number of nodes.
    pub fn num_nodes(&self) -> (count: usize)
        ensures
            count == self@.nodes.len(),
            self@.wf(),
    {
        proof {
            use_type_invariant(self);
        }
        self.nodes.len()
    }

    /// The number of classes.
    pub fn num_classes(&self) -> (count: usize)
        ensures
            count == self@.num_classes,
            self@.wf(),
    {
        proof {
            use_type_invariant(self);
        }
        self.num_classes
    }

    /// The node at position `n`.
    pub fn node(&self, n: usize) -> (node: &Node)
        requires
            n < self@.nodes.len(),
        ensures
            node@ == self@.nodes[n as int],
            self@.node_ok(n as int),
    {
        proof {
            use_type_invariant(self);
        }
        &self.nodes[n]
    }
}

} // verus!
