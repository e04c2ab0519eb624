//! The directed dependency graph: path-labelled nodes, deduplicated edges.

use vstd::prelude::*;

verus! {

/// A directed edge between two node indices. The weight is a presence
/// marker: it is always 1.
pub struct Edge {
    pub from: usize,
    pub to: usize,
    pub weight: u8,
}

/// A directed graph whose nodes are labelled with path strings. Node
/// identity is label equality: a well-formed graph holds at most one node
/// per label and at most one edge per ordered pair of nodes.
pub struct DependencyGraph {
    pub nodes: Vec<String>,
    pub edges: Vec<Edge>,
}

impl DependencyGraph {
    /// The node labels, in insertion order.
    pub open spec fn labels(self) -> Seq<Seq<char>> {
        self.nodes@.map_values(|s: String| s@)
    }

    pub open spec fn num_nodes(self) -> int {
        self.nodes@.len() as int
    }

    pub open spec fn num_edges(self) -> int {
        self.edges@.len() as int
    }

    /// Uniqueness of labels, in-range endpoints, unit weights, and at most
    /// one edge per ordered pair.
    pub open spec fn wf(self) -> bool {
        &&& forall|i: int, j: int|
            0 <= i < j < self.labels().len() ==> self.labels()[i] != self.labels()[j]
        &&& forall|k: int|
            0 <= k < self.edges@.len() ==> (#[trigger] self.edges@[k]).from < self.nodes@.len()
                && self.edges@[k].to < self.nodes@.len() && self.edges@[k].weight == 1
        &&& forall|k: int, l: int|
            0 <= k < l < self.edges@.len() ==> !((#[trigger] self.edges@[k]).from
                == (#[trigger] self.edges@[l]).from && self.edges@[k].to == self.edges@[l].to)
    }

    pub open spec fn has_node(self, l: Seq<char>) -> bool {
        self.labels().contains(l)
    }

    pub open spec fn has_edge_idx(self, a: int, b: int) -> bool {
        exists|k: int|
            0 <= k < self.edges@.len() && (#[trigger] self.edges@[k]).from == a
                && self.edges@[k].to == b
    }

    /// An edge between the nodes labelled `la` and `lb`.
    pub open spec fn has_edge(self, la: Seq<char>, lb: Seq<char>) -> bool {
        exists|k: int|
            0 <= k < self.edges@.len() && self.labels()[(#[trigger] self.edges@[k]).from as int]
                == la && self.labels()[self.edges@[k].to as int] == lb
    }

    pub fn new() -> (g: DependencyGraph)
        ensures
            g.wf(),
            g.labels().len() == 0,
            g.num_edges() == 0,
    {
        DependencyGraph { nodes: Vec::new(), edges: Vec::new() }
    }

    pub fn node_count(&self) -> (n: usize)
        ensures
            n == self.labels().len(),
    {
        self.nodes.len()
    }

    pub fn edge_count(&self) -> (n: usize)
        ensures
            n == self.num_edges(),
    {
        self.edges.len()
    }

    /// The label of a node, cloned out of the graph.
    pub fn node_label(&self, i: usize) -> (l: String)
        requires
            i < self.labels().len(),
        ensures
            l@ == self.labels()[i as int],
    {
        self.nodes[i].clone()
    }

    /// The endpoints of an edge, as node indices.
    pub fn edge_at(&self, k: usize) -> (e: (usize, usize))
        requires
            k < self.num_edges(),
        ensures
            e.0 == self.edges@[k as int].from,
            e.1 == self.edges@[k as int].to,
    {
        (self.edges[k].from, self.edges[k].to)
    }

    /// Every edge carries weight 1: the weight marks presence, it never
    /// counts multiplicity.
    pub fn edge_weight(&self, k: usize) -> (w: u8)
        requires
            self.wf(),
            k < self.num_edges(),
        ensures
            w == 1,
    {
        self.edges[k].weight
    }

    /// Find the node labelled `label`, if the graph holds one.
    pub fn find_node(&self, label: &String) -> (r: Option<usize>)
        ensures
            match r {
                Some(i) => i < self.labels().len() && self.labels()[i as int] == label@,
                None => !self.has_node(label@),
            },
    {
        let mut i: usize = 0;
        while i < self.nodes.len()
            invariant
                i <= self.nodes@.len(),
                forall|j: int| 0 <= j < i ==> self.labels()[j] != label@,
            decreases self.nodes@.len() - i,
        {
            if self.nodes[i].eq(label) {
                return Some(i);
            }
            i = i + 1;
        }
        None
    }

    /// Find the node labelled `label`, or create it if absent.
    pub fn ensure_node(&mut self, label: &String) -> (i: usize)
        requires
            old(self).wf(),
        ensures
            final(self).wf(),
            i < final(self).labels().len(),
            final(self).labels()[i as int] == label@,
            final(self).edges@ == old(self).edges@,
            old(self).has_node(label@) ==> *final(self) == *old(self),
            !old(self).has_node(label@) ==> final(self).labels() == old(self).labels().push(
                label@,
            ),
    {
        match self.find_node(label) {
            Some(i) => {
                proof {
                    assert(old(self).has_node(label@));
                }
                i
            },
            None => {
                let i = self.nodes.len();
                self.nodes.push(label.clone());
                proof {
                    assert(self.labels() =~= old(self).labels().push(label@));
                }
                i
            },
        }
    }

    /// Whether the edge between the given node indices is present.
    pub fn contains_edge(&self, a: usize, b: usize) -> (r: bool)
        ensures
            r == self.has_edge_idx(a as int, b as int),
    {
        let mut k: usize = 0;
        while k < self.edges.len()
            invariant
                k <= self.edges@.len(),
                forall|l: int|
                    0 <= l < k ==> !((#[trigger] self.edges@[l]).from == a && self.edges@[l].to
                        == b),
            decreases self.edges@.len() - k,
        {
            if self.edges[k].from == a && self.edges[k].to == b {
                return true;
            }
            k = k + 1;
        }
        false
    }

    /// Add the edge `a -> b` with weight 1; the edge must be new.
    pub fn add_edge(&mut self, a: usize, b: usize)
        requires
            old(self).wf(),
            a < old(self).labels().len(),
            b < old(self).labels().len(),
            !old(self).has_edge_idx(a as int, b as int),
        ensures
            final(self).wf(),
            final(self).nodes@ == old(self).nodes@,
            final(self).edges@ == old(self).edges@.push(
                Edge { from: a, to: b, weight: 1 },
            ),
            final(self).has_edge_idx(a as int, b as int),
            forall|x: int, y: int|
                #[trigger] final(self).has_edge_idx(x, y) <==> old(self).has_edge_idx(x, y) || (x
                    == a && y == b),
            forall|la: Seq<char>, lb: Seq<char>|
                #[trigger] final(self).has_edge(la, lb) <==> old(self).has_edge(la, lb) || (la
                    == old(self).labels()[a as int] && lb == old(self).labels()[b as int]),
    {
        self.edges.push(Edge { from: a, to: b, weight: 1 });
        proof {
            let n = self.edges@.len() - 1;
            assert(self.edges@[n].from == a && self.edges@[n].to == b);
            assert forall|x: int, y: int| #[trigger]
                self.has_edge_idx(x, y) implies old(self).has_edge_idx(x, y) || (x == a && y
                == b) by {
                let k = choose|k: int|
                    0 <= k < self.edges@.len() && (#[trigger] self.edges@[k]).from == x
                        && self.edges@[k].to == y;
                if k < n {
                    assert(old(self).edges@[k].from == x && old(self).edges@[k].to == y);
                }
            }
            assert forall|x: int, y: int|
                old(self).has_edge_idx(x, y) implies #[trigger] self.has_edge_idx(x, y) by {
                let k = choose|k: int|
                    0 <= k < old(self).edges@.len() && (#[trigger] old(self).edges@[k]).from == x
                        && old(self).edges@[k].to == y;
                assert(self.edges@[k].from == x && self.edges@[k].to == y);
            }
            assert forall|la: Seq<char>, lb: Seq<char>| #[trigger]
                self.has_edge(la, lb) implies old(self).has_edge(la, lb) || (la == old(
                self,
            ).labels()[a as int] && lb == old(self).labels()[b as int]) by {
                let k = choose|k: int|
                    0 <= k < self.edges@.len() && self.labels()[(#[trigger] self.edges@[k]).from
                        as int] == la && self.labels()[self.edges@[k].to as int] == lb;
                if k < n {
                    assert(0 <= k < old(self).edges@.len() && old(self).labels()[old(
                        self,
                    ).edges@[k].from as int] == la && old(self).labels()[old(
                        self,
                    ).edges@[k].to as int] == lb);
                }
            }
            assert forall|la: Seq<char>, lb: Seq<char>|
                old(self).has_edge(la, lb) implies #[trigger] self.has_edge(la, lb) by {
                let k = choose|k: int|
                    0 <= k < old(self).edges@.len() && old(self).labels()[(#[trigger] old(
                        self,
                    ).edges@[k]).from as int] == la && old(self).labels()[old(
                        self,
                    ).edges@[k].to as int] == lb;
                assert(self.edges@[k].from == old(self).edges@[k].from);
            }
            assert(self.labels()[self.edges@[n].from as int] == old(self).labels()[a as int]
                && self.labels()[self.edges@[n].to as int] == old(self).labels()[b as int]);
        }
    }

    /// Whether the graph holds an edge from the node labelled `a` to the
    /// node labelled `b`.
    pub fn has_edge_named(&self, a: &String, b: &String) -> (r: bool)
        requires
            self.wf(),
        ensures
            r == self.has_edge(a@, b@),
    {
        let ia = match self.find_node(a) {
            Some(i) => i,
            None => {
                proof {
                    assert forall|k: int|
                        0 <= k < self.edges@.len() implies !(self.labels()[(
                    #[trigger] self.edges@[k]).from as int] == a@ && self.labels()[self.edges@[k].to
                        as int] == b@) by {
                        if self.labels()[self.edges@[k].from as int] == a@ {
                            assert(self.has_node(a@));
                        }
                    }
                }
                return false;
            },
        };
        let ib = match self.find_node(b) {
            Some(i) => i,
            None => {
                proof {
                    assert forall|k: int|
                        0 <= k < self.edges@.len() implies !(self.labels()[(
                    #[trigger] self.edges@[k]).from as int] == a@ && self.labels()[self.edges@[k].to
                        as int] == b@) by {
                        if self.labels()[self.edges@[k].to as int] == b@ {
                            assert(self.has_node(b@));
                        }
                    }
                }
                return false;
            },
        };
        let r = self.contains_edge(ia, ib);
        proof {
            if r {
                let k = choose|k: int|
                    0 <= k < self.edges@.len() && (#[trigger] self.edges@[k]).from == ia as int
                        && self.edges@[k].to == ib as int;
                assert(self.labels()[self.edges@[k].from as int] == a@);
            } else {
                if self.has_edge(a@, b@) {
                    let k = choose|k: int|
                        0 <= k < self.edges@.len() && self.labels()[(
                        #[trigger] self.edges@[k]).from as int] == a@ && self.labels()[self.edges@[
                            k
                        ].to as int] == b@;
                    assert(self.edges@[k].from as int == ia as int);
                    assert(self.edges@[k].to as int == ib as int);
                    assert(self.has_edge_idx(ia as int, ib as int));
                }
            }
        }
        r
    }
}

} // verus!
