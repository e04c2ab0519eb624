//! The guarantees of a finished collection pass, stated as theorems over
//! the predicates that `Walker::collect_all` establishes on an initially
//! empty graph.

use vstd::prelude::*;
use crate::graph::DependencyGraph;
use crate::imports::{links_to, spec_lookup, ImportRecord};
use crate::strings::{spec_eligible, spec_extension};
use crate::walker::Walker;

verus! {

/// Every tracked file is a node, and no two distinct nodes carry the same
/// label: the universe maps one-to-one onto the graph's nodes.
pub proof fn law_tracked_file_is_one_node(w: Walker, f: Seq<char>)
    requires
        w.wf(),
        w.nodes_match_universe(),
        w.in_universe(f),
    ensures
        w.graph.has_node(f),
        forall|i: int, j: int|
            #![trigger w.graph.labels()[i], w.graph.labels()[j]]
            0 <= i < w.graph.labels().len() && 0 <= j < w.graph.labels().len()
                && w.graph.labels()[i] == f && w.graph.labels()[j] == f ==> i == j,
{
    assert forall|i: int, j: int|
        #![trigger w.graph.labels()[i], w.graph.labels()[j]]
        0 <= i < w.graph.labels().len() && 0 <= j < w.graph.labels().len() && w.graph.labels()[i]
            == f && w.graph.labels()[j] == f implies i == j by {
        if i < j {
            assert(w.graph.labels()[i] != w.graph.labels()[j]);
        }
        if j < i {
            assert(w.graph.labels()[j] != w.graph.labels()[i]);
        }
    }
}

/// A relative import of a tracked file that resolved to a tracked file is
/// recorded as an edge, and the graph stores that ordered pair exactly once,
/// however many times the traversal encountered it.
pub proof fn law_resolved_import_is_one_edge(w: Walker, a: Seq<char>, b: Seq<char>)
    requires
        w.wf(),
        w.edges_match_imports(),
        w.wants_edge(a, b),
    ensures
        w.graph.has_edge(a, b),
        forall|k: int, l: int|
            0 <= k < w.graph.num_edges() && 0 <= l < w.graph.num_edges() && w.graph.labels()[(
            #[trigger] w.graph.edges@[k]).from as int] == a && w.graph.labels()[w.graph.edges@[
                k
            ].to as int] == b && w.graph.labels()[(#[trigger] w.graph.edges@[l]).from as int] == a
                && w.graph.labels()[w.graph.edges@[l].to as int] == b ==> k == l,
{
    assert forall|k: int, l: int|
        0 <= k < w.graph.num_edges() && 0 <= l < w.graph.num_edges() && w.graph.labels()[(
        #[trigger] w.graph.edges@[k]).from as int] == a && w.graph.labels()[w.graph.edges@[k].to
            as int] == b && w.graph.labels()[(#[trigger] w.graph.edges@[l]).from as int] == a
            && w.graph.labels()[w.graph.edges@[l].to as int] == b implies k == l by {
        let ek = w.graph.edges@[k];
        let el = w.graph.edges@[l];
        assert(ek.from == el.from) by {
            if ek.from as int != el.from as int {
                if ek.from < el.from {
                    assert(w.graph.labels()[ek.from as int] != w.graph.labels()[el.from as int]);
                } else {
                    assert(w.graph.labels()[el.from as int] != w.graph.labels()[ek.from as int]);
                }
            }
        }
        assert(ek.to == el.to) by {
            if ek.to as int != el.to as int {
                if ek.to < el.to {
                    assert(w.graph.labels()[ek.to as int] != w.graph.labels()[el.to as int]);
                } else {
                    assert(w.graph.labels()[el.to as int] != w.graph.labels()[ek.to as int]);
                }
            }
        }
        if k < l {
            assert(!(w.graph.edges@[k].from == w.graph.edges@[l].from && w.graph.edges@[k].to
                == w.graph.edges@[l].to));
        }
        if l < k {
            assert(!(w.graph.edges@[l].from == w.graph.edges@[k].from && w.graph.edges@[l].to
                == w.graph.edges@[k].to));
        }
    }
}

/// Import cycles are kept whole: when two tracked files each hold a resolved
/// relative import of the other, both directed edges are in the graph. The
/// pass that established `edges_match_imports` returned, so the cycle did
/// not keep the traversal from terminating.
pub proof fn law_cycle_keeps_both_edges(w: Walker, a: Seq<char>, b: Seq<char>)
    requires
        w.edges_match_imports(),
        w.wants_edge(a, b),
        w.wants_edge(b, a),
    ensures
        w.graph.has_edge(a, b),
        w.graph.has_edge(b, a),
{
}

/// A tracked file whose extension the extractor does not understand is a
/// leaf: no edge leaves it, whatever records were prepared for it.
pub proof fn law_leaf_has_no_outgoing_edge(w: Walker, p: Seq<char>, q: Seq<char>)
    requires
        w.edges_match_imports(),
        !spec_eligible(spec_extension(p)),
    ensures
        !w.graph.has_edge(p, q),
{
}

/// A bare specifier is excluded: records whose specifiers are not relative
/// never link a file to anything, so they never produce an edge.
pub proof fn law_bare_specifier_is_excluded(w: Walker, p: Seq<char>, q: Seq<char>)
    requires
        w.edges_match_imports(),
        !links_to(spec_lookup(w.table(), p), q),
    ensures
        !w.graph.has_edge(p, q),
{
}

/// An unresolvable import is skipped without harm: a record that carries no
/// target contributes no edge, while a resolved record of the same file, or
/// of any sibling file, still contributes its edge.
pub proof fn law_unresolved_import_is_skipped(
    w: Walker,
    p: Seq<char>,
    q: Seq<char>,
    good_a: Seq<char>,
    good_b: Seq<char>,
)
    requires
        w.edges_match_imports(),
        forall|j: int|
            0 <= j < spec_lookup(w.table(), p).len() ==> (#[trigger] spec_lookup(w.table(), p)[j]).target is None,
        w.wants_edge(good_a, good_b),
    ensures
        !w.graph.has_edge(p, q),
        w.graph.has_edge(good_a, good_b),
{
    if links_to(spec_lookup(w.table(), p), q) {
        let j = choose|j: int|
            0 <= j < spec_lookup(w.table(), p).len() && crate::strings::spec_is_relative(
                (#[trigger] spec_lookup(w.table(), p)[j]).specifier@,
            ) && spec_lookup(w.table(), p)[j].target is Some && spec_lookup(w.table(), p)[j].target->0@ == q;
    }
}

} // verus!
