//! The graph builder: a cycle-safe traversal over the tracked universe that
//! records one edge per resolved relative import.

use vstd::prelude::*;
use vstd::seq_lib::*;
use vstd::set_lib::*;
use crate::extract::{extract_imports, import_specifiers_of};
use crate::graph::{DependencyGraph, Edge};
use crate::imports::{links_to, lookup_records, spec_lookup, FileImports, FileText, ImportRecord};
use crate::resolve::resolve_import;
use crate::strings::{
    contains_string, extension_of, is_eligible_ext, is_relative_specifier, join_under, parent_dir,
    spec_eligible, spec_extension, spec_is_relative, strip_root,
};

verus! {

/// The records mirror the specifiers extracted from `text`, in order, and a
/// record whose specifier is not relative never carries a target.
pub open spec fn records_from(rs: Seq<ImportRecord>, text: Seq<char>) -> bool {
    &&& rs.len() == import_specifiers_of(text).len()
    &&& forall|j: int|
        0 <= j < rs.len() ==> (#[trigger] rs[j]).specifier@ == import_specifiers_of(text)[j]
    &&& forall|j: int|
        0 <= j < rs.len() && !spec_is_relative((#[trigger] rs[j]).specifier@) ==> rs[j].target
            is None
}

/// The traversal engine: the project root, the immutable universe of tracked
/// paths, the import records prepared for the code-bearing files, and the
/// growing dependency graph.
pub struct Walker {
    pub root: String,
    pub files: Vec<String>,
    pub imports: Vec<FileImports>,
    pub graph: DependencyGraph,
}

impl Walker {
    /// The tracked universe, as character sequences.
    pub open spec fn universe(self) -> Seq<Seq<char>> {
        self.files@.map_values(|s: String| s@)
    }

    pub open spec fn in_universe(self, p: Seq<char>) -> bool {
        self.universe().contains(p)
    }

    pub open spec fn table(self) -> Seq<FileImports> {
        self.imports@
    }

    /// The graph is well formed and every node label is a tracked path.
    pub open spec fn wf(self) -> bool {
        &&& self.graph.wf()
        &&& forall|i: int|
            0 <= i < self.graph.labels().len() ==> self.in_universe(
                #[trigger] self.graph.labels()[i],
            )
    }

    /// `p` is a code-bearing file one of whose recorded relative imports
    /// resolved to `q`.
    pub open spec fn file_links(self, p: Seq<char>, q: Seq<char>) -> bool {
        spec_eligible(spec_extension(p)) && links_to(spec_lookup(self.table(), p), q)
    }

    /// The edge `p -> q` belongs in the finished graph: both ends are
    /// tracked and `p` links to `q`.
    pub open spec fn wants_edge(self, p: Seq<char>, q: Seq<char>) -> bool {
        self.in_universe(p) && self.in_universe(q) && self.file_links(p, q)
    }

    /// Every tracked target that `p` links to has its edge in the graph.
    pub open spec fn entry_done(self, p: Seq<char>) -> bool {
        forall|q: Seq<char>|
            #![trigger self.file_links(p, q)]
            self.file_links(p, q) && self.in_universe(q) ==> self.graph.has_edge(p, q)
    }

    /// The graph holds a node for exactly the tracked paths.
    pub open spec fn nodes_match_universe(self) -> bool {
        forall|l: Seq<char>| #[trigger] self.graph.has_node(l) <==> self.in_universe(l)
    }

    /// The graph holds an edge for exactly the resolved relative imports
    /// between tracked files.
    pub open spec fn edges_match_imports(self) -> bool {
        forall|a: Seq<char>, b: Seq<char>| #[trigger]
            self.graph.has_edge(a, b) <==> self.wants_edge(a, b)
    }

    /// Build a walker from the tracked universe and the text of the files to
    /// scan: each text is parsed for import statements and each relative
    /// specifier is resolved against the importing file's directory.
    ///
    /// Each file's imports are extracted and resolved once, up front, rather
    /// than once per traversal branch that reaches the file; the finished
    /// graph is the same, the repeated parsing is not.
    pub fn new(root: String, files: Vec<String>, sources: Vec<FileText>) -> (w: Walker)
        ensures
            w.wf(),
            w.graph.labels().len() == 0,
            w.graph.num_edges() == 0,
            w.root == root,
            w.files == files,
            w.table().len() == sources@.len(),
            forall|i: int|
                0 <= i < sources@.len() ==> (#[trigger] w.table()[i]).path@ == sources@[i].path@
                    && records_from(w.table()[i].records@, sources@[i].text@),
    {
        let mut imports: Vec<FileImports> = Vec::new();
        let mut i: usize = 0;
        while i < sources.len()
            invariant
                i <= sources@.len(),
                imports@.len() == i,
                forall|k: int|
                    0 <= k < i ==> (#[trigger] imports@[k]).path@ == sources@[k].path@
                        && records_from(imports@[k].records@, sources@[k].text@),
            decreases sources@.len() - i,
        {
            let records = build_records(&root, &sources[i].path, &sources[i].text);
            imports.push(FileImports { path: sources[i].path.clone(), records });
            i = i + 1;
        }
        Walker { root, files, imports, graph: DependencyGraph::new() }
    }

    /// Build a walker from already prepared import records; the graph starts
    /// empty.
    pub fn with_imports(root: String, files: Vec<String>, imports: Vec<FileImports>) -> (w: Walker)
        ensures
            w.wf(),
            w.graph.labels().len() == 0,
            w.graph.num_edges() == 0,
            w.root == root,
            w.files == files,
            w.imports == imports,
    {
        Walker { root, files, imports, graph: DependencyGraph::new() }
    }

    /// One traversal step, iterative where the natural phrasing would
    /// recurse: a work stack carries the pairs still to visit, and the edge
    /// gate halts a branch the moment its ordered pair is already recorded,
    /// which bounds the whole walk by the number of distinct pairs.
    #[verifier::loop_isolation(false)]
    pub fn collect(&mut self, entry: &String, parent: Option<usize>)
        requires
            old(self).wf(),
            parent is Some ==> (parent->0 as int) < old(self).graph.labels().len(),
        ensures
            final(self).wf(),
            final(self).root == old(self).root,
            final(self).files == old(self).files,
            final(self).imports == old(self).imports,
            old(self).graph.labels().is_prefix_of(final(self).graph.labels()),
            forall|l: Seq<char>|
                old(self).graph.has_node(l) ==> #[trigger] final(self).graph.has_node(l),
            forall|a: Seq<char>, b: Seq<char>|
                old(self).graph.has_edge(a, b) ==> #[trigger] final(self).graph.has_edge(a, b),
            forall|a: Seq<char>, b: Seq<char>| #[trigger]
                final(self).graph.has_edge(a, b) ==> old(self).graph.has_edge(a, b) || final(self).wants_edge(a, b) || (parent is Some && a == old(self).graph.labels()[parent->0
                    as int] && b == entry@ && old(self).in_universe(entry@)),
            old(self).in_universe(entry@) ==> final(self).graph.has_node(entry@),
            !old(self).in_universe(entry@) ==> *final(self) == *old(self),
            parent is None && old(self).in_universe(entry@) ==> final(self).entry_done(entry@),
            (parent is Some && old(self).in_universe(entry@) && old(self).graph.has_edge(
                old(self).graph.labels()[parent->0 as int],
                entry@,
            )) ==> *final(self) == *old(self),
            (parent is Some && old(self).in_universe(entry@) && !old(self).graph.has_edge(
                old(self).graph.labels()[parent->0 as int],
                entry@,
            )) ==> final(self).graph.has_edge(old(self).graph.labels()[parent->0 as int], entry@)
                && final(self).entry_done(entry@),
    {
        if !contains_string(&self.files, entry) {
            return ;
        }
        let cur = self.graph.ensure_node(entry);
        proof {
            assert forall|i: int|
                0 <= i < self.graph.labels().len() implies self.in_universe(
                #[trigger] self.graph.labels()[i],
            ) by {
                if i < old(self).graph.labels().len() {
                    assert(self.graph.labels()[i] == old(self).graph.labels()[i]);
                }
            }
            if old(self).graph.has_node(entry@) {
                lemma_prefix_refl(old(self).graph.labels());
            } else {
                lemma_prefix_push(old(self).graph.labels(), entry@);
            }
            lemma_has_edge_same_on_ext(old(self).graph, self.graph);
            lemma_has_node_mono(old(self).graph, self.graph);
        }
        let ghost g_node = *self;
        match parent {
            Some(p) => {
                if self.graph.contains_edge(p, cur) {
                    proof {
                        let k = choose|k: int|
                            0 <= k < self.graph.edges@.len() && (#[trigger] self.graph.edges@[k]).from
                                == p as int && self.graph.edges@[k].to == cur as int;
                        assert(old(self).graph.edges@ == self.graph.edges@);
                        assert((cur as int) < old(self).graph.labels().len()) by {
                            assert(old(self).graph.edges@[k].to == cur as int);
                        }
                        if !old(self).graph.has_node(entry@) {
                            assert(cur as int == old(self).graph.labels().len());
                        }
                        assert(*self == *old(self));
                        assert(old(self).graph.has_edge(
                            old(self).graph.labels()[p as int],
                            entry@,
                        )) by {
                            assert(0 <= k < old(self).graph.edges@.len() && old(self).graph.labels()[old(self).graph.edges@[k].from as int] == old(self).graph.labels()[p as int] && old(self).graph.labels()[old(self).graph.edges@[k].to as int] == entry@);
                        }
                    }
                    return ;
                }
                proof {
                    assert(!old(self).graph.has_edge(old(self).graph.labels()[p as int], entry@))
                        by {
                        if old(self).graph.has_edge(old(self).graph.labels()[p as int], entry@) {
                            let k = choose|k: int|
                                0 <= k < old(self).graph.edges@.len() && old(self).graph.labels()[(
                                #[trigger] old(self).graph.edges@[k]).from as int] == old(self).graph.labels()[p as int] && old(self).graph.labels()[old(self).graph.edges@[k].to as int] == entry@;
                            let ed = old(self).graph.edges@[k];
                            assert(ed.from as int == p as int);
                            assert(self.graph.labels()[ed.to as int] == entry@);
                            assert(ed.to as int == cur as int);
                            assert(self.graph.has_edge_idx(p as int, cur as int));
                        }
                    }
                }
                self.graph.add_edge(p, cur);
                proof {
                    lemma_prefix_push(g_node.graph.edges@, Edge { from: p, to: cur, weight: 1 });
                }
            },
            None => {
                proof {
                    lemma_prefix_refl(self.graph.edges@);
                }
            },
        }
        let ghost par_lab: Seq<char> = if parent is Some {
            old(self).graph.labels()[parent->0 as int]
        } else {
            Seq::empty()
        };
        proof {
            assert(self.graph.labels() == g_node.graph.labels());
            assert forall|i: int|
                0 <= i < self.graph.labels().len() implies self.in_universe(
                #[trigger] self.graph.labels()[i],
            ) by {
                assert(g_node.in_universe(g_node.graph.labels()[i]));
            }
            assert(self.wf());
            lemma_has_node_mono(old(self).graph, self.graph);
            if parent is Some {
                assert(g_node.graph.labels()[parent->0 as int] == par_lab);
                assert(g_node.graph.labels()[cur as int] == entry@);
                assert(self.graph.has_edge(par_lab, entry@));
            }
            assert forall|a: Seq<char>, b: Seq<char>| #[trigger]
                self.graph.has_edge(a, b) implies old(self).graph.has_edge(a, b)
                || self.wants_edge(a, b) || (parent is Some && a == par_lab && b == entry@ && old(self).in_universe(entry@)) by {
                if parent is Some {
                    if g_node.graph.has_edge(a, b) {
                        assert(old(self).graph.has_edge(a, b));
                    } else {
                        assert(a == par_lab && b == entry@);
                    }
                } else {
                    assert(g_node.graph.has_edge(a, b));
                    assert(old(self).graph.has_edge(a, b));
                }
            }
            lemma_walker_edge_budget(*self);
        }
        let ext = extension_of(entry);
        if !is_eligible_ext(&ext) {
            proof {
                assert forall|q: Seq<char>| !self.file_links(entry@, q) by {}
            }
            return ;
        }
        let mut stack: Vec<(String, usize)> = Vec::new();
        match lookup_records(&self.imports, entry) {
            Some(ri) => {
                let records = &self.imports[ri].records;
                push_targets(records, cur, &mut stack);
                proof {
                    assert forall|k: int|
                        0 <= k < stack@.len() implies ((#[trigger] stack@[k]).1 as int)
                        < self.graph.labels().len() && self.file_links(
                        self.graph.labels()[stack@[k].1 as int],
                        stack@[k].0@,
                    ) by {
                        assert(stack@[k].1 == cur);
                        assert(links_to(spec_lookup(self.table(), entry@), stack@[k].0@));
                    }
                    assert forall|q: Seq<char>|
                        #![trigger self.file_links(entry@, q)]
                        self.file_links(entry@, q) && self.in_universe(
                            q,
                        ) implies self.graph.has_edge(entry@, q) || exists|k: int|
                        0 <= k < stack@.len() && (#[trigger] stack@[k]).0@ == q
                            && self.graph.labels()[stack@[k].1 as int] == entry@ by {
                        assert(links_to(spec_lookup(self.table(), entry@), q));
                        let k0 = choose|k: int|
                            0 <= k < stack@.len() && (#[trigger] stack@[k]).0@ == q && stack@[k].1
                                == cur;
                        assert(self.graph.labels()[stack@[k0].1 as int] == entry@);
                    }
                }
            },
            None => {
                proof {
                    assert forall|q: Seq<char>| !self.file_links(entry@, q) by {
                        if links_to(spec_lookup(self.table(), entry@), q) {
                            let j = choose|j: int|
                                0 <= j < spec_lookup(self.table(), entry@).len()
                                    && spec_is_relative(
                                    (#[trigger] spec_lookup(self.table(), entry@)[j]).specifier@,
                                ) && spec_lookup(self.table(), entry@)[j].target is Some
                                    && spec_lookup(self.table(), entry@)[j].target->0@ == q;
                        }
                    }
                }
            },
        }
        while stack.len() > 0
            invariant
                self.wf(),
                self.root == old(self).root,
                self.files == old(self).files,
                self.imports == old(self).imports,
                old(self).graph.labels().is_prefix_of(self.graph.labels()),
                old(self).graph.edges@.is_prefix_of(self.graph.edges@),
                (cur as int) < self.graph.labels().len(),
                self.graph.labels()[cur as int] == entry@,
                parent is Some ==> self.graph.has_edge(par_lab, entry@),
                forall|a: Seq<char>, b: Seq<char>| #[trigger]
                    self.graph.has_edge(a, b) ==> old(self).graph.has_edge(a, b)
                        || self.wants_edge(a, b) || (parent is Some && a == par_lab && b
                        == entry@),
                forall|k: int|
                    0 <= k < stack@.len() ==> ((#[trigger] stack@[k]).1 as int)
                        < self.graph.labels().len() && self.file_links(
                        self.graph.labels()[stack@[k].1 as int],
                        stack@[k].0@,
                    ),
                forall|q: Seq<char>|
                    #![trigger self.file_links(entry@, q)]
                    self.file_links(entry@, q) && self.in_universe(q) ==> self.graph.has_edge(
                        entry@,
                        q,
                    ) || exists|k: int|
                        0 <= k < stack@.len() && (#[trigger] stack@[k]).0@ == q
                            && self.graph.labels()[stack@[k].1 as int] == entry@,
                self.graph.num_edges() <= self.universe().len() * self.universe().len(),
            decreases
                    self.universe().len() * self.universe().len() - self.graph.num_edges(),
                    stack@.len(),
        {
            let ghost g_pre = *self;
            let ghost stack_pre = stack@;
            let top = stack.pop().unwrap();
            let e = top.0;
            let pidx = top.1;
            if contains_string(&self.files, &e) {
                let cur2 = self.graph.ensure_node(&e);
                proof {
                    assert forall|i: int|
                        0 <= i < self.graph.labels().len() implies self.in_universe(
                        #[trigger] self.graph.labels()[i],
                    ) by {
                        if i < g_pre.graph.labels().len() {
                            assert(self.graph.labels()[i] == g_pre.graph.labels()[i]);
                        }
                    }
                    if g_pre.graph.has_node(e@) {
                        lemma_prefix_refl(g_pre.graph.labels());
                    } else {
                        lemma_prefix_push(g_pre.graph.labels(), e@);
                    }
                    lemma_has_edge_same_on_ext(g_pre.graph, self.graph);
                }
                let ghost g_mid = *self;
                if self.graph.contains_edge(pidx, cur2) {
                    proof {
                        let k = choose|k: int|
                            0 <= k < self.graph.edges@.len() && (#[trigger] self.graph.edges@[k]).from
                                == pidx as int && self.graph.edges@[k].to == cur2 as int;
                        assert(self.graph.has_edge(
                            self.graph.labels()[pidx as int],
                            self.graph.labels()[cur2 as int],
                        ));
                        lemma_prefix_refl(g_pre.graph.edges@);
                        assert forall|a: Seq<char>, b: Seq<char>| #[trigger]
                            self.graph.has_edge(a, b) implies old(self).graph.has_edge(a, b)
                            || self.wants_edge(a, b) || (parent is Some && a == par_lab && b
                            == entry@) by {
                            assert(g_pre.graph.has_edge(a, b));
                        }
                        assert forall|kk: int|
                            0 <= kk < stack@.len() implies ((#[trigger] stack@[kk]).1 as int)
                            < self.graph.labels().len() && self.file_links(
                            self.graph.labels()[stack@[kk].1 as int],
                            stack@[kk].0@,
                        ) by {
                            assert(stack@[kk] == stack_pre[kk]);
                            assert(self.graph.labels()[stack@[kk].1 as int]
                                == g_pre.graph.labels()[stack@[kk].1 as int]);
                        }
                        lemma_restore_pending(g_pre, *self, stack_pre, stack@, entry@, e@);
                    }
                } else {
                    self.graph.add_edge(pidx, cur2);
                    proof {
                        assert(self.graph.has_edge(
                            g_mid.graph.labels()[pidx as int],
                            g_mid.graph.labels()[cur2 as int],
                        ));
                        assert(self.graph.labels() == g_mid.graph.labels());
                        lemma_prefix_push(
                            g_pre.graph.edges@,
                            Edge { from: pidx, to: cur2, weight: 1 },
                        );
                        assert(self.wf());
                        lemma_walker_edge_budget(*self);
                        assert(g_pre.file_links(g_pre.graph.labels()[pidx as int], e@));
                        assert(self.graph.labels()[pidx as int] == g_pre.graph.labels()[pidx
                            as int]);
                        assert(self.wants_edge(self.graph.labels()[pidx as int], e@));
                        assert forall|a: Seq<char>, b: Seq<char>| #[trigger]
                            self.graph.has_edge(a, b) implies old(self).graph.has_edge(a, b)
                            || self.wants_edge(a, b) || (parent is Some && a == par_lab && b
                            == entry@) by {
                            if g_mid.graph.has_edge(a, b) {
                                assert(g_pre.graph.has_edge(a, b));
                            } else {
                                assert(a == g_mid.graph.labels()[pidx as int] && b
                                    == g_mid.graph.labels()[cur2 as int]);
                                assert(b == e@);
                                assert(self.wants_edge(a, b));
                            }
                        }
                        assert forall|kk: int|
                            0 <= kk < stack@.len() implies ((#[trigger] stack@[kk]).1 as int)
                            < self.graph.labels().len() && self.file_links(
                            self.graph.labels()[stack@[kk].1 as int],
                            stack@[kk].0@,
                        ) by {
                            assert(stack@[kk] == stack_pre[kk]);
                            assert(self.graph.labels()[stack@[kk].1 as int]
                                == g_pre.graph.labels()[stack@[kk].1 as int]);
                        }
                    }
                    let ext2 = extension_of(&e);
                    if is_eligible_ext(&ext2) {
                        match lookup_records(&self.imports, &e) {
                            Some(ri2) => {
                                let ghost stack_mid = stack@;
                                let records2 = &self.imports[ri2].records;
                                push_targets(records2, cur2, &mut stack);
                                proof {
                                    assert forall|k: int|
                                        0 <= k < stack@.len() implies ((#[trigger] stack@[k]).1
                                        as int) < self.graph.labels().len() && self.file_links(
                                        self.graph.labels()[stack@[k].1 as int],
                                        stack@[k].0@,
                                    ) by {
                                        if k < stack_mid.len() {
                                            assert(stack@[k] == stack_mid[k]);
                                        } else {
                                            assert(stack@[k].1 == cur2);
                                            assert(links_to(
                                                spec_lookup(self.table(), e@),
                                                stack@[k].0@,
                                            ));
                                        }
                                    }
                                    lemma_restore_pending(
                                        g_pre,
                                        *self,
                                        stack_pre,
                                        stack@,
                                        entry@,
                                        e@,
                                    );
                                }
                            },
                            None => {
                                proof {
                                    lemma_restore_pending(
                                        g_pre,
                                        *self,
                                        stack_pre,
                                        stack@,
                                        entry@,
                                        e@,
                                    );
                                }
                            },
                        }
                    } else {
                        proof {
                            lemma_restore_pending(g_pre, *self, stack_pre, stack@, entry@, e@);
                        }
                    }
                }
            } else {
                proof {
                    assert(!self.in_universe(e@));
                    lemma_prefix_refl(g_pre.graph.edges@);
                    lemma_prefix_refl(g_pre.graph.labels());
                    lemma_restore_pending(g_pre, *self, stack_pre, stack@, entry@, e@);
                }
            }
            proof {
                lemma_prefix_trans(old(self).graph.edges@, g_pre.graph.edges@, self.graph.edges@);
                lemma_prefix_trans(
                    old(self).graph.labels(),
                    g_pre.graph.labels(),
                    self.graph.labels(),
                );
                lemma_has_edge_mono(g_pre.graph, self.graph);
                assert(self.graph.labels()[cur as int] == g_pre.graph.labels()[cur as int]);
            }
        }
        proof {
            lemma_has_edge_mono(old(self).graph, self.graph);
            lemma_has_node_mono(old(self).graph, self.graph);
            assert(self.graph.has_node(entry@)) by {
                assert(self.graph.labels()[cur as int] == entry@);
            }
            assert forall|q: Seq<char>|
                #![trigger self.file_links(entry@, q)]
                self.file_links(entry@, q) && self.in_universe(q) implies self.graph.has_edge(
                entry@,
                q,
            ) by {
                assert(stack@.len() == 0);
            }
        }
    }

    /// Seed the traversal from every tracked file, so that every tracked
    /// file becomes a node and every disconnected subgraph is discovered.
    #[verifier::loop_isolation(false)]
    pub fn collect_all(&mut self)
        requires
            old(self).wf(),
        ensures
            final(self).wf(),
            final(self).root == old(self).root,
            final(self).files == old(self).files,
            final(self).imports == old(self).imports,
            forall|l: Seq<char>| #[trigger]
                final(self).graph.has_node(l) <==> old(self).graph.has_node(l) || old(self).in_universe(l),
            forall|a: Seq<char>, b: Seq<char>| #[trigger]
                final(self).graph.has_edge(a, b) <==> old(self).graph.has_edge(a, b) || old(self).wants_edge(a, b),
            old(self).graph.labels().len() == 0 ==> final(self).nodes_match_universe() && final(self).edges_match_imports(),
    {
        let n = self.files.len();
        let mut i: usize = 0;
        while i < n
            invariant
                i <= n,
                n == self.files@.len(),
                self.wf(),
                self.root == old(self).root,
                self.files == old(self).files,
                self.imports == old(self).imports,
                forall|l: Seq<char>|
                    old(self).graph.has_node(l) ==> #[trigger] self.graph.has_node(l),
                forall|a: Seq<char>, b: Seq<char>|
                    old(self).graph.has_edge(a, b) ==> #[trigger] self.graph.has_edge(a, b),
                forall|a: Seq<char>, b: Seq<char>| #[trigger]
                    self.graph.has_edge(a, b) ==> old(self).graph.has_edge(a, b)
                        || self.wants_edge(a, b),
                forall|j: int| 0 <= j < i ==> self.graph.has_node(#[trigger] self.universe()[j]),
                forall|j: int| 0 <= j < i ==> self.entry_done(#[trigger] self.universe()[j]),
            decreases n - i,
        {
            let ghost w_pre = *self;
            let f = self.files[i].clone();
            proof {
                assert(self.in_universe(f@)) by {
                    assert(self.universe()[i as int] == f@);
                }
            }
            self.collect(&f, None);
            proof {
                assert forall|j: int| 0 <= j < i + 1 implies self.entry_done(
                    #[trigger] self.universe()[j],
                ) by {
                    let p = self.universe()[j];
                    assert forall|q: Seq<char>|
                        #![trigger self.file_links(p, q)]
                        self.file_links(p, q) && self.in_universe(q) implies self.graph.has_edge(
                        p,
                        q,
                    ) by {
                        if j < i {
                            assert(w_pre.file_links(p, q));
                            assert(w_pre.entry_done(p));
                            assert(w_pre.graph.has_edge(p, q));
                        } else {
                            assert(p == f@);
                            assert(self.entry_done(f@));
                        }
                    }
                }
                assert forall|j: int| 0 <= j < i + 1 implies self.graph.has_node(
                    #[trigger] self.universe()[j],
                ) by {
                    if j < i {
                        assert(w_pre.graph.has_node(self.universe()[j]));
                    }
                }
            }
            i = i + 1;
        }
        proof {
            assert forall|l: Seq<char>| #[trigger]
                self.graph.has_node(l) <==> old(self).graph.has_node(l) || old(self).in_universe(
                l,
            ) by {
                if self.graph.has_node(l) {
                    let k = choose|k: int|
                        0 <= k < self.graph.labels().len() && self.graph.labels()[k] == l;
                    assert(self.in_universe(l));
                }
                if old(self).in_universe(l) {
                    let k = choose|k: int|
                        0 <= k < self.universe().len() && self.universe()[k] == l;
                    assert(self.graph.has_node(self.universe()[k]));
                }
            }
            assert forall|a: Seq<char>, b: Seq<char>| #[trigger]
                self.graph.has_edge(a, b) <==> old(self).graph.has_edge(a, b) || old(self).wants_edge(a, b) by {
                if old(self).wants_edge(a, b) {
                    let k = choose|k: int|
                        0 <= k < self.universe().len() && self.universe()[k] == a;
                    assert(self.entry_done(self.universe()[k]));
                    assert(self.file_links(a, b) && self.in_universe(b));
                }
            }
            if old(self).graph.labels().len() == 0 {
                assert forall|l: Seq<char>| !old(self).graph.has_node(l) by {}
                assert forall|a: Seq<char>, b: Seq<char>| !old(self).graph.has_edge(a, b) by {}
            }
        }
    }
}

/// Push one work item per relative, resolved record, all with parent `cur`.
#[verifier::loop_isolation(false)]
fn push_targets(records: &Vec<ImportRecord>, cur: usize, stack: &mut Vec<(String, usize)>)
    ensures
        old(stack)@.is_prefix_of(final(stack)@),
        forall|k: int|
            old(stack)@.len() <= k < final(stack)@.len() ==> (#[trigger] final(stack)@[k]).1 == cur
                && links_to(records@, final(stack)@[k].0@),
        forall|q: Seq<char>| #[trigger]
            links_to(records@, q) ==> exists|k: int|
                old(stack)@.len() <= k < final(stack)@.len() && (#[trigger] final(stack)@[k]).0@
                    == q && final(stack)@[k].1 == cur,
{
    proof {
        lemma_prefix_refl(old(stack)@);
    }
    let mut j: usize = 0;
    while j < records.len()
        invariant
            j <= records@.len(),
            old(stack)@.is_prefix_of(stack@),
            forall|k: int|
                old(stack)@.len() <= k < stack@.len() ==> (#[trigger] stack@[k]).1 == cur
                    && links_to(records@, stack@[k].0@),
            forall|q: Seq<char>| #[trigger]
                links_to(records@.take(j as int), q) ==> exists|k: int|
                    old(stack)@.len() <= k < stack@.len() && (#[trigger] stack@[k]).0@ == q
                        && stack@[k].1 == cur,
        decreases records@.len() - j,
    {
        let ghost stack_before = stack@;
        let r = &records[j];
        if is_relative_specifier(&r.specifier) {
            match &r.target {
                Some(t) => {
                    let item = (t.clone(), cur);
                    stack.push(item);
                    proof {
                        lemma_prefix_push(stack_before, stack@[stack@.len() - 1]);
                        lemma_prefix_trans(old(stack)@, stack_before, stack@);
                        assert(links_to(records@, stack@[stack@.len() - 1].0@)) by {
                            assert(spec_is_relative(records@[j as int].specifier@));
                            assert(records@[j as int].target->0@ == stack@[stack@.len() - 1].0@);
                        }
                    }
                },
                None => {},
            }
        }
        proof {
            assert forall|q: Seq<char>| #[trigger]
                links_to(records@.take(j + 1), q) implies exists|k: int|
                old(stack)@.len() <= k < stack@.len() && (#[trigger] stack@[k]).0@ == q
                    && stack@[k].1 == cur by {
                let taken = records@.take(j + 1);
                let jj = choose|jj: int|
                    0 <= jj < taken.len() && spec_is_relative((#[trigger] taken[jj]).specifier@)
                        && taken[jj].target is Some && taken[jj].target->0@ == q;
                if jj < j {
                    assert(records@.take(j as int)[jj] == taken[jj]);
                    assert(links_to(records@.take(j as int), q));
                    let k0 = choose|k: int|
                        old(stack)@.len() <= k < stack_before.len() && (
                        #[trigger] stack_before[k]).0@ == q && stack_before[k].1 == cur;
                    assert(stack@[k0] == stack_before[k0]);
                } else {
                    assert(taken[jj] == records@[j as int]);
                    assert(stack@[stack@.len() - 1].0@ == q && stack@[stack@.len() - 1].1 == cur);
                }
            }
        }
        j = j + 1;
    }
    proof {
        assert(records@.take(records@.len() as int) =~= records@);
    }
}

/// Resolve the imports of one file: extract its specifiers, then resolve the
/// relative ones against the file's directory and map each result back to a
/// root-relative path.
#[verifier::loop_isolation(false)]
fn build_records(root: &String, path: &String, text: &String) -> (rs: Vec<ImportRecord>)
    ensures
        records_from(rs@, text@),
{
    let specs = extract_imports(text);
    let abs = join_under(root, path);
    let base = parent_dir(&abs);
    let mut rs: Vec<ImportRecord> = Vec::new();
    let mut j: usize = 0;
    while j < specs.len()
        invariant
            j <= specs@.len(),
            specs@.map_values(|s: String| s@) == import_specifiers_of(text@),
            rs@.len() == j,
            forall|k: int|
                0 <= k < j ==> (#[trigger] rs@[k]).specifier@ == import_specifiers_of(text@)[k],
            forall|k: int|
                0 <= k < j && !spec_is_relative((#[trigger] rs@[k]).specifier@) ==> rs@[k].target
                    is None,
        decreases specs@.len() - j,
    {
        let sp = specs[j].clone();
        let target: Option<String> = if is_relative_specifier(&sp) {
            match resolve_import(&sp, &base) {
                Some(resolved) => strip_root(&resolved, root),
                None => None,
            }
        } else {
            None
        };
        rs.push(ImportRecord { specifier: sp, target });
        j = j + 1;
    }
    rs
}

/// A sequence is a prefix of itself.
proof fn lemma_prefix_refl<A>(s: Seq<A>)
    ensures
        s.is_prefix_of(s),
{
    assert(s =~= s.subrange(0, s.len() as int));
}

/// A sequence is a prefix of itself extended by one element.
proof fn lemma_prefix_push<A>(s: Seq<A>, x: A)
    ensures
        s.is_prefix_of(s.push(x)),
{
    assert(s =~= s.push(x).subrange(0, s.len() as int));
}

/// Prefixes compose.
proof fn lemma_prefix_trans<A>(a: Seq<A>, b: Seq<A>, c: Seq<A>)
    requires
        a.is_prefix_of(b),
        b.is_prefix_of(c),
    ensures
        a.is_prefix_of(c),
{
    assert forall|i: int| 0 <= i < a.len() implies a[i] == c[i] by {
        assert(a[i] == b.subrange(0, a.len() as int)[i]);
        assert(b[i] == c.subrange(0, b.len() as int)[i]);
    }
    assert(a =~= c.subrange(0, a.len() as int));
}

/// A node label stays present when labels only grow.
proof fn lemma_has_node_mono(g1: DependencyGraph, g2: DependencyGraph)
    requires
        g1.labels().is_prefix_of(g2.labels()),
    ensures
        forall|l: Seq<char>| g1.has_node(l) ==> #[trigger] g2.has_node(l),
{
    assert forall|l: Seq<char>| g1.has_node(l) implies #[trigger] g2.has_node(l) by {
        let i = choose|i: int| 0 <= i < g1.labels().len() && g1.labels()[i] == l;
        assert(g1.labels()[i] == g1.labels().subrange(0, g1.labels().len() as int)[i]);
        assert(g2.labels()[i] == l);
    }
}

/// Extending the node list without touching the edges changes no edge fact.
proof fn lemma_has_edge_same_on_ext(g1: DependencyGraph, g2: DependencyGraph)
    requires
        g1.wf(),
        g2.edges@ == g1.edges@,
        g1.labels().is_prefix_of(g2.labels()),
    ensures
        forall|a: Seq<char>, b: Seq<char>| #[trigger] g2.has_edge(a, b) <==> g1.has_edge(a, b),
{
    assert forall|a: Seq<char>, b: Seq<char>| #[trigger]
        g2.has_edge(a, b) <==> g1.has_edge(a, b) by {
        if g2.has_edge(a, b) {
            let k = choose|k: int|
                0 <= k < g2.edges@.len() && g2.labels()[(#[trigger] g2.edges@[k]).from as int] == a
                    && g2.labels()[g2.edges@[k].to as int] == b;
            assert(g1.labels()[g1.edges@[k].from as int] == g2.labels()[g1.edges@[k].from as int]);
            assert(g1.labels()[g1.edges@[k].to as int] == g2.labels()[g1.edges@[k].to as int]);
        }
        if g1.has_edge(a, b) {
            let k = choose|k: int|
                0 <= k < g1.edges@.len() && g1.labels()[(#[trigger] g1.edges@[k]).from as int] == a
                    && g1.labels()[g1.edges@[k].to as int] == b;
            assert(g2.labels()[g1.edges@[k].from as int] == g1.labels()[g1.edges@[k].from as int]);
            assert(g2.labels()[g1.edges@[k].to as int] == g1.labels()[g1.edges@[k].to as int]);
        }
    }
}

/// Edges and labels only grow, so a recorded edge stays recorded.
proof fn lemma_has_edge_mono(g1: DependencyGraph, g2: DependencyGraph)
    requires
        g1.wf(),
        g1.edges@.is_prefix_of(g2.edges@),
        g1.labels().is_prefix_of(g2.labels()),
    ensures
        forall|a: Seq<char>, b: Seq<char>| g1.has_edge(a, b) ==> #[trigger] g2.has_edge(a, b),
{
    assert forall|a: Seq<char>, b: Seq<char>| g1.has_edge(a, b) implies #[trigger] g2.has_edge(
        a,
        b,
    ) by {
        let k = choose|k: int|
            0 <= k < g1.edges@.len() && g1.labels()[(#[trigger] g1.edges@[k]).from as int] == a
                && g1.labels()[g1.edges@[k].to as int] == b;
        assert(g1.edges@[k] == g1.edges@.subrange(0, g1.edges@.len() as int)[k]);
        assert(g2.edges@[k] == g1.edges@[k]);
        assert(g2.labels()[g1.edges@[k].from as int] == g1.labels()[g1.edges@[k].from as int]);
        assert(g2.labels()[g1.edges@[k].to as int] == g1.labels()[g1.edges@[k].to as int]);
    }
}

/// A sequence of pairwise distinct labels drawn from `u` is no longer than
/// `u` itself.
proof fn lemma_nodes_bound(g: DependencyGraph, u: Seq<Seq<char>>)
    requires
        g.wf(),
        forall|i: int| 0 <= i < g.labels().len() ==> u.contains(#[trigger] g.labels()[i]),
    ensures
        g.num_nodes() <= u.len(),
{
    broadcast use seq_to_set_is_finite;

    let labels = g.labels();
    assert(labels.no_duplicates());
    labels.unique_seq_to_set();
    assert(labels.to_set().subset_of(u.to_set())) by {
        assert forall|x: Seq<char>| labels.to_set().contains(x) implies u.to_set().contains(
            x,
        ) by {
            let i = choose|i: int| 0 <= i < labels.len() && labels[i] == x;
            assert(u.contains(x));
        }
    }
    u.lemma_cardinality_of_set();
    lemma_len_subset(labels.to_set(), u.to_set());
}

/// Distinct ordered pairs over `n` node indices number at most `n * n`.
proof fn lemma_edge_pairs_bound(g: DependencyGraph)
    requires
        g.wf(),
    ensures
        g.num_edges() <= g.num_nodes() * g.num_nodes(),
{
    broadcast use seq_to_set_is_finite;

    let n = g.num_nodes();
    let keys = g.edges@.map_values(|e: Edge| e.from * n + e.to);
    assert(n * n >= 0) by (nonlinear_arith)
        requires
            n >= 0,
    ;
    assert forall|k: int, l: int|
        0 <= k < keys.len() && 0 <= l < keys.len() && k != l implies keys[k] != keys[l] by {
        let e1 = g.edges@[k];
        let e2 = g.edges@[l];
        assert(!(e1.from == e2.from && e1.to == e2.to));
        assert(e1.from * n + e1.to != e2.from * n + e2.to) by (nonlinear_arith)
            requires
                (e1.from as int) < n,
                (e1.to as int) < n,
                (e2.from as int) < n,
                (e2.to as int) < n,
                !(e1.from == e2.from && e1.to == e2.to),
        ;
    }
    assert(keys.no_duplicates());
    keys.unique_seq_to_set();
    assert(keys.to_set().subset_of(set_int_range(0, n * n))) by {
        assert forall|x: int| keys.to_set().contains(x) implies set_int_range(0, n * n).contains(
            x,
        ) by {
            let i = choose|i: int| 0 <= i < keys.len() && keys[i] == x;
            let e = g.edges@[i];
            assert(0 <= e.from * n + e.to < n * n) by (nonlinear_arith)
                requires
                    0 <= (e.from as int) < n,
                    0 <= (e.to as int) < n,
            ;
        }
    }
    lemma_int_range(0, n * n);
    lemma_len_subset(keys.to_set(), set_int_range(0, n * n));
}

/// The number of recorded edges never passes the square of the universe.
proof fn lemma_walker_edge_budget(w: Walker)
    requires
        w.wf(),
    ensures
        w.graph.num_edges() <= w.universe().len() * w.universe().len(),
{
    lemma_edge_pairs_bound(w.graph);
    lemma_nodes_bound(w.graph, w.universe());
    let n = w.graph.num_nodes();
    let u = w.universe().len() as int;
    assert(n * n <= u * u) by (nonlinear_arith)
        requires
            0 <= n <= u,
    ;
}

/// One loop iteration of the traversal keeps every pending target of the
/// seed either recorded as an edge or still on the stack.
proof fn lemma_restore_pending(
    w1: Walker,
    w2: Walker,
    s1: Seq<(String, usize)>,
    s2: Seq<(String, usize)>,
    entry: Seq<char>,
    e: Seq<char>,
)
    requires
        w1.wf(),
        w1.files == w2.files,
        w1.imports == w2.imports,
        w1.graph.edges@.is_prefix_of(w2.graph.edges@),
        w1.graph.labels().is_prefix_of(w2.graph.labels()),
        s1.len() > 0,
        s1[s1.len() - 1].0@ == e,
        s1.drop_last().is_prefix_of(s2),
        forall|k: int| 0 <= k < s1.len() ==> ((#[trigger] s1[k]).1 as int) < w1.graph.labels().len(),
        forall|q: Seq<char>|
            #![trigger w1.file_links(entry, q)]
            w1.file_links(entry, q) && w1.in_universe(q) ==> w1.graph.has_edge(entry, q) || exists|
                k: int,
            |
                0 <= k < s1.len() && (#[trigger] s1[k]).0@ == q && w1.graph.labels()[s1[k].1
                    as int] == entry,
        w1.in_universe(e) ==> w2.graph.has_edge(w1.graph.labels()[s1[s1.len() - 1].1 as int], e),
    ensures
        forall|q: Seq<char>|
            #![trigger w2.file_links(entry, q)]
            w2.file_links(entry, q) && w2.in_universe(q) ==> w2.graph.has_edge(entry, q) || exists|
                k: int,
            |
                0 <= k < s2.len() && (#[trigger] s2[k]).0@ == q && w2.graph.labels()[s2[k].1
                    as int] == entry,
{
    lemma_has_edge_mono(w1.graph, w2.graph);
    let sdl = s1.drop_last();
    assert forall|q: Seq<char>|
        #![trigger w2.file_links(entry, q)]
        w2.file_links(entry, q) && w2.in_universe(q) implies w2.graph.has_edge(entry, q) || exists|
        k: int,
    |
        0 <= k < s2.len() && (#[trigger] s2[k]).0@ == q && w2.graph.labels()[s2[k].1 as int]
            == entry by {
        assert(w1.file_links(entry, q) && w1.in_universe(q));
        if !w1.graph.has_edge(entry, q) {
            let k = choose|k: int|
                0 <= k < s1.len() && (#[trigger] s1[k]).0@ == q && w1.graph.labels()[s1[k].1
                    as int] == entry;
            if k < s1.len() - 1 {
                assert(sdl[k] == s1[k]);
                assert(sdl[k] == s2.subrange(0, sdl.len() as int)[k]);
                assert(s2[k] == s1[k]);
                assert(w1.graph.labels()[s1[k].1 as int] == w1.graph.labels().subrange(
                    0,
                    w1.graph.labels().len() as int,
                )[s1[k].1 as int]);
                assert(w2.graph.labels()[s2[k].1 as int] == w1.graph.labels()[s1[k].1 as int]);
                assert(0 <= k < s2.len() && s2[k].0@ == q && w2.graph.labels()[s2[k].1 as int]
                    == entry);
            } else {
                assert(q == e);
                assert(w1.in_universe(q));
                assert(w2.graph.has_edge(w1.graph.labels()[s1[k].1 as int], e));
                assert(w2.graph.has_edge(entry, q));
            }
        }
    }
}

} // verus!
