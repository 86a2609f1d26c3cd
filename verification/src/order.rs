//! The import graph of a root module over a file-tree snapshot: breadth-
//! first construction with cycle rejection, and the dependency-first
//! drain that yields the order in which files must be handed downstream.

use vstd::prelude::*;
use crate::errors::ImportResolutionError;
use crate::filetree::FileTree;
use crate::graph::{
    DiGraph, acyclic, reaches, valid_path, lemma_reaches_self, lemma_reaches_step,
    lemma_reaches_mono,
    lemma_bounded_distinct_len, lemma_count_lt_exists_false, lemma_count_full, count_marked,
    lemma_count_update, lemma_count_le_len, lemma_push_contains,
};
use crate::module::{Module, spec_resolve};
use crate::paths::DirPath;
use crate::scan::{all_imports_in_source, split_paths, spec_dedup, lemma_dedup_contains};

verus! {

/// The views of a node list.
pub open spec fn nodes_view(nodes: Seq<Module>) -> Seq<Seq<Seq<char>>> {
    nodes.map_values(|m: Module| m@)
}

/// The import relation of a file tree: the file at `a` textually requests
/// something that resolves to the file at `b`.
pub open spec fn import_edge(
    tree: FileTree,
    rd: Seq<Seq<char>>,
    a: Seq<Seq<char>>,
    b: Seq<Seq<char>>,
) -> bool {
    &&& tree.contains_path(a)
    &&& exists|req: Seq<char>|
        #[trigger] split_paths(tree.text_of(a)).contains(req) && spec_resolve(tree, a, rd, req)
            == Some(b)
}

/// A nonempty chain of modules in which each file imports the next.
pub open spec fn relation_path(
    tree: FileTree,
    rd: Seq<Seq<char>>,
    p: Seq<Seq<Seq<char>>>,
) -> bool {
    p.len() >= 1 && forall|i: int, j: int|
        0 <= i && j == i + 1 && j < p.len() ==> import_edge(
            tree,
            rd,
            (#[trigger] p[i]),
            #[trigger] p[j],
        )
}

/// The file at `b` is the file at `a` itself, or transitively imported by
/// it.
pub open spec fn relation_reaches(
    tree: FileTree,
    rd: Seq<Seq<char>>,
    a: Seq<Seq<char>>,
    b: Seq<Seq<char>>,
) -> bool {
    exists|p: Seq<Seq<Seq<char>>>| relation_path(tree, rd, p) && p.first() == a && p.last() == b
}

pub proof fn lemma_relation_reaches_self(tree: FileTree, rd: Seq<Seq<char>>, a: Seq<Seq<char>>)
    ensures
        relation_reaches(tree, rd, a, a),
{
    let p: Seq<Seq<Seq<char>>> = seq![a];
    assert(relation_path(tree, rd, p) && p.first() == a && p.last() == a);
}

pub proof fn lemma_relation_step(
    tree: FileTree,
    rd: Seq<Seq<char>>,
    a: Seq<Seq<char>>,
    b: Seq<Seq<char>>,
    c2: Seq<Seq<char>>,
)
    requires
        relation_reaches(tree, rd, a, b),
        import_edge(tree, rd, b, c2),
    ensures
        relation_reaches(tree, rd, a, c2),
{
    let p = choose|p: Seq<Seq<Seq<char>>>|
        relation_path(tree, rd, p) && p.first() == a && p.last() == b;
    let q = p.push(c2);
    assert forall|i: int, j: int| 0 <= i && j == i + 1 && j < q.len() implies import_edge(
        tree,
        rd,
        (#[trigger] q[i]),
        #[trigger] q[j],
    ) by {
        if j < q.len() - 1 {
            assert(q[i] == p[i] && q[j] == p[j]);
        } else {
            assert(q[i] == p.last() && q[j] == c2);
        }
    }
    assert(relation_path(tree, rd, q) && q.first() == a && q.last() == c2);
}

/// A graph path whose edges are all true import edges witnesses a chain of
/// the import relation between its end modules.
pub proof fn lemma_graph_path_to_relation(
    tree: FileTree,
    rd: Seq<Seq<char>>,
    nv: Seq<Seq<Seq<char>>>,
    es: Seq<(usize, usize)>,
    q: Seq<usize>,
)
    requires
        valid_path(es, q),
        q.first() < nv.len(),
        forall|k: int| 0 <= k < es.len() ==> (#[trigger] es[k]).0 < nv.len() && es[k].1 < nv.len(),
        forall|k: int|
            0 <= k < es.len() ==> import_edge(
                tree,
                rd,
                nv[(#[trigger] es[k]).0 as int],
                nv[es[k].1 as int],
            ),
    ensures
        relation_reaches(tree, rd, nv[q.first() as int], nv[q.last() as int]),
{
    let p = q.map_values(|v: usize| nv[v as int]);
    assert forall|i: int| 0 <= i < q.len() implies #[trigger] q[i] < nv.len() by {
        if i == 0 {
        } else {
            assert(es.contains((q[i - 1], q[i])));
            let k = choose|k: int| 0 <= k < es.len() && es[k] == (q[i - 1], q[i]);
        }
    }
    assert forall|i: int, j: int| 0 <= i && j == i + 1 && j < p.len() implies import_edge(
        tree,
        rd,
        (#[trigger] p[i]),
        #[trigger] p[j],
    ) by {
        assert(es.contains((q[i], q[j])));
        let k = choose|k: int| 0 <= k < es.len() && es[k] == (q[i], q[j]);
        assert(p[i] == nv[q[i] as int] && p[j] == nv[q[j] as int]);
    }
    assert(relation_path(tree, rd, p));
    assert(p.first() == nv[q.first() as int] && p.last() == nv[q.last() as int]);
}

/// A work item is justified: the importing node's text requests something
/// that resolves to the carried module.
pub open spec fn entry_justified(
    tree: FileTree,
    rd: Seq<Seq<char>>,
    nv: Seq<Seq<Seq<char>>>,
    imp: usize,
    mv: Seq<Seq<char>>,
) -> bool {
    &&& imp < nv.len()
    &&& tree.contains_path(mv)
    &&& exists|req: Seq<char>|
        #[trigger] split_paths(tree.text_of(nv[imp as int])).contains(req) && spec_resolve(
            tree,
            nv[imp as int],
            rd,
            req,
        ) == Some(mv)
}

/// The views of a work-queue.
pub open spec fn queue_view(q: Seq<(usize, Module)>) -> Seq<(usize, Seq<Seq<char>>)> {
    q.map_values(|e: (usize, Module)| (e.0, e.1@))
}

/// The work item has already become an edge of the graph.
pub open spec fn entry_edged(
    nv: Seq<Seq<Seq<char>>>,
    es: Seq<(usize, usize)>,
    imp: usize,
    mv: Seq<Seq<char>>,
) -> bool {
    exists|j: int| 0 <= j < nv.len() && nv[j] == mv && es.contains((imp, j as usize))
}

/// Some work item at or after position `lo` carries node `idx`'s
/// resolution of `req`.
pub open spec fn request_covered(
    tree: FileTree,
    rd: Seq<Seq<char>>,
    mv: Seq<Seq<char>>,
    qv: Seq<(usize, Seq<Seq<char>>)>,
    lo: int,
    idx: usize,
    req: Seq<char>,
) -> bool {
    exists|k: int|
        lo <= k < qv.len() && (#[trigger] qv[k]).0 == idx && spec_resolve(tree, mv, rd, req)
            == Some(qv[k].1)
}

/// Every request of node `i` has a work item in the queue.
pub open spec fn requests_enqueued(
    tree: FileTree,
    rd: Seq<Seq<char>>,
    nv: Seq<Seq<Seq<char>>>,
    qv: Seq<(usize, Seq<Seq<char>>)>,
    i: int,
) -> bool {
    forall|req: Seq<char>|
        #[trigger] split_paths(tree.text_of(nv[i])).contains(req) ==> exists|k: int|
            0 <= k < qv.len() && (#[trigger] qv[k]).0 == i && spec_resolve(tree, nv[i], rd, req)
                == Some(qv[k].1)
}

/// Extending the queue, or the node list, keeps every enqueued request
/// enqueued.
proof fn lemma_enqueued_mono(
    tree: FileTree,
    rd: Seq<Seq<char>>,
    nv0: Seq<Seq<Seq<char>>>,
    nv: Seq<Seq<Seq<char>>>,
    qv0: Seq<(usize, Seq<Seq<char>>)>,
    qv: Seq<(usize, Seq<Seq<char>>)>,
    i: int,
)
    requires
        0 <= i < nv0.len(),
        nv[i] == nv0[i],
        forall|k: int| 0 <= k < qv0.len() ==> qv[k] == qv0[k],
        qv0.len() <= qv.len(),
        requests_enqueued(tree, rd, nv0, qv0, i),
    ensures
        requests_enqueued(tree, rd, nv, qv, i),
{
    assert forall|req: Seq<char>|
        #[trigger] split_paths(tree.text_of(nv[i])).contains(req) implies exists|k: int|
        0 <= k < qv.len() && (#[trigger] qv[k]).0 == i && spec_resolve(tree, nv[i], rd, req)
            == Some(qv[k].1) by {
        assert(split_paths(tree.text_of(nv0[i])).contains(req));
        let k = choose|k: int|
            0 <= k < qv0.len() && (#[trigger] qv0[k]).0 == i && spec_resolve(tree, nv0[i], rd, req)
                == Some(qv0[k].1);
        assert(qv[k] == qv0[k]);
    }
}

/// The invariant of the breadth-first builder: a well-formed acyclic graph
/// over distinct modules of the tree, rooted at node 0, every edge a true
/// import edge, every node reachable from the root, and no edge into the
/// root.
pub open spec fn builder_inv(
    tree: FileTree,
    rd: Seq<Seq<char>>,
    rootv: Seq<Seq<char>>,
    g: DiGraph,
    nodes: Seq<Module>,
) -> bool {
    let nv = nodes_view(nodes);
    &&& g.wf()
    &&& acyclic(g.edges@)
    &&& nodes.len() == g.n
    &&& g.n >= 1
    &&& nv[0] == rootv
    &&& forall|i: int| 0 <= i < nodes.len() ==> (#[trigger] nodes[i]).wf()
    &&& forall|i: int| 0 <= i < nv.len() ==> tree.contains_path(#[trigger] nv[i])
    &&& forall|i: int, j: int| 0 <= i < nv.len() && 0 <= j < nv.len() && i != j ==> nv[i] != nv[j]
    &&& forall|k: int|
        0 <= k < g.edges@.len() ==> import_edge(
            tree,
            rd,
            nv[(#[trigger] g.edges@[k]).0 as int],
            nv[g.edges@[k].1 as int],
        )
    &&& forall|i: usize| i < g.n ==> #[trigger] reaches(g.edges@, 0, i)
    &&& forall|k: int| 0 <= k < g.edges@.len() ==> (#[trigger] g.edges@[k]).1 != 0
}

/// Re-establishes the coverage bookkeeping after one work item: the item's
/// edge is committed, and a fresh module's own requests are all enqueued.
#[verifier::spinoff_prover]
proof fn restore_coverage(
    tree: FileTree,
    rd: Seq<Seq<char>>,
    nv0: Seq<Seq<Seq<char>>>,
    nv: Seq<Seq<Seq<char>>>,
    qv0: Seq<(usize, Seq<Seq<char>>)>,
    qv: Seq<(usize, Seq<Seq<char>>)>,
    es0: Seq<(usize, usize)>,
    es: Seq<(usize, usize)>,
    head: int,
    imp: usize,
    idx: usize,
    mv: Seq<Seq<char>>,
    is_new: bool,
    sp: Seq<Seq<char>>,
    rs: Seq<Seq<char>>,
)
    requires
        0 <= head < qv0.len(),
        qv0[head] == (imp, mv),
        forall|k: int| 0 <= k < qv0.len() ==> qv[k] == qv0[k],
        qv0.len() <= qv.len(),
        forall|i: int| 0 <= i < nv0.len() ==> nv[i] == nv0[i],
        nv0.len() <= nv.len(),
        idx < nv.len(),
        nv[idx as int] == mv,
        es == es0.push((imp, idx)),
        forall|k: int|
            0 <= k < head ==> entry_edged(nv0, es0, (#[trigger] qv0[k]).0, qv0[k].1),
        forall|i: int| 0 <= i < nv0.len() ==> #[trigger] requests_enqueued(tree, rd, nv0, qv0, i),
        is_new ==> nv.len() == nv0.len() + 1 && idx == nv0.len(),
        !is_new ==> nv == nv0,
        is_new ==> sp == split_paths(tree.text_of(mv)),
        is_new ==> rs == spec_dedup(sp),
        is_new ==> forall|j2: int|
            0 <= j2 < rs.len() ==> request_covered(
                tree,
                rd,
                mv,
                qv,
                qv0.len() as int,
                idx,
                #[trigger] rs[j2],
            ),
    ensures
        forall|k: int|
            0 <= k < head + 1 ==> entry_edged(nv, es, (#[trigger] qv[k]).0, qv[k].1),
        forall|i: int| 0 <= i < nv.len() ==> #[trigger] requests_enqueued(tree, rd, nv, qv, i),
{
    assert(es.contains((imp, idx))) by {
        assert(es[es.len() - 1] == (imp, idx));
    }
    assert forall|e: (usize, usize)| es0.contains(e) implies es.contains(e) by {
        let k = choose|k: int| 0 <= k < es0.len() && es0[k] == e;
        assert(es[k] == e);
    }
    assert forall|k: int| 0 <= k < head + 1 implies entry_edged(
        nv,
        es,
        (#[trigger] qv[k]).0,
        qv[k].1,
    ) by {
        if k < head {
            assert(qv[k] == qv0[k]);
            assert(entry_edged(nv0, es0, qv0[k].0, qv0[k].1));
            let jw = choose|jw: int|
                0 <= jw < nv0.len() && nv0[jw] == qv0[k].1 && es0.contains((qv0[k].0, jw as usize));
            assert(nv[jw] == qv[k].1 && es.contains((qv[k].0, jw as usize)));
        } else {
            assert(qv[k] == qv0[head]);
            assert(nv[idx as int] == mv && es.contains((imp, idx)));
        }
    }
    assert forall|i: int| 0 <= i < nv.len() implies #[trigger] requests_enqueued(
        tree,
        rd,
        nv,
        qv,
        i,
    ) by {
        if i < nv0.len() {
            lemma_enqueued_mono(tree, rd, nv0, nv, qv0, qv, i);
        } else {
            assert(is_new && i == nv.len() - 1 && nv[i] == mv);
            assert forall|req: Seq<char>|
                #[trigger] split_paths(tree.text_of(nv[i])).contains(req) implies exists|k: int|
                0 <= k < qv.len() && (#[trigger] qv[k]).0 == i && spec_resolve(
                    tree,
                    nv[i],
                    rd,
                    req,
                ) == Some(qv[k].1) by {
                lemma_dedup_contains(sp, req);
                let j2 = choose|j2: int| 0 <= j2 < rs.len() && rs[j2] == req;
                assert(request_covered(tree, rd, mv, qv, qv0.len() as int, idx, rs[j2]));
                let k = choose|k: int|
                    qv0.len() as int <= k < qv.len() && (#[trigger] qv[k]).0 == idx && spec_resolve(
                        tree,
                        mv,
                        rd,
                        rs[j2],
                    ) == Some(qv[k].1);
                assert(qv[k].0 == i);
            }
        }
    }
}

/// A loop of the import relation: each module imports the next, and the
/// last imports the first again.
pub open spec fn relation_cycle(
    tree: FileTree,
    rd: Seq<Seq<char>>,
    c: Seq<Seq<Seq<char>>>,
) -> bool {
    &&& c.len() >= 1
    &&& forall|i: int| 0 <= i < c.len() - 1 ==> import_edge(tree, rd, #[trigger] c[i], c[i + 1])
    &&& import_edge(tree, rd, c.last(), c.first())
}

/// Resolution is owed success: over a snapshot where every request of
/// every file reachable from the root resolves, and no loop of the import
/// relation is reachable from the root, any outcome that meets the
/// traversal's contract is a success.  The two failure kinds each carry
/// reachable evidence that contradicts one of the premises.
pub proof fn lemma_resolution_succeeds(
    tree: FileTree,
    rd: Seq<Seq<char>>,
    rootv: Seq<Seq<char>>,
    r: Result<ImportOrder, ImportResolutionError>,
)
    requires
        forall|p: Seq<Seq<char>>, req: Seq<char>|
            tree.contains_path(p) && relation_reaches(tree, rd, rootv, p)
                && #[trigger] split_paths(tree.text_of(p)).contains(req) ==> spec_resolve(
                tree,
                p,
                rd,
                req,
            ) is Some,
        !(exists|c: Seq<Seq<Seq<char>>>|
            relation_cycle(tree, rd, c) && relation_reaches(tree, rd, rootv, c.first())),
        match r {
            Ok(_) => true,
            Err(e) => match e {
                ImportResolutionError::Cycle { cycle_path } => relation_cycle(
                    tree,
                    rd,
                    nodes_view(cycle_path@),
                ) && relation_reaches(tree, rd, rootv, nodes_view(cycle_path@).first()),
                ImportResolutionError::Unresolved { requested, importer, searched } => {
                    &&& tree.contains_path(importer@)
                    &&& split_paths(tree.text_of(importer@)).contains(requested@)
                    &&& spec_resolve(tree, importer@, rd, requested@) is None
                    &&& relation_reaches(tree, rd, rootv, importer@)
                },
            },
        },
    ensures
        r is Ok,
{
    match r {
        Ok(_) => {},
        Err(e) => match e {
            ImportResolutionError::Cycle { cycle_path } => {
                assert(relation_cycle(tree, rd, nodes_view(cycle_path@)) && relation_reaches(
                    tree,
                    rd,
                    rootv,
                    nodes_view(cycle_path@).first(),
                ));
                assert(false);
            },
            ImportResolutionError::Unresolved { requested, importer, searched } => {
                assert(spec_resolve(tree, importer@, rd, requested@) is Some);
                assert(false);
            },
        },
    }
}

/// Distinct module paths that all exist in a well-formed tree cannot
/// outnumber its entries.
pub proof fn lemma_distinct_tree_members(tree: FileTree, ps: Seq<Seq<Seq<char>>>)
    requires
        tree.wf(),
        forall|i: int, j: int| 0 <= i < ps.len() && 0 <= j < ps.len() && i != j ==> ps[i] != ps[j],
        forall|i: int| 0 <= i < ps.len() ==> tree.contains_path(#[trigger] ps[i]),
    ensures
        ps.len() <= tree.entries@.len(),
{
    let q = ps.map_values(
        |p: Seq<Seq<char>>| choose|e: int| 0 <= e < tree.entries@.len() && tree.entries@[e].0@ == p,
    );
    assert forall|i: int| 0 <= i < q.len() implies 0 <= #[trigger] q[i] < tree.entries@.len() by {
        assert(tree.contains_path(ps[i]));
        assert(q[i] == choose|e: int| 0 <= e < tree.entries@.len() && tree.entries@[e].0@ == ps[i]);
    }
    assert(q.no_duplicates()) by {
        assert forall|i: int, j: int|
            0 <= i < q.len() && 0 <= j < q.len() && i != j implies q[i] != q[j] by {
            assert(tree.entries@[q[i]].0@ == ps[i]);
            assert(tree.entries@[q[j]].0@ == ps[j]);
        }
    }
    lemma_bounded_distinct_len(q, tree.entries@.len() as nat);
}

/// Finds the node whose module view equals `m`.
fn find_node(nodes: &Vec<Module>, m: &Module) -> (r: Option<usize>)
    ensures
        match r {
            Some(i) => i < nodes@.len() && nodes@[i as int]@ == m@,
            None => forall|i: int| 0 <= i < nodes@.len() ==> nodes@[i]@ != m@,
        },
{
    let mut i: usize = 0;
    while i < nodes.len()
        invariant
            i <= nodes@.len(),
            forall|j: int| 0 <= j < i ==> nodes@[j]@ != m@,
        decreases nodes@.len() - i,
    {
        if nodes[i].matches(m) {
            return Some(i);
        }
        i = i + 1;
    }
    None
}

/// `m` is the view of some non-root node.
pub open spec fn names_non_root_node(nodes: Seq<Module>, root: int, m: Seq<Seq<char>>) -> bool {
    exists|i: int| 0 <= i < nodes.len() && i != root && m == (#[trigger] nodes[i])@
}

/// Some element of `out` has view `m`.
pub open spec fn appears_in(out: Seq<Module>, m: Seq<Seq<char>>) -> bool {
    exists|k: int| 0 <= k < out.len() && (#[trigger] out[k])@ == m
}

/// All of the files a root module transitively imports, as a graph whose
/// edges are the import relation, with the root at node 0.
pub struct ImportOrder {
    pub graph: DiGraph,
    pub nodes: Vec<Module>,
    pub root: usize,
}

impl ImportOrder {
    /// The structural invariant of a finished import graph: well-formed,
    /// acyclic, over distinct modules, rooted at node 0, every node
    /// reachable from the root, and no edge pointing back into the root.
    pub open spec fn wf(&self) -> bool {
        let nv = nodes_view(self.nodes@);
        &&& self.graph.wf()
        &&& acyclic(self.graph.edges@)
        &&& self.nodes@.len() == self.graph.n
        &&& self.graph.n >= 1
        &&& self.root == 0
        &&& forall|i: int| 0 <= i < self.nodes@.len() ==> (#[trigger] self.nodes@[i]).wf()
        &&& forall|i: int, j: int|
            0 <= i < nv.len() && 0 <= j < nv.len() && i != j ==> nv[i] != nv[j]
        &&& forall|i: usize| i < self.graph.n ==> #[trigger] reaches(self.graph.edges@, 0, i)
        &&& forall|k: int|
            0 <= k < self.graph.edges@.len() ==> (#[trigger] self.graph.edges@[k]).1 != self.root
    }

    /// The graph describes exactly the import relation of the tree over the
    /// reached modules: every node is a module of the tree, every edge is a
    /// true import edge, and every request of every reached module has its
    /// edge.
    pub open spec fn matches_tree(&self, tree: FileTree, rd: Seq<Seq<char>>) -> bool {
        let nv = nodes_view(self.nodes@);
        &&& forall|i: int| 0 <= i < nv.len() ==> tree.contains_path(#[trigger] nv[i])
        &&& forall|k: int|
            0 <= k < self.graph.edges@.len() ==> import_edge(
                tree,
                rd,
                nv[(#[trigger] self.graph.edges@[k]).0 as int],
                nv[self.graph.edges@[k].1 as int],
            )
        &&& forall|i: int, req: Seq<char>|
            0 <= i < nv.len() && #[trigger] split_paths(tree.text_of(nv[i])).contains(req)
                ==> exists|j: int|
                0 <= j < nv.len() && spec_resolve(tree, nv[i], rd, req) == Some(nv[j])
                    && self.graph.edges@.contains((i as usize, j as usize))
    }

    /// Traverses the snapshot from a root module, resolving every import,
    /// and builds the acyclic import graph.  Fails with the first cycle or
    /// the first unresolved request encountered.  A cycle error carries a
    /// genuine loop of the import relation, reported from the offending
    /// edge's target back to its importer and closed back to the first
    /// entry; the root, when it lies on the loop, can only be that first
    /// entry, since nothing imports the root.  All error evidence lies on
    /// files reachable from the root.
    pub fn calculate(
        tree: &FileTree,
        root_module: &Module,
        project_root: &DirPath,
    ) -> (r: Result<ImportOrder, ImportResolutionError>)
        requires
            tree.wf(),
            root_module.wf(),
            tree.contains_path(root_module@),
        ensures
            match r {
                Ok(io) => {
                    &&& io.wf()
                    &&& io.matches_tree(*tree, project_root@)
                    &&& nodes_view(io.nodes@)[io.root as int] == root_module@
                },
                Err(e) => match e {
                    ImportResolutionError::Cycle { cycle_path } => {
                        let c = nodes_view(cycle_path@);
                        &&& c.len() >= 1
                        &&& forall|i: int|
                            0 <= i < c.len() - 1 ==> import_edge(
                                *tree,
                                project_root@,
                                #[trigger] c[i],
                                c[i + 1],
                            )
                        &&& import_edge(*tree, project_root@, c.last(), c.first())
                        &&& relation_reaches(*tree, project_root@, root_module@, c.first())
                        &&& forall|i: int| 0 < i < c.len() ==> #[trigger] c[i] != root_module@
                    },
                    ImportResolutionError::Unresolved { requested, importer, searched } => {
                        &&& tree.contains_path(importer@)
                        &&& split_paths(tree.text_of(importer@)).contains(requested@)
                        &&& spec_resolve(*tree, importer@, project_root@, requested@) is None
                        &&& relation_reaches(*tree, project_root@, root_module@, importer@)
                    },
                },
            },
    {
        let ghost rd = project_root@;
        let ghost rootv = root_module@;
        let mut g = DiGraph::new();
        let mut nodes: Vec<Module> = Vec::new();
        let _n0 = g.add_node();
        nodes.push(root_module.duplicate());
        let mut queue: Vec<(usize, Module)> = Vec::new();
        proof {
            lemma_reaches_self(g.edges@, 0);
            assert(nodes_view(nodes@)[0] == rootv);
        }
        // scan the root module's own requests
        let text0 = nodes[0].source_text(tree);
        let reqs0 = all_imports_in_source(text0.as_str());
        let ghost sp0 = split_paths(tree.text_of(rootv));
        let ghost rs0 = reqs0@.map_values(|s: String| s@);
        let mut j: usize = 0;
        while j < reqs0.len()
            invariant
                tree.wf(),
                rd == project_root@,
                rootv == root_module@,
                g.n == 1,
                g.edges@.len() == 0,
                nodes@.len() == 1,
                nodes@[0].wf(),
                nodes_view(nodes@)[0] == rootv,
                tree.contains_path(rootv),
                sp0 == split_paths(tree.text_of(rootv)),
                rs0 == spec_dedup(sp0),
                rs0 == reqs0@.map_values(|s: String| s@),
                j <= reqs0@.len(),
                forall|k: int|
                    0 <= k < queue@.len() ==> (#[trigger] queue@[k]).0 == 0 && queue@[k].1.wf()
                        && entry_justified(*tree, rd, nodes_view(nodes@), queue@[k].0, queue@[k].1@),
                forall|jj: int|
                    0 <= jj < j ==> exists|k: int|
                        0 <= k < queue@.len() && (#[trigger] queue_view(queue@)[k]).0 == 0
                            && spec_resolve(*tree, rootv, rd, #[trigger] rs0[jj]) == Some(
                            queue_view(queue@)[k].1,
                        ),
            decreases reqs0@.len() - j,
        {
            let req = &reqs0[j];
            proof {
                assert(rs0[j as int] == req@);
                lemma_dedup_contains(sp0, req@);
            }
            match Module::resolve_module(tree, &nodes[0], project_root, req.as_str()) {
                Ok(m) => {
                    proof {
                        assert(spec_resolve(*tree, rootv, rd, req@) == Some(m@));
                    }
                    let ghost q0 = queue@;
                    queue.push((0, m));
                    proof {
                        assert forall|jj: int| 0 <= jj < j + 1 implies exists|k: int|
                            0 <= k < queue@.len() && (#[trigger] queue_view(queue@)[k]).0 == 0
                                && spec_resolve(*tree, rootv, rd, #[trigger] rs0[jj]) == Some(
                                queue_view(queue@)[k].1,
                            ) by {
                            if jj < j {
                                let k = choose|k: int|
                                    0 <= k < q0.len() && (#[trigger] queue_view(q0)[k]).0 == 0
                                        && spec_resolve(*tree, rootv, rd, rs0[jj]) == Some(
                                        queue_view(q0)[k].1,
                                    );
                                assert(queue_view(queue@)[k] == queue_view(q0)[k]);
                            } else {
                                assert(queue_view(queue@)[queue@.len() - 1]
                                    == (0usize, queue@[queue@.len() - 1].1@));
                                assert(queue@[queue@.len() - 1].1@ == m@);
                            }
                        }
                    }
                },
                Err(e) => {
                    proof {
                        lemma_relation_reaches_self(*tree, rd, rootv);
                        assert(nodes@[0]@ == nodes_view(nodes@)[0]);
                    }
                    return Err(e);
                },
            }
            j = j + 1;
        }
        let mut head: usize = 0;
        proof {
            let e0 = choose|e: int|
                0 <= e < tree.entries@.len() && tree.entries@[e].0@ == root_module@;
            let nv = nodes_view(nodes@);
            let qv = queue_view(queue@);
            assert forall|i: int| 0 <= i < nodes@.len() implies #[trigger] requests_enqueued(
                *tree,
                rd,
                nv,
                qv,
                i,
            ) by {
                assert(i == 0 && nv[0] == rootv);
                assert forall|req: Seq<char>|
                    #[trigger] split_paths(tree.text_of(nv[i])).contains(req) implies exists|k: int|
                    0 <= k < qv.len() && (#[trigger] qv[k]).0 == i && spec_resolve(
                        *tree,
                        nv[i],
                        rd,
                        req,
                    ) == Some(qv[k].1) by {
                    lemma_dedup_contains(sp0, req);
                    let jj = choose|jj: int|
                        0 <= jj < spec_dedup(sp0).len() && spec_dedup(sp0)[jj] == req;
                    assert(rs0[jj] == req);
                }
            }
        }
        while head < queue.len()
            invariant
                tree.wf(),
                rd == project_root@,
                rootv == root_module@,
                head <= queue@.len(),
                g.n <= tree.entries@.len(),
                builder_inv(*tree, rd, rootv, g, nodes@),
                forall|k: int|
                    0 <= k < queue@.len() ==> (#[trigger] queue@[k]).1.wf() && entry_justified(
                        *tree,
                        rd,
                        nodes_view(nodes@),
                        queue@[k].0,
                        queue@[k].1@,
                    ),
                forall|k: int|
                    0 <= k < head ==> entry_edged(
                        nodes_view(nodes@),
                        g.edges@,
                        (#[trigger] queue_view(queue@)[k]).0,
                        queue_view(queue@)[k].1,
                    ),
                forall|i: int|
                    0 <= i < nodes@.len() ==> #[trigger] requests_enqueued(
                        *tree,
                        rd,
                        nodes_view(nodes@),
                        queue_view(queue@),
                        i,
                    ),
            decreases tree.entries@.len() - g.n, queue@.len() - head,
        {
            let ghost nv0 = nodes_view(nodes@);
            let ghost es0 = g.edges@;
            let ghost qv0 = queue_view(queue@);
            let ghost qlen0 = queue@.len();
            let imp = queue[head].0;
            let m = queue[head].1.duplicate();
            proof {
                assert(queue@[head as int].0 == imp && queue@[head as int].1@ == m@);
                assert(entry_justified(*tree, rd, nv0, imp, m@));
            }
            let mut is_new = false;
            let idx: usize;
            match find_node(&nodes, &m) {
                Some(i) => {
                    idx = i;
                },
                None => {
                    is_new = true;
                    proof {
                        let nv2 = nv0.push(m@);
                        assert forall|i: int, j2: int|
                            0 <= i < nv2.len() && 0 <= j2 < nv2.len() && i != j2 implies nv2[i]
                            != nv2[j2] by {
                            if i < nv2.len() - 1 && j2 < nv2.len() - 1 {
                                assert(nv2[i] == nv0[i] && nv2[j2] == nv0[j2]);
                            } else if i < nv2.len() - 1 {
                                assert(nv2[i] == nv0[i] && nv2[j2] == m@);
                                assert(nv0[i] == nodes@[i]@);
                            } else {
                                assert(nv2[j2] == nv0[j2] && nv2[i] == m@);
                                assert(nv0[j2] == nodes@[j2]@);
                            }
                        }
                        assert forall|i: int| 0 <= i < nv2.len() implies tree.contains_path(
                            #[trigger] nv2[i],
                        ) by {
                            if i < nv2.len() - 1 {
                                assert(nv2[i] == nv0[i]);
                            } else {
                                assert(nv2[i] == m@);
                            }
                        }
                        lemma_distinct_tree_members(*tree, nv2);
                    }
                    let _cap = tree.entries.len();
                    idx = g.add_node();
                    nodes.push(m.duplicate());
                    proof {
                        assert(nodes_view(nodes@) =~= nv0.push(m@));
                    }
                },
            }
            let ghost nv = nodes_view(nodes@);
            proof {
                assert(nv[idx as int] == m@);
                assert(forall|i: int| 0 <= i < nv0.len() ==> nv[i] == nv0[i]);
            }
            // commit the import edge, rejecting a cycle with its path
            let res = g.add_edge_checked(imp, idx);
            match res {
                Ok(()) => {},
                Err(p) => {
                    // reconstruct the cycle as modules
                    proof {
                        assert forall|i: int| 0 <= i < p@.len() implies #[trigger] p@[i]
                            < nodes@.len() by {
                            if i < p@.len() - 1 {
                                assert(es0.contains((p@[i], p@[i + 1])));
                                let k = choose|k: int|
                                    0 <= k < es0.len() && es0[k] == (p@[i], p@[i + 1]);
                            } else {
                                assert(p@[i] == imp);
                            }
                        }
                    }
                    let mut cycle_path: Vec<Module> = Vec::new();
                    let mut ci: usize = 0;
                    while ci < p.len()
                        invariant
                            ci <= p@.len(),
                            forall|i: int| 0 <= i < p@.len() ==> #[trigger] p@[i] < nodes@.len(),
                            cycle_path@.len() == ci,
                            forall|i: int|
                                0 <= i < ci ==> (#[trigger] cycle_path@[i])@ == nodes@[p@[i] as int]@,
                        decreases p@.len() - ci,
                    {
                        cycle_path.push(nodes[p[ci]].duplicate());
                        ci = ci + 1;
                    }
                    proof {
                        let c = nodes_view(cycle_path@);
                        assert(c.len() == p@.len() >= 1);
                        assert forall|i: int| 0 <= i < c.len() - 1 implies import_edge(
                            *tree,
                            rd,
                            #[trigger] c[i],
                            c[i + 1],
                        ) by {
                            assert(es0.contains((p@[i], p@[i + 1])));
                            let k = choose|k: int| 0 <= k < es0.len() && es0[k] == (p@[i], p@[i + 1]);
                            assert(import_edge(
                                *tree,
                                rd,
                                nv[es0[k].0 as int],
                                nv[es0[k].1 as int],
                            ));
                            assert(c[i] == cycle_path@[i]@ && c[i + 1] == cycle_path@[i + 1]@);
                            assert(c[i] == nv[p@[i] as int] && c[i + 1] == nv[p@[i + 1] as int]);
                        }
                        // the rejected edge closes the loop
                        assert(c.last() == nv[imp as int] && c.first() == nv[idx as int]);
                        assert(nv[idx as int] == m@);
                        assert(import_edge(*tree, rd, c.last(), c.first())) by {
                            assert(nv[imp as int] == nv0[imp as int]);
                        }
                        // the loop's head is imported by a file reachable
                        // from the root
                        assert(reaches(es0, 0, imp));
                        let q = choose|q: Seq<usize>|
                            valid_path(es0, q) && q.first() == 0 && q.last() == imp;
                        lemma_graph_path_to_relation(*tree, rd, nv0, es0, q);
                        assert(nv0[imp as int] == nv[imp as int]);
                        assert(import_edge(*tree, rd, nv0[imp as int], m@)) by {
                            assert(entry_justified(*tree, rd, nv0, imp, m@));
                        }
                        lemma_relation_step(*tree, rd, rootv, nv0[imp as int], m@);
                        assert(relation_reaches(*tree, rd, rootv, c.first()));
                        // nothing imports the root, so the root can stand
                        // only at the head of the reported loop
                        assert forall|i: int| 0 < i < c.len() implies #[trigger] c[i] != rootv by {
                            assert(es0.contains((p@[i - 1], p@[i])));
                            let k = choose|k: int|
                                0 <= k < es0.len() && es0[k] == (p@[i - 1], p@[i]);
                            assert(es0[k].1 != 0);
                            assert(c[i] == nv[p@[i] as int]);
                            assert(nv[0] == rootv);
                        }
                    }
                    return Err(ImportResolutionError::Cycle { cycle_path });
                },
            }
            proof {
                assert(g.edges@.contains((imp, idx))) by {
                    assert(g.edges@[g.edges@.len() - 1] == (imp, idx));
                }
                assert forall|e: (usize, usize)| es0.contains(e) implies g.edges@.contains(e) by {
                    let k = choose|k: int| 0 <= k < es0.len() && es0[k] == e;
                    assert(g.edges@[k] == e);
                }
                // the root cannot be the edge's target: it already reaches
                // the source, so the insertion would have been rejected
                if idx == 0 {
                    assert(reaches(es0, 0, imp));
                    lemma_reaches_mono(es0, g.edges@, 0, imp);
                    assert(false);
                }
                // reachability extends to the new edge's target
                assert forall|i: usize| i < g.n implies #[trigger] reaches(g.edges@, 0, i) by {
                    if i < nv0.len() {
                        lemma_reaches_mono(es0, g.edges@, 0, i);
                    } else {
                        assert(i == idx);
                        lemma_reaches_mono(es0, g.edges@, 0, imp);
                        lemma_reaches_step(g.edges@, 0, imp, idx);
                    }
                }
                // every edge, the new one included, is a true import edge
                assert forall|k: int| 0 <= k < g.edges@.len() implies import_edge(
                    *tree,
                    rd,
                    nv[(#[trigger] g.edges@[k]).0 as int],
                    nv[g.edges@[k].1 as int],
                ) by {
                    if k < es0.len() {
                        assert(g.edges@[k] == es0[k]);
                        assert(import_edge(*tree, rd, nv0[es0[k].0 as int], nv0[es0[k].1 as int]));
                        assert(nv[es0[k].0 as int] == nv0[es0[k].0 as int]);
                        assert(nv[es0[k].1 as int] == nv0[es0[k].1 as int]);
                    } else {
                        assert(g.edges@[k] == (imp, idx));
                        assert(nv[imp as int] == nv0[imp as int] && nv[idx as int] == m@);
                    }
                }
                // old work items stay justified over the grown node list
                assert forall|k: int|
                    0 <= k < queue@.len() implies (#[trigger] queue@[k]).1.wf() && entry_justified(
                    *tree,
                    rd,
                    nv,
                    queue@[k].0,
                    queue@[k].1@,
                ) by {
                    assert(entry_justified(*tree, rd, nv0, queue@[k].0, queue@[k].1@));
                    assert(nv[queue@[k].0 as int] == nv0[queue@[k].0 as int]);
                }
            }
            // a newly seen module is scanned for its own requests
            if is_new {
                proof {
                    // the fresh module is reachable along true import edges
                    assert(reaches(g.edges@, 0, idx));
                    let q = choose|q: Seq<usize>|
                        valid_path(g.edges@, q) && q.first() == 0 && q.last() == idx;
                    lemma_graph_path_to_relation(*tree, rd, nv, g.edges@, q);
                }
                let text = nodes[idx].source_text(tree);
                let reqs = all_imports_in_source(text.as_str());
                let ghost mv = nv[idx as int];
                let ghost sp = split_paths(tree.text_of(mv));
                let ghost rs = reqs@.map_values(|s: String| s@);
                let mut jj: usize = 0;
                while jj < reqs.len()
                    invariant
                        tree.wf(),
                        rd == project_root@,
                        rootv == root_module@,
                        idx < nodes@.len(),
                        head + 1 <= queue@.len(),
                        g.n <= tree.entries@.len(),
                        nodes@.len() == g.n,
                        nv == nodes_view(nodes@),
                        forall|i: int| 0 <= i < nodes@.len() ==> (#[trigger] nodes@[i]).wf(),
                        mv == nv[idx as int],
                        tree.contains_path(mv),
                        relation_reaches(*tree, rd, rootv, mv),
                        sp == split_paths(tree.text_of(mv)),
                        rs == spec_dedup(sp),
                        rs == reqs@.map_values(|s: String| s@),
                        jj <= reqs@.len(),
                        qlen0 <= queue@.len(),
                        qv0.len() == qlen0,
                        forall|k: int| 0 <= k < qlen0 ==> queue_view(queue@)[k] == qv0[k],
                        forall|k: int|
                            0 <= k < queue@.len() ==> (#[trigger] queue@[k]).1.wf()
                                && entry_justified(*tree, rd, nv, queue@[k].0, queue@[k].1@),
                        forall|j2: int|
                            0 <= j2 < jj ==> request_covered(
                                *tree,
                                rd,
                                mv,
                                queue_view(queue@),
                                qlen0 as int,
                                idx,
                                #[trigger] rs[j2],
                            ),
                    decreases reqs@.len() - jj,
                {
                    let req = &reqs[jj];
                    proof {
                        assert(rs[jj as int] == req@);
                        lemma_dedup_contains(sp, req@);
                    }
                    match Module::resolve_module(tree, &nodes[idx], project_root, req.as_str()) {
                        Ok(m2) => {
                            proof {
                                assert(spec_resolve(*tree, mv, rd, req@) == Some(m2@));
                            }
                            let ghost q1 = queue@;
                            queue.push((idx, m2));
                            proof {
                                assert forall|k: int|
                                    0 <= k < qlen0 implies queue_view(queue@)[k] == qv0[k] by {
                                    assert(queue_view(queue@)[k] == queue_view(q1)[k]);
                                }
                                assert forall|j2: int| 0 <= j2 < jj + 1 implies request_covered(
                                    *tree,
                                    rd,
                                    mv,
                                    queue_view(queue@),
                                    qlen0 as int,
                                    idx,
                                    #[trigger] rs[j2],
                                ) by {
                                    if j2 < jj {
                                        assert(request_covered(
                                            *tree,
                                            rd,
                                            mv,
                                            queue_view(q1),
                                            qlen0 as int,
                                            idx,
                                            rs[j2],
                                        ));
                                        let k = choose|k: int|
                                            qlen0 <= k < queue_view(q1).len() && (#[trigger] queue_view(
                                                q1,
                                            )[k]).0 == idx && spec_resolve(*tree, mv, rd, rs[j2])
                                                == Some(queue_view(q1)[k].1);
                                        assert(queue_view(queue@)[k] == queue_view(q1)[k]);
                                    } else {
                                        assert(queue_view(queue@)[queue@.len() - 1] == (
                                            idx,
                                            queue@[queue@.len() - 1].1@,
                                        ));
                                        assert(queue@[queue@.len() - 1].1@ == m2@);
                                    }
                                }
                            }
                        },
                        Err(e) => {
                            proof {
                                assert(nodes@[idx as int]@ == nv[idx as int]);
                            }
                            return Err(e);
                        },
                    }
                    jj = jj + 1;
                }
                proof {
                    assert(rs.len() == reqs@.len());
                    assert(qv0.len() == qlen0);
                    assert(mv == m@);
                    restore_coverage(
                        *tree,
                        rd,
                        nv0,
                        nodes_view(nodes@),
                        qv0,
                        queue_view(queue@),
                        es0,
                        g.edges@,
                        head as int,
                        imp,
                        idx,
                        m@,
                        true,
                        sp,
                        rs,
                    );
                }
            } else {
                proof {
                    restore_coverage(
                        *tree,
                        rd,
                        nv0,
                        nodes_view(nodes@),
                        qv0,
                        queue_view(queue@),
                        es0,
                        g.edges@,
                        head as int,
                        imp,
                        idx,
                        m@,
                        false,
                        Seq::empty(),
                        Seq::empty(),
                    );
                }
            }
            head = head + 1;
        }
        let io = ImportOrder { graph: g, nodes, root: 0 };
        proof {
            let nv = nodes_view(io.nodes@);
            let qv = queue_view(queue@);
            assert forall|i: int, req: Seq<char>|
                0 <= i < nv.len() && #[trigger] split_paths(tree.text_of(nv[i])).contains(
                    req,
                ) implies exists|j: int|
                0 <= j < nv.len() && spec_resolve(*tree, nv[i], rd, req) == Some(nv[j])
                    && io.graph.edges@.contains((i as usize, j as usize)) by {
                assert(requests_enqueued(*tree, rd, nv, qv, i));
                let k = choose|k: int|
                    0 <= k < qv.len() && (#[trigger] qv[k]).0 == i && spec_resolve(
                        *tree,
                        nv[i],
                        rd,
                        req,
                    ) == Some(qv[k].1);
                assert(k < head);
                assert(entry_edged(nv, io.graph.edges@, qv[k].0, qv[k].1));
                let j = choose|j: int|
                    0 <= j < nv.len() && nv[j] == qv[k].1 && io.graph.edges@.contains(
                        (qv[k].0, j as usize),
                    );
            }
        }
        Ok(io)
    }

    /// Drains the graph into the order in which the files must be handed to
    /// a downstream composer: a module appears only after every module it
    /// imports, and the root is excluded.  Acyclicity guarantees the drain
    /// always completes.
    pub fn modules(self) -> (r: Vec<Module>)
        requires
            self.wf(),
        ensures
            r@.len() == self.nodes@.len() - 1,
            // every output names a distinct non-root node
            forall|k: int|
                0 <= k < r@.len() ==> names_non_root_node(
                    self.nodes@,
                    self.root as int,
                    (#[trigger] r@[k])@,
                ),
            // every non-root node appears
            forall|i: int|
                0 <= i < self.nodes@.len() && i != self.root ==> appears_in(
                    r@,
                    (#[trigger] self.nodes@[i])@,
                ),
            forall|k1: int, k2: int|
                0 <= k1 < r@.len() && 0 <= k2 < r@.len() && k1 != k2 ==> r@[k1]@ != r@[k2]@,
            // dependency-first: an edge's target comes before its source
            forall|e: int, k1: int, k2: int|
                0 <= e < self.graph.edges@.len() && (#[trigger] self.graph.edges@[e]).0 != self.root
                    && 0 <= k1 < r@.len() && 0 <= k2 < r@.len() && (#[trigger] r@[k1])@
                    == self.nodes@[self.graph.edges@[e].0 as int]@ && (#[trigger] r@[k2])@
                    == self.nodes@[self.graph.edges@[e].1 as int]@ ==> k2 < k1,
    {
        let ImportOrder { graph: g, nodes, root: _ } = self;
        let n = g.n;
        let mut dead: Vec<bool> = Vec::new();
        let mut i: usize = 0;
        while i < n
            invariant
                i <= n,
                dead@.len() == i,
                forall|j: int| 0 <= j < i ==> !dead@[j],
            decreases n - i,
        {
            dead.push(false);
            i = i + 1;
        }
        proof {
            crate::graph::lemma_count_all_false(dead@);
        }
        proof {
            assert forall|i2: int, j2: int|
                0 <= i2 < nodes@.len() && 0 <= j2 < nodes@.len() && i2 != j2 implies nodes@[i2]@
                != nodes@[j2]@ by {
                assert(nodes_view(nodes@)[i2] == nodes@[i2]@);
                assert(nodes_view(nodes@)[j2] == nodes@[j2]@);
            }
        }
        let mut removed: usize = 0;
        let mut out: Vec<Module> = Vec::new();
        let ghost mut ord: Seq<usize> = Seq::empty();
        while removed < n
            invariant
                g.wf(),
                acyclic(g.edges@),
                nodes@.len() == n,
                n == g.n,
                n >= 1,
                forall|i2: int| 0 <= i2 < nodes@.len() ==> (#[trigger] nodes@[i2]).wf(),
                forall|i2: int, j2: int|
                    0 <= i2 < nodes@.len() && 0 <= j2 < nodes@.len() && i2 != j2 ==> nodes@[i2]@
                        != nodes@[j2]@,
                forall|k: int| 0 <= k < g.edges@.len() ==> (#[trigger] g.edges@[k]).1 != 0,
                dead@.len() == n,
                removed == count_marked(dead@),
                removed <= n,
                ord.no_duplicates(),
                ord.len() == out@.len(),
                removed == ord.len() + (if dead@[0] {
                    1int
                } else {
                    0
                }),
                forall|k: int| 0 <= k < ord.len() ==> (#[trigger] ord[k]) < n && ord[k] != 0,
                forall|k: int| 0 <= k < ord.len() ==> (#[trigger] out@[k])@ == nodes@[ord[k] as int]@,
                forall|i2: int|
                    0 <= i2 < n ==> ((dead@[i2] && i2 != 0) <==> ord.contains(i2 as usize)),
                forall|k: int, w: usize|
                    0 <= k < ord.len() && #[trigger] g.edges@.contains(((ord[k]), w))
                        ==> exists|k2: int| 0 <= k2 < k && ord[k2] == w,
            decreases n - removed,
        {
            proof {
                lemma_count_lt_exists_false(dead@);
            }
            let v = g.find_live_sink(&dead);
            let ghost d0 = dead@;
            dead[v] = true;
            proof {
                lemma_count_update(d0, v as int);
                lemma_count_le_len(dead@);
            }
            removed = removed + 1;
            if v != 0 {
                out.push(nodes[v].duplicate());
                proof {
                    let ghost ord0 = ord;
                    ord = ord.push(v);
                    assert(!ord0.contains(v));
                    assert(ord.no_duplicates()) by {
                        assert forall|a: int, b: int|
                            0 <= a < ord.len() && 0 <= b < ord.len() && a != b implies ord[a]
                            != ord[b] by {
                            if a < ord.len() - 1 && b < ord.len() - 1 {
                                assert(ord[a] == ord0[a] && ord[b] == ord0[b]);
                            } else if a < ord.len() - 1 {
                                assert(ord[a] == ord0[a] && ord[b] == v);
                                if ord0[a] == v {
                                    assert(ord0.contains(v));
                                }
                            } else {
                                assert(ord[b] == ord0[b] && ord[a] == v);
                                if ord0[b] == v {
                                    assert(ord0.contains(v));
                                }
                            }
                        }
                    }
                    assert forall|i2: int|
                        0 <= i2 < n implies ((dead@[i2] && i2 != 0) <==> ord.contains(
                        i2 as usize,
                    )) by {
                        if i2 == v {
                            assert(ord[ord.len() - 1] == v);
                            assert(ord.contains(v));
                        } else {
                            if ord.contains(i2 as usize) {
                                lemma_push_contains(ord0, v, i2 as usize);
                            }
                            if ord0.contains(i2 as usize) {
                                let k = choose|k: int|
                                    0 <= k < ord0.len() && ord0[k] == i2 as usize;
                                assert(ord[k] == i2 as usize);
                            }
                        }
                    }
                    assert forall|k: int, w: usize|
                        0 <= k < ord.len() && #[trigger] g.edges@.contains(
                            ((ord[k]), w),
                        ) implies exists|k2: int| 0 <= k2 < k && ord[k2] == w by {
                        if k < ord.len() - 1 {
                            assert(ord[k] == ord0[k]);
                            let k2 = choose|k2: int| 0 <= k2 < k && ord0[k2] == w;
                            assert(ord[k2] == w);
                        } else {
                            // the freshly removed node: every successor was
                            // already dead, hence already in the order
                            assert(ord[k] == v);
                            let e = choose|e: int| 0 <= e < g.edges@.len() && g.edges@[e] == (v, w);
                            assert(w < n);
                            assert(d0[w as int]);
                            assert(w != 0);
                            assert(ord0.contains(w));
                            let k2 = choose|k2: int| 0 <= k2 < ord0.len() && ord0[k2] == w;
                            assert(ord[k2] == w);
                        }
                    }
                }
            } else {
                proof {
                    assert(!ord.contains(0usize)) by {
                        if ord.contains(0usize) {
                            let k = choose|k: int| 0 <= k < ord.len() && ord[k] == 0usize;
                        }
                    }
                    assert forall|i2: int|
                        0 <= i2 < n implies ((dead@[i2] && i2 != 0) <==> ord.contains(
                        i2 as usize,
                    )) by {}
                }
            }
        }
        proof {
            lemma_count_full(dead@);
            assert(dead@[0]);
            assert(out@.len() == n - 1);
            // every non-root node appears in the order
            assert forall|i2: int|
                0 <= i2 < nodes@.len() && i2 != 0 implies exists|k: int|
                0 <= k < out@.len() && out@[k]@ == (#[trigger] nodes@[i2])@ by {
                assert(dead@[i2]);
                assert(ord.contains(i2 as usize));
                let k = choose|k: int| 0 <= k < ord.len() && ord[k] == i2 as usize;
                assert(out@[k]@ == nodes@[i2]@);
            }
            // each output names a distinct non-root node
            assert forall|k: int|
                0 <= k < out@.len() implies exists|i2: int|
                0 <= i2 < nodes@.len() && i2 != 0 && (#[trigger] out@[k])@ == nodes@[i2]@ by {
                assert(0 <= ord[k] < nodes@.len() && ord[k] != 0);
                assert(out@[k]@ == nodes@[ord[k] as int]@);
            }
            // outputs are pairwise distinct because the nodes are
            assert forall|k1: int, k2: int|
                0 <= k1 < out@.len() && 0 <= k2 < out@.len() && k1 != k2 implies out@[k1]@
                != out@[k2]@ by {
                assert(out@[k1]@ == nodes@[ord[k1] as int]@);
                assert(out@[k2]@ == nodes@[ord[k2] as int]@);
                assert(ord[k1] != ord[k2]);
            }
            // dependency-first ordering over the edges
            assert forall|e: int, k1: int, k2: int|
                0 <= e < g.edges@.len() && (#[trigger] g.edges@[e]).0 != 0 && 0 <= k1 < out@.len()
                    && 0 <= k2 < out@.len() && (#[trigger] out@[k1])@ == nodes@[g.edges@[e].0 as int]@
                    && (#[trigger] out@[k2])@ == nodes@[g.edges@[e].1 as int]@ implies k2 < k1 by {
                let a = g.edges@[e].0;
                let b = g.edges@[e].1;
                assert(a < n && b < n);
                assert(out@[k1]@ == nodes@[ord[k1] as int]@);
                assert(ord[k1] == a);
                assert(out@[k2]@ == nodes@[ord[k2] as int]@);
                assert(ord[k2] == b);
                assert(g.edges@.contains((a, b))) by {
                    assert(g.edges@[e] == (a, b));
                }
                assert(g.edges@.contains((ord[k1], b)));
                let k3 = choose|k3: int| 0 <= k3 < k1 && ord[k3] == b;
                assert(k3 == k2);
            }
        }
        proof {
            assert(nodes@ == self.nodes@);
            assert forall|k: int| 0 <= k < out@.len() implies names_non_root_node(
                self.nodes@,
                self.root as int,
                (#[trigger] out@[k])@,
            ) by {
                let i2 = ord[k] as int;
                assert(0 <= i2 < self.nodes@.len() && i2 != self.root);
                assert(out@[k]@ == (self.nodes@[i2])@);
            }
            assert forall|i2: int|
                0 <= i2 < self.nodes@.len() && i2 != self.root implies appears_in(
                out@,
                (#[trigger] self.nodes@[i2])@,
            ) by {
                assert(dead@[i2]);
                assert(ord.contains(i2 as usize));
                let k = choose|k: int| 0 <= k < ord.len() && ord[k] == i2 as usize;
                assert(0 <= k < out@.len() && (out@[k])@ == self.nodes@[i2]@);
            }
        }
        out
    }

    /// The number of modules in the graph, the root included.
    pub fn node_count(&self) -> (r: usize)
        ensures
            r == self.graph.n,
    {
        self.graph.n
    }
}

} // verus!
