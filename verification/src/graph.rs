//! The dependency graph: nodes keyed by id, directed edges deduplicated by
//! `(from, to)`. Insertion is idempotent on node id and on edge pair.
use vstd::prelude::*;

verus! {

/// A node identifier: a non-negative integer, allocated monotonically by a
/// per-analysis counter and never reused within a run.
pub type NodeId = usize;

/// Size and modification time of the file a node stands for, captured when
/// the node is built.
#[derive(Debug, Clone, PartialEq, Eq, Hash)]
pub struct FileFingerprint {
    pub size: u64,
    pub modified_ns: u128,
}

/// A file of the analyzed project: its id, its basename as label, and its
/// absolute path. The 2-D position assigned by the external layout is not
/// part of this type; callers that run a layout keep positions beside it.
#[derive(Debug, Clone, PartialEq, Eq, Hash)]
pub struct Node {
    pub id: NodeId,
    pub label: String,
    pub file_path: String,
    pub fingerprint: Option<FileFingerprint>,
}

/// A directed edge between two nodes, identified by their ids. Self-loops
/// may be stored; the community detector ignores them.
#[derive(Debug, Clone, PartialEq, Eq, Hash)]
pub struct Edge {
    pub from: NodeId,
    pub to: NodeId,
}

impl Edge {
    pub fn new(from: NodeId, to: NodeId) -> (e: Edge)
        ensures
            e.from == from,
            e.to == to,
    {
        Edge { from, to }
    }
}

/// The per-analysis source of fresh node ids: hands out 0, 1, 2, ... in
/// order, so every id is unique within one analysis run.
pub struct NodeIdCounter {
    pub next: usize,
}

impl NodeIdCounter {
    pub fn new() -> (c: NodeIdCounter)
        ensures
            c.next == 0,
    {
        NodeIdCounter { next: 0 }
    }

    /// Allocates the next id. Ids are monotonically increasing and never
    /// reused by the same counter.
    pub fn fresh(&mut self) -> (id: NodeId)
        requires
            old(self).next < usize::MAX,
        ensures
            id == old(self).next,
            final(self).next == old(self).next + 1,
    {
        let id = self.next;
        self.next = self.next + 1;
        id
    }
}

/// The last `/`-separated component of a path, or the whole path when it
/// holds no `/`.
pub open spec fn basename_of(s: Seq<char>) -> Seq<char>
    decreases s.len(),
{
    if s.len() == 0 {
        s
    } else if s.last() == '/' {
        Seq::<char>::empty()
    } else {
        basename_of(s.drop_last()).push(s.last())
    }
}

impl Node {
    /// Builds a node for a file path: a fresh id from the counter, the
    /// path's basename as label, and the given fingerprint.
    pub fn from_path(
        counter: &mut NodeIdCounter,
        file_path: String,
        fingerprint: Option<FileFingerprint>,
    ) -> (n: Node)
        requires
            old(counter).next < usize::MAX,
        ensures
            n.id == old(counter).next,
            final(counter).next == old(counter).next + 1,
            n.label@ == basename_of(file_path@),
            n.file_path == file_path,
            n.fingerprint == fingerprint,
    {
        let label = base_name(&file_path);
        let id = counter.fresh();
        Node { id, label, file_path, fingerprint }
    }
}

/// After position `k` there is no `/`, so the basename is the suffix that
/// starts at `k`.
proof fn lemma_basename_suffix(s: Seq<char>, k: int)
    requires
        0 <= k <= s.len(),
        forall|i: int| k <= i < s.len() ==> s[i] != '/',
        k == 0 || s[k - 1] == '/',
    ensures
        basename_of(s) == s.subrange(k, s.len() as int),
    decreases s.len(),
{
    if s.len() == 0 {
        assert(basename_of(s) =~= s.subrange(k, s.len() as int));
    } else if s.last() == '/' {
        assert(k == s.len());
        assert(basename_of(s) =~= s.subrange(k, s.len() as int));
    } else {
        lemma_basename_suffix(s.drop_last(), k);
        assert(s.drop_last().subrange(k, s.len() - 1) =~= s.subrange(k, s.len() - 1));
        assert(basename_of(s) =~= s.subrange(k, s.len() as int));
    }
}

/// The basename of a path string: everything after the last `/`.
pub fn base_name(path: &String) -> (r: String)
    ensures
        r@ == basename_of(path@),
{
    let s = path.as_str();
    let n = s.unicode_len();
    let mut k = n;
    while k > 0
        invariant
            0 <= k <= n,
            n == s@.len(),
            forall|i: int| k <= i < n ==> s@[i] != '/',
        decreases k,
    {
        if s.get_char(k - 1) == '/' {
            break ;
        }
        k = k - 1;
    }
    proof {
        lemma_basename_suffix(s@, k as int);
    }
    s.substring_char(k, n).to_owned()
}

/// The node mapping a node list stands for: later entries with the same id
/// overwrite earlier ones.
pub open spec fn node_map(s: Seq<Node>) -> Map<NodeId, Node>
    decreases s.len(),
{
    if s.len() == 0 {
        Map::empty()
    } else {
        node_map(s.drop_last()).insert(s.last().id, s.last())
    }
}

/// The edge pairs an edge list stands for.
pub open spec fn edge_pairs(s: Seq<Edge>) -> Set<(NodeId, NodeId)>
    decreases s.len(),
{
    if s.len() == 0 {
        Set::empty()
    } else {
        edge_pairs(s.drop_last()).insert((s.last().from, s.last().to))
    }
}

/// A mapping from node id to node together with a set of directed edges.
/// `nodes` holds at most one entry per id; `edges` holds at most one entry
/// per `(from, to)` pair.
#[derive(Debug, Clone)]
pub struct Graph {
    pub nodes: Vec<Node>,
    pub edges: Vec<Edge>,
}

impl Graph {
    /// No duplicate node id and no duplicate edge pair.
    pub open spec fn wf(self) -> bool {
        &&& forall|i: int, j: int|
            0 <= i < j < self.nodes@.len() ==> self.nodes@[i].id != self.nodes@[j].id
        &&& forall|i: int, j: int|
            0 <= i < j < self.edges@.len() ==> !(self.edges@[i].from == self.edges@[j].from
                && self.edges@[i].to == self.edges@[j].to)
    }

    pub open spec fn spec_nodes(self) -> Map<NodeId, Node> {
        node_map(self.nodes@)
    }

    pub open spec fn spec_edges(self) -> Set<(NodeId, NodeId)> {
        edge_pairs(self.edges@)
    }

    pub fn new() -> (g: Graph)
        ensures
            g.wf(),
            g.spec_nodes() == Map::<NodeId, Node>::empty(),
            g.spec_edges() == Set::<(NodeId, NodeId)>::empty(),
            g.nodes@.len() == 0,
            g.edges@.len() == 0,
    {
        Graph { nodes: Vec::new(), edges: Vec::new() }
    }

    /// Inserts a node under its id. Re-insertion with the same id
    /// overwrites the stored node.
    pub fn add_node(&mut self, node: Node)
        requires
            old(self).wf(),
        ensures
            final(self).wf(),
            final(self).spec_nodes() == old(self).spec_nodes().insert(node.id, node),
            final(self).spec_edges() == old(self).spec_edges(),
            final(self).edges == old(self).edges,
            old(self).spec_nodes().dom().contains(node.id) ==> final(self).nodes@.len() == old(
                self,
            ).nodes@.len(),
            !old(self).spec_nodes().dom().contains(node.id) ==> final(self).nodes@ == old(
                self,
            ).nodes@.push(node),
    {
        let n = self.nodes.len();
        let mut i: usize = 0;
        while i < n
            invariant
                self == old(self),
                0 <= i <= n,
                n == self.nodes@.len(),
                forall|k: int| 0 <= k < i ==> self.nodes@[k].id != node.id,
            decreases n - i,
        {
            if self.nodes[i].id == node.id {
                let old_entry = self.nodes.set(i, node);
                proof {
                    lemma_node_map_update(old(self).nodes@, i as int, node);
                    lemma_node_map_dom(old(self).nodes@, i as int);
                }
                return ;
            }
            i = i + 1;
        }
        self.nodes.push(node);
        proof {
            assert(self.nodes@.drop_last() =~= old(self).nodes@);
            if old(self).spec_nodes().dom().contains(node.id) {
                lemma_node_map_index(old(self).nodes@, node.id);
            }
        }
    }

    /// Inserts an edge into the edge set; inserting a pair that is already
    /// present is a no-op.
    pub fn add_edge(&mut self, edge: Edge)
        requires
            old(self).wf(),
        ensures
            final(self).wf(),
            final(self).spec_edges() == old(self).spec_edges().insert((edge.from, edge.to)),
            final(self).spec_nodes() == old(self).spec_nodes(),
            final(self).nodes == old(self).nodes,
            old(self).spec_edges().contains((edge.from, edge.to)) ==> final(self).edges == old(
                self,
            ).edges,
            !old(self).spec_edges().contains((edge.from, edge.to)) ==> final(self).edges@ == old(
                self,
            ).edges@.push(edge),
    {
        let n = self.edges.len();
        let mut i: usize = 0;
        while i < n
            invariant
                self == old(self),
                0 <= i <= n,
                n == self.edges@.len(),
                forall|k: int|
                    0 <= k < i ==> !(self.edges@[k].from == edge.from && self.edges@[k].to
                        == edge.to),
            decreases n - i,
        {
            if self.edges[i].from == edge.from && self.edges[i].to == edge.to {
                proof {
                    lemma_edge_pairs_index(self.edges@, i as int);
                    assert(self.spec_edges().insert((edge.from, edge.to)) =~= self.spec_edges());
                }
                return ;
            }
            i = i + 1;
        }
        self.edges.push(edge);
        proof {
            assert(self.edges@.drop_last() =~= old(self).edges@);
            lemma_edge_pairs_absent(old(self).edges@, edge.from, edge.to);
        }
    }

    /// The stored nodes, in insertion order. Iteration order over the node
    /// mapping is unspecified; this exposes the backing list.
    pub fn iter_nodes(&self) -> (r: &Vec<Node>)
        ensures
            r == &self.nodes,
    {
        &self.nodes
    }

    /// The stored edges, in insertion order.
    pub fn iter_edges(&self) -> (r: &Vec<Edge>)
        ensures
            r == &self.edges,
    {
        &self.edges
    }
}

/// Updating the entry that already holds `node.id` leaves the node mapping
/// equal to inserting the node over the old mapping.
proof fn lemma_node_map_update(s: Seq<Node>, j: int, node: Node)
    requires
        0 <= j < s.len(),
        s[j].id == node.id,
        forall|a: int, b: int| 0 <= a < b < s.len() ==> s[a].id != s[b].id,
    ensures
        node_map(s.update(j, node)) == node_map(s).insert(node.id, node),
    decreases s.len(),
{
    if s.len() > 0 {
        if j == s.len() - 1 {
            assert(s.update(j, node).drop_last() =~= s.drop_last());
            assert(node_map(s.update(j, node)) =~= node_map(s).insert(node.id, node));
        } else {
            assert(s.update(j, node).drop_last() =~= s.drop_last().update(j, node));
            lemma_node_map_update(s.drop_last(), j, node);
            assert(s.update(j, node).last() == s.last());
            assert(node_map(s.update(j, node)) =~= node_map(s).insert(node.id, node));
        }
    }
}

/// An id stored at position `j` is in the mapping's domain.
proof fn lemma_node_map_dom(s: Seq<Node>, j: int)
    requires
        0 <= j < s.len(),
    ensures
        node_map(s).dom().contains(s[j].id),
    decreases s.len(),
{
    if j < s.len() - 1 {
        lemma_node_map_dom(s.drop_last(), j);
    }
}

/// When no entry holds `id`, the mapping's domain does not contain it.
proof fn lemma_node_map_index(s: Seq<Node>, id: NodeId)
    requires
        forall|k: int| 0 <= k < s.len() ==> s[k].id != id,
    ensures
        !node_map(s).dom().contains(id),
    decreases s.len(),
{
    if s.len() > 0 {
        lemma_node_map_index(s.drop_last(), id);
    }
}

/// When no entry holds the pair, the edge pair set does not contain it.
proof fn lemma_edge_pairs_absent(s: Seq<Edge>, from: NodeId, to: NodeId)
    requires
        forall|k: int| 0 <= k < s.len() ==> !(s[k].from == from && s[k].to == to),
    ensures
        !edge_pairs(s).contains((from, to)),
    decreases s.len(),
{
    if s.len() > 0 {
        lemma_edge_pairs_absent(s.drop_last(), from, to);
    }
}

/// An id is in the node mapping's domain exactly when some entry holds it.
pub proof fn lemma_node_map_dom_iff(s: Seq<Node>)
    ensures
        forall|x: NodeId|
            node_map(s).dom().contains(x) <==> exists|i: int| 0 <= i < s.len() && s[i].id == x,
{
    assert forall|x: NodeId|
        node_map(s).dom().contains(x) <==> exists|i: int| 0 <= i < s.len() && s[i].id == x by {
        if exists|i: int| 0 <= i < s.len() && s[i].id == x {
            let i = choose|i: int| 0 <= i < s.len() && s[i].id == x;
            lemma_node_map_dom(s, i);
        } else {
            lemma_node_map_index(s, x);
        }
    }
}

/// The pair stored at position `j` is in the edge pair set.
proof fn lemma_edge_pairs_index(s: Seq<Edge>, j: int)
    requires
        0 <= j < s.len(),
    ensures
        edge_pairs(s).contains((s[j].from, s[j].to)),
    decreases s.len(),
{
    if j < s.len() - 1 {
        lemma_edge_pairs_index(s.drop_last(), j);
    }
}

impl Graph {
    /// The input handed to the external 2-D layout: how many nodes there
    /// are and each stored edge as a pair of dense indices into the node
    /// list's order. The caller runs the layout as a black box over this
    /// and writes the returned positions back beside each node, in the
    /// same order. Every edge endpoint must be a stored node's id.
    pub fn layout_input(&self) -> (r: (usize, Vec<(usize, usize)>))
        requires
            self.wf(),
            forall|t: int|
                0 <= t < self.edges@.len() ==> self.spec_nodes().dom().contains(
                    (#[trigger] self.edges@[t]).from,
                ) && self.spec_nodes().dom().contains(self.edges@[t].to),
        ensures
            r.0 == self.nodes@.len(),
            r.1@.len() == self.edges@.len(),
            forall|t: int|
                0 <= t < r.1@.len() ==> {
                    &&& (#[trigger] r.1@[t]).0 < self.nodes@.len()
                    &&& r.1@[t].1 < self.nodes@.len()
                    &&& self.nodes@[r.1@[t].0 as int].id == self.edges@[t].from
                    &&& self.nodes@[r.1@[t].1 as int].id == self.edges@[t].to
                },
    {
        let n = self.nodes.len();
        let ne = self.edges.len();
        let mut pairs: Vec<(usize, usize)> = Vec::new();
        let mut t: usize = 0;
        while t < ne
            invariant
                0 <= t <= ne,
                ne == self.edges@.len(),
                n == self.nodes@.len(),
                self.wf(),
                forall|q: int|
                    0 <= q < ne ==> self.spec_nodes().dom().contains(
                        (#[trigger] self.edges@[q]).from,
                    ) && self.spec_nodes().dom().contains(self.edges@[q].to),
                pairs@.len() == t,
                forall|q: int|
                    0 <= q < t ==> {
                        &&& (#[trigger] pairs@[q]).0 < n
                        &&& pairs@[q].1 < n
                        &&& self.nodes@[pairs@[q].0 as int].id == self.edges@[q].from
                        &&& self.nodes@[pairs@[q].1 as int].id == self.edges@[q].to
                    },
            decreases ne - t,
        {
            let fi = self.node_index(self.edges[t].from);
            let ti = self.node_index(self.edges[t].to);
            pairs.push((fi, ti));
            t = t + 1;
        }
        (n, pairs)
    }

    /// The position of the node stored under an id the graph holds.
    fn node_index(&self, id: NodeId) -> (i: usize)
        requires
            self.spec_nodes().dom().contains(id),
        ensures
            i < self.nodes@.len(),
            self.nodes@[i as int].id == id,
    {
        proof {
            lemma_node_map_dom_iff(self.nodes@);
        }
        let n = self.nodes.len();
        let mut i: usize = 0;
        while i < n
            invariant
                0 <= i <= n,
                n == self.nodes@.len(),
                forall|k: int| 0 <= k < i ==> (#[trigger] self.nodes@[k]).id != id,
                exists|k: int| 0 <= k < n && (#[trigger] self.nodes@[k]).id == id,
            decreases n - i,
        {
            if self.nodes[i].id == id {
                return i;
            }
            i = i + 1;
        }
        proof {
            let k = choose|k: int| 0 <= k < n && (#[trigger] self.nodes@[k]).id == id;
            assert(false);
        }
        0
    }
}

} // verus!
