//! Plain-data snapshots of graph values for a host runtime: ids narrowed to
//! 32 bits, nothing but value fields.
use vstd::prelude::*;

verus! {

/// A directed edge as a host runtime receives it.
#[derive(Debug, Clone)]
pub struct Edge {
    pub from: u32,
    pub to: u32,
}

impl Edge {
    /// The snapshot of a graph edge. Ids must fit 32 bits.
    pub fn from_native(edge: crate::graph::Edge) -> (r: Edge)
        requires
            edge.from <= u32::MAX,
            edge.to <= u32::MAX,
        ensures
            r.from as usize == edge.from,
            r.to as usize == edge.to,
    {
        Edge { from: edge.from as u32, to: edge.to as u32 }
    }
}

/// A cluster as a host runtime receives it.
#[derive(Debug, Clone)]
pub struct Cluster {
    pub id: u32,
    pub members: Vec<u32>,
}

impl Cluster {
    /// The snapshot of a cluster. Ids must fit 32 bits.
    pub fn from_native(cluster: crate::cluster::Cluster) -> (r: Cluster)
        requires
            cluster.id <= u32::MAX,
            forall|i: int|
                0 <= i < cluster.members@.len() ==> (#[trigger] cluster.members@[i]) <= u32::MAX,
        ensures
            r.id as usize == cluster.id,
            r.members@.len() == cluster.members@.len(),
            forall|i: int|
                0 <= i < r.members@.len() ==> (#[trigger] r.members@[i]) as usize
                    == cluster.members@[i],
    {
        let n = cluster.members.len();
        let mut members: Vec<u32> = Vec::new();
        let mut i: usize = 0;
        while i < n
            invariant
                0 <= i <= n,
                n == cluster.members@.len(),
                members@.len() == i,
                forall|k: int|
                    0 <= k < n ==> (#[trigger] cluster.members@[k]) <= u32::MAX,
                forall|k: int|
                    0 <= k < i ==> (#[trigger] members@[k]) as usize == cluster.members@[k],
            decreases n - i,
        {
            members.push(cluster.members[i] as u32);
            i = i + 1;
        }
        Cluster { id: cluster.id as u32, members }
    }
}

/// A node as a host runtime receives it, without the 2-D position a layout
/// assigns; the caller that ran a layout attaches coordinates itself.
#[derive(Debug, Clone)]
pub struct Node {
    pub id: u32,
    pub label: String,
    pub file_path: String,
}

impl Node {
    /// The snapshot of a graph node. Ids must fit 32 bits.
    pub fn from_native(node: crate::graph::Node) -> (r: Node)
        requires
            node.id <= u32::MAX,
        ensures
            r.id as usize == node.id,
            r.label == node.label,
            r.file_path == node.file_path,
    {
        Node { id: node.id as u32, label: node.label, file_path: node.file_path }
    }
}

} // verus!
