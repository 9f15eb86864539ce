//! Community detection: a weighted, resolution-parameterized modularity
//! optimizer over the undirected symmetrization of the graph, with a sweep
//! over resolution values and a size-balance penalty selecting the best
//! partition.
use crate::graph::{Edge, Graph, NodeId};
use vstd::multiset::Multiset;
use vstd::prelude::*;

verus! {

/// One community of the chosen partition: its position in the returned list
/// and its member node ids in ascending order.
#[derive(Debug, Clone)]
pub struct Cluster {
    pub id: usize,
    pub members: Vec<NodeId>,
}

/// Largest number of distinct nodes the detector accepts.
pub const MAX_NODES: usize = 0x10_0000;

/// Largest number of edges the detector accepts.
pub const MAX_EDGES: usize = 0x4000_0000;

// ---------------------------------------------------------------------------
// Sums over weighted adjacency rows.
// ---------------------------------------------------------------------------
/// Sum of the weights of one adjacency row.
pub open spec fn row_sum(row: Seq<(usize, u64)>) -> int
    decreases row.len(),
{
    if row.len() == 0 {
        0
    } else {
        row_sum(row.drop_last()) + row.last().1
    }
}

/// Sum of all weights of the adjacency.
pub open spec fn total_w(adj: Seq<Seq<(usize, u64)>>) -> int
    decreases adj.len(),
{
    if adj.len() == 0 {
        0
    } else {
        total_w(adj.drop_last()) + row_sum(adj.last())
    }
}

/// Total weight from one row towards neighbor `j`.
pub open spec fn weight_to(row: Seq<(usize, u64)>, j: usize) -> int
    decreases row.len(),
{
    if row.len() == 0 {
        0
    } else {
        weight_to(row.drop_last(), j) + if row.last().0 == j {
            row.last().1 as int
        } else {
            0
        }
    }
}

/// A well-formed adjacency row over `n` dense nodes: neighbors in range,
/// strictly ascending, weights positive.
pub open spec fn row_wf(row: Seq<(usize, u64)>, n: int) -> bool {
    &&& forall|k: int| 0 <= k < row.len() ==> (#[trigger] row[k]).0 < n && row[k].1 >= 1
    &&& forall|k: int, l: int| 0 <= k < l < row.len() ==> row[k].0 < row[l].0
}

/// A well-formed weighted adjacency with its per-node weighted degrees.
pub open spec fn wadj_wf(adj: Seq<Seq<(usize, u64)>>, deg: Seq<u64>) -> bool {
    &&& adj.len() == deg.len()
    &&& forall|i: int| 0 <= i < adj.len() ==> row_wf(#[trigger] adj[i], adj.len() as int)
    &&& forall|i: int| 0 <= i < adj.len() ==> (#[trigger] deg[i]) as int == row_sum(adj[i])
}

// ---------------------------------------------------------------------------
// The symmetric weight the detector works on: each directed edge between two
// distinct nodes contributes one unit in each direction; self-loops
// contribute nothing.
// ---------------------------------------------------------------------------
/// What one stored edge adds to the undirected weight between `u` and `v`.
pub open spec fn edge_contrib(e: Edge, u: NodeId, v: NodeId) -> int {
    if e.from == e.to {
        0
    } else {
        (if e.from == u && e.to == v {
            1int
        } else {
            0int
        }) + (if e.from == v && e.to == u {
            1int
        } else {
            0int
        })
    }
}

/// The symmetrized weight between `u` and `v` over a list of edges.
pub open spec fn sym_w(es: Seq<Edge>, u: NodeId, v: NodeId) -> int
    decreases es.len(),
{
    if es.len() == 0 {
        0
    } else {
        sym_w(es.drop_last(), u, v) + edge_contrib(es.last(), u, v)
    }
}

/// Self-loops are ignored: appending an edge whose endpoints are equal
/// leaves every symmetrized weight unchanged, so neither the adjacency the
/// detector works on nor any modularity value computed from it moves.
pub proof fn lemma_self_loop_ignored(es: Seq<Edge>, e: Edge, u: NodeId, v: NodeId)
    requires
        e.from == e.to,
    ensures
        sym_w(es.push(e), u, v) == sym_w(es, u, v),
{
    assert(es.push(e).drop_last() =~= es);
}

/// The ids the detector covers: every node id, and every endpoint of an
/// edge between two distinct ids.
pub open spec fn covered_id(g: Graph, x: NodeId) -> bool {
    g.spec_nodes().dom().contains(x) || exists|k: int|
        0 <= k < g.edges@.len() && (#[trigger] g.edges@[k]).from != g.edges@[k].to && (g.edges@[k].from
            == x || g.edges@[k].to == x)
}

// ---------------------------------------------------------------------------
// Small sequence lemmas used by the adjacency builder.
// ---------------------------------------------------------------------------
proof fn lemma_row_nonneg(row: Seq<(usize, u64)>)
    ensures
        row_sum(row) >= 0,
        forall|j: usize| weight_to(row, j) >= 0,
    decreases row.len(),
{
    if row.len() > 0 {
        lemma_row_nonneg(row.drop_last());
        assert forall|j: usize| weight_to(row, j) >= 0 by {
            assert(weight_to(row.drop_last(), j) >= 0);
        }
    } else {
        assert forall|j: usize| weight_to(row, j) >= 0 by {
            assert(weight_to(row, j) == 0);
        }
    }
}

proof fn lemma_total_nonneg(adj: Seq<Seq<(usize, u64)>>)
    ensures
        total_w(adj) >= 0,
    decreases adj.len(),
{
    if adj.len() > 0 {
        lemma_total_nonneg(adj.drop_last());
        lemma_row_nonneg(adj.last());
    }
}

/// A row's sum is at most the whole adjacency's weight.
proof fn lemma_row_le_total(adj: Seq<Seq<(usize, u64)>>, i: int)
    requires
        0 <= i < adj.len(),
    ensures
        row_sum(adj[i]) <= total_w(adj),
    decreases adj.len(),
{
    lemma_row_nonneg(adj.last());
    lemma_total_nonneg(adj.drop_last());
    if i < adj.len() - 1 {
        lemma_row_le_total(adj.drop_last(), i);
        assert(adj.drop_last()[i] == adj[i]);
    }
}

/// The weight towards one neighbor is at most the row's sum.
proof fn lemma_weight_le_row(row: Seq<(usize, u64)>, j: usize)
    ensures
        weight_to(row, j) <= row_sum(row),
    decreases row.len(),
{
    if row.len() > 0 {
        lemma_weight_le_row(row.drop_last(), j);
    }
}

/// Replacing one row changes the total by the difference of the row sums.
proof fn lemma_total_update(adj: Seq<Seq<(usize, u64)>>, i: int, row: Seq<(usize, u64)>)
    requires
        0 <= i < adj.len(),
    ensures
        total_w(adj.update(i, row)) == total_w(adj) - row_sum(adj[i]) + row_sum(row),
    decreases adj.len(),
{
    if i == adj.len() - 1 {
        assert(adj.update(i, row).drop_last() =~= adj.drop_last());
    } else {
        assert(adj.update(i, row).drop_last() =~= adj.drop_last().update(i, row));
        lemma_total_update(adj.drop_last(), i, row);
    }
}

/// Inserting an entry adds its weight to the row sum, and to the weight
/// towards its neighbor.
proof fn lemma_row_insert(row: Seq<(usize, u64)>, i: int, e: (usize, u64))
    requires
        0 <= i <= row.len(),
    ensures
        row_sum(row.insert(i, e)) == row_sum(row) + e.1,
        forall|x: usize|
            weight_to(row.insert(i, e), x) == weight_to(row, x) + if e.0 == x {
                e.1 as int
            } else {
                0
            },
    decreases row.len(),
{
    let r2 = row.insert(i, e);
    if i == row.len() {
        assert(r2.drop_last() =~= row);
        assert(r2.last() == e);
        assert forall|x: usize|
            weight_to(r2, x) == weight_to(row, x) + (if e.0 == x {
                e.1 as int
            } else {
                0int
            }) by {
            assert(weight_to(r2, x) == weight_to(r2.drop_last(), x) + if r2.last().0 == x {
                r2.last().1 as int
            } else {
                0int
            });
        }
    } else {
        assert(r2.drop_last() =~= row.drop_last().insert(i, e));
        assert(r2.last() == row.last());
        lemma_row_insert(row.drop_last(), i, e);
        assert forall|x: usize|
            weight_to(r2, x) == weight_to(row, x) + (if e.0 == x {
                e.1 as int
            } else {
                0int
            }) by {
            assert(weight_to(r2, x) == weight_to(row.drop_last().insert(i, e), x) + if r2.last().0
                == x {
                r2.last().1 as int
            } else {
                0int
            });
            assert(weight_to(row, x) == weight_to(row.drop_last(), x) + if row.last().0 == x {
                row.last().1 as int
            } else {
                0int
            });
        }
    }
}

/// Raising one entry's weight adds the increase to the row sum, and to the
/// weight towards that entry's neighbor.
proof fn lemma_row_bump(row: Seq<(usize, u64)>, i: int, w: u64)
    requires
        0 <= i < row.len(),
        row[i].1 + w <= u64::MAX,
    ensures
        row_sum(row.update(i, (row[i].0, (row[i].1 + w) as u64))) == row_sum(row) + w,
        forall|x: usize|
            weight_to(row.update(i, (row[i].0, (row[i].1 + w) as u64)), x) == weight_to(row, x)
                + if row[i].0 == x {
                w as int
            } else {
                0
            },
    decreases row.len(),
{
    let row2 = row.update(i, (row[i].0, (row[i].1 + w) as u64));
    if i == row.len() - 1 {
        assert(row2.drop_last() =~= row.drop_last());
        assert forall|x: usize|
            weight_to(row2, x) == weight_to(row, x) + (if row[i].0 == x {
                w as int
            } else {
                0int
            }) by {
            assert(weight_to(row2, x) == weight_to(row2.drop_last(), x) + if row2.last().0 == x {
                row2.last().1 as int
            } else {
                0int
            });
            assert(weight_to(row, x) == weight_to(row.drop_last(), x) + if row.last().0 == x {
                row.last().1 as int
            } else {
                0int
            });
        }
    } else {
        assert(row2.drop_last() =~= row.drop_last().update(i, (row[i].0, (row[i].1 + w) as u64)));
        assert(row2.last() == row.last());
        lemma_row_bump(row.drop_last(), i, w);
        assert forall|x: usize|
            weight_to(row2, x) == weight_to(row, x) + (if row[i].0 == x {
                w as int
            } else {
                0int
            }) by {
            assert(weight_to(row2, x) == weight_to(row2.drop_last(), x) + if row2.last().0 == x {
                row2.last().1 as int
            } else {
                0int
            });
            assert(weight_to(row, x) == weight_to(row.drop_last(), x) + if row.last().0 == x {
                row.last().1 as int
            } else {
                0int
            });
        }
    }
}

// ---------------------------------------------------------------------------
// Adding weight to a sorted row.
// ---------------------------------------------------------------------------
/// Returns the row with `w` more weight towards `j`, fusing with an existing
/// entry or inserting a new one at the sorted position.
fn bump_row(row: &Vec<(usize, u64)>, j: usize, w: u64, n: usize) -> (r: Vec<(usize, u64)>)
    requires
        row_wf(row@, n as int),
        j < n,
        w >= 1,
        row_sum(row@) + w <= u64::MAX,
    ensures
        row_wf(r@, n as int),
        row_sum(r@) == row_sum(row@) + w,
        forall|x: usize|
            weight_to(r@, x) == weight_to(row@, x) + if x == j {
                w as int
            } else {
                0
            },
{
    let len = row.len();
    let mut i: usize = 0;
    while i < len && row[i].0 < j
        invariant
            0 <= i <= len,
            len == row@.len(),
            forall|k: int| 0 <= k < i ==> (#[trigger] row@[k]).0 < j,
        decreases len - i,
    {
        i = i + 1;
    }
    let pos = i;
    let mut r: Vec<(usize, u64)> = Vec::new();
    let mut k: usize = 0;
    while k < pos
        invariant
            0 <= k <= pos <= len,
            len == row@.len(),
            r@ =~= row@.subrange(0, k as int),
        decreases pos - k,
    {
        r.push(row[k]);
        proof {
            assert(r@ =~= row@.subrange(0, k + 1));
        }
        k = k + 1;
    }
    if pos < len && row[pos].0 == j {
        proof {
            lemma_row_nonneg(row@);
            lemma_row_entry_le_sum(row@, pos as int);
        }
        r.push((j, row[pos].1 + w));
        let mut k2: usize = pos + 1;
        while k2 < len
            invariant
                pos < k2 <= len,
                len == row@.len(),
                r@ =~= row@.update(pos as int, (j, (row@[pos as int].1 + w) as u64)).subrange(
                    0,
                    k2 as int,
                ),
            decreases len - k2,
        {
            r.push(row[k2]);
            proof {
                assert(r@ =~= row@.update(pos as int, (j, (row@[pos as int].1 + w) as u64)).subrange(
                    0,
                    k2 + 1,
                ));
            }
            k2 = k2 + 1;
        }
        proof {
            let upd = row@.update(pos as int, (j, (row@[pos as int].1 + w) as u64));
            assert(r@ =~= upd);
            lemma_row_bump(row@, pos as int, w);
        }
        r
    } else {
        r.push((j, w));
        let mut k2: usize = pos;
        while k2 < len
            invariant
                pos <= k2 <= len,
                len == row@.len(),
                r@ =~= row@.insert(pos as int, (j, w)).subrange(0, k2 + 1),
            decreases len - k2,
        {
            r.push(row[k2]);
            proof {
                assert(r@ =~= row@.insert(pos as int, (j, w)).subrange(0, k2 + 2));
            }
            k2 = k2 + 1;
        }
        proof {
            let ins = row@.insert(pos as int, (j, w));
            assert(r@ =~= ins);
            lemma_row_insert(row@, pos as int, (j, w));
            assert forall|a: int, b: int| 0 <= a < b < ins.len() implies ins[a].0 < ins[b].0 by {
                if a < pos && b > pos {
                    assert(row@[a].0 < j);
                    assert(ins[b] == row@[b - 1]);
                    if row@[b - 1].0 <= j {
                        assert(pos <= b - 1 < row@.len());
                        assert(!(row@[pos as int].0 < j));
                        if pos < b - 1 {
                            assert(row@[pos as int].0 < row@[b - 1].0);
                        }
                        assert(row@[b - 1].0 == j);
                        assert(pos < len && row@[pos as int].0 == j);
                        assert(false);
                    }
                }
            }
        }
        r
    }
}

/// Each entry's weight is at most the row's sum.
proof fn lemma_row_entry_le_sum(row: Seq<(usize, u64)>, i: int)
    requires
        0 <= i < row.len(),
        forall|k: int| 0 <= k < row.len() ==> (#[trigger] row[k]).1 >= 1,
    ensures
        row[i].1 <= row_sum(row),
    decreases row.len(),
{
    lemma_row_nonneg(row.drop_last());
    if i < row.len() - 1 {
        lemma_row_entry_le_sum(row.drop_last(), i);
        assert(row.drop_last()[i] == row[i]);
        assert(row[row.len() - 1].1 >= 1);
    }
}

// ---------------------------------------------------------------------------
// The dense re-indexing: covered node ids in ascending order, and the
// weighted symmetric adjacency over dense indices.
// ---------------------------------------------------------------------------
/// The views of a list of adjacency rows.
pub open spec fn adj_view(adj: Seq<Vec<(usize, u64)>>) -> Seq<Seq<(usize, u64)>> {
    adj.map_values(|r: Vec<(usize, u64)>| r@)
}

/// In a strictly ascending sequence, distinct positions hold distinct values.
proof fn lemma_sorted_unique(ids: Seq<usize>)
    requires
        forall|a: int, b: int| 0 <= a < b < ids.len() ==> ids[a] < ids[b],
    ensures
        forall|a: int, b: int|
            0 <= a < ids.len() && 0 <= b < ids.len() && a != b ==> ids[a] != ids[b],
{
}

/// Sorts a list of usize values ascending, preserving its multiset.
fn sort_usize(v: &mut Vec<usize>)
    ensures
        final(v)@.len() == old(v)@.len(),
        final(v)@.to_multiset() == old(v)@.to_multiset(),
        forall|a: int, b: int| 0 <= a < b < final(v)@.len() ==> final(v)@[a] <= final(v)@[b],
{
    broadcast use vstd::seq_lib::group_to_multiset_ensures;

    let n = v.len();
    let mut i: usize = 1;
    while i < n
        invariant
            1 <= i <= n || (n == 0 && i == 1),
            n == v@.len(),
            v@.to_multiset() == old(v)@.to_multiset(),
            forall|a: int, b: int| 0 <= a < b < i ==> v@[a] <= v@[b],
        decreases n - i,
    {
        let mut j: usize = i;
        while j > 0 && v[j - 1] > v[j]
            invariant
                0 <= j <= i < n,
                n == v@.len(),
                v@.to_multiset() == old(v)@.to_multiset(),
                forall|a: int, b: int| 0 <= a < b <= i && b != j ==> v@[a] <= v@[b],
                forall|b: int| j < b <= i ==> v@[j as int] <= v@[b],
            decreases j,
        {
            let ghost before = v@;
            let x = v[j - 1];
            let y = v[j];
            v.set(j - 1, y);
            v.set(j, x);
            proof {
                assert(v@ =~= before.update(j - 1, before[j as int]).update(j as int, before[j - 1]));
                lemma_swap_multiset(before, j - 1, j as int);
            }
            j = j - 1;
        }
        i = i + 1;
    }
}

/// Swapping two positions preserves the multiset.
proof fn lemma_swap_multiset(s: Seq<usize>, a: int, b: int)
    requires
        0 <= a < b < s.len(),
    ensures
        s.update(a, s[b]).update(b, s[a]).to_multiset() == s.to_multiset(),
{
    broadcast use vstd::seq_lib::group_to_multiset_ensures;

    let s2 = s.update(a, s[b]).update(b, s[a]);
    assert(s2.to_multiset() =~= s.to_multiset()) by {
        lemma_update_multiset(s, a, s[b]);
        lemma_update_multiset(s.update(a, s[b]), b, s[a]);
        assert(s.update(a, s[b])[b] == s[b]);
    }
}

/// Updating one position removes the old value and inserts the new one.
proof fn lemma_update_multiset(s: Seq<usize>, i: int, x: usize)
    requires
        0 <= i < s.len(),
    ensures
        s.update(i, x).to_multiset() == s.to_multiset().remove(s[i]).insert(x),
    decreases s.len(),
{
    broadcast use vstd::seq_lib::group_to_multiset_ensures;

    if i == s.len() - 1 {
        assert(s.update(i, x).drop_last() =~= s.drop_last());
        assert(s.update(i, x) =~= s.drop_last().push(x));
        assert(s =~= s.drop_last().push(s[i]));
        assert(s.to_multiset() == s.drop_last().to_multiset().insert(s[i]));
        assert(s.update(i, x).to_multiset() == s.drop_last().to_multiset().insert(x));
        assert(s.update(i, x).to_multiset() =~= s.to_multiset().remove(s[i]).insert(x));
    } else {
        lemma_update_multiset(s.drop_last(), i, x);
        assert(s.update(i, x) =~= s.drop_last().update(i, x).push(s.last()));
        assert(s =~= s.drop_last().push(s.last()));
        assert(s.update(i, x).to_multiset() == s.drop_last().update(i, x).to_multiset().insert(
            s.last(),
        ));
        assert(s.to_multiset() == s.drop_last().to_multiset().insert(s.last()));
        assert(s.drop_last()[i] == s[i]);
        assert(s.update(i, x).to_multiset() =~= s.to_multiset().remove(s[i]).insert(x));
    }
}

/// The covered ids of the graph, each exactly once, in ascending order.
fn sorted_covered_ids(g: &Graph) -> (ids: Vec<usize>)
    ensures
        forall|a: int, b: int| 0 <= a < b < ids@.len() ==> ids@[a] < ids@[b],
        forall|x: usize| ids@.contains(x) <==> covered_id(*g, x),
        ids@.len() <= g.nodes@.len() + 2 * g.edges@.len(),
{
    broadcast use vstd::seq_lib::group_to_multiset_ensures;

    let mut cand: Vec<usize> = Vec::new();
    let nn = g.nodes.len();
    let mut i: usize = 0;
    while i < nn
        invariant
            0 <= i <= nn,
            nn == g.nodes@.len(),
            cand@.len() == i,
            forall|x: usize|
                cand@.contains(x) <==> exists|k: int| 0 <= k < i && g.nodes@[k].id == x,
        decreases nn - i,
    {
        let ghost before = cand@;
        cand.push(g.nodes[i].id);
        proof {
            assert forall|x: usize|
                cand@.contains(x) <==> exists|k: int| 0 <= k < i + 1 && g.nodes@[k].id == x by {
                assert(cand@ =~= before.push(g.nodes@[i as int].id));
                if cand@.contains(x) {
                    let w = choose|w: int| 0 <= w < cand@.len() && cand@[w] == x;
                    if w < before.len() {
                        assert(before.contains(x));
                    } else {
                        assert(g.nodes@[i as int].id == x);
                    }
                }
                if exists|k: int| 0 <= k < i + 1 && g.nodes@[k].id == x {
                    let k = choose|k: int| 0 <= k < i + 1 && g.nodes@[k].id == x;
                    if k < i {
                        assert(before.contains(x));
                        let w = choose|w: int| 0 <= w < before.len() && before[w] == x;
                        assert(cand@[w] == x);
                    } else {
                        assert(cand@[cand@.len() - 1] == x);
                    }
                }
            }
        }
        i = i + 1;
    }
    let ne = g.edges.len();
    let mut t: usize = 0;
    while t < ne
        invariant
            0 <= t <= ne,
            ne == g.edges@.len(),
            cand@.len() <= nn + 2 * t,
            forall|x: usize|
                cand@.contains(x) <==> (exists|k: int| 0 <= k < nn && g.nodes@[k].id == x) || (
                exists|k: int|
                    0 <= k < t && (#[trigger] g.edges@[k]).from != g.edges@[k].to && (g.edges@[k].from
                        == x || g.edges@[k].to == x)),
        decreases ne - t,
    {
        let e_from = g.edges[t].from;
        let e_to = g.edges[t].to;
        let ghost before = cand@;
        if e_from != e_to {
            cand.push(e_from);
            cand.push(e_to);
            proof {
                assert(cand@ =~= before.push(e_from).push(e_to));
            }
        }
        proof {
            assert forall|x: usize|
                cand@.contains(x) <==> ((exists|k: int| 0 <= k < nn && g.nodes@[k].id == x) || (
                exists|k: int|
                    0 <= k < t + 1 && (#[trigger] g.edges@[k]).from != g.edges@[k].to && (
                    g.edges@[k].from == x || g.edges@[k].to == x))) by {
                if e_from != e_to {
                    if cand@.contains(x) {
                        let w = choose|w: int| 0 <= w < cand@.len() && cand@[w] == x;
                        if w < before.len() {
                            assert(before.contains(x));
                        } else {
                            assert(e_from == x || e_to == x);
                            assert(0 <= t < t + 1 && g.edges@[t as int].from != g.edges@[t as int].to
                                && (g.edges@[t as int].from == x || g.edges@[t as int].to == x));
                        }
                    }
                    if before.contains(x) {
                        let w = choose|w: int| 0 <= w < before.len() && before[w] == x;
                        assert(cand@[w] == x);
                    }
                    if exists|k: int|
                        0 <= k < t + 1 && (#[trigger] g.edges@[k]).from != g.edges@[k].to && (
                        g.edges@[k].from == x || g.edges@[k].to == x) {
                        let k = choose|k: int|
                            0 <= k < t + 1 && (#[trigger] g.edges@[k]).from != g.edges@[k].to && (
                            g.edges@[k].from == x || g.edges@[k].to == x);
                        if k < t {
                            assert(before.contains(x));
                        } else {
                            assert(e_from == x || e_to == x);
                            if e_from == x {
                                assert(cand@[cand@.len() - 2] == x);
                            } else {
                                assert(cand@[cand@.len() - 1] == x);
                            }
                        }
                    }
                } else {
                    if exists|k: int|
                        0 <= k < t + 1 && (#[trigger] g.edges@[k]).from != g.edges@[k].to && (
                        g.edges@[k].from == x || g.edges@[k].to == x) {
                        let k = choose|k: int|
                            0 <= k < t + 1 && (#[trigger] g.edges@[k]).from != g.edges@[k].to && (
                            g.edges@[k].from == x || g.edges@[k].to == x);
                        assert(k < t);
                    }
                }
            }
        }
        t = t + 1;
    }
    proof {
        crate::graph::lemma_node_map_dom_iff(g.nodes@);
    }
    let ghost presort = cand@;
    sort_usize(&mut cand);
    let ghost sorted = cand@;
    proof {
        assert forall|x: usize| sorted.contains(x) <==> covered_id(*g, x) by {
            assert(sorted.contains(x) == (sorted.to_multiset().count(x) > 0));
            assert(presort.contains(x) == (presort.to_multiset().count(x) > 0));
            assert(sorted.to_multiset() == presort.to_multiset());
        }
    }
    let mut ids: Vec<usize> = Vec::new();
    let m = cand.len();
    let mut u: usize = 0;
    while u < m
        invariant
            0 <= u <= m,
            m == cand@.len(),
            cand@ == sorted,
            forall|a: int, b: int| 0 <= a < b < sorted.len() ==> sorted[a] <= sorted[b],
            forall|a: int, b: int| 0 <= a < b < ids@.len() ==> ids@[a] < ids@[b],
            forall|x: usize| ids@.contains(x) <==> sorted.subrange(0, u as int).contains(x),
            ids@.len() > 0 && u > 0 ==> ids@.last() == sorted[u - 1],
            ids@.len() <= u,
        decreases m - u,
    {
        let x = cand[u];
        let ghost before = ids@;
        let push_it = if ids.len() == 0 {
            true
        } else {
            let last = ids[ids.len() - 1];
            last != x
        };
        if push_it {
            ids.push(x);
        }
        proof {
            assert forall|y: usize|
                ids@.contains(y) <==> sorted.subrange(0, u + 1).contains(y) by {
                let pre = sorted.subrange(0, u as int);
                let pre2 = sorted.subrange(0, u + 1);
                assert(pre2 =~= pre.push(sorted[u as int]));
                if ids@.contains(y) {
                    let w = choose|w: int| 0 <= w < ids@.len() && ids@[w] == y;
                    if w < before.len() {
                        assert(before.contains(y));
                        let v2 = choose|v2: int| 0 <= v2 < pre.len() && pre[v2] == y;
                        assert(pre2[v2] == y);
                    } else {
                        assert(y == x);
                        assert(pre2[u as int] == y);
                    }
                }
                if pre2.contains(y) {
                    let w = choose|w: int| 0 <= w < pre2.len() && pre2[w] == y;
                    if w < u {
                        assert(pre.contains(y));
                        assert(before.contains(y));
                        let v2 = choose|v2: int| 0 <= v2 < before.len() && before[v2] == y;
                        assert(ids@[v2] == y);
                    } else {
                        assert(y == x);
                        if !push_it {
                            assert(before.last() == x);
                            assert(ids@.contains(y));
                        } else {
                            assert(ids@.last() == x);
                        }
                    }
                }
            }
        }
        u = u + 1;
    }
    proof {
        assert(sorted.subrange(0, m as int) =~= sorted);
    }
    ids
}

/// Position of a value in a strictly ascending id list that contains it.
fn find_idx(ids: &Vec<usize>, x: usize) -> (i: usize)
    requires
        forall|a: int, b: int| 0 <= a < b < ids@.len() ==> ids@[a] < ids@[b],
        ids@.contains(x),
    ensures
        i < ids@.len(),
        ids@[i as int] == x,
{
    let n = ids.len();
    let mut i: usize = 0;
    while i < n
        invariant
            0 <= i <= n,
            n == ids@.len(),
            forall|k: int| 0 <= k < i ==> ids@[k] != x,
        decreases n - i,
    {
        if ids[i] == x {
            return i;
        }
        i = i + 1;
    }
    proof {
        let w = choose|w: int| 0 <= w < ids@.len() && ids@[w] == x;
        assert(false);
    }
    0
}

/// Sum of a row's weights, as a machine integer.
fn row_total(row: &Vec<(usize, u64)>) -> (r: u64)
    requires
        row_sum(row@) <= u64::MAX,
        forall|k: int| 0 <= k < row@.len() ==> (#[trigger] row@[k]).1 >= 1,
    ensures
        r as int == row_sum(row@),
{
    let n = row.len();
    let mut acc: u64 = 0;
    let mut i: usize = 0;
    while i < n
        invariant
            0 <= i <= n,
            n == row@.len(),
            acc as int == row_sum(row@.subrange(0, i as int)),
        decreases n - i,
    {
        proof {
            lemma_row_prefix_le(row@, i + 1);
            assert(row@.subrange(0, i + 1).drop_last() =~= row@.subrange(0, i as int));
        }
        acc = acc + row[i].1;
        i = i + 1;
    }
    proof {
        assert(row@.subrange(0, n as int) =~= row@);
    }
    acc
}

/// A prefix's sum is at most the whole row's sum.
proof fn lemma_row_prefix_le(row: Seq<(usize, u64)>, k: int)
    requires
        0 <= k <= row.len(),
    ensures
        row_sum(row.subrange(0, k)) <= row_sum(row),
    decreases row.len(),
{
    lemma_row_nonneg(row);
    if k == row.len() {
        assert(row.subrange(0, k) =~= row);
    } else {
        assert(row.drop_last().subrange(0, k) =~= row.subrange(0, k));
        lemma_row_prefix_le(row.drop_last(), k);
    }
}

/// Builds the dense weighted symmetric adjacency of a graph: the covered
/// ids ascending, the adjacency rows over dense indices, and the weighted
/// degrees. Every directed edge between distinct nodes adds one unit of
/// weight in each direction; self-loops add nothing.
fn build_dense(g: &Graph) -> (r: (Vec<usize>, Vec<Vec<(usize, u64)>>, Vec<u64>))
    requires
        g.edges@.len() <= MAX_EDGES,
    ensures
        ({
            let (ids, adj, deg) = r;
            &&& forall|a: int, b: int| 0 <= a < b < ids@.len() ==> ids@[a] < ids@[b]
            &&& forall|x: usize| ids@.contains(x) <==> covered_id(*g, x)
            &&& ids@.len() <= g.nodes@.len() + 2 * g.edges@.len()
            &&& adj@.len() == ids@.len()
            &&& wadj_wf(adj_view(adj@), deg@)
            &&& total_w(adj_view(adj@)) <= 2 * g.edges@.len()
            &&& forall|iu: int, iv: int|
                0 <= iu < ids@.len() && 0 <= iv < ids@.len() ==> weight_to(
                    #[trigger] adj_view(adj@)[iu],
                    iv as usize,
                ) == sym_w(g.edges@, ids@[iu], #[trigger] ids@[iv])
        }),
{
    let ids = sorted_covered_ids(g);
    let n = ids.len();
    let mut adj: Vec<Vec<(usize, u64)>> = Vec::new();
    let mut z: usize = 0;
    while z < n
        invariant
            0 <= z <= n,
            adj@.len() == z,
            forall|i: int| 0 <= i < z ==> (#[trigger] adj@[i])@.len() == 0,
        decreases n - z,
    {
        adj.push(Vec::new());
        z = z + 1;
    }
    proof {
        lemma_total_zero(adj_view(adj@));
        lemma_sym_zero(g.edges@, ids@, adj_view(adj@));
        lemma_sorted_unique(ids@);
    }
    let ne = g.edges.len();
    let mut t: usize = 0;
    while t < ne
        invariant
            0 <= t <= ne,
            ne == g.edges@.len(),
            ne <= MAX_EDGES,
            adj@.len() == n,
            n == ids@.len(),
            forall|a: int, b: int| 0 <= a < b < ids@.len() ==> ids@[a] < ids@[b],
            forall|x: usize| ids@.contains(x) <==> covered_id(*g, x),
            forall|i: int| 0 <= i < n ==> row_wf(#[trigger] adj_view(adj@)[i], n as int),
            total_w(adj_view(adj@)) <= 2 * t,
            forall|iu: int, iv: int|
                0 <= iu < n && 0 <= iv < n ==> weight_to(#[trigger] adj_view(adj@)[iu], iv as usize)
                    == sym_w(g.edges@.subrange(0, t as int), ids@[iu], #[trigger] ids@[iv]),
        decreases ne - t,
    {
        let ghost pre = adj_view(adj@);
        let ghost prefix = g.edges@.subrange(0, t as int);
        let e_from = g.edges[t].from;
        let e_to = g.edges[t].to;
        proof {
            assert(g.edges@.subrange(0, t + 1).drop_last() =~= prefix);
            assert(g.edges@.subrange(0, t + 1).last() == g.edges@[t as int]);
        }
        if e_from != e_to {
            proof {
                assert(covered_id(*g, e_from));
                assert(covered_id(*g, e_to));
            }
            let iu = find_idx(&ids, e_from);
            let iv = find_idx(&ids, e_to);
            proof {
                lemma_row_le_total(adj_view(adj@), iu as int);
                lemma_total_nonneg(adj_view(adj@));
            }
            let row_u = bump_row(&adj[iu], iv, 1, n);
            let ghost mid_row = row_u@;
            adj.set(iu, row_u);
            proof {
                assert(adj_view(adj@) =~= pre.update(iu as int, mid_row));
                lemma_total_update(pre, iu as int, mid_row);
                lemma_row_le_total(adj_view(adj@), iv as int);
                lemma_total_nonneg(adj_view(adj@));
            }
            let ghost mid = adj_view(adj@);
            let row_v = bump_row(&adj[iv], iu, 1, n);
            let ghost fin_row = row_v@;
            adj.set(iv, row_v);
            proof {
                assert(adj_view(adj@) =~= mid.update(iv as int, fin_row));
                lemma_total_update(mid, iv as int, fin_row);
                assert forall|a: int, b: int|
                    0 <= a < n && 0 <= b < n implies weight_to(
                    #[trigger] adj_view(adj@)[a],
                    b as usize,
                ) == sym_w(g.edges@.subrange(0, t + 1), ids@[a], #[trigger] ids@[b]) by {
                    let now = adj_view(adj@);
                    let e = g.edges@[t as int];
                    assert(ids@[iu as int] == e.from);
                    assert(ids@[iv as int] == e.to);
                    if a == iu as int {
                        assert(now[a] == mid_row);
                        assert(weight_to(mid_row, b as usize) == weight_to(pre[a], b as usize) + if b
                            == iv as int {
                            1int
                        } else {
                            0int
                        });
                    } else if a == iv as int {
                        assert(now[a] == fin_row);
                        assert(mid[a] == pre[a]);
                        assert(weight_to(fin_row, b as usize) == weight_to(pre[a], b as usize) + if b
                            == iu as int {
                            1int
                        } else {
                            0int
                        });
                    } else {
                        assert(now[a] == pre[a]);
                    }
                    assert(edge_contrib(e, ids@[a], ids@[b]) == (if a == iu as int && b == iv as int {
                        1int
                    } else {
                        0int
                    }) + (if a == iv as int && b == iu as int {
                        1int
                    } else {
                        0int
                    }));
                }
            }
        } else {
            proof {
                assert forall|a: int, b: int|
                    0 <= a < n && 0 <= b < n implies weight_to(
                    #[trigger] adj_view(adj@)[a],
                    b as usize,
                ) == sym_w(g.edges@.subrange(0, t + 1), ids@[a], #[trigger] ids@[b]) by {
                    assert(edge_contrib(g.edges@[t as int], ids@[a], ids@[b]) == 0);
                }
            }
        }
        t = t + 1;
    }
    proof {
        assert(g.edges@.subrange(0, ne as int) =~= g.edges@);
    }
    let mut deg: Vec<u64> = Vec::new();
    let mut d: usize = 0;
    while d < n
        invariant
            0 <= d <= n,
            adj@.len() == n,
            deg@.len() == d,
            forall|i: int| 0 <= i < n ==> row_wf(#[trigger] adj_view(adj@)[i], n as int),
            total_w(adj_view(adj@)) <= 2 * g.edges@.len(),
            g.edges@.len() <= MAX_EDGES,
            forall|i: int| 0 <= i < d ==> (#[trigger] deg@[i]) as int == row_sum(adj_view(adj@)[i]),
        decreases n - d,
    {
        proof {
            lemma_row_le_total(adj_view(adj@), d as int);
            lemma_total_nonneg(adj_view(adj@));
        }
        let w = row_total(&adj[d]);
        deg.push(w);
        d = d + 1;
    }
    (ids, adj, deg)
}

/// An adjacency made of empty rows has zero total weight and zero weight
/// everywhere.
proof fn lemma_total_zero(adj: Seq<Seq<(usize, u64)>>)
    requires
        forall|i: int| 0 <= i < adj.len() ==> (#[trigger] adj[i]).len() == 0,
    ensures
        total_w(adj) == 0,
    decreases adj.len(),
{
    if adj.len() > 0 {
        lemma_total_zero(adj.drop_last());
    }
}

proof fn lemma_sym_zero(es: Seq<Edge>, ids: Seq<usize>, adj: Seq<Seq<(usize, u64)>>)
    requires
        forall|i: int| 0 <= i < adj.len() ==> (#[trigger] adj[i]).len() == 0,
    ensures
        forall|iu: int, iv: int|
            0 <= iu < adj.len() && 0 <= iv < adj.len() ==> weight_to(#[trigger] adj[iu], iv as usize)
                == sym_w(es.subrange(0, 0), ids[iu], #[trigger] ids[iv]),
{
    assert(es.subrange(0, 0).len() == 0);
}

// ---------------------------------------------------------------------------
// Community totals: the summed weighted degree of each community, kept
// exact while nodes move.
// ---------------------------------------------------------------------------
/// Sum of a list of degrees.
pub open spec fn sum_u64(deg: Seq<u64>) -> int
    decreases deg.len(),
{
    if deg.len() == 0 {
        0
    } else {
        sum_u64(deg.drop_last()) + deg.last()
    }
}

/// Summed degree of the nodes assigned to community `c`.
pub open spec fn spec_tot(comm: Seq<usize>, deg: Seq<u64>, c: usize) -> int
    decreases comm.len(),
{
    if comm.len() == 0 || comm.len() != deg.len() {
        0
    } else {
        spec_tot(comm.drop_last(), deg.drop_last(), c) + if comm.last() == c {
            deg.last() as int
        } else {
            0
        }
    }
}

proof fn lemma_tot_le_sum(comm: Seq<usize>, deg: Seq<u64>, c: usize)
    requires
        comm.len() == deg.len(),
    ensures
        0 <= spec_tot(comm, deg, c) <= sum_u64(deg),
    decreases comm.len(),
{
    if comm.len() > 0 {
        lemma_tot_le_sum(comm.drop_last(), deg.drop_last(), c);
    }
}

/// Reassigning one node moves its degree from its old community's total to
/// the new one's.
proof fn lemma_tot_update(comm: Seq<usize>, deg: Seq<u64>, i: int, nc: usize, c: usize)
    requires
        comm.len() == deg.len(),
        0 <= i < comm.len(),
    ensures
        spec_tot(comm.update(i, nc), deg, c) == spec_tot(comm, deg, c) - (if comm[i] == c {
            deg[i] as int
        } else {
            0int
        }) + (if nc == c {
            deg[i] as int
        } else {
            0int
        }),
    decreases comm.len(),
{
    if i == comm.len() - 1 {
        assert(comm.update(i, nc).drop_last() =~= comm.drop_last());
    } else {
        assert(comm.update(i, nc).drop_last() =~= comm.drop_last().update(i, nc));
        assert(comm.drop_last()[i] == comm[i]);
        assert(deg.drop_last()[i] == deg[i]);
        lemma_tot_update(comm.drop_last(), deg.drop_last(), i, nc, c);
    }
}

/// A node's degree is at most its own community's total.
proof fn lemma_tot_member(comm: Seq<usize>, deg: Seq<u64>, i: int)
    requires
        comm.len() == deg.len(),
        0 <= i < comm.len(),
    ensures
        deg[i] as int <= spec_tot(comm, deg, comm[i]),
    decreases comm.len(),
{
    if i == comm.len() - 1 {
        lemma_tot_le_sum(comm.drop_last(), deg.drop_last(), comm[i]);
    } else {
        assert(comm.drop_last()[i] == comm[i]);
        assert(deg.drop_last()[i] == deg[i]);
        lemma_tot_member(comm.drop_last(), deg.drop_last(), i);
    }
}

/// The total degree equals the total weight when each degree is its row's
/// sum.
proof fn lemma_sum_deg_total(adj: Seq<Seq<(usize, u64)>>, deg: Seq<u64>)
    requires
        adj.len() == deg.len(),
        forall|i: int| 0 <= i < adj.len() ==> (#[trigger] deg[i]) as int == row_sum(adj[i]),
    ensures
        sum_u64(deg) == total_w(adj),
    decreases adj.len(),
{
    if adj.len() > 0 {
        assert forall|i: int| 0 <= i < adj.len() - 1 implies (#[trigger] deg.drop_last()[i]) as int
            == row_sum(adj.drop_last()[i]) by {
            assert(deg.drop_last()[i] == deg[i]);
            assert(adj.drop_last()[i] == adj[i]);
        }
        lemma_sum_deg_total(adj.drop_last(), deg.drop_last());
    }
}

proof fn lemma_sum_prefix_le(deg: Seq<u64>, k: int)
    requires
        0 <= k <= deg.len(),
    ensures
        0 <= sum_u64(deg.subrange(0, k)) <= sum_u64(deg),
    decreases deg.len(),
{
    if k == deg.len() {
        assert(deg.subrange(0, k) =~= deg);
        lemma_sum_nonneg(deg);
    } else {
        assert(deg.drop_last().subrange(0, k) =~= deg.subrange(0, k));
        lemma_sum_prefix_le(deg.drop_last(), k);
    }
}

proof fn lemma_sum_nonneg(deg: Seq<u64>)
    ensures
        sum_u64(deg) >= 0,
    decreases deg.len(),
{
    if deg.len() > 0 {
        lemma_sum_nonneg(deg.drop_last());
    }
}

/// The totals of all communities over the current assignment.
fn compute_tot(comm: &Vec<usize>, deg: &Vec<u64>, n_l: usize) -> (tot: Vec<u64>)
    requires
        comm@.len() == deg@.len(),
        forall|i: int| 0 <= i < comm@.len() ==> (#[trigger] comm@[i]) < n_l,
        sum_u64(deg@) <= u64::MAX,
    ensures
        tot@.len() == n_l,
        forall|c: int| 0 <= c < n_l ==> (#[trigger] tot@[c]) as int == spec_tot(comm@, deg@, c as usize),
{
    let mut tot: Vec<u64> = Vec::new();
    let mut z: usize = 0;
    while z < n_l
        invariant
            tot@.len() == z <= n_l,
            forall|c: int| 0 <= c < z ==> (#[trigger] tot@[c]) == 0,
        decreases n_l - z,
    {
        tot.push(0);
        z = z + 1;
    }
    let n = comm.len();
    proof {
        assert forall|c: int| 0 <= c < n_l implies (#[trigger] tot@[c]) as int == spec_tot(
            comm@.subrange(0, 0),
            deg@.subrange(0, 0),
            c as usize,
        ) by {
            assert(comm@.subrange(0, 0).len() == 0);
        }
    }
    let mut i: usize = 0;
    while i < n
        invariant
            0 <= i <= n,
            n == comm@.len() == deg@.len(),
            tot@.len() == n_l,
            forall|k: int| 0 <= k < n ==> (#[trigger] comm@[k]) < n_l,
            sum_u64(deg@) <= u64::MAX,
            forall|c: int|
                0 <= c < n_l ==> (#[trigger] tot@[c]) as int == spec_tot(
                    comm@.subrange(0, i as int),
                    deg@.subrange(0, i as int),
                    c as usize,
                ),
        decreases n - i,
    {
        let c = comm[i];
        let ghost pc = comm@.subrange(0, i as int);
        let ghost pd = deg@.subrange(0, i as int);
        let ghost pc2 = comm@.subrange(0, i + 1);
        let ghost pd2 = deg@.subrange(0, i + 1);
        proof {
            assert(pc2.drop_last() =~= pc);
            assert(pd2.drop_last() =~= pd);
            lemma_tot_le_sum(pc2, pd2, c);
            lemma_sum_prefix_le(deg@, i + 1);
            assert forall|x: usize| spec_tot(pc2, pd2, x) == spec_tot(pc, pd, x) + (if comm@[i as int]
                == x {
                deg@[i as int] as int
            } else {
                0int
            }) by {}
        }
        let cur = tot[c];
        tot.set(c, cur + deg[i]);
        proof {
            assert forall|cc: int| 0 <= cc < n_l implies (#[trigger] tot@[cc]) as int == spec_tot(
                pc2,
                pd2,
                cc as usize,
            ) by {
                lemma_tot_le_sum(pc, pd, cc as usize);
            }
        }
        i = i + 1;
    }
    proof {
        assert(comm@.subrange(0, n as int) =~= comm@);
        assert(deg@.subrange(0, n as int) =~= deg@);
    }
    tot
}

// ---------------------------------------------------------------------------
// The local-move pass: each node in index order may move to the neighbor
// community with the best strictly positive modularity gain, ties broken
// towards the smaller community id.
// ---------------------------------------------------------------------------
/// Adds `w` to the candidate entry for community `c`, keeping the sum of
/// candidate weights.
fn bump_cand(cand: &mut Vec<(usize, u64)>, c: usize, w: u64, bound: u64)
    requires
        cand_sum(old(cand)@) + w <= bound <= u64::MAX,
    ensures
        final(cand)@.len() <= old(cand)@.len() + 1,
        cand_sum(final(cand)@) == cand_sum(old(cand)@) + w,
        forall|k: int|
            0 <= k < final(cand)@.len() ==> ((#[trigger] final(cand)@[k]).0 == c || exists|l: int|
                0 <= l < old(cand)@.len() && old(cand)@[l].0 == final(cand)@[k].0),
{
    let n = cand.len();
    let mut i: usize = 0;
    while i < n
        invariant
            0 <= i <= n,
            cand == old(cand),
            n == cand@.len(),
        decreases n - i,
    {
        if cand[i].0 == c {
            proof {
                lemma_cand_entry_le_sum(cand@, i as int);
                lemma_cand_update(cand@, i as int, w);
            }
            let cur = cand[i].1;
            cand.set(i, (c, cur + w));
            return ;
        }
        i = i + 1;
    }
    cand.push((c, w));
    proof {
        assert(cand@.drop_last() =~= old(cand)@);
    }
}

/// Sum of the candidate weights.
pub open spec fn cand_sum(cand: Seq<(usize, u64)>) -> int
    decreases cand.len(),
{
    if cand.len() == 0 {
        0
    } else {
        cand_sum(cand.drop_last()) + cand.last().1
    }
}

proof fn lemma_cand_nonneg(cand: Seq<(usize, u64)>)
    ensures
        cand_sum(cand) >= 0,
    decreases cand.len(),
{
    if cand.len() > 0 {
        lemma_cand_nonneg(cand.drop_last());
    }
}

proof fn lemma_cand_entry_le_sum(cand: Seq<(usize, u64)>, i: int)
    requires
        0 <= i < cand.len(),
    ensures
        cand[i].1 <= cand_sum(cand),
    decreases cand.len(),
{
    lemma_cand_nonneg(cand.drop_last());
    if i < cand.len() - 1 {
        lemma_cand_entry_le_sum(cand.drop_last(), i);
        assert(cand.drop_last()[i] == cand[i]);
        assert(cand.last().1 >= 0);
    }
}

proof fn lemma_cand_update(cand: Seq<(usize, u64)>, i: int, w: u64)
    requires
        0 <= i < cand.len(),
        cand[i].1 + w <= u64::MAX,
    ensures
        cand_sum(cand.update(i, (cand[i].0, (cand[i].1 + w) as u64))) == cand_sum(cand) + w,
    decreases cand.len(),
{
    let c2 = cand.update(i, (cand[i].0, (cand[i].1 + w) as u64));
    if i == cand.len() - 1 {
        assert(c2.drop_last() =~= cand.drop_last());
    } else {
        assert(c2.drop_last() =~= cand.drop_last().update(i, (cand[i].0, (cand[i].1 + w) as u64)));
        assert(c2.last() == cand.last());
        lemma_cand_update(cand.drop_last(), i, w);
    }
}

/// One full scan sequence of local moves, repeated until no node moves or
/// twenty passes are done. Returns whether any node moved at all.
fn local_move(
    adj_l: &Vec<Vec<(usize, u64)>>,
    deg_l: &Vec<u64>,
    comm: &mut Vec<usize>,
    gnum: u64,
    gden: u64,
) -> (moved_any: bool)
    requires
        wadj_wf(adj_view(adj_l@), deg_l@),
        old(comm)@.len() == adj_l@.len(),
        forall|i: int| 0 <= i < old(comm)@.len() ==> (#[trigger] old(comm)@[i]) < adj_l@.len(),
        total_w(adj_view(adj_l@)) <= 2 * MAX_EDGES,
        1 <= gnum <= 8,
        1 <= gden <= 8,
    ensures
        final(comm)@.len() == old(comm)@.len(),
        forall|i: int| 0 <= i < final(comm)@.len() ==> (#[trigger] final(comm)@[i]) < adj_l@.len(),
        total_w(adj_view(adj_l@)) == 0 ==> !moved_any && final(comm)@ == old(comm)@,
{
    let n_l = adj_l.len();
    proof {
        lemma_sum_deg_total(adj_view(adj_l@), deg_l@);
        lemma_sum_nonneg(deg_l@);
    }
    let m2 = sum_deg(deg_l);
    if m2 == 0 {
        return false;
    }
    let mut tot = compute_tot(comm, deg_l, n_l);
    let mut moved_any = false;
    let mut moved = true;
    let mut pass: usize = 0;
    while moved && pass < 20
        invariant
            comm@.len() == n_l == adj_l@.len(),
            tot@.len() == n_l,
            forall|i: int| 0 <= i < n_l ==> (#[trigger] comm@[i]) < n_l,
            forall|c: int|
                0 <= c < n_l ==> (#[trigger] tot@[c]) as int == spec_tot(comm@, deg_l@, c as usize),
            m2 as int == total_w(adj_view(adj_l@)),
            m2 >= 1,
        decreases 20 - pass,
    {
        moved = false;
        pass = pass + 1;
        let mut i: usize = 0;
        while i < n_l
            invariant
                0 <= i <= n_l,
                comm@.len() == n_l == adj_l@.len(),
                tot@.len() == n_l,
                forall|k: int| 0 <= k < n_l ==> (#[trigger] comm@[k]) < n_l,
                forall|c: int|
                    0 <= c < n_l ==> (#[trigger] tot@[c]) as int == spec_tot(
                        comm@,
                        deg_l@,
                        c as usize,
                    ),
                m2 as int == total_w(adj_view(adj_l@)),
                m2 >= 1,
            decreases n_l - i,
        {
            let ki = deg_l[i];
            if ki > 0 {
                let ci = comm[i];
                let row = &adj_l[i];
                let mut cand: Vec<(usize, u64)> = Vec::new();
                let rl = row.len();
                let mut jj: usize = 0;
                proof {
                    assert(adj_view(adj_l@)[i as int] == row@);
                    lemma_row_prefix_le(row@, 0);
                }
                while jj < rl
                    invariant
                        0 <= jj <= rl,
                        rl == row@.len(),
                        comm@.len() == n_l,
                        row_wf(row@, n_l as int),
                        forall|k: int| 0 <= k < n_l ==> (#[trigger] comm@[k]) < n_l,
                        cand_sum(cand@) <= row_sum(row@.subrange(0, jj as int)),
                        deg_l@[i as int] as int == row_sum(row@),
                        forall|k: int|
                            0 <= k < cand@.len() ==> (#[trigger] cand@[k]).0 < n_l && cand@[k].0
                                != comm@[i as int],
                    decreases rl - jj,
                {
                    let (j, w) = row[jj];
                    let cj = comm[j];
                    proof {
                        assert(row@.subrange(0, jj + 1).drop_last() =~= row@.subrange(0, jj as int));
                        lemma_row_prefix_le(row@, jj + 1);
                        lemma_cand_nonneg(cand@);
                    }
                    if cj != ci {
                        bump_cand(&mut cand, cj, w, ki);
                    }
                    jj = jj + 1;
                }
                let mut best_c = ci;
                let mut best_num: i128 = 0;
                let nc = cand.len();
                let mut q: usize = 0;
                while q < nc
                    invariant
                        0 <= q <= nc,
                        nc == cand@.len(),
                        tot@.len() == n_l,
                        comm@.len() == n_l,
                        best_c < n_l,
                        forall|c: int|
                            0 <= c < n_l ==> (#[trigger] tot@[c]) as int == spec_tot(
                                comm@,
                                deg_l@,
                                c as usize,
                            ),
                        forall|k: int|
                            0 <= k < cand@.len() ==> (#[trigger] cand@[k]).0 < n_l && cand@[k].0
                                != comm@[i as int],
                        best_num > 0 ==> best_c != comm@[i as int],
                    decreases nc - q,
                {
                    let (c, kin) = cand[q];
                    proof {
                        lemma_tot_le_sum(comm@, deg_l@, c);
                        lemma_sum_deg_total(adj_view(adj_l@), deg_l@);
                        lemma_cand_entry_le_sum(cand@, q as int);
                        lemma_cand_nonneg(cand@);
                        assert(cand_sum(cand@) <= row_sum(row@.subrange(0, rl as int)));
                        assert(row@.subrange(0, rl as int) =~= row@);
                        lemma_deg_le_total(adj_view(adj_l@), deg_l@, i as int);
                        assert(kin as int <= m2 as int);
                        assert(tot@[c as int] as int <= m2 as int);
                        assert(ki as int <= m2 as int);
                        assert(0 <= (kin as int) * (gden as int) <= 8 * 0x1_0000_0000)
                            by (nonlinear_arith)
                            requires
                                0 <= kin as int <= m2 as int,
                                1 <= gden as int <= 8,
                                0 <= m2 as int <= 0x1_0000_0000,
                        ;
                        assert(0 <= (gnum as int) * (ki as int) <= 8 * 0x1_0000_0000)
                            by (nonlinear_arith)
                            requires
                                0 <= ki as int <= m2 as int,
                                1 <= gnum as int <= 8,
                                0 <= m2 as int <= 0x1_0000_0000,
                        ;
                        assert(0 <= (kin as int) * (gden as int) * (m2 as int) <= 8 * 0x1_0000_0000
                            * 0x1_0000_0000) by (nonlinear_arith)
                            requires
                                0 <= kin as int <= m2 as int,
                                1 <= gden as int <= 8,
                                0 <= m2 as int <= 0x1_0000_0000,
                        ;
                        assert(0 <= (gnum as int) * (ki as int) * (tot@[c as int] as int) <= 8
                            * 0x1_0000_0000 * 0x1_0000_0000) by (nonlinear_arith)
                            requires
                                0 <= ki as int <= m2 as int,
                                1 <= gnum as int <= 8,
                                0 <= m2 as int <= 0x1_0000_0000,
                                0 <= tot@[c as int] as int <= m2 as int,
                        ;
                    }
                    let num: i128 = (kin as i128) * (gden as i128) * (m2 as i128) - (gnum as i128)
                        * (ki as i128) * (tot[c] as i128);
                    if num > best_num || (num == best_num && c < best_c) {
                        best_num = num;
                        best_c = c;
                    }
                    q = q + 1;
                }
                if best_num > 0 {
                    proof {
                        lemma_tot_member(comm@, deg_l@, i as int);
                        lemma_tot_le_sum(comm@, deg_l@, best_c);
                        lemma_sum_deg_total(adj_view(adj_l@), deg_l@);
                        lemma_deg_le_total(adj_view(adj_l@), deg_l@, i as int);
                    }
                    let ghost oldc = comm@;
                    let tci = tot[ci];
                    tot.set(ci, tci - ki);
                    let tbc = tot[best_c];
                    proof {
                        lemma_tot_update(oldc, deg_l@, i as int, best_c, best_c as usize);
                        lemma_tot_le_sum(oldc.update(i as int, best_c), deg_l@, best_c);
                    }
                    tot.set(best_c, tbc + ki);
                    comm.set(i, best_c);
                    proof {
                        assert forall|c: int| 0 <= c < n_l implies (#[trigger] tot@[c]) as int
                            == spec_tot(comm@, deg_l@, c as usize) by {
                            lemma_tot_update(oldc, deg_l@, i as int, best_c, c as usize);
                        }
                    }
                    moved = true;
                    moved_any = true;
                }
            }
            i = i + 1;
        }
    }
    moved_any
}

/// One node's degree is at most the total weight.
proof fn lemma_deg_le_total(adj: Seq<Seq<(usize, u64)>>, deg: Seq<u64>, i: int)
    requires
        adj.len() == deg.len(),
        0 <= i < deg.len(),
        forall|k: int| 0 <= k < adj.len() ==> (#[trigger] deg[k]) as int == row_sum(adj[k]),
    ensures
        deg[i] as int <= total_w(adj),
{
    lemma_row_le_total(adj, i);
}

/// Sum of all degrees, as a machine integer.
fn sum_deg(deg: &Vec<u64>) -> (r: u64)
    requires
        sum_u64(deg@) <= u64::MAX,
    ensures
        r as int == sum_u64(deg@),
{
    let n = deg.len();
    let mut acc: u64 = 0;
    let mut i: usize = 0;
    while i < n
        invariant
            0 <= i <= n,
            n == deg@.len(),
            acc as int == sum_u64(deg@.subrange(0, i as int)),
        decreases n - i,
    {
        proof {
            lemma_sum_prefix_le(deg@, i + 1);
            assert(deg@.subrange(0, i + 1).drop_last() =~= deg@.subrange(0, i as int));
        }
        acc = acc + deg[i];
        i = i + 1;
    }
    proof {
        assert(deg@.subrange(0, n as int) =~= deg@);
    }
    acc
}

// ---------------------------------------------------------------------------
// Member bookkeeping: which original nodes each super-node stands for.
// The union over all super-nodes always holds every original node exactly
// once.
// ---------------------------------------------------------------------------
/// The views of a list of member lists.
pub open spec fn mem_view(m: Seq<Vec<usize>>) -> Seq<Seq<usize>> {
    m.map_values(|r: Vec<usize>| r@)
}

/// All members of all lists, as a multiset.
pub open spec fn mem_ms(m: Seq<Seq<usize>>) -> Multiset<usize>
    decreases m.len(),
{
    if m.len() == 0 {
        Multiset::empty()
    } else {
        mem_ms(m.drop_last()).add(m.last().to_multiset())
    }
}

/// The member lists hold each of the `n0` original dense nodes exactly
/// once, and nothing else.
pub open spec fn covers_exactly(m: Seq<Seq<usize>>, n0: int) -> bool {
    forall|x: usize|
        mem_ms(m).count(x) == if (x as int) < n0 {
            1nat
        } else {
            0nat
        }
}

/// Strictly ascending.
pub open spec fn sorted_strict(s: Seq<usize>) -> bool {
    forall|a: int, b: int| 0 <= a < b < s.len() ==> s[a] < s[b]
}

/// Appending to one list adds exactly that part to the member multiset.
proof fn lemma_mem_ms_update(m: Seq<Seq<usize>>, a: int, part: Seq<usize>)
    requires
        0 <= a < m.len(),
    ensures
        mem_ms(m.update(a, m[a] + part)) == mem_ms(m).add(part.to_multiset()),
    decreases m.len(),
{
    vstd::seq_lib::lemma_multiset_commutative(m[a], part);
    let upd = m.update(a, m[a] + part);
    if a == m.len() - 1 {
        assert(upd.drop_last() =~= m.drop_last());
        assert(upd.last() == m[a] + part);
        assert(mem_ms(upd) == mem_ms(m.drop_last()).add((m[a] + part).to_multiset()));
        assert((m[a] + part).to_multiset() == m[a].to_multiset().add(part.to_multiset()));
        assert(mem_ms(m) == mem_ms(m.drop_last()).add(m[a].to_multiset()));
        assert(mem_ms(upd) =~= mem_ms(m).add(part.to_multiset()));
    } else {
        assert(upd.drop_last() =~= m.drop_last().update(a, m[a] + part));
        assert(m.drop_last()[a] == m[a]);
        lemma_mem_ms_update(m.drop_last(), a, part);
        assert(upd.last() == m.last());
        assert(mem_ms(upd) == mem_ms(m.drop_last()).add(part.to_multiset()).add(
            m.last().to_multiset(),
        ));
        assert(mem_ms(m) == mem_ms(m.drop_last()).add(m.last().to_multiset()));
        assert(mem_ms(upd) =~= mem_ms(m).add(part.to_multiset()));
    }
}

/// Each list's own counts are below the union's counts.
proof fn lemma_part_le_mem_ms(m: Seq<Seq<usize>>, i: int)
    requires
        0 <= i < m.len(),
    ensures
        forall|x: usize| #[trigger] m[i].to_multiset().count(x) <= mem_ms(m).count(x),
    decreases m.len(),
{
    if i == m.len() - 1 {
    } else {
        lemma_part_le_mem_ms(m.drop_last(), i);
        assert(m.drop_last()[i] == m[i]);
    }
}

/// A sorted list whose values each appear at most once in it is strictly
/// ascending.
proof fn lemma_sorted_nodup_strict(s: Seq<usize>)
    requires
        forall|a: int, b: int| 0 <= a < b < s.len() ==> s[a] <= s[b],
        forall|x: usize| s.to_multiset().count(x) <= 1,
    ensures
        sorted_strict(s),
{
    broadcast use vstd::seq_lib::group_to_multiset_ensures;

    assert forall|a: int, b: int| 0 <= a < b < s.len() implies s[a] < s[b] by {
        if s[a] == s[b] {
            let s1 = s.remove(a);
            assert(s1.to_multiset() == s.to_multiset().remove(s[a]));
            assert(s1[b - 1] == s[b]);
            assert(s1.contains(s[b]));
            assert(s1.to_multiset().count(s[b]) >= 1);
            assert(s.to_multiset().count(s[a]) >= 2);
        }
    }
}

/// Some position holds the value `a`.
pub open spec fn cid_hit(cid: Seq<usize>, a: int) -> bool {
    exists|i: int| 0 <= i < cid.len() && cid[i] == a
}

/// Renumbers surviving community ids densely, in order of first
/// appearance. Returns the per-node new ids and how many there are.
fn renumber(comm: &Vec<usize>, n_l: usize) -> (r: (Vec<usize>, usize))
    requires
        comm@.len() == n_l,
        forall|i: int| 0 <= i < n_l ==> (#[trigger] comm@[i]) < n_l,
    ensures
        ({
            let (cid, k) = r;
            &&& cid@.len() == n_l
            &&& k <= n_l
            &&& n_l >= 1 ==> k >= 1
            &&& forall|i: int| 0 <= i < n_l ==> (#[trigger] cid@[i]) < k
            &&& forall|a: int| 0 <= a < k ==> #[trigger] cid_hit(cid@, a)
        }),
{
    let mut seen: Vec<usize> = Vec::new();
    let mut z: usize = 0;
    while z < n_l
        invariant
            seen@.len() == z <= n_l,
            forall|c: int| 0 <= c < z ==> (#[trigger] seen@[c]) == n_l,
        decreases n_l - z,
    {
        seen.push(n_l);
        z = z + 1;
    }
    let mut cid: Vec<usize> = Vec::new();
    let mut next: usize = 0;
    let mut i: usize = 0;
    while i < n_l
        invariant
            0 <= i <= n_l,
            comm@.len() == n_l,
            seen@.len() == n_l,
            cid@.len() == i,
            next <= i,
            forall|c: int| 0 <= c < n_l ==> ((#[trigger] seen@[c]) == n_l || seen@[c] < next),
            forall|t: int| 0 <= t < i ==> (#[trigger] cid@[t]) < next,
            forall|a: int| 0 <= a < next ==> #[trigger] cid_hit(cid@, a),
            i >= 1 ==> next >= 1,
            forall|t: int| 0 <= t < n_l ==> (#[trigger] comm@[t]) < n_l,
        decreases n_l - i,
    {
        let c = comm[i];
        let sc = seen[c];
        let ghost pre_cid = cid@;
        if sc == n_l {
            seen.set(c, next);
            cid.push(next);
            proof {
                assert forall|a: int| 0 <= a < next + 1 implies #[trigger] cid_hit(cid@, a) by {
                    if a < next {
                        assert(cid_hit(pre_cid, a));
                        let t = choose|t: int| 0 <= t < pre_cid.len() && pre_cid[t] == a;
                        assert(cid@[t] == a);
                    } else {
                        assert(cid@[i as int] == a);
                    }
                }
            }
            next = next + 1;
        } else {
            cid.push(sc);
            proof {
                assert forall|a: int| 0 <= a < next implies #[trigger] cid_hit(cid@, a) by {
                    assert(cid_hit(pre_cid, a));
                    let t = choose|t: int| 0 <= t < pre_cid.len() && pre_cid[t] == a;
                    assert(cid@[t] == a);
                }
            }
        }
        i = i + 1;
    }
    (cid, next)
}

/// The concatenation of two id lists.
fn concat_ids(a: &Vec<usize>, b: &Vec<usize>) -> (r: Vec<usize>)
    ensures
        r@ == a@ + b@,
{
    let mut r: Vec<usize> = Vec::new();
    let na = a.len();
    let mut i: usize = 0;
    while i < na
        invariant
            0 <= i <= na,
            na == a@.len(),
            r@ =~= a@.subrange(0, i as int),
        decreases na - i,
    {
        r.push(a[i]);
        proof {
            assert(r@ =~= a@.subrange(0, i + 1));
        }
        i = i + 1;
    }
    let nb = b.len();
    let mut j: usize = 0;
    while j < nb
        invariant
            0 <= j <= nb,
            nb == b@.len(),
            r@ =~= a@ + b@.subrange(0, j as int),
        decreases nb - j,
    {
        r.push(b[j]);
        proof {
            assert(r@ =~= a@ + b@.subrange(0, j + 1));
        }
        j = j + 1;
    }
    proof {
        assert(r@ =~= a@ + b@);
    }
    r
}

/// Replacing one list with a reordering of itself leaves the member
/// multiset unchanged.
proof fn lemma_mem_ms_retain(m: Seq<Seq<usize>>, a: int, newl: Seq<usize>)
    requires
        0 <= a < m.len(),
        newl.to_multiset() == m[a].to_multiset(),
    ensures
        mem_ms(m.update(a, newl)) == mem_ms(m),
    decreases m.len(),
{
    let upd = m.update(a, newl);
    if a == m.len() - 1 {
        assert(upd.drop_last() =~= m.drop_last());
        assert(mem_ms(upd) =~= mem_ms(m));
    } else {
        assert(upd.drop_last() =~= m.drop_last().update(a, newl));
        assert(m.drop_last()[a] == m[a]);
        lemma_mem_ms_retain(m.drop_last(), a, newl);
        assert(upd.last() == m.last());
        assert(mem_ms(upd) =~= mem_ms(m));
    }
}

/// Prefixes of the member lists: one more list adds its members.
proof fn lemma_mem_ms_prefix_step(m: Seq<Seq<usize>>, i: int)
    requires
        0 <= i < m.len(),
    ensures
        mem_ms(m.subrange(0, i + 1)) == mem_ms(m.subrange(0, i)).add(m[i].to_multiset()),
{
    assert(m.subrange(0, i + 1).drop_last() =~= m.subrange(0, i));
    assert(m.subrange(0, i + 1).last() == m[i]);
}

proof fn lemma_total_prefix_le(adj: Seq<Seq<(usize, u64)>>, k: int)
    requires
        0 <= k <= adj.len(),
    ensures
        0 <= total_w(adj.subrange(0, k)) <= total_w(adj),
    decreases adj.len(),
{
    lemma_total_nonneg(adj);
    lemma_total_nonneg(adj.subrange(0, k));
    if k == adj.len() {
        assert(adj.subrange(0, k) =~= adj);
    } else {
        assert(adj.drop_last().subrange(0, k) =~= adj.subrange(0, k));
        lemma_total_prefix_le(adj.drop_last(), k);
        lemma_row_nonneg(adj.last());
    }
}

/// Collapses the current communities into super-nodes: adjacency weights
/// are summed across collapsed endpoints, degrees recomputed, and each new
/// super-node's member list is the merged, sorted members of what it
/// absorbed.
fn aggregate(
    adj_l: &Vec<Vec<(usize, u64)>>,
    comm: &Vec<usize>,
    members: &Vec<Vec<usize>>,
    n0: usize,
) -> (r: (Vec<Vec<(usize, u64)>>, Vec<u64>, Vec<Vec<usize>>))
    requires
        forall|i: int|
            0 <= i < adj_l@.len() ==> row_wf(#[trigger] adj_view(adj_l@)[i], adj_l@.len() as int),
        total_w(adj_view(adj_l@)) <= 2 * MAX_EDGES,
        comm@.len() == adj_l@.len(),
        forall|i: int| 0 <= i < comm@.len() ==> (#[trigger] comm@[i]) < comm@.len(),
        members@.len() == adj_l@.len(),
        forall|i: int| 0 <= i < members@.len() ==> (#[trigger] mem_view(members@)[i]).len() >= 1,
        forall|i: int| 0 <= i < members@.len() ==> sorted_strict(#[trigger] mem_view(members@)[i]),
        forall|i: int, p: int|
            0 <= i < members@.len() && 0 <= p < mem_view(members@)[i].len() ==> (
            #[trigger] mem_view(members@)[i][p]) < n0,
        covers_exactly(mem_view(members@), n0 as int),
    ensures
        ({
            let (adj2, deg2, mem2) = r;
            &&& wadj_wf(adj_view(adj2@), deg2@)
            &&& total_w(adj_view(adj2@)) == total_w(adj_view(adj_l@))
            &&& mem2@.len() == adj2@.len() <= adj_l@.len()
            &&& (adj_l@.len() >= 1 ==> adj2@.len() >= 1)
            &&& forall|i: int| 0 <= i < mem2@.len() ==> (#[trigger] mem_view(mem2@)[i]).len() >= 1
            &&& forall|i: int| 0 <= i < mem2@.len() ==> sorted_strict(#[trigger] mem_view(mem2@)[i])
            &&& forall|i: int, p: int|
                0 <= i < mem2@.len() && 0 <= p < mem_view(mem2@)[i].len() ==> (
                #[trigger] mem_view(mem2@)[i][p]) < n0
            &&& covers_exactly(mem_view(mem2@), n0 as int)
        }),
{
    let n_l = adj_l.len();
    let (cid, k) = renumber(comm, n_l);
    // --- super-node adjacency ---
    let mut adj2: Vec<Vec<(usize, u64)>> = Vec::new();
    let mut z: usize = 0;
    while z < k
        invariant
            adj2@.len() == z <= k,
            forall|i: int| 0 <= i < z ==> (#[trigger] adj2@[i])@.len() == 0,
        decreases k - z,
    {
        adj2.push(Vec::new());
        z = z + 1;
    }
    proof {
        lemma_total_zero(adj_view(adj2@));
        assert(adj_view(adj_l@).subrange(0, 0).len() == 0);
        lemma_total_zero(adj_view(adj_l@).subrange(0, 0));
        assert forall|i: int| 0 <= i < k implies row_wf(#[trigger] adj_view(adj2@)[i], k as int) by {}
    }
    let mut i: usize = 0;
    while i < n_l
        invariant
            0 <= i <= n_l,
            n_l == adj_l@.len() == comm@.len(),
            cid@.len() == n_l,
            adj2@.len() == k <= n_l,
            forall|t: int| 0 <= t < n_l ==> (#[trigger] cid@[t]) < k,
            forall|t: int|
                0 <= t < n_l ==> row_wf(#[trigger] adj_view(adj_l@)[t], adj_l@.len() as int),
            total_w(adj_view(adj_l@)) <= 2 * MAX_EDGES,
            forall|t: int| 0 <= t < k ==> row_wf(#[trigger] adj_view(adj2@)[t], k as int),
            total_w(adj_view(adj2@)) == total_w(adj_view(adj_l@).subrange(0, i as int)),
        decreases n_l - i,
    {
        let a = cid[i];
        let rl = adj_l[i].len();
        let mut jj: usize = 0;
        proof {
            lemma_row_prefix_le(adj_view(adj_l@)[i as int], 0);
            assert(adj_view(adj_l@)[i as int].subrange(0, 0).len() == 0);
        }
        while jj < rl
            invariant
                0 <= jj <= rl,
                rl == adj_l@[i as int]@.len(),
                0 <= i < n_l,
                n_l == adj_l@.len(),
                cid@.len() == n_l,
                adj2@.len() == k <= n_l,
                a == cid@[i as int],
                forall|t: int| 0 <= t < n_l ==> (#[trigger] cid@[t]) < k,
                forall|t: int|
                    0 <= t < n_l ==> row_wf(#[trigger] adj_view(adj_l@)[t], adj_l@.len() as int),
                total_w(adj_view(adj_l@)) <= 2 * MAX_EDGES,
                forall|t: int| 0 <= t < k ==> row_wf(#[trigger] adj_view(adj2@)[t], k as int),
                total_w(adj_view(adj2@)) == total_w(adj_view(adj_l@).subrange(0, i as int))
                    + row_sum(adj_view(adj_l@)[i as int].subrange(0, jj as int)),
            decreases rl - jj,
        {
            let (j, w) = adj_l[i][jj];
            let b = cid[j];
            let ghost pre = adj_view(adj2@);
            let ghost lrow = adj_view(adj_l@)[i as int];
            proof {
                assert(adj_l@[i as int]@ == lrow);
                assert(lrow.subrange(0, jj + 1).drop_last() =~= lrow.subrange(0, jj as int));
                assert(lrow.subrange(0, jj + 1).last() == lrow[jj as int]);
                lemma_row_prefix_le(lrow, jj + 1);
                lemma_row_prefix_le(lrow, jj as int);
                lemma_row_le_total(adj_view(adj_l@), i as int);
                lemma_total_prefix_le(adj_view(adj_l@), i as int);
                lemma_row_le_total(pre, a as int);
                lemma_total_nonneg(pre);
                lemma_row_nonneg(lrow.subrange(0, jj as int));
            }
            let row2 = bump_row(&adj2[a], b, w, k);
            let ghost r2v = row2@;
            adj2.set(a, row2);
            proof {
                assert(adj_view(adj2@) =~= pre.update(a as int, r2v));
                lemma_total_update(pre, a as int, r2v);
            }
            jj = jj + 1;
        }
        proof {
            let lrow = adj_view(adj_l@)[i as int];
            assert(lrow.subrange(0, rl as int) =~= lrow);
            assert(adj_view(adj_l@).subrange(0, i + 1).drop_last() =~= adj_view(
                adj_l@,
            ).subrange(0, i as int));
            assert(adj_view(adj_l@).subrange(0, i + 1).last() == lrow);
        }
        i = i + 1;
    }
    proof {
        assert(adj_view(adj_l@).subrange(0, n_l as int) =~= adj_view(adj_l@));
    }
    // --- degrees of the super-nodes ---
    let mut deg2: Vec<u64> = Vec::new();
    let mut d: usize = 0;
    while d < k
        invariant
            0 <= d <= k,
            adj2@.len() == k,
            deg2@.len() == d,
            forall|t: int| 0 <= t < k ==> row_wf(#[trigger] adj_view(adj2@)[t], k as int),
            total_w(adj_view(adj2@)) == total_w(adj_view(adj_l@)),
            total_w(adj_view(adj_l@)) <= 2 * MAX_EDGES,
            forall|t: int|
                0 <= t < d ==> (#[trigger] deg2@[t]) as int == row_sum(adj_view(adj2@)[t]),
        decreases k - d,
    {
        proof {
            lemma_row_le_total(adj_view(adj2@), d as int);
            lemma_total_nonneg(adj_view(adj2@));
        }
        let wsum = row_total(&adj2[d]);
        deg2.push(wsum);
        d = d + 1;
    }
    // --- merged member lists ---
    let mut mem2: Vec<Vec<usize>> = Vec::new();
    let mut z2: usize = 0;
    while z2 < k
        invariant
            mem2@.len() == z2 <= k,
            forall|t: int| 0 <= t < z2 ==> (#[trigger] mem2@[t])@.len() == 0,
        decreases k - z2,
    {
        mem2.push(Vec::new());
        z2 = z2 + 1;
    }
    proof {
        lemma_mem_ms_empty(mem_view(mem2@));
        assert(mem_view(members@).subrange(0, 0).len() == 0);
        lemma_mem_ms_empty(mem_view(members@).subrange(0, 0));
    }
    let mut i2: usize = 0;
    while i2 < n_l
        invariant
            0 <= i2 <= n_l,
            n_l == members@.len(),
            cid@.len() == n_l,
            mem2@.len() == k,
            forall|t: int| 0 <= t < n_l ==> (#[trigger] cid@[t]) < k,
            forall|t: int| 0 <= t < n_l ==> (#[trigger] mem_view(members@)[t]).len() >= 1,
            forall|t: int, p: int|
                0 <= t < n_l && 0 <= p < mem_view(members@)[t].len() ==> (
                #[trigger] mem_view(members@)[t][p]) < n0,
            mem_ms(mem_view(mem2@)) == mem_ms(mem_view(members@).subrange(0, i2 as int)),
            forall|t: int, p: int|
                0 <= t < k && 0 <= p < mem_view(mem2@)[t].len() ==> (#[trigger] mem_view(
                    mem2@,
                )[t][p]) < n0,
            forall|t: int| 0 <= t < i2 ==> (#[trigger] mem_view(mem2@)[cid@[t] as int]).len() >= 1,
        decreases n_l - i2,
    {
        let a = cid[i2];
        let ghost prev = mem_view(mem2@);
        let lst = concat_ids(&mem2[a], &members[i2]);
        let ghost lv = lst@;
        mem2.set(a, lst);
        proof {
            assert(lv == prev[a as int] + mem_view(members@)[i2 as int]);
            assert(mem_view(mem2@) =~= prev.update(a as int, lv));
            lemma_mem_ms_update(prev, a as int, mem_view(members@)[i2 as int]);
            lemma_mem_ms_prefix_step(mem_view(members@), i2 as int);
        }
        i2 = i2 + 1;
    }
    proof {
        assert(mem_view(members@).subrange(0, n_l as int) =~= mem_view(members@));
    }
    // --- sort each merged list ---
    let empty: Vec<usize> = Vec::new();
    let mut a2: usize = 0;
    while a2 < k
        invariant
            0 <= a2 <= k,
            mem2@.len() == k,
            covers_exactly(mem_view(mem2@), n0 as int),
            forall|t: int, p: int|
                0 <= t < k && 0 <= p < mem_view(mem2@)[t].len() ==> (#[trigger] mem_view(
                    mem2@,
                )[t][p]) < n0,
            forall|t: int| 0 <= t < k && cid_hit(cid@, t) ==> (#[trigger] mem_view(mem2@)[t]).len()
                >= 1,
            forall|t: int| 0 <= t < a2 ==> sorted_strict(#[trigger] mem_view(mem2@)[t]),
        decreases k - a2,
    {
        broadcast use vstd::seq_lib::group_to_multiset_ensures;

        let ghost prev = mem_view(mem2@);
        let mut lst = concat_ids(&mem2[a2], &empty);
        proof {
            assert(lst@ =~= prev[a2 as int]);
        }
        sort_usize(&mut lst);
        let ghost lv = lst@;
        mem2.set(a2, lst);
        proof {
            assert(mem_view(mem2@) =~= prev.update(a2 as int, lv));
            lemma_mem_ms_retain(prev, a2 as int, lv);
            lemma_part_le_mem_ms(mem_view(mem2@), a2 as int);
            assert(mem_view(mem2@)[a2 as int] == lv);
            assert forall|x: usize| lv.to_multiset().count(x) <= 1 by {
                assert(mem_ms(prev).count(x) <= 1);
                assert(mem_ms(mem_view(mem2@)).count(x) <= 1);
                assert(mem_view(mem2@)[a2 as int].to_multiset().count(x) <= mem_ms(
                    mem_view(mem2@),
                ).count(x));
            }
            lemma_sorted_nodup_strict(lv);
            assert forall|t: int, p: int|
                0 <= t < k && 0 <= p < mem_view(mem2@)[t].len() implies (#[trigger] mem_view(
                mem2@,
            )[t][p]) < n0 by {
                if t == a2 as int {
                    assert(lv.contains(lv[p]));
                    assert(lv.to_multiset().count(lv[p]) > 0);
                    assert(prev[t].to_multiset().count(lv[p]) > 0);
                    assert(prev[t].contains(lv[p]));
                    let q = choose|q: int| 0 <= q < prev[t].len() && prev[t][q] == lv[p];
                    assert(prev[t][q] < n0);
                }
            }
        }
        a2 = a2 + 1;
    }
    (adj2, deg2, mem2)
}

proof fn lemma_mem_ms_empty(m: Seq<Seq<usize>>)
    requires
        forall|i: int| 0 <= i < m.len() ==> (#[trigger] m[i]).len() == 0,
    ensures
        mem_ms(m) == Multiset::<usize>::empty(),
    decreases m.len(),
{
    broadcast use vstd::seq_lib::group_to_multiset_ensures;

    if m.len() > 0 {
        lemma_mem_ms_empty(m.drop_last());
        assert(m.last().to_multiset() =~= Multiset::<usize>::empty()) by {
            assert(m.last() =~= Seq::<usize>::empty());
            assert(Seq::<usize>::empty().to_multiset() == Multiset::<usize>::empty());
        }
        assert(mem_ms(m) =~= Multiset::<usize>::empty());
    }
}

// ---------------------------------------------------------------------------
// One full Louvain run at a fixed resolution.
// ---------------------------------------------------------------------------
/// The singleton partition over `n` dense nodes.
pub open spec fn singletons(n: int) -> Seq<Seq<usize>> {
    Seq::new(n as nat, |i: int| seq![i as usize])
}

/// The identity assignment `0, 1, ..., n-1`.
fn identity_vec(n: usize) -> (v: Vec<usize>)
    ensures
        v@.len() == n,
        forall|i: int| 0 <= i < n ==> (#[trigger] v@[i]) == i,
{
    let mut v: Vec<usize> = Vec::new();
    let mut i: usize = 0;
    while i < n
        invariant
            v@.len() == i <= n,
            forall|t: int| 0 <= t < i ==> (#[trigger] v@[t]) == t,
        decreases n - i,
    {
        v.push(i);
        i = i + 1;
    }
    v
}

/// A copy of the adjacency rows.
fn copy_rows(adj: &Vec<Vec<(usize, u64)>>) -> (r: Vec<Vec<(usize, u64)>>)
    ensures
        adj_view(r@) =~= adj_view(adj@),
{
    let n = adj.len();
    let mut r: Vec<Vec<(usize, u64)>> = Vec::new();
    let mut i: usize = 0;
    while i < n
        invariant
            0 <= i <= n,
            n == adj@.len(),
            r@.len() == i,
            forall|t: int| 0 <= t < i ==> (#[trigger] r@[t])@ == adj@[t]@,
        decreases n - i,
    {
        let row = &adj[i];
        let m = row.len();
        let mut c: Vec<(usize, u64)> = Vec::new();
        let mut j: usize = 0;
        while j < m
            invariant
                0 <= j <= m,
                m == row@.len(),
                c@ =~= row@.subrange(0, j as int),
            decreases m - j,
        {
            c.push(row[j]);
            proof {
                assert(c@ =~= row@.subrange(0, j + 1));
            }
            j = j + 1;
        }
        proof {
            assert(c@ =~= row@);
        }
        r.push(c);
        i = i + 1;
    }
    r
}

/// A copy of the degree list.
fn copy_degs(deg: &Vec<u64>) -> (r: Vec<u64>)
    ensures
        r@ =~= deg@,
{
    let n = deg.len();
    let mut r: Vec<u64> = Vec::new();
    let mut i: usize = 0;
    while i < n
        invariant
            0 <= i <= n,
            n == deg@.len(),
            r@ =~= deg@.subrange(0, i as int),
        decreases n - i,
    {
        r.push(deg[i]);
        proof {
            assert(r@ =~= deg@.subrange(0, i + 1));
        }
        i = i + 1;
    }
    proof {
        assert(r@ =~= deg@);
    }
    r
}

/// Runs local-move passes and aggregations until no move improves the
/// partition or the level budget is spent. Returns, for each surviving
/// community, the original dense nodes it holds: together they hold every
/// original node exactly once. On a graph without edge weight nothing can
/// move, and every node stays its own community.
fn louvain_with_gamma(
    adj0: &Vec<Vec<(usize, u64)>>,
    deg0: &Vec<u64>,
    max_levels: usize,
    gnum: u64,
    gden: u64,
) -> (members: Vec<Vec<usize>>)
    requires
        wadj_wf(adj_view(adj0@), deg0@),
        total_w(adj_view(adj0@)) <= 2 * MAX_EDGES,
        adj0@.len() <= MAX_NODES,
        1 <= gnum <= 8,
        1 <= gden <= 8,
        1 <= max_levels <= 20,
    ensures
        mem_view(members@).len() <= adj0@.len(),
        adj0@.len() >= 1 ==> mem_view(members@).len() >= 1,
        forall|i: int| 0 <= i < members@.len() ==> (#[trigger] mem_view(members@)[i]).len() >= 1,
        forall|i: int| 0 <= i < members@.len() ==> sorted_strict(#[trigger] mem_view(members@)[i]),
        forall|i: int, p: int|
            0 <= i < members@.len() && 0 <= p < mem_view(members@)[i].len() ==> (
            #[trigger] mem_view(members@)[i][p]) < adj0@.len(),
        covers_exactly(mem_view(members@), adj0@.len() as int),
        total_w(adj_view(adj0@)) == 0 ==> mem_view(members@) =~= singletons(adj0@.len() as int),
{
    broadcast use vstd::seq_lib::group_to_multiset_ensures;

    let n0 = adj0.len();
    let mut members: Vec<Vec<usize>> = Vec::new();
    let mut z: usize = 0;
    while z < n0
        invariant
            members@.len() == z <= n0,
            forall|t: int| 0 <= t < z ==> (#[trigger] mem_view(members@)[t]) =~= seq![t as usize],
            forall|x: usize|
                mem_ms(mem_view(members@)).count(x) == if (x as int) < z {
                    1nat
                } else {
                    0nat
                },
        decreases n0 - z,
    {
        let ghost prev = mem_view(members@);
        let mut one: Vec<usize> = Vec::new();
        one.push(z);
        members.push(one);
        proof {
            assert(mem_view(members@) =~= prev.push(seq![z as usize]));
            assert(mem_view(members@).drop_last() =~= prev);
            assert(seq![z as usize].to_multiset() =~= Multiset::<usize>::empty().insert(
                z as usize,
            )) by {
                assert(seq![z as usize] =~= Seq::<usize>::empty().push(z as usize));
            }
            assert forall|x: usize|
                mem_ms(mem_view(members@)).count(x) == (if (x as int) < z + 1 {
                    1nat
                } else {
                    0nat
                }) by {
                assert(mem_ms(mem_view(members@)) == mem_ms(prev).add(
                    seq![z as usize].to_multiset(),
                ));
            }
        }
        z = z + 1;
    }
    proof {
        assert(mem_view(members@) =~= singletons(n0 as int));
    }
    let mut adj_cur = copy_rows(adj0);
    let mut deg_cur = copy_degs(deg0);
    let mut level: usize = 0;
    let mut improved = true;
    while improved && level < max_levels
        invariant
            wadj_wf(adj_view(adj_cur@), deg_cur@),
            total_w(adj_view(adj_cur@)) == total_w(adj_view(adj0@)),
            total_w(adj_view(adj0@)) <= 2 * MAX_EDGES,
            adj_cur@.len() <= n0 == adj0@.len(),
            members@.len() == adj_cur@.len(),
            n0 >= 1 ==> adj_cur@.len() >= 1,
            forall|i: int| 0 <= i < members@.len() ==> (#[trigger] mem_view(members@)[i]).len() >= 1,
            forall|i: int|
                0 <= i < members@.len() ==> sorted_strict(#[trigger] mem_view(members@)[i]),
            forall|i: int, p: int|
                0 <= i < members@.len() && 0 <= p < mem_view(members@)[i].len() ==> (
                #[trigger] mem_view(members@)[i][p]) < n0,
            covers_exactly(mem_view(members@), n0 as int),
            total_w(adj_view(adj0@)) == 0 ==> mem_view(members@) =~= singletons(n0 as int),
        decreases max_levels - level,
    {
        let n_l = adj_cur.len();
        let mut comm = identity_vec(n_l);
        improved = local_move(&adj_cur, &deg_cur, &mut comm, gnum, gden);
        if !improved {
            break ;
        }
        let (a2, d2, m2v) = aggregate(&adj_cur, &comm, &members, n0);
        adj_cur = a2;
        deg_cur = d2;
        members = m2v;
        level = level + 1;
    }
    members
}

// ---------------------------------------------------------------------------
// Partition scoring: resolution-scaled modularity, Gini penalty over
// cluster sizes, and largest-share penalty, combined exactly as one
// fraction.
// ---------------------------------------------------------------------------
proof fn lemma_u64_elem_le_sum(v: Seq<u64>, i: int)
    requires
        0 <= i < v.len(),
    ensures
        v[i] as int <= sum_u64(v),
    decreases v.len(),
{
    lemma_sum_nonneg(v.drop_last());
    if i < v.len() - 1 {
        lemma_u64_elem_le_sum(v.drop_last(), i);
        assert(v.drop_last()[i] == v[i]);
    }
}

proof fn lemma_sum_update(v: Seq<u64>, i: int, w: u64)
    requires
        0 <= i < v.len(),
        v[i] + w <= u64::MAX,
    ensures
        sum_u64(v.update(i, (v[i] + w) as u64)) == sum_u64(v) + w,
    decreases v.len(),
{
    let v2 = v.update(i, (v[i] + w) as u64);
    if i == v.len() - 1 {
        assert(v2.drop_last() =~= v.drop_last());
    } else {
        assert(v2.drop_last() =~= v.drop_last().update(i, (v[i] + w) as u64));
        assert(v2.last() == v.last());
        assert(v.drop_last()[i] == v[i]);
        lemma_sum_update(v.drop_last(), i, w);
    }
}

/// Sum of the community totals taken over the first `k` community ids.
pub open spec fn tot_sum(comm: Seq<usize>, deg: Seq<u64>, k: int) -> int
    decreases k,
{
    if k <= 0 {
        0
    } else {
        tot_sum(comm, deg, k - 1) + spec_tot(comm, deg, (k - 1) as usize)
    }
}

proof fn lemma_tot_sum_push(comm: Seq<usize>, deg: Seq<u64>, cl: usize, dl: u64, k: int)
    requires
        comm.len() == deg.len(),
        0 <= k <= usize::MAX,
    ensures
        tot_sum(comm.push(cl), deg.push(dl), k) == tot_sum(comm, deg, k) + if (cl as int) < k {
            dl as int
        } else {
            0int
        },
    decreases k,
{
    if k > 0 {
        lemma_tot_sum_push(comm, deg, cl, dl, k - 1);
        assert(comm.push(cl).drop_last() =~= comm);
        assert(deg.push(dl).drop_last() =~= deg);
        assert(spec_tot(comm.push(cl), deg.push(dl), (k - 1) as usize) == spec_tot(
            comm,
            deg,
            (k - 1) as usize,
        ) + if cl == (k - 1) as usize {
            dl as int
        } else {
            0int
        });
    }
}

proof fn lemma_tot_sum_le(comm: Seq<usize>, deg: Seq<u64>, k: int)
    requires
        comm.len() == deg.len(),
        0 <= k <= usize::MAX,
    ensures
        0 <= tot_sum(comm, deg, k) <= sum_u64(deg),
    decreases comm.len(),
{
    lemma_sum_nonneg(deg);
    if comm.len() == 0 {
        lemma_tot_sum_zero(comm, deg, k);
    } else {
        let c0 = comm.drop_last();
        let d0 = deg.drop_last();
        assert(comm =~= c0.push(comm.last()));
        assert(deg =~= d0.push(deg.last()));
        lemma_tot_sum_push(c0, d0, comm.last(), deg.last(), k);
        lemma_tot_sum_le(c0, d0, k);
    }
}

proof fn lemma_tot_sum_zero(comm: Seq<usize>, deg: Seq<u64>, k: int)
    requires
        comm.len() == 0,
        k >= 0,
    ensures
        tot_sum(comm, deg, k) == 0,
    decreases k,
{
    if k > 0 {
        lemma_tot_sum_zero(comm, deg, k - 1);
    }
}

/// When a list holds exactly the community totals, its sum is the sum of
/// the totals.
proof fn lemma_sum_matches_tot(tot: Seq<u64>, comm: Seq<usize>, deg: Seq<u64>)
    requires
        forall|c: int| 0 <= c < tot.len() ==> (#[trigger] tot[c]) as int == spec_tot(
            comm,
            deg,
            c as usize,
        ),
    ensures
        sum_u64(tot) == tot_sum(comm, deg, tot.len() as int),
    decreases tot.len(),
{
    if tot.len() > 0 {
        assert forall|c: int| 0 <= c < tot.len() - 1 implies (#[trigger] tot.drop_last()[c]) as int
            == spec_tot(comm, deg, c as usize) by {
            assert(tot.drop_last()[c] == tot[c]);
        }
        lemma_sum_matches_tot(tot.drop_last(), comm, deg);
    }
}

/// Sum of the squares of the first `c` entries.
pub open spec fn sq_sum(v: Seq<u64>, c: int) -> int
    decreases c,
{
    if c <= 0 || c > v.len() {
        0
    } else {
        sq_sum(v, c - 1) + (v[c - 1] as int) * (v[c - 1] as int)
    }
}

/// The sum of squares is at most the square of the sum, for non-negative
/// entries.
proof fn lemma_sq_sum_le(v: Seq<u64>, c: int)
    requires
        0 <= c <= v.len(),
    ensures
        0 <= sq_sum(v, c) <= sum_u64(v.subrange(0, c)) * sum_u64(v.subrange(0, c)),
    decreases c,
{
    if c > 0 {
        lemma_sq_sum_le(v, c - 1);
        assert(v.subrange(0, c).drop_last() =~= v.subrange(0, c - 1));
        lemma_sum_nonneg(v.subrange(0, c - 1));
        let s0 = sum_u64(v.subrange(0, c - 1));
        let x = v[c - 1] as int;
        assert(s0 * s0 + x * x <= (s0 + x) * (s0 + x)) by (nonlinear_arith)
            requires
                s0 >= 0,
                x >= 0,
        ;
    }
}

/// Number of members over all lists.
pub open spec fn len_sum(m: Seq<Seq<usize>>) -> int
    decreases m.len(),
{
    if m.len() == 0 {
        0
    } else {
        len_sum(m.drop_last()) + m.last().len()
    }
}

proof fn lemma_mem_ms_len(m: Seq<Seq<usize>>)
    ensures
        mem_ms(m).len() == len_sum(m),
    decreases m.len(),
{
    broadcast use vstd::seq_lib::group_to_multiset_ensures;
    broadcast use vstd::multiset::group_multiset_axioms;

    if m.len() > 0 {
        lemma_mem_ms_len(m.drop_last());
    }
}

proof fn lemma_len_sum_prefix_le(m: Seq<Seq<usize>>, k: int)
    requires
        0 <= k <= m.len(),
    ensures
        0 <= len_sum(m.subrange(0, k)) <= len_sum(m),
    decreases m.len(),
{
    if k == m.len() {
        assert(m.subrange(0, k) =~= m);
        lemma_len_sum_nonneg(m);
    } else {
        assert(m.drop_last().subrange(0, k) =~= m.subrange(0, k));
        lemma_len_sum_prefix_le(m.drop_last(), k);
    }
}

proof fn lemma_len_sum_nonneg(m: Seq<Seq<usize>>)
    ensures
        len_sum(m) >= 0,
    decreases m.len(),
{
    if m.len() > 0 {
        lemma_len_sum_nonneg(m.drop_last());
    }
}

/// Member lists that hold each of `n0` nodes exactly once hold `n0`
/// members in all.
proof fn lemma_covers_len(m: Seq<Seq<usize>>, n0: int)
    requires
        0 <= n0 <= usize::MAX,
        covers_exactly(m, n0),
    ensures
        len_sum(m) == n0,
{
    broadcast use vstd::seq_lib::group_to_multiset_ensures;
    broadcast use vstd::multiset::group_multiset_axioms;

    let idseq = Seq::new(n0 as nat, |i: int| i as usize);
    assert forall|i: int, j: int| 0 <= i < j < idseq.len() implies idseq[i] != idseq[j] by {
        assert(idseq[i] == i as usize);
        assert(idseq[j] == j as usize);
    }
    assert(idseq.no_duplicates());
    idseq.lemma_multiset_has_no_duplicates();
    assert forall|x: usize| mem_ms(m).count(x) == idseq.to_multiset().count(x) by {
        if (x as int) < n0 {
            assert(idseq[x as int] == x);
            assert(idseq.contains(x));
            assert(idseq.to_multiset().contains(x));
        } else {
            if idseq.contains(x) {
                let w = choose|w: int| 0 <= w < idseq.len() && idseq[w] == x;
                assert(false);
            }
            assert(idseq.to_multiset().count(x) == 0);
        }
    }
    assert(mem_ms(m) =~= idseq.to_multiset());
    lemma_mem_ms_len(m);
}

/// The community assignment a member partition stands for: original node
/// `i0` is assigned the community whose list holds it.
fn comm_of_members(members: &Vec<Vec<usize>>, n0: usize) -> (comm: Vec<usize>)
    requires
        members@.len() >= 1 || n0 == 0,
        forall|i: int, p: int|
            0 <= i < members@.len() && 0 <= p < mem_view(members@)[i].len() ==> (
            #[trigger] mem_view(members@)[i][p]) < n0,
    ensures
        comm@.len() == n0,
        forall|i: int| 0 <= i < n0 ==> (#[trigger] comm@[i]) < members@.len(),
{
    let mut comm: Vec<usize> = Vec::new();
    let mut z: usize = 0;
    while z < n0
        invariant
            comm@.len() == z <= n0,
            n0 >= 1 ==> members@.len() >= 1,
            forall|t: int| 0 <= t < z ==> (#[trigger] comm@[t]) == 0,
        decreases n0 - z,
    {
        comm.push(0);
        z = z + 1;
    }
    let k = members.len();
    let mut cid: usize = 0;
    while cid < k
        invariant
            0 <= cid <= k,
            k == members@.len(),
            comm@.len() == n0,
            forall|i: int, p: int|
                0 <= i < k && 0 <= p < mem_view(members@)[i].len() ==> (#[trigger] mem_view(
                    members@,
                )[i][p]) < n0,
            forall|t: int| 0 <= t < n0 ==> (#[trigger] comm@[t]) < k || (comm@[t] == 0 && k >= 1),
        decreases k - cid,
    {
        let lst = &members[cid];
        let m = lst.len();
        let mut p: usize = 0;
        while p < m
            invariant
                0 <= p <= m,
                0 <= cid < k,
                m == lst@.len(),
                lst@ == mem_view(members@)[cid as int],
                k == members@.len(),
                comm@.len() == n0,
                forall|i2: int, p2: int|
                    0 <= i2 < k && 0 <= p2 < mem_view(members@)[i2].len() ==> (#[trigger] mem_view(
                        members@,
                    )[i2][p2]) < n0,
                forall|t: int|
                    0 <= t < n0 ==> (#[trigger] comm@[t]) < k || (comm@[t] == 0 && k >= 1),
            decreases m - p,
        {
            let i0 = lst[p];
            comm.set(i0, cid);
            p = p + 1;
        }
        cid = cid + 1;
    }
    comm
}

/// Intra-community weight of each community: each adjacency entry whose
/// endpoints share a community adds its weight to that community.
fn compute_in_w(adj0: &Vec<Vec<(usize, u64)>>, comm: &Vec<usize>, k: usize) -> (in_w: Vec<u64>)
    requires
        forall|i: int|
            0 <= i < adj0@.len() ==> row_wf(#[trigger] adj_view(adj0@)[i], adj0@.len() as int),
        total_w(adj_view(adj0@)) <= 2 * MAX_EDGES,
        comm@.len() == adj0@.len(),
        forall|i: int| 0 <= i < comm@.len() ==> (#[trigger] comm@[i]) < k,
    ensures
        in_w@.len() == k,
        sum_u64(in_w@) <= total_w(adj_view(adj0@)),
{
    let n0 = adj0.len();
    let mut in_w: Vec<u64> = Vec::new();
    let mut z: usize = 0;
    while z < k
        invariant
            in_w@.len() == z <= k,
            forall|t: int| 0 <= t < z ==> (#[trigger] in_w@[t]) == 0,
        decreases k - z,
    {
        in_w.push(0);
        z = z + 1;
    }
    proof {
        lemma_sum_zero(in_w@);
        lemma_total_prefix_le(adj_view(adj0@), 0);
        lemma_total_zero(adj_view(adj0@).subrange(0, 0));
    }
    let mut i: usize = 0;
    while i < n0
        invariant
            0 <= i <= n0,
            n0 == adj0@.len() == comm@.len(),
            in_w@.len() == k,
            forall|t: int| 0 <= t < n0 ==> (#[trigger] comm@[t]) < k,
            forall|t: int|
                0 <= t < n0 ==> row_wf(#[trigger] adj_view(adj0@)[t], adj0@.len() as int),
            total_w(adj_view(adj0@)) <= 2 * MAX_EDGES,
            sum_u64(in_w@) <= total_w(adj_view(adj0@).subrange(0, i as int)),
        decreases n0 - i,
    {
        let ci = comm[i];
        let row = &adj0[i];
        let rl = row.len();
        let mut jj: usize = 0;
        proof {
            assert(adj_view(adj0@)[i as int] == row@);
            assert(row@.subrange(0, 0).len() == 0);
        }
        while jj < rl
            invariant
                0 <= jj <= rl,
                0 <= i < n0,
                rl == row@.len(),
                row@ == adj_view(adj0@)[i as int],
                n0 == adj0@.len() == comm@.len(),
                in_w@.len() == k,
                ci == comm@[i as int],
                forall|t: int| 0 <= t < n0 ==> (#[trigger] comm@[t]) < k,
                forall|t: int|
                    0 <= t < n0 ==> row_wf(#[trigger] adj_view(adj0@)[t], adj0@.len() as int),
                total_w(adj_view(adj0@)) <= 2 * MAX_EDGES,
                sum_u64(in_w@) <= total_w(adj_view(adj0@).subrange(0, i as int)) + row_sum(
                    row@.subrange(0, jj as int),
                ),
            decreases rl - jj,
        {
            let (j, w) = row[jj];
            proof {
                assert(row@.subrange(0, jj + 1).drop_last() =~= row@.subrange(0, jj as int));
                assert(row@.subrange(0, jj + 1).last() == row@[jj as int]);
                lemma_row_prefix_le(row@, jj + 1);
                lemma_row_le_total(adj_view(adj0@), i as int);
                lemma_total_prefix_le(adj_view(adj0@), i as int);
                lemma_row_nonneg(row@.subrange(0, jj as int));
            }
            if comm[j] == ci {
                proof {
                    lemma_u64_elem_le_sum(in_w@, ci as int);
                    lemma_sum_update(in_w@, ci as int, w);
                }
                let cur = in_w[ci];
                in_w.set(ci, cur + w);
            }
            jj = jj + 1;
        }
        proof {
            assert(row@.subrange(0, rl as int) =~= row@);
            assert(adj_view(adj0@).subrange(0, i + 1).drop_last() =~= adj_view(adj0@).subrange(
                0,
                i as int,
            ));
            assert(adj_view(adj0@).subrange(0, i + 1).last() == row@);
        }
        i = i + 1;
    }
    proof {
        assert(adj_view(adj0@).subrange(0, n0 as int) =~= adj_view(adj0@));
    }
    in_w
}

proof fn lemma_sum_zero(v: Seq<u64>)
    requires
        forall|t: int| 0 <= t < v.len() ==> (#[trigger] v[t]) == 0,
    ensures
        sum_u64(v) == 0,
    decreases v.len(),
{
    if v.len() > 0 {
        lemma_sum_zero(v.drop_last());
    }
}

/// Sorts a list of weights ascending, preserving its multiset.
fn sort_u64(v: &mut Vec<u64>)
    ensures
        final(v)@.len() == old(v)@.len(),
        final(v)@.to_multiset() == old(v)@.to_multiset(),
        forall|a: int, b: int| 0 <= a < b < final(v)@.len() ==> final(v)@[a] <= final(v)@[b],
{
    broadcast use vstd::seq_lib::group_to_multiset_ensures;

    let n = v.len();
    let mut i: usize = 1;
    while i < n
        invariant
            1 <= i <= n || (n == 0 && i == 1),
            n == v@.len(),
            v@.to_multiset() == old(v)@.to_multiset(),
            forall|a: int, b: int| 0 <= a < b < i ==> v@[a] <= v@[b],
        decreases n - i,
    {
        let mut j: usize = i;
        while j > 0 && v[j - 1] > v[j]
            invariant
                0 <= j <= i < n,
                n == v@.len(),
                v@.to_multiset() == old(v)@.to_multiset(),
                forall|a: int, b: int| 0 <= a < b <= i && b != j ==> v@[a] <= v@[b],
                forall|b: int| j < b <= i ==> v@[j as int] <= v@[b],
            decreases j,
        {
            let ghost before = v@;
            let x = v[j - 1];
            let y = v[j];
            v.set(j - 1, y);
            v.set(j, x);
            proof {
                assert(v@ =~= before.update(j - 1, before[j as int]).update(j as int, before[j - 1]));
                lemma_swap_multiset_u64(before, j - 1, j as int);
            }
            j = j - 1;
        }
        i = i + 1;
    }
}

proof fn lemma_swap_multiset_u64(s: Seq<u64>, a: int, b: int)
    requires
        0 <= a < b < s.len(),
    ensures
        s.update(a, s[b]).update(b, s[a]).to_multiset() == s.to_multiset(),
{
    broadcast use vstd::seq_lib::group_to_multiset_ensures;

    let s2 = s.update(a, s[b]).update(b, s[a]);
    assert(s2.to_multiset() =~= s.to_multiset()) by {
        lemma_update_multiset_u64(s, a, s[b]);
        lemma_update_multiset_u64(s.update(a, s[b]), b, s[a]);
        assert(s.update(a, s[b])[b] == s[b]);
    }
}

proof fn lemma_update_multiset_u64(s: Seq<u64>, i: int, x: u64)
    requires
        0 <= i < s.len(),
    ensures
        s.update(i, x).to_multiset() == s.to_multiset().remove(s[i]).insert(x),
    decreases s.len(),
{
    broadcast use vstd::seq_lib::group_to_multiset_ensures;

    if i == s.len() - 1 {
        assert(s.update(i, x).drop_last() =~= s.drop_last());
        assert(s.update(i, x) =~= s.drop_last().push(x));
        assert(s =~= s.drop_last().push(s[i]));
        assert(s.update(i, x).to_multiset() =~= s.to_multiset().remove(s[i]).insert(x));
    } else {
        lemma_update_multiset_u64(s.drop_last(), i, x);
        assert(s.update(i, x) =~= s.drop_last().update(i, x).push(s.last()));
        assert(s =~= s.drop_last().push(s.last()));
        assert(s.drop_last()[i] == s[i]);
        assert(s.update(i, x).to_multiset() =~= s.to_multiset().remove(s[i]).insert(x));
    }
}

proof fn lemma_sum_remove(s: Seq<u64>, i: int)
    requires
        0 <= i < s.len(),
    ensures
        sum_u64(s.remove(i)) == sum_u64(s) - s[i],
    decreases s.len(),
{
    if i == s.len() - 1 {
        assert(s.remove(i) =~= s.drop_last());
    } else {
        assert(s.remove(i).drop_last() =~= s.drop_last().remove(i));
        assert(s.remove(i).last() == s.last());
        lemma_sum_remove(s.drop_last(), i);
        assert(s.drop_last()[i] == s[i]);
    }
}

/// Reordering a list does not change its sum.
proof fn lemma_sum_permuted(a: Seq<u64>, b: Seq<u64>)
    requires
        a.to_multiset() == b.to_multiset(),
    ensures
        sum_u64(a) == sum_u64(b),
    decreases a.len(),
{
    broadcast use vstd::seq_lib::group_to_multiset_ensures;

    if a.len() == 0 {
        assert(b.to_multiset().len() == 0);
        assert(b.len() == 0);
    } else {
        let x = a.last();
        assert(a.to_multiset().count(x) > 0) by {
            assert(a.contains(x));
        }
        assert(b.to_multiset().count(x) > 0);
        assert(b.contains(x));
        let i = choose|i: int| 0 <= i < b.len() && b[i] == x;
        let b2 = b.remove(i);
        assert(b2.to_multiset() == b.to_multiset().remove(x));
        assert(a.drop_last().to_multiset() == a.to_multiset().remove(x)) by {
            assert(a =~= a.drop_last().push(x));
            assert(a.drop_last().push(x).to_multiset() == a.drop_last().to_multiset().insert(x));
        }
        lemma_sum_permuted(a.drop_last(), b2);
        lemma_sum_remove(b, i);
    }
}

/// One list's length is at most the total member count.
proof fn lemma_len_part_le(m: Seq<Seq<usize>>, i: int)
    requires
        0 <= i < m.len(),
    ensures
        m[i].len() <= len_sum(m),
    decreases m.len(),
{
    lemma_len_sum_nonneg(m.drop_last());
    if i < m.len() - 1 {
        lemma_len_part_le(m.drop_last(), i);
        assert(m.drop_last()[i] == m[i]);
    }
}

/// Sum of a list whose entries are each at most `b`.
proof fn lemma_sum_bounded(v: Seq<u64>, b: int)
    requires
        forall|t: int| 0 <= t < v.len() ==> (#[trigger] v[t]) as int <= b,
        b >= 0,
    ensures
        sum_u64(v) <= v.len() * b,
    decreases v.len(),
{
    if v.len() == 0 {
    } else {
        lemma_sum_bounded(v.drop_last(), b);
        assert((v.len() - 1) * b + b == v.len() * b) by (nonlinear_arith);
    }
}

/// Bounds on a product follow from bounds on its factors.
proof fn lemma_mul_bounds(a: int, am: int, b: int, bm: int)
    requires
        -am <= a <= am,
        -bm <= b <= bm,
        0 <= am,
        0 <= bm,
    ensures
        -(am * bm) <= a * b <= am * bm,
{
    assert(-(am * bm) <= a * b <= am * bm) by (nonlinear_arith)
        requires
            -am <= a <= am,
            -bm <= b <= bm,
            0 <= am,
            0 <= bm,
    ;
}

/// The composite quality of a partition: resolution-scaled modularity
/// minus weighted penalties for size imbalance (Gini) and for the largest
/// cluster's share, as an exact fraction with positive denominator.
#[verifier::rlimit(100)]
#[verifier::spinoff_prover]
fn composite_score(
    members: &Vec<Vec<usize>>,
    adj0: &Vec<Vec<(usize, u64)>>,
    deg0: &Vec<u64>,
    m2: u64,
    gnum: u64,
    gden: u64,
) -> (r: (i128, i128))
    requires
        wadj_wf(adj_view(adj0@), deg0@),
        total_w(adj_view(adj0@)) <= 2 * MAX_EDGES,
        adj0@.len() <= MAX_NODES,
        m2 as int == total_w(adj_view(adj0@)),
        1 <= gnum <= 8,
        1 <= gden <= 8,
        members@.len() <= adj0@.len(),
        adj0@.len() >= 1 ==> members@.len() >= 1,
        forall|i: int, p: int|
            0 <= i < members@.len() && 0 <= p < mem_view(members@)[i].len() ==> (
            #[trigger] mem_view(members@)[i][p]) < adj0@.len(),
        covers_exactly(mem_view(members@), adj0@.len() as int),
    ensures
        r.1 >= 1,
        i128::MIN < r.0 < i128::MAX,
{
    let n0 = adj0.len();
    let k = members.len();
    let comm = comm_of_members(members, n0);
    proof {
        lemma_sum_deg_total(adj_view(adj0@), deg0@);
    }
    // --- resolution-scaled modularity, as q / qd ---
    let mut q: i128 = 0;
    let mut qd: i128 = 1;
    if m2 > 0 {
        let in_w = compute_in_w(adj0, &comm, k);
        let tot = compute_tot(&comm, deg0, k);
        proof {
            lemma_sum_matches_tot(tot@, comm@, deg0@);
            lemma_tot_sum_le(comm@, deg0@, k as int);
        }
        let mut c: usize = 0;
        while c < k
            invariant
                0 <= c <= k,
                in_w@.len() == k,
                tot@.len() == k,
                m2 >= 1,
                m2 as int == total_w(adj_view(adj0@)),
                total_w(adj_view(adj0@)) <= 2 * MAX_EDGES,
                1 <= gnum <= 8,
                1 <= gden <= 8,
                sum_u64(in_w@) <= m2 as int,
                sum_u64(tot@) <= m2 as int,
                q as int <= (gden as int) * (m2 as int) * sum_u64(in_w@.subrange(0, c as int)),
                q as int >= -((gnum as int) * sq_sum(tot@, c as int)),
                sq_sum(tot@, c as int) <= (m2 as int) * (m2 as int),
            decreases k - c,
        {
            let iw = in_w[c];
            let tc = tot[c];
            proof {
                lemma_u64_elem_le_sum(in_w@, c as int);
                lemma_u64_elem_le_sum(tot@, c as int);
                lemma_sum_prefix_le(in_w@, c + 1);
                lemma_sum_prefix_le(in_w@, c as int);
                lemma_sum_prefix_le(tot@, c + 1);
                assert(in_w@.subrange(0, c + 1).drop_last() =~= in_w@.subrange(0, c as int));
                assert(in_w@.subrange(0, c + 1).last() == in_w@[c as int]);
                lemma_sq_sum_le(tot@, c + 1);
                assert(sum_u64(tot@.subrange(0, c + 1)) * sum_u64(tot@.subrange(0, c + 1)) <= (
                m2 as int) * (m2 as int)) by (nonlinear_arith)
                    requires
                        0 <= sum_u64(tot@.subrange(0, c + 1)) <= m2 as int,
                ;
                assert((m2 as int) * (m2 as int) <= 0x8_0000_0000 * 0x8_0000_0000)
                    by (nonlinear_arith)
                    requires
                        0 <= m2 as int <= 0x8_0000_0000,
                ;
                assert(0 <= (iw as int) * (gden as int) <= 0x8_0000_0000 * 8) by (nonlinear_arith)
                    requires
                        0 <= iw as int <= 0x8_0000_0000,
                        1 <= gden as int <= 8,
                ;
                assert(0 <= (iw as int) * (gden as int) * (m2 as int) <= 0x8_0000_0000 * 8
                    * 0x8_0000_0000) by (nonlinear_arith)
                    requires
                        0 <= (iw as int) * (gden as int) <= 0x8_0000_0000 * 8,
                        0 <= m2 as int <= 0x8_0000_0000,
                ;
                assert(0 <= (gnum as int) * (tc as int) <= 8 * 0x8_0000_0000) by (nonlinear_arith)
                    requires
                        0 <= tc as int <= 0x8_0000_0000,
                        1 <= gnum as int <= 8,
                ;
                assert(0 <= (gnum as int) * (tc as int) * (tc as int) <= 8 * 0x8_0000_0000
                    * 0x8_0000_0000) by (nonlinear_arith)
                    requires
                        0 <= (gnum as int) * (tc as int) <= 8 * 0x8_0000_0000,
                        0 <= tc as int <= 0x8_0000_0000,
                ;
                assert((gden as int) * (m2 as int) * (sum_u64(in_w@.subrange(0, c as int))
                    + iw as int) == (gden as int) * (m2 as int) * sum_u64(
                    in_w@.subrange(0, c as int),
                ) + (gden as int) * (m2 as int) * (iw as int)) by (nonlinear_arith);
                assert((gden as int) * (m2 as int) * (iw as int) == (iw as int) * (gden as int) * (
                m2 as int)) by (nonlinear_arith);
                assert(0 <= (gden as int) * (m2 as int) * sum_u64(in_w@.subrange(0, c + 1)) <= 8
                    * 0x8_0000_0000 * 0x8_0000_0000) by (nonlinear_arith)
                    requires
                        0 <= sum_u64(in_w@.subrange(0, c + 1)) <= 0x8_0000_0000,
                        1 <= gden as int <= 8,
                        1 <= m2 as int <= 0x8_0000_0000,
                ;
                assert(0 <= (gnum as int) * sq_sum(tot@, c + 1) <= 8 * (0x8_0000_0000
                    * 0x8_0000_0000)) by (nonlinear_arith)
                    requires
                        0 <= sq_sum(tot@, c + 1) <= 0x8_0000_0000 * 0x8_0000_0000,
                        1 <= gnum as int <= 8,
                ;
                assert((gnum as int) * (sq_sum(tot@, c as int) + (tc as int) * (tc as int)) == (
                gnum as int) * sq_sum(tot@, c as int) + (gnum as int) * (tc as int) * (
                tc as int)) by (nonlinear_arith);
            }
            let term: i128 = (iw as i128) * (gden as i128) * (m2 as i128) - (gnum as i128) * (
            tc as i128) * (tc as i128);
            q = q + term;
            c = c + 1;
        }
        proof {
            assert(0 <= (gden as int) * (m2 as int) <= 8 * 0x8_0000_0000) by (nonlinear_arith)
                requires
                    1 <= gden as int <= 8,
                    1 <= m2 as int <= 0x8_0000_0000,
            ;
            assert(1 <= (gden as int) * (m2 as int) * (m2 as int) <= 8 * 0x8_0000_0000
                * 0x8_0000_0000) by (nonlinear_arith)
                requires
                    1 <= gden as int <= 8,
                    1 <= m2 as int <= 0x8_0000_0000,
            ;
        }
        proof {
            assert(in_w@.subrange(0, k as int) =~= in_w@);
            assert(tot@.subrange(0, k as int) =~= tot@);
            lemma_sum_nonneg(in_w@);
            lemma_sum_nonneg(tot@);
            assert((gden as int) * (m2 as int) * sum_u64(in_w@) <= 8 * 0x8_0000_0000
                * 0x8_0000_0000) by (nonlinear_arith)
                requires
                    1 <= gden as int <= 8,
                    1 <= m2 as int <= 0x8_0000_0000,
                    0 <= sum_u64(in_w@) <= m2 as int,
            ;
            lemma_sq_sum_le(tot@, k as int);
            assert(sum_u64(tot@) * sum_u64(tot@) <= (m2 as int) * (m2 as int)) by (nonlinear_arith)
                requires
                    0 <= sum_u64(tot@) <= m2 as int,
            ;
            assert((gnum as int) * sq_sum(tot@, k as int) <= 8 * (0x8_0000_0000 * 0x8_0000_0000))
                by (nonlinear_arith)
                requires
                    1 <= gnum as int <= 8,
                    0 <= sq_sum(tot@, k as int) <= (m2 as int) * (m2 as int),
                    0 <= m2 as int <= 0x8_0000_0000,
            ;
        }
        qd = (gden as i128) * (m2 as i128) * (m2 as i128);
        proof {
            assert(1 <= qd <= 8 * 0x8_0000_0000 * 0x8_0000_0000);
        }
    }
    proof {
        assert(1 <= qd <= 8 * 0x8_0000_0000 * 0x8_0000_0000);
        assert(-(8 * 0x8_0000_0000 * 0x8_0000_0000) <= q <= 8 * 0x8_0000_0000 * 0x8_0000_0000);
    }
    // --- cluster sizes ---
    let mut sizes: Vec<u64> = Vec::new();
    let mut c2: usize = 0;
    proof {
        lemma_covers_len(mem_view(members@), n0 as int);
    }
    while c2 < k
        invariant
            0 <= c2 <= k,
            k == members@.len(),
            sizes@.len() == c2,
            len_sum(mem_view(members@)) == n0 <= MAX_NODES,
            sum_u64(sizes@) == len_sum(mem_view(members@).subrange(0, c2 as int)),
            forall|t: int| 0 <= t < c2 ==> (#[trigger] sizes@[t]) as int <= n0,
        decreases k - c2,
    {
        proof {
            lemma_len_part_le(mem_view(members@), c2 as int);
            lemma_len_sum_prefix_le(mem_view(members@), c2 as int);
            lemma_len_sum_prefix_le(mem_view(members@), c2 + 1);
            assert(mem_view(members@).subrange(0, c2 + 1).drop_last() =~= mem_view(
                members@,
            ).subrange(0, c2 as int));
            assert(mem_view(members@).subrange(0, c2 + 1).last() == mem_view(members@)[c2 as int]);
        }
        let ghost pre_sizes = sizes@;
        let ln = members[c2].len();
        sizes.push(ln as u64);
        proof {
            assert(sizes@.drop_last() =~= pre_sizes);
        }
        c2 = c2 + 1;
    }
    proof {
        assert(mem_view(members@).subrange(0, k as int) =~= mem_view(members@));
    }
    let s_total = sum_deg(&sizes);
    let mut max_size: u64 = 0;
    let mut c3: usize = 0;
    while c3 < k
        invariant
            0 <= c3 <= k,
            sizes@.len() == k,
            max_size as int <= n0,
            n0 <= MAX_NODES,
            forall|t: int| 0 <= t < k ==> (#[trigger] sizes@[t]) as int <= n0,
        decreases k - c3,
    {
        if sizes[c3] > max_size {
            max_size = sizes[c3];
        }
        c3 = c3 + 1;
    }
    let ghost presort = sizes@;
    sort_u64(&mut sizes);
    proof {
        lemma_sum_permuted(sizes@, presort);
        assert forall|t: int| 0 <= t < sizes@.len() implies (#[trigger] sizes@[t]) as int <= n0 by {
            broadcast use vstd::seq_lib::group_to_multiset_ensures;

            assert(sizes@.contains(sizes@[t]));
            assert(sizes@.to_multiset().count(sizes@[t]) > 0);
            assert(presort.to_multiset().count(sizes@[t]) > 0);
            assert(presort.contains(sizes@[t]));
            let w = choose|w: int| 0 <= w < presort.len() && presort[w] == sizes@[t];
        }
    }
    // --- Gini numerator over sorted sizes ---
    let mut acc_a: i128 = 0;
    let mut c4: usize = 0;
    while c4 < k
        invariant
            0 <= c4 <= k,
            sizes@.len() == k <= MAX_NODES,
            sum_u64(sizes@) == n0 <= MAX_NODES,
            forall|t: int| 0 <= t < k ==> (#[trigger] sizes@[t]) as int <= n0,
            0 <= acc_a as int <= (k as int) * sum_u64(sizes@.subrange(0, c4 as int)),
            sum_u64(sizes@.subrange(0, c4 as int)) <= n0,
        decreases k - c4,
    {
        let x = sizes[c4];
        proof {
            lemma_sum_prefix_le(sizes@, c4 + 1);
            lemma_sum_prefix_le(sizes@, c4 as int);
            assert(sizes@.subrange(0, c4 + 1).drop_last() =~= sizes@.subrange(0, c4 as int));
            assert(sizes@.subrange(0, c4 + 1).last() == sizes@[c4 as int]);
            assert(0 <= (c4 + 1) * (x as int) <= (k as int) * (x as int)) by (nonlinear_arith)
                requires
                    0 <= x,
                    0 < c4 + 1 <= k as int,
            ;
            assert((k as int) * sum_u64(sizes@.subrange(0, c4 as int)) + (k as int) * (x as int) == (
            k as int) * sum_u64(sizes@.subrange(0, c4 + 1))) by (nonlinear_arith)
                requires
                    sum_u64(sizes@.subrange(0, c4 + 1)) == sum_u64(sizes@.subrange(0, c4 as int))
                        + x as int,
            ;
            assert((k as int) * sum_u64(sizes@.subrange(0, c4 + 1)) <= (k as int) * (
            n0 as int)) by (nonlinear_arith)
                requires
                    sum_u64(sizes@.subrange(0, c4 + 1)) <= n0 as int,
                    0 <= k as int,
            ;
            assert((k as int) * (n0 as int) <= 0x10_0000 * 0x10_0000) by (nonlinear_arith)
                requires
                    0 <= k as int <= 0x10_0000,
                    0 <= n0 as int <= 0x10_0000,
            ;
        }
        acc_a = acc_a + ((c4 + 1) as i128) * (x as i128);
        c4 = c4 + 1;
    }
    proof {
        assert(sizes@.subrange(0, k as int) =~= sizes@);
        assert((k as int) * (n0 as int) <= 0x10_0000 * 0x10_0000) by (nonlinear_arith)
            requires
                0 <= k as int <= 0x10_0000,
                0 <= n0 as int <= 0x10_0000,
        ;
    }
    // --- composition over the common denominator ---
    proof {
        assert(0 <= ((k + 1) as int) * (s_total as int) <= 0x20_0000 * 0x10_0000)
            by (nonlinear_arith)
            requires
                0 <= (k + 1) as int <= 0x20_0000,
                0 <= s_total as int <= 0x10_0000,
        ;
    }
    let g_num: i128 = if k == 0 || s_total == 0 {
        0
    } else {
        2 * acc_a - ((k + 1) as i128) * (s_total as i128)
    };
    let kk: i128 = if k == 0 {
        1
    } else {
        k as i128
    };
    let ss: i128 = if s_total == 0 {
        1
    } else {
        s_total as i128
    };
    let t0: i128 = 20 * kk;
    proof {
        assert(1 <= (t0 as int) * (ss as int) <= 20 * 0x10_0000 * 0x10_0000) by (nonlinear_arith)
            requires
                20 <= t0 as int <= 20 * 0x10_0000,
                1 <= ss as int <= 0x10_0000,
        ;
    }
    let t1: i128 = t0 * ss;
    proof {
        lemma_mul_bounds(
            t1 as int,
            20int * 0x10_0000 * 0x10_0000,
            q as int,
            8int * 0x8_0000_0000 * 0x8_0000_0000,
        );
    }
    let term1: i128 = t1 * q;
    proof {
        assert(-0x400_0000_0000 <= g_num <= 0x400_0000_0000);
    }
    let t2: i128 = 7 * g_num;
    proof {
        lemma_mul_bounds(
            t2 as int,
            7int * 0x400_0000_0000,
            qd as int,
            8int * 0x8_0000_0000 * 0x8_0000_0000,
        );
    }
    let term2: i128 = t2 * qd;
    let t3: i128 = 8 * (max_size as i128);
    proof {
        assert(0 <= (t3 as int) * (qd as int) <= 8 * 0x10_0000 * (8 * 0x8_0000_0000
            * 0x8_0000_0000)) by (nonlinear_arith)
            requires
                0 <= t3 as int <= 8 * 0x10_0000,
                1 <= qd as int <= 8 * 0x8_0000_0000 * 0x8_0000_0000,
        ;
    }
    let t4: i128 = t3 * qd;
    proof {
        assert(0 <= (t4 as int) * (kk as int) <= 8 * 0x10_0000 * (8 * 0x8_0000_0000
            * 0x8_0000_0000) * 0x10_0000) by (nonlinear_arith)
            requires
                0 <= t4 as int <= 8 * 0x10_0000 * (8 * 0x8_0000_0000 * 0x8_0000_0000),
                1 <= kk as int <= 0x10_0000,
        ;
    }
    let term3: i128 = t4 * kk;
    let t5: i128 = 20 * qd;
    proof {
        assert(20 <= (t5 as int) * (kk as int) <= 20 * (8 * 0x8_0000_0000 * 0x8_0000_0000)
            * 0x10_0000) by (nonlinear_arith)
            requires
                20 <= t5 as int <= 20 * (8 * 0x8_0000_0000 * 0x8_0000_0000),
                1 <= kk as int <= 0x10_0000,
        ;
    }
    let t6: i128 = t5 * kk;
    proof {
        assert(20 <= (t6 as int) * (ss as int) <= 20 * (8 * 0x8_0000_0000 * 0x8_0000_0000)
            * 0x10_0000 * 0x10_0000) by (nonlinear_arith)
            requires
                20 <= t6 as int <= 20 * (8 * 0x8_0000_0000 * 0x8_0000_0000) * 0x10_0000,
                1 <= ss as int <= 0x10_0000,
        ;
    }
    let den: i128 = t6 * ss;
    let num: i128 = term1 - term2 - term3;
    (num, den)
}

// ---------------------------------------------------------------------------
// The resolution sweep and the public entry point.
// ---------------------------------------------------------------------------
/// The resolutions swept, as exact fractions, in sweep order.
fn gamma_pair(gi: usize) -> (r: (u64, u64))
    requires
        gi < 7,
    ensures
        1 <= r.0 <= 8,
        1 <= r.1 <= 8,
{
    if gi == 0 {
        (3, 5)
    } else if gi == 1 {
        (4, 5)
    } else if gi == 2 {
        (1, 1)
    } else if gi == 3 {
        (6, 5)
    } else if gi == 4 {
        (3, 2)
    } else if gi == 5 {
        (2, 1)
    } else {
        (5, 2)
    }
}

/// Translates a sorted list of dense indices back to node ids.
fn map_ids(lst: &Vec<usize>, ids: &Vec<usize>) -> (r: Vec<usize>)
    requires
        forall|p: int| 0 <= p < lst@.len() ==> (#[trigger] lst@[p]) < ids@.len(),
    ensures
        r@.len() == lst@.len(),
        forall|p: int| 0 <= p < r@.len() ==> (#[trigger] r@[p]) == ids@[lst@[p] as int],
{
    let n = lst.len();
    let mut r: Vec<usize> = Vec::new();
    let mut p: usize = 0;
    while p < n
        invariant
            0 <= p <= n,
            n == lst@.len(),
            r@.len() == p,
            forall|t: int| 0 <= t < n ==> (#[trigger] lst@[t]) < ids@.len(),
            forall|t: int| 0 <= t < p ==> (#[trigger] r@[t]) == ids@[lst@[t] as int],
        decreases n - p,
    {
        r.push(ids[lst[p]]);
        p = p + 1;
    }
    r
}

/// Counts are carried through an order-preserving id translation.
proof fn lemma_map_count(lst: Seq<usize>, ids: Seq<usize>, mapped: Seq<usize>)
    requires
        ids.len() <= usize::MAX,
        mapped.len() == lst.len(),
        forall|p: int| 0 <= p < mapped.len() ==> (#[trigger] mapped[p]) == ids[lst[p] as int],
        forall|p: int| 0 <= p < lst.len() ==> (#[trigger] lst[p]) < ids.len(),
        forall|a: int, b: int| 0 <= a < b < ids.len() ==> ids[a] < ids[b],
    ensures
        forall|d: int|
            0 <= d < ids.len() ==> mapped.to_multiset().count(#[trigger] ids[d])
                == lst.to_multiset().count(d as usize),
        forall|x: usize| !ids.contains(x) ==> mapped.to_multiset().count(x) == 0,
    decreases lst.len(),
{
    broadcast use vstd::seq_lib::group_to_multiset_ensures;
    broadcast use vstd::multiset::group_multiset_axioms;

    lemma_sorted_unique(ids);
    if lst.len() == 0 {
        assert forall|x: usize| mapped.to_multiset().count(x) == 0 by {
            assert(mapped.to_multiset().len() == 0);
        }
    } else {
        let l0 = lst.drop_last();
        let m0 = mapped.drop_last();
        assert forall|p: int| 0 <= p < m0.len() implies (#[trigger] m0[p]) == ids[l0[p] as int] by {
            assert(m0[p] == mapped[p]);
            assert(l0[p] == lst[p]);
        }
        lemma_map_count(l0, ids, m0);
        let dl = lst.last();
        assert(mapped =~= m0.push(ids[dl as int]));
        assert(lst =~= l0.push(dl));
        assert forall|d: int|
            0 <= d < ids.len() implies mapped.to_multiset().count(#[trigger] ids[d])
            == lst.to_multiset().count(d as usize) by {
            assert(mapped.to_multiset() == m0.to_multiset().insert(ids[dl as int]));
            assert(lst.to_multiset() == l0.to_multiset().insert(dl));
            if d == dl as int {
            } else {
                assert(ids[d] != ids[dl as int]);
            }
        }
        assert forall|x: usize| !ids.contains(x) implies mapped.to_multiset().count(x) == 0 by {
            assert(mapped.to_multiset() == m0.to_multiset().insert(ids[dl as int]));
            assert(ids[dl as int] != x) by {
                if ids[dl as int] == x {
                    assert(ids.contains(x));
                }
            }
        }
    }
}

/// The member lists of a cluster list.
pub open spec fn cluster_mem_view(cs: Seq<Cluster>) -> Seq<Seq<usize>> {
    cs.map_values(|c: Cluster| c.members@)
}

/// How many times a node id occurs over all clusters' member lists.
pub open spec fn cluster_count(cs: Seq<Cluster>, x: NodeId) -> nat {
    mem_ms(cluster_mem_view(cs)).count(x)
}

/// A row with weight towards nothing is empty.
proof fn lemma_weight_at_entry(row: Seq<(usize, u64)>, t: int)
    requires
        0 <= t < row.len(),
    ensures
        weight_to(row, row[t].0) >= row[t].1,
    decreases row.len(),
{
    lemma_row_nonneg(row.drop_last());
    assert(weight_to(row.drop_last(), row[t].0) >= 0);
    if t < row.len() - 1 {
        lemma_weight_at_entry(row.drop_last(), t);
        assert(row.drop_last()[t] == row[t]);
    }
}

/// Over edges that are all self-loops, every symmetrized weight is zero.
proof fn lemma_all_self_sym_zero(es: Seq<Edge>, u: NodeId, v: NodeId)
    requires
        forall|t: int| 0 <= t < es.len() ==> (#[trigger] es[t]).from == es[t].to,
    ensures
        sym_w(es, u, v) == 0,
    decreases es.len(),
{
    if es.len() > 0 {
        lemma_all_self_sym_zero(es.drop_last(), u, v);
    }
}

impl Graph {
    /// Detects communities: symmetrizes the graph (ignoring self-loops),
    /// runs a Louvain sweep over seven resolution values, scores each
    /// resulting partition by modularity minus size-balance penalties, and
    /// returns the best partition as clusters.
    ///
    /// The returned clusters partition the covered node ids: every node id,
    /// and every endpoint of an edge between distinct ids, lies in exactly
    /// one cluster's members, members are strictly ascending, no cluster is
    /// empty, and cluster ids equal their positions. An empty graph yields
    /// no clusters, and a graph whose edges are all self-loops leaves every
    /// node in a cluster of its own.
    pub fn clusterize(&self, max_iters: usize) -> (r: Vec<Cluster>)
        requires
            self.wf(),
            self.nodes@.len() + 2 * self.edges@.len() <= MAX_NODES,
        ensures
            forall|i: int| 0 <= i < r@.len() ==> (#[trigger] r@[i]).id == i,
            forall|i: int| 0 <= i < r@.len() ==> (#[trigger] r@[i]).members@.len() >= 1,
            forall|i: int| 0 <= i < r@.len() ==> sorted_strict((#[trigger] r@[i]).members@),
            forall|x: NodeId|
                cluster_count(r@, x) == if covered_id(*self, x) {
                    1nat
                } else {
                    0nat
                },
            self.nodes@.len() == 0 && self.edges@.len() == 0 ==> r@.len() == 0,
            (forall|t: int|
                0 <= t < self.edges@.len() ==> (#[trigger] self.edges@[t]).from
                    == self.edges@[t].to) ==> forall|i: int|
                0 <= i < r@.len() ==> (#[trigger] r@[i]).members@.len() == 1,
    {
        let (ids, adj, deg) = build_dense(self);
        let n = ids.len();
        proof {
            lemma_sum_deg_total(adj_view(adj@), deg@);
        }
        let m2 = sum_deg(&deg);
        let max_levels = if max_iters < 1 {
            1
        } else if max_iters > 20 {
            20
        } else {
            max_iters
        };
        proof {
            if forall|t: int|
                0 <= t < self.edges@.len() ==> (#[trigger] self.edges@[t]).from
                    == self.edges@[t].to {
                assert forall|i: int| 0 <= i < n implies (#[trigger] adj_view(adj@)[i]).len()
                    == 0 by {
                    let row = adj_view(adj@)[i];
                    if row.len() > 0 {
                        lemma_weight_at_entry(row, 0);
                        let iv = row[0].0;
                        lemma_all_self_sym_zero(self.edges@, ids@[i], ids@[iv as int]);
                        assert(weight_to(row, iv) == sym_w(self.edges@, ids@[i], ids@[iv as int]));
                    }
                }
                lemma_total_zero(adj_view(adj@));
            }
        }
        let (gn0, gd0) = gamma_pair(0);
        let mut best = louvain_with_gamma(&adj, &deg, max_levels, gn0, gd0);
        let sc0 = composite_score(&best, &adj, &deg, m2, gn0, gd0);
        let mut best_num = sc0.0;
        let mut best_den = sc0.1;
        let mut gi: usize = 1;
        while gi < 7
            invariant
                1 <= gi <= 7,
                n == ids@.len() == adj@.len(),
                wadj_wf(adj_view(adj@), deg@),
                total_w(adj_view(adj@)) <= 2 * MAX_EDGES,
                n <= MAX_NODES,
                m2 as int == total_w(adj_view(adj@)),
                best_den >= 1,
                i128::MIN < best_num < i128::MAX,
                mem_view(best@).len() <= n,
                n >= 1 ==> mem_view(best@).len() >= 1,
                forall|i: int| 0 <= i < best@.len() ==> (#[trigger] mem_view(best@)[i]).len() >= 1,
                forall|i: int| 0 <= i < best@.len() ==> sorted_strict(#[trigger] mem_view(best@)[i]),
                forall|i: int, p: int|
                    0 <= i < best@.len() && 0 <= p < mem_view(best@)[i].len() ==> (
                    #[trigger] mem_view(best@)[i][p]) < n,
                covers_exactly(mem_view(best@), n as int),
                total_w(adj_view(adj@)) == 0 ==> mem_view(best@) =~= singletons(n as int),
            decreases 7 - gi,
        {
            let (gn, gd) = gamma_pair(gi);
            let cand = louvain_with_gamma(&adj, &deg, max_levels, gn, gd);
            let sc = composite_score(&cand, &adj, &deg, m2, gn, gd);
            if crate::ratio::frac_lt(best_num, best_den, sc.0, sc.1) {
                best = cand;
                best_num = sc.0;
                best_den = sc.1;
            }
            gi = gi + 1;
        }
        // --- translate the best partition back to node ids ---
        let k = best.len();
        let mut r: Vec<Cluster> = Vec::new();
        let mut cid: usize = 0;
        proof {
            lemma_mem_ms_empty(cluster_mem_view(r@));
            lemma_mem_ms_empty(mem_view(best@).subrange(0, 0));
            lemma_sorted_unique(ids@);
        }
        while cid < k
            invariant
                0 <= cid <= k,
                k == best@.len(),
                n == ids@.len(),
                r@.len() == cid,
                forall|a: int, b: int| 0 <= a < b < n ==> ids@[a] < ids@[b],
                forall|i: int| 0 <= i < best@.len() ==> (#[trigger] mem_view(best@)[i]).len() >= 1,
                forall|i: int| 0 <= i < best@.len() ==> sorted_strict(#[trigger] mem_view(best@)[i]),
                forall|i: int, p: int|
                    0 <= i < best@.len() && 0 <= p < mem_view(best@)[i].len() ==> (
                    #[trigger] mem_view(best@)[i][p]) < n,
                forall|i: int| 0 <= i < cid ==> (#[trigger] r@[i]).id == i,
                forall|i: int| 0 <= i < cid ==> (#[trigger] r@[i]).members@.len() == mem_view(
                    best@,
                )[i].len(),
                forall|i: int| 0 <= i < cid ==> sorted_strict((#[trigger] r@[i]).members@),
                forall|d: int|
                    0 <= d < n ==> mem_ms(cluster_mem_view(r@)).count(#[trigger] ids@[d]) == mem_ms(
                        mem_view(best@).subrange(0, cid as int),
                    ).count(d as usize),
                forall|x: usize|
                    !ids@.contains(x) ==> mem_ms(cluster_mem_view(r@)).count(x) == 0,
            decreases k - cid,
        {
            proof {
                assert(best@[cid as int]@ == mem_view(best@)[cid as int]);
            }
            let mapped = map_ids(&best[cid], &ids);
            let ghost prev = cluster_mem_view(r@);
            let ghost mv = mapped@;
            proof {
                lemma_map_count(mem_view(best@)[cid as int], ids@, mv);
                assert forall|a: int, b: int| 0 <= a < b < mv.len() implies mv[a] < mv[b] by {
                    let lst = mem_view(best@)[cid as int];
                    assert(lst[a] < lst[b]);
                }
                lemma_mem_ms_prefix_step(mem_view(best@), cid as int);
            }
            r.push(Cluster { id: cid, members: mapped });
            proof {
                assert(cluster_mem_view(r@) =~= prev.push(mv));
                assert(cluster_mem_view(r@).drop_last() =~= prev);
                assert(mem_ms(cluster_mem_view(r@)) == mem_ms(prev).add(mv.to_multiset()));
            }
            cid = cid + 1;
        }
        proof {
            if self.nodes@.len() == 0 && self.edges@.len() == 0 {
                if n >= 1 {
                    assert(ids@.contains(ids@[0]));
                    assert(covered_id(*self, ids@[0]));
                    crate::graph::lemma_node_map_dom_iff(self.nodes@);
                    assert(false);
                }
            }
            assert(mem_view(best@).subrange(0, k as int) =~= mem_view(best@));
            assert forall|x: NodeId|
                cluster_count(r@, x) == (if covered_id(*self, x) {
                    1nat
                } else {
                    0nat
                }) by {
                if ids@.contains(x) {
                    let d = choose|d: int| 0 <= d < ids@.len() && ids@[d] == x;
                    assert(mem_ms(cluster_mem_view(r@)).count(ids@[d]) == mem_ms(
                        mem_view(best@),
                    ).count(d as usize));
                } else {
                    assert(mem_ms(cluster_mem_view(r@)).count(x) == 0);
                }
            }
        }
        r
    }
}

} // verus!
