//! Slot layout of the flat node, edge and region matrices, and the integer
//! side of building them from a graph.
use vstd::prelude::*;

verus! {

/// Properties per node: slot count of one row of the node matrix.
pub const PPN: usize = 10;

/// Properties per edge: slot count of one row of the edge matrix.
pub const PPE: usize = 3;

/// Properties per region: slot count of one row of a Barnes-Hut region matrix.
pub const PPR: usize = 9;

/// Node-matrix slot: x coordinate.
pub const NODE_X: usize = 0;

/// Node-matrix slot: y coordinate.
pub const NODE_Y: usize = 1;

/// Node-matrix slot: force accumulated along x in this iteration.
pub const NODE_DX: usize = 2;

/// Node-matrix slot: force accumulated along y in this iteration.
pub const NODE_DY: usize = 3;

/// Node-matrix slot: force along x of the previous iteration.
pub const NODE_OLD_DX: usize = 4;

/// Node-matrix slot: force along y of the previous iteration.
pub const NODE_OLD_DY: usize = 5;

/// Node-matrix slot: mass (one plus the weighted degree).
pub const NODE_MASS: usize = 6;

/// Node-matrix slot: convergence.
pub const NODE_CONVERGENCE: usize = 7;

/// Node-matrix slot: size.
pub const NODE_SIZE: usize = 8;

/// Node-matrix slot: fixed flag.
pub const NODE_FIXED: usize = 9;

/// Edge-matrix slot: node-matrix offset of the source.
pub const EDGE_SOURCE: usize = 0;

/// Edge-matrix slot: node-matrix offset of the target.
pub const EDGE_TARGET: usize = 1;

/// Edge-matrix slot: weight.
pub const EDGE_WEIGHT: usize = 2;

/// Region-matrix slot: node-matrix offset of the node a leaf holds, or -1.
pub const REGION_NODE: usize = 0;

/// Region-matrix slot: centre x.
pub const REGION_CENTER_X: usize = 1;

/// Region-matrix slot: centre y.
pub const REGION_CENTER_Y: usize = 2;

/// Region-matrix slot: size.
pub const REGION_SIZE: usize = 3;

/// Region-matrix slot: offset of the next sibling, or -1.
pub const REGION_NEXT_SIBLING: usize = 4;

/// Region-matrix slot: offset of the first child, or -1.
pub const REGION_FIRST_CHILD: usize = 5;

/// Region-matrix slot: mass.
pub const REGION_MASS: usize = 6;

/// Region-matrix slot: centre of mass x.
pub const REGION_MASS_CENTER_X: usize = 7;

/// Region-matrix slot: centre of mass y.
pub const REGION_MASS_CENTER_Y: usize = 8;

/// How many times the Barnes-Hut tree retries splitting a leaf whose two
/// nodes keep landing in the same quadrant before it gives up.
pub const SUBDIVISION_ATTEMPTS: usize = 3;

/// Offset of node number `index` in the node matrix.
pub fn node_offset(index: usize) -> (offset: usize)
    requires
        index * PPN <= usize::MAX,
    ensures
        offset == index * PPN,
{
    index * PPN
}

/// Whether every endpoint of every edge names one of `n_nodes` nodes.
pub fn edges_in_range(n_nodes: usize, edges: &[(u32, u32)]) -> (ok: bool)
    ensures
        ok == (forall|e: int|
            0 <= e < edges@.len() ==> (#[trigger] edges@[e]).0 < n_nodes && edges@[e].1
                < n_nodes),
{
    let mut e: usize = 0;
    while e < edges.len()
        invariant
            e <= edges@.len(),
            forall|f: int| 0 <= f < e ==> (#[trigger] edges@[f]).0 < n_nodes && edges@[f].1 < n_nodes,
        decreases edges@.len() - e,
    {
        let (u, v) = edges[e];
        if u as usize >= n_nodes || v as usize >= n_nodes {
            return false;
        }
        e = e + 1;
    }
    true
}

/// The node-matrix offsets of the two endpoints of each edge, in edge
/// order: the edge matrix stores these offsets, not the node numbers.
pub fn edge_endpoint_offsets(n_nodes: usize, edges: &[(u32, u32)]) -> (offsets: Vec<(usize, usize)>)
    requires
        n_nodes * PPN <= usize::MAX,
        forall|e: int|
            0 <= e < edges@.len() ==> (#[trigger] edges@[e]).0 < n_nodes && edges@[e].1 < n_nodes,
    ensures
        offsets@.len() == edges@.len(),
        forall|e: int|
            0 <= e < edges@.len() ==> (#[trigger] offsets@[e]).0 == edges@[e].0 * PPN
                && offsets@[e].1 == edges@[e].1 * PPN,
{
    let mut offsets: Vec<(usize, usize)> = Vec::new();
    let mut e: usize = 0;
    while e < edges.len()
        invariant
            e <= edges@.len(),
            offsets@.len() == e,
            n_nodes * PPN <= usize::MAX,
            forall|f: int|
                0 <= f < edges@.len() ==> (#[trigger] edges@[f]).0 < n_nodes && edges@[f].1
                    < n_nodes,
            forall|f: int|
                0 <= f < e ==> (#[trigger] offsets@[f]).0 == edges@[f].0 * PPN && offsets@[f].1
                    == edges@[f].1 * PPN,
        decreases edges@.len() - e,
    {
        let (u, v) = edges[e];
        assert(edges@[e as int].0 < n_nodes && edges@[e as int].1 < n_nodes);
        assert(u * PPN <= n_nodes * PPN) by (nonlinear_arith)
            requires
                u < n_nodes,
        ;
        assert(v * PPN <= n_nodes * PPN) by (nonlinear_arith)
            requires
                v < n_nodes,
        ;
        offsets.push((u as usize * PPN, v as usize * PPN));
        e = e + 1;
    }
    offsets
}

} // verus!
