//! Structure of the Barnes-Hut quadtree.
//!
//! Regions are numbered in the order they are created: the root is region
//! 0, and splitting a leaf appends its four sub-regions. A region is either
//! a leaf, which holds at most one node, or internal, with four consecutive
//! children. Each region also links to the region that follows its whole
//! subtree in depth-first order (its "next sibling"), so a walk can skip a
//! subtree in one step. Geometry (centres, sizes, masses) lives with the
//! caller; the tree asks the caller which quadrant of a region a node lies
//! in, and names each region by the quadrants taken from the root.
use vstd::prelude::*;
use crate::matrices::{PPN, SUBDIVISION_ATTEMPTS};

verus! {

/// A quadrant of a region, in the order the four sub-regions are stored
/// (screen coordinates: y grows downwards).
#[derive(Clone, Copy, Debug, PartialEq, Eq, Structural)]
pub enum Quadrant {
    TopLeft,
    BottomLeft,
    TopRight,
    BottomRight,
}

impl Quadrant {
    /// Position of this quadrant's sub-region among its siblings.
    pub open spec fn child_index(self) -> nat {
        match self {
            Quadrant::TopLeft => 0,
            Quadrant::BottomLeft => 1,
            Quadrant::TopRight => 2,
            Quadrant::BottomRight => 3,
        }
    }

    /// Position of this quadrant's sub-region among its siblings.
    pub fn offset(&self) -> (i: usize)
        ensures
            i == self.child_index(),
    {
        match self {
            Quadrant::TopLeft => 0,
            Quadrant::BottomLeft => 1,
            Quadrant::TopRight => 2,
            Quadrant::BottomRight => 3,
        }
    }
}

/// The integer slots of one region.
#[derive(Clone, Copy, Debug)]
pub struct Region {
    /// The node a leaf holds (its node-matrix offset), if any.
    pub node: Option<usize>,
    /// The first of the four sub-regions of an internal region.
    pub first_child: Option<usize>,
    /// The region that follows this region's subtree in depth-first order.
    pub next_sibling: Option<usize>,
}

/// A Barnes-Hut quadtree over node identifiers.
pub struct RegionTree {
    regions: Vec<Region>,
    /// Depth-first position of each region.
    rank: Ghost<Seq<int>>,
    /// The quadrants taken from the root to reach each region.
    paths: Ghost<Seq<Seq<Quadrant>>>,
}

impl View for RegionTree {
    type V = Seq<Region>;

    closed spec fn view(&self) -> Seq<Region> {
        self.regions@
    }
}

/// The four sub-regions of an internal region are consecutive, come after
/// it, chain to each other, and the last one chains to where the parent
/// chained; internal regions hold no node.
pub open spec fn children_linked(rs: Seq<Region>, i: int) -> bool {
    match rs[i].first_child {
        Some(c) => {
            let c = c as int;
            &&& i < c
            &&& c + 3 < rs.len()
            &&& rs[i].node is None
            &&& rs[c].next_sibling == Some((c + 1) as usize)
            &&& rs[c + 1].next_sibling == Some((c + 2) as usize)
            &&& rs[c + 2].next_sibling == Some((c + 3) as usize)
            &&& rs[c + 3].next_sibling == rs[i].next_sibling
        },
        None => true,
    }
}

/// Ranks number the regions in depth-first order: the first child of
/// region `i` comes right after it; so does the next sibling of a leaf,
/// and a leaf with no next sibling comes last; the next sibling of an
/// internal region comes after it.
pub open spec fn links_ranked(rs: Seq<Region>, rk: Seq<int>, i: int) -> bool {
    &&& 0 <= rk[i] < rs.len()
    &&& (rs[i].first_child matches Some(c) ==> c < rs.len() && rk[c as int] == rk[i] + 1)
    &&& (rs[i].next_sibling matches Some(s) ==> s < rs.len() && rk[s as int] > rk[i])
    &&& (rs[i].first_child is None ==> match rs[i].next_sibling {
        Some(s) => rk[s as int] == rk[i] + 1,
        None => rk[i] == rs.len() - 1,
    })
}

/// No two regions share a rank.
pub open spec fn ranks_distinct(rk: Seq<int>) -> bool {
    forall|i: int, j: int| 0 <= i < rk.len() && 0 <= j < rk.len() && i != j ==> #[trigger] rk[i] != #[trigger] rk[j]
}

/// No node is held by two regions.
pub open spec fn nodes_unique(rs: Seq<Region>) -> bool {
    forall|i: int, j: int|
        0 <= i < rs.len() && 0 <= j < rs.len() && i != j && (#[trigger] rs[i]).node is Some
            ==> rs[i].node != (#[trigger] rs[j]).node
}

/// Well-formedness of a region sequence under a ranking.
pub open spec fn tree_wf(rs: Seq<Region>, rk: Seq<int>) -> bool {
    &&& 1 <= rs.len() <= usize::MAX
    &&& rk.len() == rs.len()
    &&& rs[0].next_sibling is None
    &&& rk[0] == 0
    &&& ranks_distinct(rk)
    &&& forall|i: int| 0 <= i < rs.len() ==> #[trigger] children_linked(rs, i)
    &&& forall|i: int| 0 <= i < rs.len() ==> #[trigger] links_ranked(rs, rk, i)
    &&& nodes_unique(rs)
}

/// The paths of the four sub-regions of region `i` extend the path of `i`
/// by their quadrants.
pub open spec fn children_placed(rs: Seq<Region>, ps: Seq<Seq<Quadrant>>, i: int) -> bool {
    match rs[i].first_child {
        Some(c) => {
            let c = c as int;
            &&& ps[c] == ps[i].push(Quadrant::TopLeft)
            &&& ps[c + 1] == ps[i].push(Quadrant::BottomLeft)
            &&& ps[c + 2] == ps[i].push(Quadrant::TopRight)
            &&& ps[c + 3] == ps[i].push(Quadrant::BottomRight)
        },
        None => true,
    }
}

/// Each region's path is the quadrants taken from the root to reach it.
pub open spec fn paths_wf(rs: Seq<Region>, ps: Seq<Seq<Quadrant>>) -> bool {
    &&& ps.len() == rs.len()
    &&& ps[0] == Seq::<Quadrant>::empty()
    &&& forall|i: int| 0 <= i < rs.len() ==> #[trigger] children_placed(rs, ps, i)
}

/// Region `j` is one of the four sub-regions of region `i`.
pub open spec fn is_child_of(rs: Seq<Region>, j: int, i: int) -> bool {
    rs[i].first_child matches Some(c) && c <= j < c + 4
}

/// Number of internal regions in `rs`.
pub open spec fn count_internal(rs: Seq<Region>) -> nat
    decreases rs.len(),
{
    if rs.len() == 0 {
        0
    } else {
        count_internal(rs.drop_last()) + if rs.last().first_child is Some {
            1nat
        } else {
            0nat
        }
    }
}

/// Sub-region blocks start one past a multiple of four, no two internal
/// regions share one, every region but the root lies in one, and there are
/// four regions per internal region besides the root.
pub open spec fn parents_wf(rs: Seq<Region>) -> bool {
    &&& rs.len() == 1 + 4 * count_internal(rs)
    &&& forall|i: int|
        0 <= i < rs.len() && (#[trigger] rs[i]).first_child is Some ==> (rs[i].first_child.unwrap()
            - 1) % 4 == 0
    &&& forall|i1: int, i2: int|
        0 <= i1 < rs.len() && 0 <= i2 < rs.len() && i1 != i2 && (#[trigger] rs[i1]).first_child is Some
            ==> rs[i1].first_child != (#[trigger] rs[i2]).first_child
    &&& forall|j: int| 1 <= j < rs.len() ==> #[trigger] has_parent(rs, j)
}

/// Some region of `rs` has region `j` among its sub-regions.
pub open spec fn has_parent(rs: Seq<Region>, j: int) -> bool {
    exists|i: int| 0 <= i < rs.len() && #[trigger] is_child_of(rs, j, i)
}

proof fn lemma_count_push(rs: Seq<Region>, x: Region)
    ensures
        count_internal(rs.push(x)) == count_internal(rs) + if x.first_child is Some { 1nat } else { 0nat },
{
    assert(rs.push(x).drop_last() =~= rs);
}

proof fn lemma_count_update(rs: Seq<Region>, r: int, x: Region)
    requires
        0 <= r < rs.len(),
    ensures
        count_internal(rs.update(r, x)) + (if rs[r].first_child is Some { 1int } else { 0int })
            == count_internal(rs) + (if x.first_child is Some { 1int } else { 0int }),
    decreases rs.len(),
{
    let rs2 = rs.update(r, x);
    if r == rs.len() - 1 {
        assert(rs2.drop_last() =~= rs.drop_last());
    } else {
        lemma_count_update(rs.drop_last(), r, x);
        assert(rs2.drop_last() =~= rs.drop_last().update(r, x));
    }
}

proof fn lemma_split_parents(rs: Seq<Region>, r: int)
    requires
        parents_wf(rs),
        forall|i: int| 0 <= i < rs.len() ==> #[trigger] children_linked(rs, i),
        0 <= r < rs.len(),
        rs[r].first_child is None,
        rs.len() + 4 <= usize::MAX,
    ensures
        parents_wf(split_regions(rs, r)),
{
    let len = rs.len() as int;
    let ns = rs[r].next_sibling;
    let x = Region { node: None, first_child: Some(len as usize), next_sibling: ns };
    let u = rs.update(r, x);
    let rs2 = split_regions(rs, r);
    lemma_count_update(rs, r, x);
    let l1 = Region { node: None, first_child: None, next_sibling: Some((len + 1) as usize) };
    let l2 = Region { node: None, first_child: None, next_sibling: Some((len + 2) as usize) };
    let l3 = Region { node: None, first_child: None, next_sibling: Some((len + 3) as usize) };
    let l4 = Region { node: None, first_child: None, next_sibling: ns };
    lemma_count_push(u, l1);
    lemma_count_push(u.push(l1), l2);
    lemma_count_push(u.push(l1).push(l2), l3);
    lemma_count_push(u.push(l1).push(l2).push(l3), l4);
    assert(rs2 == u.push(l1).push(l2).push(l3).push(l4));
    assert(rs2.len() == 1 + 4 * count_internal(rs2));
    assert forall|i: int|
        0 <= i < rs2.len() && (#[trigger] rs2[i]).first_child is Some implies (rs2[i].first_child.unwrap()
            - 1) % 4 == 0 by {
        if i != r {
            assert(rs2[i] == rs[i]);
        }
    }
    assert forall|i1: int, i2: int|
        0 <= i1 < rs2.len() && 0 <= i2 < rs2.len() && i1 != i2 && (#[trigger] rs2[i1]).first_child is Some
            implies rs2[i1].first_child != (#[trigger] rs2[i2]).first_child by {
        assert(i1 < len);
        if i2 < len && i1 != r && i2 != r {
            assert(rs2[i1] == rs[i1] && rs2[i2] == rs[i2]);
        } else if i1 == r && i2 < len {
            assert(rs2[i2] == rs[i2]);
            if let Some(c) = rs[i2].first_child {
                assert(children_linked(rs, i2));
            }
        } else if i2 == r {
            assert(rs2[i1] == rs[i1]);
            assert(children_linked(rs, i1));
        }
    }
    assert forall|j: int| 1 <= j < rs2.len() implies #[trigger] has_parent(rs2, j) by {
        if j < len {
            assert(has_parent(rs, j));
            let i = choose|i: int| 0 <= i < rs.len() && #[trigger] is_child_of(rs, j, i);
            assert(i != r);
            assert(rs2[i] == rs[i]);
            assert(is_child_of(rs2, j, i));
        } else {
            assert(is_child_of(rs2, j, r));
        }
    }
}

proof fn lemma_put_parents(rs: Seq<Region>, r: int, n: usize)
    requires
        parents_wf(rs),
        0 <= r < rs.len(),
        rs[r].first_child is None,
    ensures
        parents_wf(rs.update(r, Region { node: Some(n), first_child: None, next_sibling: rs[r].next_sibling })),
{
    let x = Region { node: Some(n), first_child: None, next_sibling: rs[r].next_sibling };
    let rs2 = rs.update(r, x);
    lemma_count_update(rs, r, x);
    assert forall|i: int|
        0 <= i < rs2.len() && (#[trigger] rs2[i]).first_child is Some implies (rs2[i].first_child.unwrap()
            - 1) % 4 == 0 by {
        assert(rs2[i] == rs[i]);
    }
    assert forall|i1: int, i2: int|
        0 <= i1 < rs2.len() && 0 <= i2 < rs2.len() && i1 != i2 && (#[trigger] rs2[i1]).first_child is Some
            implies rs2[i1].first_child != (#[trigger] rs2[i2]).first_child by {
        assert(rs2[i1] == rs[i1]);
        if i2 != r {
            assert(rs2[i2] == rs[i2]);
        }
    }
    assert forall|j: int| 1 <= j < rs2.len() implies #[trigger] has_parent(rs2, j) by {
        assert(has_parent(rs, j));
        let i = choose|i: int| 0 <= i < rs.len() && #[trigger] is_child_of(rs, j, i);
        assert(i != r);
        assert(is_child_of(rs2, j, i));
    }
}

impl RegionTree {
    /// The tree is well formed.
    pub closed spec fn wf(&self) -> bool {
        &&& tree_wf(self.regions@, self.rank@)
        &&& paths_wf(self.regions@, self.paths@)
        &&& parents_wf(self.regions@)
    }

    /// The quadrants taken from the root to reach region `r`.
    pub closed spec fn path_to(&self, r: int) -> Seq<Quadrant> {
        self.paths@[r]
    }

    /// Every node the tree holds sits in the region reached from the root
    /// by quadrants that `quadrant_of` answered for that node.
    pub open spec fn nodes_placed_by<F: Fn(usize, &Vec<Quadrant>) -> Quadrant>(
        &self,
        quadrant_of: F,
    ) -> bool {
        forall|r: int|
            0 <= r < self@.len() && (#[trigger] self@[r]).node is Some ==> path_answered(
                quadrant_of,
                self@[r].node.unwrap(),
                self.path_to(r),
            )
    }

    /// The depth-first position of region `r`, from 0 at the root to one
    /// less than the number of regions.
    pub closed spec fn rank_of(&self, r: int) -> int {
        self.rank@[r]
    }

    /// The depth-first position right after the subtree of region `r`:
    /// that of the region `r` links to next, or the number of regions when
    /// it links nowhere.
    pub open spec fn end_rank(&self, r: int) -> int {
        match self@[r].next_sibling {
            Some(s) => self.rank_of(s as int),
            None => self@.len() as int,
        }
    }

    /// Some region holds node `n`.
    pub open spec fn holds(&self, n: usize) -> bool {
        exists|i: int| 0 <= i < self@.len() && (#[trigger] self@[i]).node == Some(n)
    }

    /// The set of nodes the tree holds.
    pub open spec fn held(&self) -> Set<usize> {
        Set::new(|n: usize| self.holds(n))
    }

    /// A tree of one empty root region.
    pub fn new() -> (tree: Self)
        ensures
            tree.wf(),
            tree@ == seq![Region { node: None, first_child: None, next_sibling: None }],
    {
        let mut regions: Vec<Region> = Vec::new();
        regions.push(Region { node: None, first_child: None, next_sibling: None });
        let tree = RegionTree {
            regions,
            rank: Ghost(Seq::<int>::empty().push(0int)),
            paths: Ghost(Seq::<Seq<Quadrant>>::empty().push(Seq::<Quadrant>::empty())),
        };
        assert(children_placed(tree.regions@, tree.paths@, 0));
        assert(tree.regions@.drop_last() =~= Seq::<Region>::empty());
        assert(count_internal(tree.regions@) == 0) by {
            reveal_with_fuel(count_internal, 2);
        }
        assert(children_linked(tree.regions@, 0));
        assert(links_ranked(tree.regions@, tree.rank@, 0));
        tree
    }

    /// Number of regions.
    pub fn len(&self) -> (n: usize)
        ensures
            n == self@.len(),
    {
        self.regions.len()
    }

    /// The slots of region `r`.
    pub fn region(&self, r: usize) -> (reg: Region)
        requires
            r < self@.len(),
        ensures
            reg == self@[r as int],
    {
        self.regions[r]
    }

    /// The region a Barnes-Hut walk visits after `r`: the first sub-region
    /// of `r` when the walk opens an internal `r`, and otherwise the region
    /// that follows the subtree of `r`. `None` ends the walk.
    pub fn walk_next(&self, r: usize, open: bool) -> (next: Option<usize>)
        requires
            self.wf(),
            r < self@.len(),
        ensures
            next == (if open && self@[r as int].first_child is Some {
                self@[r as int].first_child
            } else {
                self@[r as int].next_sibling
            }),
            next matches Some(s) ==> s < self@.len() && self.rank_of(s as int) > self.rank_of(
                r as int,
            ),
            open && self@[r as int].first_child is Some ==> (next matches Some(s)
                && self.rank_of(s as int) == self.rank_of(r as int) + 1),
            !(open && self@[r as int].first_child is Some) ==> match next {
                Some(s) => self.rank_of(s as int) == self.end_rank(r as int),
                None => self.end_rank(r as int) == self@.len(),
            },
    {
        assert(links_ranked(self.regions@, self.rank@, r as int));
        let reg = self.regions[r];
        if open && reg.first_child.is_some() {
            reg.first_child
        } else {
            reg.next_sibling
        }
    }
}

/// The regions after splitting leaf `r`: it becomes internal over four new
/// empty leaves appended at the end, and gives up its node.
pub open spec fn split_regions(rs: Seq<Region>, r: int) -> Seq<Region> {
    let c = rs.len();
    let ns = rs[r].next_sibling;
    rs.update(r, Region { node: None, first_child: Some(c as usize), next_sibling: ns }).push(
        Region { node: None, first_child: None, next_sibling: Some((c + 1) as usize) },
    ).push(Region { node: None, first_child: None, next_sibling: Some((c + 2) as usize) }).push(
        Region { node: None, first_child: None, next_sibling: Some((c + 3) as usize) },
    ).push(Region { node: None, first_child: None, next_sibling: ns })
}

/// Ranks after splitting leaf `r`: regions ranked above `r` move up by four
/// to make room for the new sub-regions right after `r`.
spec fn split_rank(rk: Seq<int>, r: int) -> Seq<int> {
    let len = rk.len();
    Seq::new(
        (len + 4) as nat,
        |x: int|
            if x < len {
                if rk[x] <= rk[r] {
                    rk[x]
                } else {
                    rk[x] + 4
                }
            } else {
                rk[r] + 1 + (x - len)
            },
    )
}

proof fn lemma_split_wf(rs: Seq<Region>, rk: Seq<int>, r: int)
    requires
        tree_wf(rs, rk),
        0 <= r < rs.len(),
        rs[r].first_child is None,
        rs.len() + 4 <= usize::MAX,
    ensures
        tree_wf(split_regions(rs, r), split_rank(rk, r)),
{
    let rs2 = split_regions(rs, r);
    let rk2 = split_rank(rk, r);
    let len = rs.len() as int;
    assert(rs2.len() == len + 4);
    assert(links_ranked(rs, rk, r));
    assert forall|i: int| 0 <= i < rs2.len() implies #[trigger] children_linked(rs2, i) by {
        if i < len && i != r {
            assert(children_linked(rs, i));
            if let Some(c) = rs[i].first_child {
                assert(rs2[c as int].next_sibling == rs[c as int].next_sibling);
                assert(rs2[c as int + 1].next_sibling == rs[c as int + 1].next_sibling);
                assert(rs2[c as int + 2].next_sibling == rs[c as int + 2].next_sibling);
                assert(rs2[c as int + 3].next_sibling == rs[c as int + 3].next_sibling);
            }
        }
    }
    assert forall|i: int| 0 <= i < rs2.len() implies #[trigger] links_ranked(rs2, rk2, i) by {
        if i < len {
            assert(links_ranked(rs, rk, i));
            if i != r {
                assert(rk[i] != rk[r]);
            }
            if let Some(c) = rs2[i].first_child {
                if i != r {
                    assert(rk[c as int] == rk[i] + 1);
                }
            }
            if let Some(s) = rs2[i].next_sibling {
                assert(rs2[i].next_sibling == rs[i].next_sibling);
                assert(rk[s as int] > rk[i]);
            }
        } else if i == len + 3 {
            if let Some(s) = rs2[i].next_sibling {
                assert(rs[r].next_sibling == Some(s));
                assert(rk[s as int] == rk[r] + 1);
            }
        }
    }
    assert forall|i: int, j: int| 0 <= i < rk2.len() && 0 <= j < rk2.len() && i != j implies #[trigger] rk2[i] != #[trigger] rk2[j] by {
        if i < len && j < len {
            assert(rk[i] != rk[j]);
        }
        if i < len {
            assert(links_ranked(rs, rk, i));
        }
        if j < len {
            assert(links_ranked(rs, rk, j));
        }
    }
    assert forall|i: int, j: int|
        0 <= i < rs2.len() && 0 <= j < rs2.len() && i != j && (#[trigger] rs2[i]).node is Some
            implies rs2[i].node != (#[trigger] rs2[j]).node by {
        assert(i < len && i != r);
        if j < len && j != r {
            assert(rs[i].node != rs[j].node);
        }
    }
}

/// Paths after splitting leaf `r`: the new sub-regions extend its path.
spec fn split_paths(ps: Seq<Seq<Quadrant>>, r: int) -> Seq<Seq<Quadrant>> {
    ps.push(ps[r].push(Quadrant::TopLeft)).push(ps[r].push(Quadrant::BottomLeft)).push(
        ps[r].push(Quadrant::TopRight),
    ).push(ps[r].push(Quadrant::BottomRight))
}

proof fn lemma_split_paths(rs: Seq<Region>, ps: Seq<Seq<Quadrant>>, r: int)
    requires
        paths_wf(rs, ps),
        forall|i: int| 0 <= i < rs.len() ==> #[trigger] children_linked(rs, i),
        0 <= r < rs.len(),
        rs[r].first_child is None,
        rs.len() + 4 <= usize::MAX,
    ensures
        paths_wf(split_regions(rs, r), split_paths(ps, r)),
{
    let rs2 = split_regions(rs, r);
    let ps2 = split_paths(ps, r);
    let len = rs.len() as int;
    assert(rs2.len() == len + 4);
    assert(ps2.len() == len + 4);
    assert forall|i: int| 0 <= i < rs2.len() implies #[trigger] children_placed(rs2, ps2, i) by {
        if i < len && i != r {
            assert(children_placed(rs, ps, i));
            assert(children_linked(rs, i));
            assert(rs2[i] == rs[i]);
            if let Some(c) = rs[i].first_child {
                let c = c as int;
                assert(ps2[c] == ps[c]);
                assert(ps2[c + 1] == ps[c + 1]);
                assert(ps2[c + 2] == ps[c + 2]);
                assert(ps2[c + 3] == ps[c + 3]);
                assert(ps2[i] == ps[i]);
            }
        } else if i == r {
            assert(rs2[r].first_child == Some(len as usize));
            assert(ps2[r] == ps[r]);
            assert(ps2[len] == ps[r].push(Quadrant::TopLeft));
        } else {
            assert(rs2[i].first_child is None);
        }
    }
}

proof fn lemma_put_node_wf(rs: Seq<Region>, rk: Seq<int>, r: int, n: usize)
    requires
        tree_wf(rs, rk),
        0 <= r < rs.len(),
        rs[r].first_child is None,
        forall|i: int| 0 <= i < rs.len() ==> (#[trigger] rs[i]).node != Some(n),
    ensures
        tree_wf(
            rs.update(r, Region { node: Some(n), first_child: None, next_sibling: rs[r].next_sibling }),
            rk,
        ),
{
    let rs2 = rs.update(
        r,
        Region { node: Some(n), first_child: None, next_sibling: rs[r].next_sibling },
    );
    assert forall|i: int| 0 <= i < rs2.len() implies #[trigger] children_linked(rs2, i) by {
        assert(children_linked(rs, i));
        if let Some(c) = rs[i].first_child {
            assert(i != r);
            assert(rs2[c as int].next_sibling == rs[c as int].next_sibling);
            assert(rs2[c as int + 1].next_sibling == rs[c as int + 1].next_sibling);
            assert(rs2[c as int + 2].next_sibling == rs[c as int + 2].next_sibling);
            assert(rs2[c as int + 3].next_sibling == rs[c as int + 3].next_sibling);
        }
    }
    assert forall|i: int| 0 <= i < rs2.len() implies #[trigger] links_ranked(rs2, rk, i) by {
        assert(links_ranked(rs, rk, i));
    }
    assert forall|i: int, j: int|
        0 <= i < rs2.len() && 0 <= j < rs2.len() && i != j && (#[trigger] rs2[i]).node is Some
            implies rs2[i].node != (#[trigger] rs2[j]).node by {
        if i != r && j != r {
            assert(rs[i].node != rs[j].node);
        } else if i != r {
            assert(rs[i].node != Some(n));
        }
    }
}

impl RegionTree {
    /// Splits leaf `r`; returns the number of its first sub-region.
    fn split_leaf(&mut self, r: usize) -> (c: usize)
        requires
            old(self).wf(),
            r < old(self)@.len(),
            old(self)@[r as int].first_child is None,
            old(self)@.len() + 4 <= usize::MAX,
        ensures
            final(self).wf(),
            c == old(self)@.len(),
            final(self)@ == split_regions(old(self)@, r as int),
            final(self).paths@ == split_paths(old(self).paths@, r as int),
            forall|i: int| 0 <= i < old(self)@.len() ==> #[trigger] final(self).path_to(i) == old(self).path_to(i),
            final(self).path_to(c as int) == old(self).path_to(r as int).push(Quadrant::TopLeft),
            final(self).path_to(c + 1) == old(self).path_to(r as int).push(Quadrant::BottomLeft),
            final(self).path_to(c + 2) == old(self).path_to(r as int).push(Quadrant::TopRight),
            final(self).path_to(c + 3) == old(self).path_to(r as int).push(Quadrant::BottomRight),
            forall|m: usize|
                #[trigger] final(self).holds(m) <==> (old(self).holds(m) && old(self)@[r as int].node
                    != Some(m)),
    {
        proof {
            lemma_split_wf(self.regions@, self.rank@, r as int);
            lemma_split_paths(self.regions@, self.paths@, r as int);
            lemma_split_parents(self.regions@, r as int);
        }
        let ghost rs = self.regions@;
        let c = self.regions.len();
        let ns = self.regions[r].next_sibling;
        self.regions.set(r, Region { node: None, first_child: Some(c), next_sibling: ns });
        self.regions.push(Region { node: None, first_child: None, next_sibling: Some(c + 1) });
        self.regions.push(Region { node: None, first_child: None, next_sibling: Some(c + 2) });
        self.regions.push(Region { node: None, first_child: None, next_sibling: Some(c + 3) });
        self.regions.push(Region { node: None, first_child: None, next_sibling: ns });
        self.rank = Ghost(split_rank(self.rank@, r as int));
        self.paths = Ghost(split_paths(self.paths@, r as int));
        assert(self.regions@ =~= split_regions(rs, r as int));
        assert forall|m: usize|
            #[trigger] self.holds(m) <==> (old(self).holds(m) && rs[r as int].node != Some(m)) by {
            if self.holds(m) {
                let i = choose|i: int| 0 <= i < self@.len() && (#[trigger] self@[i]).node == Some(m);
                assert(i < rs.len() && i != r);
                assert(rs[i].node == Some(m));
            }
            if old(self).holds(m) && rs[r as int].node != Some(m) {
                let i = choose|i: int| 0 <= i < rs.len() && (#[trigger] rs[i]).node == Some(m);
                assert(i != r);
                assert(self@[i].node == Some(m));
            }
        }
        c
    }

    /// Puts node `n` into the empty leaf `r`.
    fn put_node(&mut self, r: usize, n: usize)
        requires
            old(self).wf(),
            r < old(self)@.len(),
            old(self)@[r as int].first_child is None,
            old(self)@[r as int].node is None,
            !old(self).holds(n),
        ensures
            final(self).wf(),
            final(self)@ == old(self)@.update(
                r as int,
                Region {
                    node: Some(n),
                    first_child: None,
                    next_sibling: old(self)@[r as int].next_sibling,
                },
            ),
            final(self).held() == old(self).held().insert(n),
            final(self).paths@ == old(self).paths@,
            forall|i: int| 0 <= i < old(self)@.len() ==> #[trigger] final(self).path_to(i) == old(self).path_to(i),
    {
        proof {
            lemma_put_node_wf(self.regions@, self.rank@, r as int, n);
            lemma_put_parents(self.regions@, r as int, n);
            let rs2 = self.regions@.update(
                r as int,
                Region { node: Some(n), first_child: None, next_sibling: self.regions@[r as int].next_sibling },
            );
            assert forall|i: int| 0 <= i < rs2.len() implies #[trigger] children_placed(rs2, self.paths@, i) by {
                assert(children_placed(self.regions@, self.paths@, i));
            }
        }
        let ns = self.regions[r].next_sibling;
        self.regions.set(r, Region { node: Some(n), first_child: None, next_sibling: ns });
        assert forall|m: usize| self.held().contains(m) <==> old(self).held().contains(m)
            || m == n by {
            if self.holds(m) && m != n {
                let i = choose|i: int| 0 <= i < self@.len() && (#[trigger] self@[i]).node == Some(m);
                assert(old(self)@[i].node == Some(m));
            }
            if m == n {
                assert(self@[r as int].node == Some(n));
            }
            if old(self).held().contains(m) {
                let i = choose|i: int|
                    0 <= i < old(self)@.len() && (#[trigger] old(self)@[i]).node == Some(m);
                assert(i != r);
                assert(self@[i].node == Some(m));
            }
        }
        assert(self.held() =~= old(self).held().insert(n));
    }
}

/// One step of an insertion, in the order the steps were taken.
#[derive(Clone, Copy, Debug)]
pub enum InsertEvent {
    /// The insertion passed the internal `region` on into its `quadrant`.
    Descended { region: usize, quadrant: Quadrant },
    /// The leaf `region`, which held `old_node`, was split into the four
    /// regions numbered from `first_child`; `old_node` moved into its
    /// `old_quadrant` and the inserted node lies in `new_quadrant`.
    Split {
        region: usize,
        first_child: usize,
        old_node: usize,
        old_quadrant: Quadrant,
        new_quadrant: Quadrant,
    },
}

/// Where an inserted node ended up.
#[derive(Clone, Copy, Debug, PartialEq, Eq, Structural)]
pub enum InsertOutcome {
    /// The node is held by this leaf.
    Placed(usize),
    /// The node was left out: it kept sharing a quadrant with the node
    /// already there through every allowed subdivision.
    Dropped,
}

/// What an insertion did: its steps, then where the node ended up.
pub struct InsertReport {
    pub events: Vec<InsertEvent>,
    pub outcome: InsertOutcome,
}

/// The region a step was taken at.
pub open spec fn event_region(e: InsertEvent) -> usize {
    match e {
        InsertEvent::Descended { region, .. } => region,
        InsertEvent::Split { region, .. } => region,
    }
}

/// The quadrant a step moves into if the insertion goes on after it.
pub open spec fn step_quadrant(e: InsertEvent) -> Quadrant {
    match e {
        InsertEvent::Descended { quadrant, .. } => quadrant,
        InsertEvent::Split { old_quadrant, .. } => old_quadrant,
    }
}

/// The region an insertion goes on at after step `e`.
pub open spec fn step_target(tv: Seq<Region>, e: InsertEvent) -> int {
    match e {
        InsertEvent::Descended { region, quadrant } => tv[region as int].first_child.unwrap()
            + quadrant.child_index(),
        InsertEvent::Split { first_child, old_quadrant, .. } => first_child
            + old_quadrant.child_index(),
    }
}

/// The region an insertion stands at after the steps `es`.
pub open spec fn current_region(tv: Seq<Region>, es: Seq<InsertEvent>) -> int {
    if es.len() == 0 {
        0
    } else {
        step_target(tv, es.last())
    }
}

/// Number of splits among the steps `es`.
pub open spec fn count_splits(es: Seq<InsertEvent>) -> nat
    decreases es.len(),
{
    if es.len() == 0 {
        0
    } else {
        count_splits(es.drop_last()) + if es.last() is Split {
            1nat
        } else {
            0nat
        }
    }
}

/// The quadrants taken from the root by the steps `es`.
pub open spec fn path_of(es: Seq<InsertEvent>) -> Seq<Quadrant> {
    Seq::new(es.len(), |i: int| step_quadrant(es[i]))
}

/// The steps `es` follow the tree `tv` from the root: each step stands
/// where the previous one led, a descent is taken at an internal region,
/// and a split region now has the recorded sub-regions.
pub open spec fn follows_tree(tv: Seq<Region>, es: Seq<InsertEvent>) -> bool {
    &&& (es.len() > 0 ==> event_region(es[0]) == 0)
    &&& forall|i: int|
        0 <= i < es.len() - 1 ==> event_region(#[trigger] es[i + 1]) == step_target(tv, es[i])
    &&& forall|i: int|
        0 <= i < es.len() ==> match #[trigger] es[i] {
            InsertEvent::Descended { region, .. } => region < tv.len()
                && tv[region as int].first_child is Some,
            InsertEvent::Split { region, first_child, .. } => region < tv.len()
                && tv[region as int].first_child == Some(first_child),
        }
}

/// `q` is an answer of `quadrant_of` for node `n` in the region reached
/// from the root by `path`.
pub open spec fn answered<F: Fn(usize, &Vec<Quadrant>) -> Quadrant>(
    quadrant_of: F,
    n: usize,
    path: Seq<Quadrant>,
    q: Quadrant,
) -> bool {
    exists|p: &Vec<Quadrant>| p@ == path && #[trigger] quadrant_of.ensures((n, p), q)
}

/// Each quadrant of `path` is an answer of `quadrant_of` for node `n` in the
/// region reached by the part of `path` before it.
pub open spec fn path_answered<F: Fn(usize, &Vec<Quadrant>) -> Quadrant>(
    quadrant_of: F,
    n: usize,
    path: Seq<Quadrant>,
) -> bool {
    forall|i: int| 0 <= i < path.len() ==> answered(quadrant_of, n, path.take(i), #[trigger] path[i])
}

/// Every node held in `rs` sits in a region whose path in `ps` was
/// answered for that node.
pub open spec fn placed_ok<F: Fn(usize, &Vec<Quadrant>) -> Quadrant>(
    quadrant_of: F,
    rs: Seq<Region>,
    ps: Seq<Seq<Quadrant>>,
) -> bool {
    forall|r: int|
        0 <= r < rs.len() && (#[trigger] rs[r]).node is Some ==> path_answered(
            quadrant_of,
            rs[r].node.unwrap(),
            ps[r],
        )
}

proof fn lemma_path_answered_push<F: Fn(usize, &Vec<Quadrant>) -> Quadrant>(
    quadrant_of: F,
    n: usize,
    path: Seq<Quadrant>,
    q: Quadrant,
)
    requires
        path_answered(quadrant_of, n, path),
        answered(quadrant_of, n, path, q),
    ensures
        path_answered(quadrant_of, n, path.push(q)),
{
    let p2 = path.push(q);
    assert forall|i: int| 0 <= i < p2.len() implies answered(quadrant_of, n, p2.take(i), #[trigger] p2[i]) by {
        if i < path.len() {
            assert(p2.take(i) =~= path.take(i));
            assert(p2[i] == path[i]);
        } else {
            assert(p2.take(i) =~= path);
        }
    }
}

proof fn lemma_put_keeps_placed<F: Fn(usize, &Vec<Quadrant>) -> Quadrant>(
    quadrant_of: F,
    rs: Seq<Region>,
    ps: Seq<Seq<Quadrant>>,
    r: int,
    n: usize,
)
    requires
        placed_ok(quadrant_of, rs, ps),
        0 <= r < rs.len(),
        path_answered(quadrant_of, n, ps[r]),
    ensures
        placed_ok(
            quadrant_of,
            rs.update(r, Region { node: Some(n), first_child: None, next_sibling: rs[r].next_sibling }),
            ps,
        ),
{
    let rs2 = rs.update(r, Region { node: Some(n), first_child: None, next_sibling: rs[r].next_sibling });
    assert forall|i: int| 0 <= i < rs2.len() && (#[trigger] rs2[i]).node is Some implies path_answered(
        quadrant_of,
        rs2[i].node.unwrap(),
        ps[i],
    ) by {
        if i != r {
            assert(rs2[i] == rs[i]);
        }
    }
}

proof fn lemma_split_keeps_placed<F: Fn(usize, &Vec<Quadrant>) -> Quadrant>(
    quadrant_of: F,
    rs: Seq<Region>,
    ps: Seq<Seq<Quadrant>>,
    r: int,
)
    requires
        placed_ok(quadrant_of, rs, ps),
        0 <= r < rs.len(),
        ps.len() == rs.len(),
    ensures
        placed_ok(quadrant_of, split_regions(rs, r), split_paths(ps, r)),
{
    let rs2 = split_regions(rs, r);
    let ps2 = split_paths(ps, r);
    assert forall|i: int| 0 <= i < rs2.len() && (#[trigger] rs2[i]).node is Some implies path_answered(
        quadrant_of,
        rs2[i].node.unwrap(),
        ps2[i],
    ) by {
        assert(i < rs.len() && i != r);
        assert(rs2[i] == rs[i]);
        assert(ps2[i] == ps[i]);
    }
}

/// Every quadrant in the steps `es` of inserting `node` is what
/// `quadrant_of` answered for the node concerned at that point of the path.
pub open spec fn quadrants_answered<F: Fn(usize, &Vec<Quadrant>) -> Quadrant>(
    quadrant_of: F,
    node: usize,
    es: Seq<InsertEvent>,
) -> bool {
    forall|i: int|
        0 <= i < es.len() ==> match #[trigger] es[i] {
            InsertEvent::Descended { quadrant, .. } => answered(
                quadrant_of,
                node,
                path_of(es).take(i),
                quadrant,
            ),
            InsertEvent::Split { old_node, old_quadrant, new_quadrant, .. } => answered(
                quadrant_of,
                old_node,
                path_of(es).take(i),
                old_quadrant,
            ) && answered(quadrant_of, node, path_of(es).take(i), new_quadrant),
        }
}

/// Every split among the steps `es`, but possibly the last step, put both
/// nodes in the same quadrant, so the insertion retried there.
pub open spec fn splits_retried(es: Seq<InsertEvent>) -> bool {
    forall|i: int|
        0 <= i < es.len() - 1 ==> match #[trigger] es[i] {
            InsertEvent::Split { old_quadrant, new_quadrant, .. } => old_quadrant == new_quadrant,
            _ => true,
        }
}

/// Regions that existed before keep their link to what follows them, and
/// those that were internal are left exactly as they were.
pub open spec fn keeps_existing(before: Seq<Region>, after: Seq<Region>) -> bool {
    &&& before.len() <= after.len()
    &&& forall|i: int|
        0 <= i < before.len() ==> (#[trigger] after[i]).next_sibling == before[i].next_sibling
    &&& forall|i: int|
        0 <= i < before.len() && (#[trigger] before[i]).first_child is Some ==> after[i]
            == before[i]
}

/// When the last of the steps `es` is a split, the node that held the
/// split region now sits alone in the sub-region of its own quadrant.
pub open spec fn old_node_moved(tv: Seq<Region>, es: Seq<InsertEvent>) -> bool {
    es.len() > 0 ==> (es.last() matches InsertEvent::Split {
        first_child,
        old_node,
        old_quadrant,
        ..
    } ==> {
        &&& tv[first_child + old_quadrant.child_index()].node == Some(old_node)
        &&& tv[first_child + old_quadrant.child_index()].first_child is None
    })
}

/// None of the steps `es` was taken at region `i`.
pub open spec fn untouched_by(es: Seq<InsertEvent>, i: int) -> bool {
    forall|j: int| 0 <= j < es.len() ==> event_region(#[trigger] es[j]) != i
}

proof fn lemma_untouched_push(es: Seq<InsertEvent>, e: InsertEvent)
    ensures
        forall|i: int| #[trigger] untouched_by(es.push(e), i) ==> untouched_by(es, i) && event_region(e) != i,
{
    let es2 = es.push(e);
    assert forall|i: int| #[trigger] untouched_by(es2, i) implies untouched_by(es, i) && event_region(e) != i by {
        assert(es2[es.len() as int] == e);
        assert forall|j: int| 0 <= j < es.len() implies event_region(#[trigger] es[j]) != i by {
            assert(es2[j] == es[j]);
        }
    }
}

/// A leaf that holds no node.
pub open spec fn is_empty_leaf(r: Region) -> bool {
    r.node is None && r.first_child is None
}

/// Region `i` is a sub-region made by the split `e`, in a quadrant that
/// neither of the split's two nodes went to.
pub open spec fn left_empty_by(e: InsertEvent, i: int) -> bool {
    match e {
        InsertEvent::Split { first_child, old_quadrant, new_quadrant, .. } => {
            &&& first_child <= i < first_child + 4
            &&& i != first_child + old_quadrant.child_index()
            &&& i != first_child + new_quadrant.child_index()
        },
        _ => false,
    }
}

/// Every empty leaf of `after` was an empty leaf of `before` or was left
/// empty by one of the splits among the steps `es`.
pub open spec fn empty_leaves_from(before: Seq<Region>, after: Seq<Region>, es: Seq<InsertEvent>) -> bool {
    forall|i: int|
        0 <= i < after.len() && is_empty_leaf(#[trigger] after[i]) ==> (i < before.len()
            && is_empty_leaf(before[i])) || exists|j: int|
            0 <= j < es.len() && #[trigger] left_empty_by(es[j], i)
}

proof fn lemma_empty_leaves_push(
    before: Seq<Region>,
    after: Seq<Region>,
    es: Seq<InsertEvent>,
    e: InsertEvent,
)
    requires
        empty_leaves_from(before, after, es),
    ensures
        empty_leaves_from(before, after, es.push(e)),
{
    let es2 = es.push(e);
    assert forall|i: int| 0 <= i < after.len() && is_empty_leaf(#[trigger] after[i]) implies (i
        < before.len() && is_empty_leaf(before[i])) || exists|j: int|
        0 <= j < es2.len() && #[trigger] left_empty_by(es2[j], i) by {
        if !(i < before.len() && is_empty_leaf(before[i])) {
            let j = choose|j: int| 0 <= j < es.len() && #[trigger] left_empty_by(es[j], i);
            assert(es2[j] == es[j]);
            assert(left_empty_by(es2[j], i));
        }
    }
}

proof fn lemma_empty_leaves_put(
    before: Seq<Region>,
    tv: Seq<Region>,
    es: Seq<InsertEvent>,
    r: int,
    reg: Region,
)
    requires
        empty_leaves_from(before, tv, es),
        0 <= r < tv.len(),
        reg.node is Some,
    ensures
        empty_leaves_from(before, tv.update(r, reg), es),
{
    let after = tv.update(r, reg);
    assert forall|i: int| 0 <= i < after.len() && is_empty_leaf(#[trigger] after[i]) implies (i
        < before.len() && is_empty_leaf(before[i])) || exists|j: int|
        0 <= j < es.len() && #[trigger] left_empty_by(es[j], i) by {
        assert(i != r);
        assert(after[i] == tv[i]);
    }
}

proof fn lemma_empty_leaves_split(
    before: Seq<Region>,
    tv: Seq<Region>,
    after: Seq<Region>,
    es: Seq<InsertEvent>,
    e: InsertEvent,
    r: int,
)
    requires
        empty_leaves_from(before, tv, es),
        0 <= r < tv.len(),
        after.len() == tv.len() + 4,
        forall|i: int| 0 <= i < tv.len() && i != r ==> #[trigger] after[i] == tv[i],
        after[r].first_child is Some,
        e matches InsertEvent::Split { first_child, old_quadrant, new_quadrant, .. } && {
            &&& first_child == tv.len()
            &&& after[first_child + old_quadrant.child_index()].node is Some
            &&& after[first_child + new_quadrant.child_index()].node is Some
        },
    ensures
        empty_leaves_from(before, after, es.push(e)),
{
    let es2 = es.push(e);
    assert(es2[es.len() as int] == e);
    assert forall|i: int| 0 <= i < after.len() && is_empty_leaf(#[trigger] after[i]) implies (i
        < before.len() && is_empty_leaf(before[i])) || exists|j: int|
        0 <= j < es2.len() && #[trigger] left_empty_by(es2[j], i) by {
        if i < tv.len() {
            assert(i != r);
            assert(after[i] == tv[i]);
            if !(i < before.len() && is_empty_leaf(before[i])) {
                let j = choose|j: int| 0 <= j < es.len() && #[trigger] left_empty_by(es[j], i);
                assert(es2[j] == es[j]);
                assert(left_empty_by(es2[j], i));
            }
        } else {
            assert(left_empty_by(es2[es.len() as int], i));
        }
    }
}

proof fn lemma_count_splits_push(es: Seq<InsertEvent>, e: InsertEvent)
    ensures
        count_splits(es.push(e)) == count_splits(es) + if e is Split {
            1nat
        } else {
            0nat
        },
{
    assert(es.push(e).drop_last() =~= es);
}

/// How step `i` of an insertion stands to the tree `before` it and to the
/// step before it. A descent comes only before any split, at a region that
/// was internal. A split right after a split is a retry: it splits the leaf
/// the previous split moved the same old node into, after both nodes fell
/// in the same quadrant. Any other split is of a leaf that held `old_node`.
pub open spec fn step_shaped(before: Seq<Region>, es: Seq<InsertEvent>, i: int) -> bool {
    match es[i] {
        InsertEvent::Descended { region, .. } => {
            &&& (i == 0 || es[i - 1] is Descended)
            &&& region < before.len()
            &&& before[region as int].first_child is Some
        },
        InsertEvent::Split { region, old_node, .. } => if i > 0 && es[i - 1] is Split {
            match es[i - 1] {
                InsertEvent::Split {
                    old_node: previous,
                    first_child,
                    old_quadrant,
                    new_quadrant,
                    ..
                } => {
                    &&& previous == old_node
                    &&& old_quadrant == new_quadrant
                    &&& region == first_child + old_quadrant.child_index()
                },
                _ => false,
            }
        } else {
            &&& region < before.len()
            &&& before[region as int].node == Some(old_node)
            &&& before[region as int].first_child is None
        },
    }
}

/// Every step of `es` stands as `step_shaped` says to the tree `before`.
pub open spec fn steps_shaped(before: Seq<Region>, es: Seq<InsertEvent>) -> bool {
    forall|i: int| 0 <= i < es.len() ==> #[trigger] step_shaped(before, es, i)
}

proof fn lemma_steps_push(before: Seq<Region>, es: Seq<InsertEvent>, e: InsertEvent)
    requires
        steps_shaped(before, es),
        step_shaped(before, es.push(e), es.len() as int),
    ensures
        steps_shaped(before, es.push(e)),
{
    let es2 = es.push(e);
    assert forall|i: int| 0 <= i < es2.len() implies #[trigger] step_shaped(before, es2, i) by {
        if i < es.len() {
            assert(step_shaped(before, es, i));
            assert(es2[i] == es[i]);
            if i > 0 {
                assert(es2[i - 1] == es[i - 1]);
            }
        }
    }
}

/// The splits among the steps `es`, taken on a tree of `len` regions,
/// appended their sub-regions in order: each split's first sub-region is
/// numbered after all regions before it.
pub open spec fn splits_numbered(len: int, es: Seq<InsertEvent>) -> bool {
    forall|i: int|
        0 <= i < es.len() ==> match #[trigger] es[i] {
            InsertEvent::Split { first_child, .. } => first_child == len + 4 * count_splits(
                es.take(i),
            ),
            _ => true,
        }
}

proof fn lemma_numbered_push(len: int, es: Seq<InsertEvent>, e: InsertEvent)
    requires
        splits_numbered(len, es),
        e matches InsertEvent::Split { first_child, .. } ==> first_child == len + 4 * count_splits(es),
    ensures
        splits_numbered(len, es.push(e)),
{
    let es2 = es.push(e);
    assert(es2.take(es.len() as int) =~= es);
    assert forall|i: int| 0 <= i < es2.len() implies match #[trigger] es2[i] {
        InsertEvent::Split { first_child, .. } => first_child == len + 4 * count_splits(es2.take(i)),
        _ => true,
    } by {
        if i < es.len() {
            assert(es2[i] == es[i]);
            assert(es2.take(i) =~= es.take(i));
        }
    }
}

/// Every split among the steps `es` put both nodes in the same quadrant.
spec fn all_retried(es: Seq<InsertEvent>) -> bool {
    forall|i: int|
        0 <= i < es.len() ==> match #[trigger] es[i] {
            InsertEvent::Split { old_quadrant, new_quadrant, .. } => old_quadrant == new_quadrant,
            _ => true,
        }
}

proof fn lemma_retried_push(es: Seq<InsertEvent>, e: InsertEvent)
    requires
        all_retried(es),
    ensures
        splits_retried(es.push(e)),
        (e matches InsertEvent::Split { old_quadrant, new_quadrant, .. } ==> old_quadrant
            == new_quadrant) ==> all_retried(es.push(e)),
{
    let es2 = es.push(e);
    assert forall|i: int| 0 <= i < es2.len() - 1 implies match #[trigger] es2[i] {
        InsertEvent::Split { old_quadrant, new_quadrant, .. } => old_quadrant == new_quadrant,
        _ => true,
    } by {
        assert(es2[i] == es[i]);
    }
    if e matches InsertEvent::Split { old_quadrant, new_quadrant, .. } ==> old_quadrant == new_quadrant {
        assert forall|i: int| 0 <= i < es2.len() implies match #[trigger] es2[i] {
            InsertEvent::Split { old_quadrant, new_quadrant, .. } => old_quadrant == new_quadrant,
            _ => true,
        } by {
            if i < es.len() {
                assert(es2[i] == es[i]);
            }
        }
    }
}

/// Where `insert` says a placed node went: into the region the steps led
/// to, or, when the last step was a split that separated the two nodes,
/// into the new node's quadrant of that split.
pub open spec fn placed_at(tv: Seq<Region>, es: Seq<InsertEvent>, leaf: int) -> bool {
    if es.len() > 0 && es.last() is Split {
        match es.last() {
            InsertEvent::Split { first_child, old_quadrant, new_quadrant, .. } => old_quadrant
                != new_quadrant && leaf == first_child + new_quadrant.child_index(),
            _ => false,
        }
    } else {
        leaf == current_region(tv, es)
    }
}

proof fn lemma_path_push(es: Seq<InsertEvent>, e: InsertEvent)
    ensures
        path_of(es.push(e)) == path_of(es).push(step_quadrant(e)),
        forall|i: int| 0 <= i <= es.len() ==> path_of(es.push(e)).take(i) == path_of(es).take(i),
{
    assert(path_of(es.push(e)) =~= path_of(es).push(step_quadrant(e)));
    assert forall|i: int| 0 <= i <= es.len() implies path_of(es.push(e)).take(i) == path_of(
        es,
    ).take(i) by {
        assert(path_of(es.push(e)).take(i) =~= path_of(es).take(i));
    }
}

proof fn lemma_answered_push<F: Fn(usize, &Vec<Quadrant>) -> Quadrant>(
    quadrant_of: F,
    node: usize,
    es: Seq<InsertEvent>,
    e: InsertEvent,
)
    requires
        quadrants_answered(quadrant_of, node, es),
        match e {
            InsertEvent::Descended { quadrant, .. } => answered(
                quadrant_of,
                node,
                path_of(es),
                quadrant,
            ),
            InsertEvent::Split { old_node, old_quadrant, new_quadrant, .. } => answered(
                quadrant_of,
                old_node,
                path_of(es),
                old_quadrant,
            ) && answered(quadrant_of, node, path_of(es), new_quadrant),
        },
    ensures
        quadrants_answered(quadrant_of, node, es.push(e)),
{
    lemma_path_push(es, e);
    let es2 = es.push(e);
    assert(path_of(es2).take(es.len() as int) =~= path_of(es));
    assert forall|i: int| 0 <= i < es2.len() implies match #[trigger] es2[i] {
        InsertEvent::Descended { quadrant, .. } => answered(
            quadrant_of,
            node,
            path_of(es2).take(i),
            quadrant,
        ),
        InsertEvent::Split { old_node, old_quadrant, new_quadrant, .. } => answered(
            quadrant_of,
            old_node,
            path_of(es2).take(i),
            old_quadrant,
        ) && answered(quadrant_of, node, path_of(es2).take(i), new_quadrant),
    } by {
        if i < es.len() {
            assert(es2[i] == es[i]);
            assert(path_of(es2).take(i) == path_of(es).take(i));
        }
    }
}

proof fn lemma_follows_push(tv: Seq<Region>, es: Seq<InsertEvent>, e: InsertEvent)
    requires
        follows_tree(tv, es),
        event_region(e) == current_region(tv, es),
        match e {
            InsertEvent::Descended { region, .. } => region < tv.len()
                && tv[region as int].first_child is Some,
            InsertEvent::Split { region, first_child, .. } => region < tv.len()
                && tv[region as int].first_child == Some(first_child),
        },
    ensures
        follows_tree(tv, es.push(e)),
        current_region(tv, es.push(e)) == step_target(tv, e),
{
    let es2 = es.push(e);
    assert forall|i: int| 0 <= i < es2.len() - 1 implies event_region(#[trigger] es2[i + 1])
        == step_target(tv, es2[i]) by {
        if i + 1 < es.len() {
            assert(es2[i + 1] == es[i + 1]);
        }
    }
    assert forall|i: int| 0 <= i < es2.len() implies match #[trigger] es2[i] {
        InsertEvent::Descended { region, .. } => region < tv.len()
            && tv[region as int].first_child is Some,
        InsertEvent::Split { region, first_child, .. } => region < tv.len()
            && tv[region as int].first_child == Some(first_child),
    } by {
        if i < es.len() {
            assert(es2[i] == es[i]);
        }
    }
}

proof fn lemma_follows_frame(tv: Seq<Region>, tv2: Seq<Region>, es: Seq<InsertEvent>)
    requires
        follows_tree(tv, es),
        tv.len() <= tv2.len(),
        forall|i: int|
            0 <= i < tv.len() && (#[trigger] tv[i]).first_child is Some ==> tv2[i] == tv[i],
    ensures
        follows_tree(tv2, es),
        es.len() > 0 ==> current_region(tv2, es) == current_region(tv, es),
{
    assert forall|i: int| 0 <= i < es.len() implies step_target(tv2, es[i]) == step_target(
        tv,
        es[i],
    ) by {
        let e = es[i];
        assert(match e {
            InsertEvent::Descended { region, .. } => region < tv.len()
                && tv[region as int].first_child is Some,
            InsertEvent::Split { region, first_child, .. } => region < tv.len()
                && tv[region as int].first_child == Some(first_child),
        });
        if let InsertEvent::Descended { region, .. } = e {
            assert(tv2[region as int] == tv[region as int]);
        }
    }
    assert forall|i: int| 0 <= i < es.len() - 1 implies event_region(#[trigger] es[i + 1])
        == step_target(tv2, es[i]) by {
        assert(event_region(es[i + 1]) == step_target(tv, es[i]));
    }
    assert forall|i: int| 0 <= i < es.len() implies match #[trigger] es[i] {
        InsertEvent::Descended { region, .. } => region < tv2.len()
            && tv2[region as int].first_child is Some,
        InsertEvent::Split { region, first_child, .. } => region < tv2.len()
            && tv2[region as int].first_child == Some(first_child),
    } by {
        let e = es[i];
        assert(match e {
            InsertEvent::Descended { region, .. } => region < tv.len()
                && tv[region as int].first_child is Some,
            InsertEvent::Split { region, first_child, .. } => region < tv.len()
                && tv[region as int].first_child == Some(first_child),
        });
        assert(tv2[event_region(e) as int] == tv[event_region(e) as int]);
    }
}

proof fn lemma_keeps_trans(a: Seq<Region>, b: Seq<Region>, c: Seq<Region>)
    requires
        keeps_existing(a, b),
        b.len() <= c.len(),
        forall|i: int| 0 <= i < b.len() ==> (#[trigger] c[i]).next_sibling == b[i].next_sibling,
        forall|i: int| 0 <= i < b.len() && (#[trigger] b[i]).first_child is Some ==> c[i] == b[i],
    ensures
        keeps_existing(a, c),
{
    assert forall|i: int| 0 <= i < a.len() && (#[trigger] a[i]).first_child is Some implies c[i]
        == a[i] by {
        assert(b[i] == a[i]);
    }
    assert forall|i: int| 0 <= i < a.len() implies (#[trigger] c[i]).next_sibling
        == a[i].next_sibling by {
        assert(b[i].next_sibling == a[i].next_sibling);
    }
}

/// What every insertion's report shows whatever the tree: at most
/// `SUBDIVISION_ATTEMPTS + 1` splits, every split but the last a retry; a
/// node placed by a split was separated from the old node there; a dropped
/// node went through all the splits and still shared the old node's
/// quadrant at the last.
pub open spec fn report_shaped(report: InsertReport) -> bool {
    let es = report.events@;
    &&& count_splits(es) <= SUBDIVISION_ATTEMPTS + 1
    &&& splits_retried(es)
    &&& match report.outcome {
        InsertOutcome::Placed(_) => es.len() > 0 ==> match es.last() {
            InsertEvent::Split { old_quadrant, new_quadrant, .. } => old_quadrant != new_quadrant,
            _ => true,
        },
        InsertOutcome::Dropped => {
            &&& count_splits(es) == SUBDIVISION_ATTEMPTS + 1
            &&& es.len() > 0
            &&& es.last() matches InsertEvent::Split { old_quadrant, new_quadrant, .. }
                && old_quadrant == new_quadrant
        },
    }
}

/// The sub-region of an internal region in quadrant `q` is reached from
/// the root by the path of its parent followed by `q`.
pub proof fn lemma_child_path(tree: &RegionTree, r: int, q: Quadrant)
    requires
        tree.wf(),
        0 <= r < tree@.len(),
        tree@[r].first_child is Some,
    ensures
        tree@[r].first_child.unwrap() + q.child_index() < tree@.len(),
        tree.path_to(tree@[r].first_child.unwrap() + q.child_index()) == tree.path_to(r).push(q),
{
    assert(children_linked(tree.regions@, r));
    assert(children_placed(tree.regions@, tree.paths@, r));
}

impl RegionTree {
    /// Splits the leaf `r`, which holds `old_node`, moves `old_node` into
    /// the quadrant `quadrant_of` names for it, and places `node` in its
    /// own quadrant when that differs. `path` leads from the root to `r`.
    /// Returns the first new sub-region and the two quadrants.
    fn split_occupied<F: Fn(usize, &Vec<Quadrant>) -> Quadrant>(
        &mut self,
        r: usize,
        old_node: usize,
        node: usize,
        quadrant_of: &F,
        path: &Vec<Quadrant>,
    ) -> (res: (usize, Quadrant, Quadrant))
        requires
            old(self).wf(),
            r < old(self)@.len(),
            old(self)@[r as int].first_child is None,
            old(self)@[r as int].node == Some(old_node),
            !old(self).holds(node),
            old(self)@.len() + 4 <= usize::MAX,
            old(self).path_to(r as int) == path@,
            path_answered(*quadrant_of, node, path@),
            forall|n: usize, p: &Vec<Quadrant>| #[trigger] quadrant_of.requires((n, p)),
        ensures
            final(self).wf(),
            res.0 == old(self)@.len(),
            final(self)@.len() == old(self)@.len() + 4,
            answered(*quadrant_of, old_node, path@, res.1),
            answered(*quadrant_of, node, path@, res.2),
            forall|i: int|
                0 <= i < old(self)@.len() && i != r ==> #[trigger] final(self)@[i] == old(self)@[i],
            final(self)@[r as int].first_child == Some(res.0),
            final(self)@[r as int].next_sibling == old(self)@[r as int].next_sibling,
            forall|i: int|
                0 <= i < old(self)@.len() ==> #[trigger] final(self).path_to(i) == old(self).path_to(i),
            final(self)@[res.0 + res.1.child_index()].node == Some(old_node),
            final(self)@[res.0 + res.1.child_index()].first_child is None,
            final(self).path_to(res.0 + res.1.child_index()) == path@.push(res.1),
            old(self).nodes_placed_by(*quadrant_of) ==> final(self).nodes_placed_by(*quadrant_of),
            if res.1 == res.2 {
                &&& final(self).held() == old(self).held()
                &&& path_answered(*quadrant_of, node, path@.push(res.1))
            } else {
                &&& final(self)@[res.0 + res.2.child_index()].node == Some(node)
                &&& final(self)@[res.0 + res.2.child_index()].first_child is None
                &&& final(self).held() == old(self).held().insert(node)
                &&& path_answered(*quadrant_of, node, final(self).path_to(res.0 + res.2.child_index()))
            },
    {
        let ghost tv0 = self@;
        let ghost ps0 = self.paths@;
        let ghost held0 = self.held();
        proof {
            if old(self).nodes_placed_by(*quadrant_of) {
                lemma_split_keeps_placed(*quadrant_of, tv0, ps0, r as int);
            }
        }
        let c = self.split_leaf(r);
        let q_old = quadrant_of(old_node, path);
        assert(answered(*quadrant_of, old_node, path@, q_old));
        let q_new = quadrant_of(node, path);
        assert(answered(*quadrant_of, node, path@, q_new));
        let target_old = c + q_old.offset();
        proof {
            assert(self.path_to(target_old as int) == path@.push(q_old)) by {
                match q_old {
                    Quadrant::TopLeft => {},
                    Quadrant::BottomLeft => {},
                    Quadrant::TopRight => {},
                    Quadrant::BottomRight => {},
                }
            }
            if old(self).nodes_placed_by(*quadrant_of) {
                assert(path_answered(*quadrant_of, old_node, path@));
                lemma_path_answered_push(*quadrant_of, old_node, path@, q_old);
                lemma_put_keeps_placed(*quadrant_of, self.regions@, self.paths@, target_old as int, old_node);
            }
            lemma_path_answered_push(*quadrant_of, node, path@, q_new);
        }
        self.put_node(target_old, old_node);
        proof {
            assert(held0.contains(old_node));
            assert(self.held() =~= held0);
        }
        if q_old == q_new {
            (c, q_old, q_new)
        } else {
            let target_new = c + q_new.offset();
            proof {
                assert(self.path_to(target_new as int) == path@.push(q_new)) by {
                    match q_new {
                        Quadrant::TopLeft => {},
                        Quadrant::BottomLeft => {},
                        Quadrant::TopRight => {},
                        Quadrant::BottomRight => {},
                    }
                }
                if old(self).nodes_placed_by(*quadrant_of) {
                    lemma_put_keeps_placed(*quadrant_of, self.regions@, self.paths@, target_new as int, node);
                }
            }
            self.put_node(target_new, node);
            (c, q_old, q_new)
        }
    }
}

impl RegionTree {
    /// Inserts `node`, walking down from the root as a
    /// Barnes-Hut build does: through internal regions into the quadrant
    /// `quadrant_of` names; into an empty leaf, which then holds the node;
    /// or at a leaf holding another node, splitting it, moving the old
    /// node into its quadrant and placing the new one in its own, retrying
    /// in that quadrant while both fall together, at most
    /// `SUBDIVISION_ATTEMPTS` times before leaving the new node out.
    ///
    /// `quadrant_of(n, path)` names the quadrant of node `n` within the
    /// region reached from the root by the quadrants `path`.
    pub fn insert<F: Fn(usize, &Vec<Quadrant>) -> Quadrant>(
        &mut self,
        node: usize,
        quadrant_of: F,
    ) -> (report: InsertReport)
        requires
            old(self).wf(),
            !old(self).holds(node),
            old(self)@.len() + 16 <= usize::MAX,
            forall|n: usize, p: &Vec<Quadrant>| #[trigger] quadrant_of.requires((n, p)),
        ensures
            final(self).wf(),
            final(self)@.len() == old(self)@.len() + 4 * count_splits(report.events@),
            count_splits(report.events@) <= SUBDIVISION_ATTEMPTS + 1,
            keeps_existing(old(self)@, final(self)@),
            empty_leaves_from(old(self)@, final(self)@, report.events@),
            old_node_moved(final(self)@, report.events@),
            forall|i: int|
                0 <= i < old(self)@.len() && untouched_by(report.events@, i) && report.outcome
                    != InsertOutcome::Placed(i as usize) ==> #[trigger] final(self)@[i] == old(self)@[i],
            follows_tree(final(self)@, report.events@),
            steps_shaped(old(self)@, report.events@),
            quadrants_answered(quadrant_of, node, report.events@),
            splits_retried(report.events@),
            splits_numbered(old(self)@.len() as int, report.events@),
            report_shaped(report),
            forall|i: int|
                0 <= i < old(self)@.len() ==> #[trigger] final(self).path_to(i) == old(self).path_to(i),
            old(self).nodes_placed_by(quadrant_of) ==> final(self).nodes_placed_by(quadrant_of),
            match report.outcome {
                InsertOutcome::Placed(leaf) => {
                    &&& leaf < final(self)@.len()
                    &&& path_answered(quadrant_of, node, final(self).path_to(leaf as int))
                    &&& final(self)@[leaf as int].node == Some(node)
                    &&& final(self)@[leaf as int].first_child is None
                    &&& final(self).held() == old(self).held().insert(node)
                    &&& placed_at(final(self)@, report.events@, leaf as int)
                    &&& (report.events@.len() == 0 || report.events@.last() is Descended) ==> {
                        &&& leaf < old(self)@.len()
                        &&& old(self)@[leaf as int].node is None
                        &&& old(self)@[leaf as int].first_child is None
                    }
                },
                InsertOutcome::Dropped => {
                    &&& final(self).held() == old(self).held()
                    &&& count_splits(report.events@) == SUBDIVISION_ATTEMPTS + 1
                    &&& report.events@.len() > 0
                    &&& report.events@.last() matches InsertEvent::Split {
                        old_quadrant,
                        new_quadrant,
                        ..
                    } && old_quadrant == new_quadrant
                },
            },
    {
        let mut events: Vec<InsertEvent> = Vec::new();
        let mut path: Vec<Quadrant> = Vec::new();
        let mut r: usize = 0;
        let mut attempts: usize = SUBDIVISION_ATTEMPTS;
        proof {
            assert(self.held() =~= old(self).held());
            assert(path@ =~= path_of(events@));
        }
        loop
            invariant
                self.wf(),
                r < self@.len(),
                r == current_region(self@, events@),
                attempts <= SUBDIVISION_ATTEMPTS,
                count_splits(events@) + attempts == SUBDIVISION_ATTEMPTS,
                self@.len() == old(self)@.len() + 4 * count_splits(events@),
                old(self)@.len() + 16 <= usize::MAX,
                !self.holds(node),
                self.held() == old(self).held(),
                path@ == path_of(events@),
                follows_tree(self@, events@),
                steps_shaped(old(self)@, events@),
                quadrants_answered(quadrant_of, node, events@),
                all_retried(events@),
                splits_numbered(old(self)@.len() as int, events@),
                self.path_to(r as int) == path@,
                path_answered(quadrant_of, node, path@),
                forall|i: int|
                    0 <= i < old(self)@.len() ==> #[trigger] self.path_to(i) == old(self).path_to(i),
                old(self).nodes_placed_by(quadrant_of) ==> self.nodes_placed_by(quadrant_of),
                events@.len() == 0 || events@.last() is Descended ==> self@ == old(self)@,
                events@.len() > 0 ==> match events@.last() {
                    InsertEvent::Split { old_node, .. } => {
                        &&& self@[r as int].node == Some(old_node)
                        &&& self@[r as int].first_child is None
                    },
                    _ => true,
                },
                keeps_existing(old(self)@, self@),
                empty_leaves_from(old(self)@, self@, events@),
                forall|i: int|
                    0 <= i < old(self)@.len() && untouched_by(events@, i) ==> #[trigger] self@[i]
                        == old(self)@[i],
                forall|n: usize, p: &Vec<Quadrant>| #[trigger] quadrant_of.requires((n, p)),
            decreases attempts, self@.len() - r,
        {
            let reg = self.regions[r];
            match reg.first_child {
                Some(c) => {
                    assert(children_linked(self.regions@, r as int));
                    let q = quadrant_of(node, &path);
                    assert(answered(quadrant_of, node, path@, q));
                    let next = c + q.offset();
                    let ev = InsertEvent::Descended { region: r, quadrant: q };
                    proof {
                        assert(self@ == old(self)@);
                        lemma_child_path(self, r as int, q);
                        lemma_path_answered_push(quadrant_of, node, path@, q);
                        lemma_answered_push(quadrant_of, node, events@, ev);
                        lemma_follows_push(self@, events@, ev);
                        lemma_count_splits_push(events@, ev);
                        lemma_path_push(events@, ev);
                        lemma_retried_push(events@, ev);
                        lemma_numbered_push(old(self)@.len() as int, events@, ev);
                        assert(events@.push(ev)[events@.len() as int] == ev);
                        if events@.len() > 0 {
                            assert(events@.push(ev)[events@.len() - 1] == events@.last());
                        }
                        lemma_steps_push(old(self)@, events@, ev);
                        lemma_empty_leaves_push(old(self)@, self@, events@, ev);
                        lemma_untouched_push(events@, ev);
                    }
                    events.push(ev);
                    path.push(q);
                    r = next;
                },
                None => {
                    match reg.node {
                        None => {
                            let ghost tv0 = self@;
                            let ghost ps0 = self.paths@;
                            proof {
                                if old(self).nodes_placed_by(quadrant_of) {
                                    lemma_put_keeps_placed(quadrant_of, tv0, ps0, r as int, node);
                                }
                            }
                            self.put_node(r, node);
                            proof {
                                lemma_empty_leaves_put(
                                    old(self)@,
                                    tv0,
                                    events@,
                                    r as int,
                                    Region { node: Some(node), first_child: None, next_sibling: tv0[r as int].next_sibling },
                                );
                                lemma_follows_frame(tv0, self@, events@);
                                lemma_keeps_trans(old(self)@, tv0, self@);
                                let es = events@;
                                assert forall|i: int| 0 <= i < es.len() - 1 implies match #[trigger] es[i] {
                                    InsertEvent::Split { old_quadrant, new_quadrant, .. } => old_quadrant
                                        == new_quadrant,
                                    _ => true,
                                } by {
                                    assert(match es[i] {
                                        InsertEvent::Split { old_quadrant, new_quadrant, .. } => old_quadrant
                                            == new_quadrant,
                                        _ => true,
                                    });
                                }
                            }
                            let report = InsertReport { events, outcome: InsertOutcome::Placed(r) };
                            return report;
                        },
                        Some(old_node) => {
                            let ghost tv0 = self@;
                            let (c, q_old, q_new) = self.split_occupied(
                                r,
                                old_node,
                                node,
                                &quadrant_of,
                                &path,
                            );
                            let ev = InsertEvent::Split {
                                region: r,
                                first_child: c,
                                old_node,
                                old_quadrant: q_old,
                                new_quadrant: q_new,
                            };
                            proof {
                                lemma_follows_frame(tv0, self@, events@);
                                lemma_follows_push(self@, events@, ev);
                                lemma_answered_push(quadrant_of, node, events@, ev);
                                lemma_count_splits_push(events@, ev);
                                lemma_path_push(events@, ev);
                                lemma_keeps_trans(old(self)@, tv0, self@);
                                lemma_numbered_push(old(self)@.len() as int, events@, ev);
                                lemma_retried_push(events@, ev);
                                assert(events@.push(ev)[events@.len() as int] == ev);
                                if events@.len() > 0 {
                                    assert(events@.push(ev)[events@.len() - 1] == events@.last());
                                    assert(match events@.last() {
                                        InsertEvent::Split { old_quadrant, new_quadrant, .. } => old_quadrant
                                            == new_quadrant,
                                        _ => true,
                                    });
                                }
                                lemma_steps_push(old(self)@, events@, ev);
                                lemma_empty_leaves_split(old(self)@, tv0, self@, events@, ev, r as int);
                                lemma_untouched_push(events@, ev);
                                assert forall|i: int|
                                    0 <= i < old(self)@.len() && untouched_by(events@.push(ev), i) implies #[trigger] self@[i]
                                        == old(self)@[i] by {
                                    assert(self@[i] == tv0[i]);
                                }
                            }
                            events.push(ev);
                            if q_old == q_new {
                                if attempts == 0 {
                                    let report = InsertReport {
                                        events,
                                        outcome: InsertOutcome::Dropped,
                                    };
                                    return report;
                                }
                                proof {
                                    assert(!self.held().contains(node));
                                }
                                attempts = attempts - 1;
                                path.push(q_old);
                                r = c + q_old.offset();
                            } else {
                                let report = InsertReport {
                                    events,
                                    outcome: InsertOutcome::Placed(c + q_new.offset()),
                                };
                                return report;
                            }
                        },
                    }
                },
            }
        }
    }
}

/// Insertion `k` of a build took the tree from `stages[k]` to
/// `stages[k + 1]` as `insert` says: its steps stand to the tree before it
/// as `steps_shaped` says and follow the tree after it, regions that
/// existed keep their links (internal ones unchanged), every empty leaf
/// after it was one before or was left empty by one of its splits,
/// regions it neither stepped through nor placed the node in are as they
/// were, the old node of a last split sits in its own quadrant's
/// sub-region, each
/// split adds four regions, and a placed node is held by the leaf the
/// steps led to, which was empty before unless the last step was a split.
/// A node left out went through `SUBDIVISION_ATTEMPTS + 1` splits, the
/// last of which again put it in the same quadrant as the old node.
pub open spec fn stage_step(stages: Seq<Seq<Region>>, reports: Seq<InsertReport>, k: int) -> bool {
    let before = stages[k];
    let after = stages[k + 1];
    let es = reports[k].events@;
    &&& steps_shaped(before, es)
    &&& follows_tree(after, es)
    &&& keeps_existing(before, after)
    &&& empty_leaves_from(before, after, es)
    &&& old_node_moved(after, es)
    &&& forall|i: int|
        0 <= i < before.len() && untouched_by(es, i) && reports[k].outcome != InsertOutcome::Placed(
            i as usize,
        ) ==> #[trigger] after[i] == before[i]
    &&& after.len() == before.len() + 4 * count_splits(es)
    &&& match reports[k].outcome {
        InsertOutcome::Placed(leaf) => {
            &&& leaf < after.len()
            &&& after[leaf as int].node == Some((k * PPN) as usize)
            &&& after[leaf as int].first_child is None
            &&& placed_at(after, es, leaf as int)
            &&& (es.len() == 0 || es.last() is Descended) ==> {
                &&& leaf < before.len()
                &&& before[leaf as int].node is None
                &&& before[leaf as int].first_child is None
            }
        },
        InsertOutcome::Dropped => {
            &&& count_splits(es) == SUBDIVISION_ATTEMPTS + 1
            &&& es.len() > 0
            &&& es.last() matches InsertEvent::Split { old_quadrant, new_quadrant, .. }
                && old_quadrant == new_quadrant
        },
    }
}

/// `stages` are the trees of a build over `count` nodes, from the single
/// empty root to `last`, each insertion going from one to the next as
/// `stage_step` says.
pub open spec fn build_stages(
    stages: Seq<Seq<Region>>,
    reports: Seq<InsertReport>,
    count: int,
    last: Seq<Region>,
) -> bool {
    &&& stages.len() == count + 1
    &&& stages[0] == seq![Region { node: None, first_child: None, next_sibling: None }]
    &&& stages[count] == last
    &&& forall|k: int| 0 <= k < count ==> #[trigger] stage_step(stages, reports, k)
}

/// The nodes that a build over the first `count` nodes placed: node `k`
/// is the one at node-matrix offset `k * PPN`.
pub open spec fn placed_nodes(reports: Seq<InsertReport>, count: int) -> Set<usize> {
    Set::new(
        |n: usize|
            exists|k: int|
                0 <= k < count && n == k * PPN && (#[trigger] reports[k]).outcome is Placed,
    )
}

/// Number of splits in the first `k` insertions of a build.
pub open spec fn splits_before(reports: Seq<InsertReport>, k: int) -> nat
    decreases k,
{
    if k <= 0 {
        0
    } else {
        splits_before(reports, k - 1) + count_splits(reports[k - 1].events@)
    }
}

proof fn lemma_splits_before_push(reports: Seq<InsertReport>, r: InsertReport, k: int)
    requires
        0 <= k <= reports.len(),
    ensures
        splits_before(reports.push(r), k) == splits_before(reports, k),
    decreases k,
{
    if k > 0 {
        lemma_splits_before_push(reports, r, k - 1);
        assert(reports.push(r)[k - 1] == reports[k - 1]);
    }
}

/// Every answer of `quadrant_of`, for any node in any region, is `q`: the
/// nodes all coincide.
pub open spec fn always_answers<F: Fn(usize, &Vec<Quadrant>) -> Quadrant>(
    quadrant_of: F,
    q: Quadrant,
) -> bool {
    forall|n: usize, p: &Vec<Quadrant>, a: Quadrant| #[trigger] quadrant_of.ensures((n, p), a) ==> a == q
}

/// Every quadrant of `path` is `q`.
pub open spec fn all_quadrant(path: Seq<Quadrant>, q: Quadrant) -> bool {
    forall|i: int| 0 <= i < path.len() ==> #[trigger] path[i] == q
}

/// The quadrant whose sub-region comes `i`-th among its siblings.
spec fn quadrant_at(i: int) -> Quadrant {
    if i == 0 {
        Quadrant::TopLeft
    } else if i == 1 {
        Quadrant::BottomLeft
    } else if i == 2 {
        Quadrant::TopRight
    } else {
        Quadrant::BottomRight
    }
}

impl RegionTree {
    /// No region reached from the root through quadrant `q` alone is an
    /// empty leaf.
    spec fn chain_filled(&self, q: Quadrant) -> bool {
        forall|r: int|
            0 <= r < self@.len() && all_quadrant(self.path_to(r), q) ==> !is_empty_leaf(
                #[trigger] self@[r],
            )
    }
}

/// An insertion into a tree whose `q`-chain holds no empty leaf, with every
/// answer `q`, leaves the node out after all its splits and keeps the
/// chain free of empty leaves.
proof fn lemma_coincident_insert<F: Fn(usize, &Vec<Quadrant>) -> Quadrant>(
    quadrant_of: F,
    q: Quadrant,
    t0: RegionTree,
    t1: RegionTree,
    node: usize,
    report: InsertReport,
)
    requires
        always_answers(quadrant_of, q),
        t0.wf(),
        t1.wf(),
        t0.chain_filled(q),
        t1@.len() == t0@.len() + 4 * count_splits(report.events@),
        empty_leaves_from(t0@, t1@, report.events@),
        follows_tree(t1@, report.events@),
        quadrants_answered(quadrant_of, node, report.events@),
        report_shaped(report),
        forall|i: int| 0 <= i < t0@.len() ==> #[trigger] t1.path_to(i) == t0.path_to(i),
        report.outcome matches InsertOutcome::Placed(leaf) ==> {
            &&& path_answered(quadrant_of, node, t1.path_to(leaf as int))
            &&& (report.events@.len() == 0 || report.events@.last() is Descended) ==> {
                &&& leaf < t0@.len()
                &&& t0@[leaf as int].node is None
                &&& t0@[leaf as int].first_child is None
            }
        },
    ensures
        report.outcome == InsertOutcome::Dropped,
        t1@.len() == t0@.len() + 16,
        t1.chain_filled(q),
{
    let es = report.events@;
    if let InsertOutcome::Placed(leaf) = report.outcome {
        if es.len() > 0 && es.last() is Split {
            let j = es.len() - 1;
            assert(quadrants_answered(quadrant_of, node, es));
            match es[j] {
                InsertEvent::Split { old_node, old_quadrant, new_quadrant, .. } => {
                    let pa = path_of(es).take(j);
                    assert(answered(quadrant_of, old_node, pa, old_quadrant));
                    assert(answered(quadrant_of, node, pa, new_quadrant));
                    let p1 = choose|p: &Vec<Quadrant>| p@ == pa && #[trigger] quadrant_of.ensures((old_node, p), old_quadrant);
                    let p2 = choose|p: &Vec<Quadrant>| p@ == pa && #[trigger] quadrant_of.ensures((node, p), new_quadrant);
                    assert(old_quadrant == q);
                    assert(new_quadrant == q);
                },
                _ => {},
            }
        } else {
            let path = t1.path_to(leaf as int);
            assert(all_quadrant(t0.path_to(leaf as int), q)) by {
                assert forall|i: int| 0 <= i < path.len() implies #[trigger] path[i] == q by {
                    assert(answered(quadrant_of, node, path.take(i), path[i]));
                    let p = choose|p: &Vec<Quadrant>| p@ == path.take(i) && #[trigger] quadrant_of.ensures((node, p), path[i]);
                }
            }
            assert(!is_empty_leaf(t0@[leaf as int]));
        }
    }
    assert forall|r: int| 0 <= r < t1@.len() && all_quadrant(t1.path_to(r), q) implies !is_empty_leaf(
        #[trigger] t1@[r],
    ) by {
        if is_empty_leaf(t1@[r]) {
            if r < t0@.len() && is_empty_leaf(t0@[r]) {
                assert(t1.path_to(r) == t0.path_to(r));
            } else {
                let j = choose|j: int| 0 <= j < es.len() && #[trigger] left_empty_by(es[j], r);
                match es[j] {
                    InsertEvent::Split { region, first_child, old_node, old_quadrant, .. } => {
                        let pa = path_of(es).take(j);
                        assert(answered(quadrant_of, old_node, pa, old_quadrant));
                        let p1 = choose|p: &Vec<Quadrant>| p@ == pa && #[trigger] quadrant_of.ensures((old_node, p), old_quadrant);
                        assert(old_quadrant == q);
                        assert(region < t1@.len() && t1@[region as int].first_child == Some(first_child));
                        let qq = quadrant_at(r - first_child);
                        assert(qq.child_index() == r - first_child);
                        lemma_child_path(&t1, region as int, qq);
                        let path = t1.path_to(r);
                        assert(path == t1.path_to(region as int).push(qq));
                        assert(path[path.len() - 1] == qq);
                        assert(qq != q);
                    },
                    _ => {},
                }
            }
        }
    }
}

impl RegionTree {
    /// Builds the tree over `node_count` nodes, inserting them in order of
    /// their node-matrix offsets `0, PPN, 2 * PPN, ...`; returns the tree
    /// and the report of each insertion, in the same order.
    ///
    /// Only leaves hold nodes, each held node is one of these offsets and
    /// is held once, and the first node is always held. A tree
    /// of `1 + 4 * k` regions has `k` internal ones, at most four per node
    /// after the first; nodes that all fall together reach that bound,
    /// every one after the first being left out.
    #[verifier::rlimit(30)]
    pub fn from_nodes<F: Fn(usize, &Vec<Quadrant>) -> Quadrant>(
        node_count: usize,
        quadrant_of: F,
    ) -> (built: (RegionTree, Vec<InsertReport>))
        requires
            node_count * PPN <= usize::MAX,
            16 * node_count + 17 <= usize::MAX,
            forall|n: usize, p: &Vec<Quadrant>| #[trigger] quadrant_of.requires((n, p)),
        ensures
            built.0.wf(),
            built.1@.len() == node_count,
            built.0.held() == placed_nodes(built.1@, node_count as int),
            built.0.nodes_placed_by(quadrant_of),
            forall|r: int|
                0 <= r < built.0@.len() && (#[trigger] built.0@[r]).node is Some ==> {
                    &&& built.0@[r].first_child is None
                    &&& built.0@[r].node.unwrap() % PPN == 0
                    &&& built.0@[r].node.unwrap() < node_count * PPN
                },
            nodes_unique(built.0@),
            node_count >= 1 ==> built.0.holds(0),
            built.0@.len() == 1 + 4 * splits_before(built.1@, node_count as int),
            count_internal(built.0@) == splits_before(built.1@, node_count as int),
            node_count <= 1 ==> built.0@.len() == 1,
            node_count >= 1 ==> built.0@.len() <= 1 + 16 * (node_count - 1),
            node_count >= 1 ==> {
                &&& built.1@[0].outcome == InsertOutcome::Placed(0)
                &&& built.1@[0].events@.len() == 0
            },
            forall|k: int| 0 <= k < node_count ==> report_shaped(#[trigger] built.1@[k]),
            forall|q: Quadrant|
                #[trigger] always_answers(quadrant_of, q) && node_count >= 1 ==> {
                    &&& built.0@.len() == 1 + 16 * (node_count - 1)
                    &&& forall|k: int|
                        1 <= k < node_count ==> (#[trigger] built.1@[k]).outcome
                            == InsertOutcome::Dropped
                },
            exists|stages: Seq<Seq<Region>>|
                #[trigger] build_stages(stages, built.1@, node_count as int, built.0@),
            forall|k: int|
                0 <= k < node_count ==> splits_numbered(
                    (1 + 4 * splits_before(built.1@, k)) as int,
                    (#[trigger] built.1@[k]).events@,
                ),
            forall|k: int|
                0 <= k < node_count ==> quadrants_answered(
                    quadrant_of,
                    (k * PPN) as usize,
                    (#[trigger] built.1@[k]).events@,
                ),
    {
        let mut tree = RegionTree::new();
        let mut reports: Vec<InsertReport> = Vec::new();
        let mut k: usize = 0;
        let ghost mut stages: Seq<Seq<Region>> = seq![tree@];
        assert(tree@[0].node is None);
        assert(tree.held() =~= placed_nodes(reports@, 0)) by {
            assert forall|m: usize| !tree.holds(m) by {
                if tree.holds(m) {
                    let i = choose|i: int| 0 <= i < tree@.len() && (#[trigger] tree@[i]).node == Some(m);
                    assert(tree@[i].node is None);
                }
            }
        }
        while k < node_count
            invariant
                k <= node_count,
                node_count * PPN <= usize::MAX,
                16 * node_count + 17 <= usize::MAX,
                tree.wf(),
                tree@.len() <= 16 * k + 1,
                reports@.len() == k,
                tree@.len() == 1 + 4 * splits_before(reports@, k as int),
                k == 0 ==> tree@ == seq![Region { node: None, first_child: None, next_sibling: None }],
                k >= 1 ==> splits_before(reports@, k as int) <= 4 * (k - 1),
                k >= 1 ==> {
                    &&& reports@[0].outcome == InsertOutcome::Placed(0)
                    &&& reports@[0].events@.len() == 0
                },
                forall|j: int| 0 <= j < k ==> report_shaped(#[trigger] reports@[j]),
                forall|q: Quadrant|
                    #[trigger] always_answers(quadrant_of, q) && k >= 1 ==> {
                        &&& tree@.len() == 1 + 16 * (k - 1)
                        &&& forall|j: int|
                            1 <= j < k ==> (#[trigger] reports@[j]).outcome
                                == InsertOutcome::Dropped
                        &&& tree.chain_filled(q)
                    },
                stages.len() == k + 1,
                stages[0] == seq![Region { node: None, first_child: None, next_sibling: None }],
                stages[k as int] == tree@,
                forall|j: int| 0 <= j < k ==> #[trigger] stage_step(stages, reports@, j),
                forall|j: int|
                    0 <= j < k ==> splits_numbered(
                        (1 + 4 * splits_before(reports@, j)) as int,
                        (#[trigger] reports@[j]).events@,
                    ),
                tree.held() == placed_nodes(reports@, k as int),
                tree.nodes_placed_by(quadrant_of),
                forall|j: int|
                    0 <= j < k ==> quadrants_answered(
                        quadrant_of,
                        (j * PPN) as usize,
                        (#[trigger] reports@[j]).events@,
                    ),
                forall|n: usize, p: &Vec<Quadrant>| #[trigger] quadrant_of.requires((n, p)),
            decreases node_count - k,
        {
            assert(k * PPN <= node_count * PPN) by (nonlinear_arith)
                requires
                    k <= node_count,
            ;
            let node = k * PPN;
            assert(!tree.holds(node)) by {
                if tree.holds(node) {
                    assert(tree.held().contains(node));
                    let j = choose|j: int|
                        0 <= j < k && node == j * PPN && (#[trigger] reports@[j]).outcome is Placed;
                    assert(j * PPN < k * PPN) by (nonlinear_arith)
                        requires
                            j < k,
                    ;
                }
            }
            let ghost held0 = tree.held();
            let ghost tree0 = tree@;
            let ghost t0 = tree;
            let report = tree.insert(node, &quadrant_of);
            proof {
                if k == 0 {
                    if report.events@.len() > 0 {
                        assert(step_shaped(tree0, report.events@, 0));
                        assert(false);
                    }
                }
            }
            let ghost placed = report.outcome is Placed;
            let ghost reports0 = reports@;
            reports.push(report);
            proof {
                assert forall|m: usize| #[trigger] tree.held().contains(m) <==> placed_nodes(
                    reports@,
                    k + 1,
                ).contains(m) by {
                    if placed_nodes(reports@, k + 1).contains(m) {
                        let j = choose|j: int|
                            0 <= j < k + 1 && m == j * PPN && (#[trigger] reports@[j]).outcome is Placed;
                        if j < k {
                            assert(reports0[j] == reports@[j]);
                            assert(placed_nodes(reports0, k as int).contains(m));
                        }
                    }
                    if held0.contains(m) {
                        let j = choose|j: int|
                            0 <= j < k && m == j * PPN && (#[trigger] reports0[j]).outcome is Placed;
                        assert(reports0[j] == reports@[j]);
                        assert(placed_nodes(reports@, k + 1).contains(m));
                    }
                    if placed && m == node {
                        assert(reports@[k as int].outcome is Placed);
                        assert(placed_nodes(reports@, k + 1).contains(m));
                    }
                }
                assert(tree.held() =~= placed_nodes(reports@, k + 1));
                lemma_splits_before_push(reports0, reports@[k as int], k as int);
                assert(reports@ == reports0.push(reports@[k as int]));
                assert forall|j: int|
                    0 <= j < k + 1 implies splits_numbered(
                    (1 + 4 * splits_before(reports@, j)) as int,
                    (#[trigger] reports@[j]).events@,
                ) by {
                    lemma_splits_before_push(reports0, reports@[k as int], j);
                    if j < k {
                        assert(reports0[j] == reports@[j]);
                    }
                }
                let stages2 = stages.push(tree@);
                assert(stage_step(stages2, reports@, k as int)) by {
                    assert(stages2[k as int] == tree0);
                    assert(stages2[k + 1] == tree@);
                    assert(reports@[k as int] == report);
                }
                assert forall|j: int| 0 <= j < k + 1 implies #[trigger] stage_step(stages2, reports@, j) by {
                    if j < k {
                        assert(stage_step(stages, reports0, j));
                        assert(stages2[j] == stages[j]);
                        assert(stages2[j + 1] == stages[j + 1]);
                        assert(reports@[j] == reports0[j]);
                    }
                }
                stages = stages2;
                assert forall|q: Quadrant|
                    #[trigger] always_answers(quadrant_of, q) && k + 1 >= 1 implies {
                    &&& tree@.len() == 1 + 16 * k
                    &&& forall|j: int|
                        1 <= j < k + 1 ==> (#[trigger] reports@[j]).outcome
                            == InsertOutcome::Dropped
                    &&& tree.chain_filled(q)
                } by {
                    assert(reports@[k as int] == report);
                    if k == 0 {
                        assert(report.outcome == InsertOutcome::Placed(0));
                        assert(tree@.len() == 1);
                        assert(tree@[0].node == Some(node));
                    } else {
                        lemma_coincident_insert(quadrant_of, q, t0, tree, node, report);
                        assert forall|j: int| 1 <= j < k + 1 implies (#[trigger] reports@[j]).outcome
                            == InsertOutcome::Dropped by {
                            if j < k {
                                assert(reports0[j] == reports@[j]);
                            }
                        }
                    }
                }
                assert forall|j: int| 0 <= j < k + 1 implies report_shaped(#[trigger] reports@[j]) by {
                    if j < k {
                        assert(reports0[j] == reports@[j]);
                    }
                }
                if k == 0 {
                    assert(splits_before(reports@, 1) == count_splits(reports@[0].events@));
                    assert(count_splits(reports@[0].events@) == 0);
                } else {
                    assert(reports0[0] == reports@[0]);
                    assert(splits_before(reports@, k + 1) == splits_before(reports@, k as int) + count_splits(reports@[k as int].events@));
                }
                assert forall|j: int|
                    0 <= j < k + 1 implies quadrants_answered(
                    quadrant_of,
                    (j * PPN) as usize,
                    (#[trigger] reports@[j]).events@,
                ) by {
                    if j < k {
                        assert(reports0[j] == reports@[j]);
                    }
                }
            }
            k = k + 1;
        }
        assert(build_stages(stages, reports@, node_count as int, tree@));
        proof {
            assert forall|r: int|
                0 <= r < tree@.len() && (#[trigger] tree@[r]).node is Some implies {
                &&& tree@[r].first_child is None
                &&& tree@[r].node.unwrap() % PPN == 0
                &&& tree@[r].node.unwrap() < node_count * PPN
            } by {
                assert(children_linked(tree@, r));
                let n = tree@[r].node.unwrap();
                assert(tree.holds(n));
                assert(tree.held().contains(n));
                let j = choose|j: int|
                    0 <= j < node_count && n == j * PPN && (#[trigger] reports@[j]).outcome is Placed;
                assert((j * PPN) % (PPN as int) == 0 && j * PPN < node_count * PPN) by (nonlinear_arith)
                    requires
                        0 <= j < node_count,
                ;
            }
            if node_count >= 1 {
                assert(reports@[0].outcome is Placed);
                assert(placed_nodes(reports@, node_count as int).contains(0usize)) by {
                    assert(0usize == 0 * PPN);
                }
                assert(tree.held().contains(0usize));
            }
        }
        (tree, reports)
    }
}

/// Each step of a walk from any region leads to a region of higher rank,
/// and ranks lie in `0..len`: a Barnes-Hut walk ends within as many steps
/// as the tree has regions.
pub proof fn lemma_walk_advances(tree: &RegionTree, r: int)
    requires
        tree.wf(),
        0 <= r < tree@.len(),
    ensures
        0 <= tree.rank_of(r) < tree@.len(),
        tree@[r].first_child matches Some(c) ==> c < tree@.len() && tree.rank_of(c as int)
            > tree.rank_of(r),
        tree@[r].next_sibling matches Some(s) ==> s < tree@.len() && tree.rank_of(s as int)
            > tree.rank_of(r),
{
    assert(links_ranked(tree.regions@, tree.rank@, r));
}

/// The region a walk that opens every region visits after `r`.
pub open spec fn open_step(tv: Seq<Region>, r: int) -> Option<int> {
    match tv[r].first_child {
        Some(c) => Some(c as int),
        None => match tv[r].next_sibling {
            Some(s) => Some(s as int),
            None => None,
        },
    }
}

/// The region a walk from the root that opens every region visits after
/// `k` steps, or `None` once it has ended.
pub open spec fn full_walk(tv: Seq<Region>, k: nat) -> Option<int>
    decreases k,
{
    if k == 0 {
        Some(0)
    } else {
        match full_walk(tv, (k - 1) as nat) {
            Some(r) => open_step(tv, r),
            None => None,
        }
    }
}

proof fn lemma_full_walk_rank(tree: &RegionTree, k: nat)
    requires
        tree.wf(),
        k < tree@.len(),
    ensures
        full_walk(tree@, k) matches Some(r) && 0 <= r < tree@.len() && tree.rank_of(r) == k,
    decreases k,
{
    if k > 0 {
        lemma_full_walk_rank(tree, (k - 1) as nat);
        let r = full_walk(tree@, (k - 1) as nat).unwrap();
        assert(links_ranked(tree.regions@, tree.rank@, r));
    }
}

/// A walk from the root that opens every region visits every region
/// exactly once, in depth-first order, and then ends: region `i` is the
/// one visited after `rank_of(i)` steps, and after as many steps as there
/// are regions the walk is over. The Barnes-Hut walk of a node is this walk
/// with some subtrees skipped.
pub proof fn lemma_full_walk_visits_all(tree: &RegionTree, i: int)
    requires
        tree.wf(),
        0 <= i < tree@.len(),
    ensures
        0 <= tree.rank_of(i) < tree@.len(),
        full_walk(tree@, tree.rank_of(i) as nat) == Some(i),
        full_walk(tree@, tree@.len()) is None,
{
    assert(links_ranked(tree.regions@, tree.rank@, i));
    let k = tree.rank_of(i) as nat;
    lemma_full_walk_rank(tree, k);
    let j = full_walk(tree@, k).unwrap();
    assert(tree.rank@[j] == tree.rank@[i]);
    let last = (tree@.len() - 1) as nat;
    lemma_full_walk_rank(tree, last);
    let l = full_walk(tree@, last).unwrap();
    assert(links_ranked(tree.regions@, tree.rank@, l));
    if let Some(c) = tree@[l].first_child {
        assert(links_ranked(tree.regions@, tree.rank@, c as int));
    } else if let Some(n) = tree@[l].next_sibling {
        assert(links_ranked(tree.regions@, tree.rank@, n as int));
    }
    assert(full_walk(tree@, tree@.len()) == open_step(tree@, l));
}

/// Region `j` lies in the subtree of region `i`: it is `i` or lies in the
/// subtree of one of the four sub-regions of `i`.
pub open spec fn in_subtree(tv: Seq<Region>, i: int, j: int) -> bool
    decreases tv.len() - i,
{
    if !(0 <= i < tv.len()) {
        false
    } else if j == i {
        true
    } else {
        match tv[i].first_child {
            Some(c) => if i < c && c + 3 < tv.len() {
                in_subtree(tv, c as int, j) || in_subtree(tv, c + 1, j) || in_subtree(
                    tv,
                    c + 2,
                    j,
                ) || in_subtree(tv, c + 3, j)
            } else {
                false
            },
            None => false,
        }
    }
}

/// The subtree of region `i` is exactly the run of depth-first positions
/// from `i` up to `end_rank(i)`. So a Barnes-Hut walk that does not open
/// `i` moves on to the first region after the whole subtree of `i`, and
/// the regions it passes over are exactly the descendants of `i`.
pub proof fn lemma_subtree_is_rank_run(tree: &RegionTree, i: int, j: int)
    requires
        tree.wf(),
        0 <= i < tree@.len(),
        0 <= j < tree@.len(),
    ensures
        in_subtree(tree@, i, j) <==> tree.rank_of(i) <= tree.rank_of(j) < tree.end_rank(i),
    decreases tree@.len() - i,
{
    let rs = tree.regions@;
    let rk = tree.rank@;
    assert(links_ranked(rs, rk, i));
    assert(links_ranked(rs, rk, j));
    assert(children_linked(rs, i));
    if j == i {
        assert(in_subtree(tree@, i, j));
    } else {
        assert(rk[j] != rk[i]);
        match rs[i].first_child {
            None => {
                assert(!in_subtree(tree@, i, j));
                assert(tree.end_rank(i) == rk[i] + 1);
            },
            Some(c) => {
                let c = c as int;
                lemma_subtree_is_rank_run(tree, c, j);
                lemma_subtree_is_rank_run(tree, c + 1, j);
                lemma_subtree_is_rank_run(tree, c + 2, j);
                lemma_subtree_is_rank_run(tree, c + 3, j);
                assert(links_ranked(rs, rk, c));
                assert(links_ranked(rs, rk, c + 1));
                assert(links_ranked(rs, rk, c + 2));
                assert(links_ranked(rs, rk, c + 3));
                assert(tree.end_rank(c) == rk[c + 1]);
                assert(tree.end_rank(c + 1) == rk[c + 2]);
                assert(tree.end_rank(c + 2) == rk[c + 3]);
                assert(tree.end_rank(c + 3) == tree.end_rank(i));
                assert(rk[c] == rk[i] + 1);
                assert(in_subtree(tree@, i, j) == (in_subtree(tree@, c, j) || in_subtree(tree@, c + 1, j)
                    || in_subtree(tree@, c + 2, j) || in_subtree(tree@, c + 3, j)));
            },
        }
    }
}

/// Every region but the root is one of the four sub-regions of exactly one
/// region; the root is a sub-region of none.
pub proof fn lemma_unique_parent(tree: &RegionTree, j: int)
    requires
        tree.wf(),
        0 <= j < tree@.len(),
    ensures
        j == 0 ==> forall|i: int| 0 <= i < tree@.len() ==> !is_child_of(tree@, 0, i),
        j > 0 ==> has_parent(tree@, j),
        forall|i1: int, i2: int|
            0 <= i1 < tree@.len() && 0 <= i2 < tree@.len() && #[trigger] is_child_of(tree@, j, i1)
                && #[trigger] is_child_of(tree@, j, i2) ==> i1 == i2,
{
    let rs = tree.regions@;
    assert forall|i: int| 0 <= i < rs.len() implies !is_child_of(rs, 0, i) by {
        assert(children_linked(rs, i));
    }
    assert forall|i1: int, i2: int|
        0 <= i1 < rs.len() && 0 <= i2 < rs.len() && #[trigger] is_child_of(rs, j, i1)
            && #[trigger] is_child_of(rs, j, i2) implies i1 == i2 by {
        let c1 = rs[i1].first_child.unwrap() as int;
        let c2 = rs[i2].first_child.unwrap() as int;
        assert((c1 - 1) % 4 == 0 && (c2 - 1) % 4 == 0);
        assert(c1 == c2);
        if i1 != i2 {
            assert(rs[i1].first_child != rs[i2].first_child);
        }
    }
}

/// The shape every well-formed tree has: the root ends every walk and is
/// reached by the empty path; an internal region holds no node and has
/// four consecutive sub-regions created after it and chained in order, the
/// last chained to where the parent chains; and no node is held twice.
pub proof fn lemma_region_shape(tree: &RegionTree, i: int)
    requires
        tree.wf(),
        0 <= i < tree@.len(),
    ensures
        tree@[0].next_sibling is None,
        tree.path_to(0) == Seq::<Quadrant>::empty(),
        tree@.len() == 1 + 4 * count_internal(tree@),
        children_linked(tree@, i),
        nodes_unique(tree@),
{
}

} // verus!
