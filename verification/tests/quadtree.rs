use cfa2_kernel::matrices::PPN;
use cfa2_kernel::quadtree::{InsertEvent, InsertOutcome, Quadrant, RegionTree};

/// Quadrant oracle for points on a grid of cells: `pos[k]` is the position of
/// node `k * PPN` inside a root square `[0, 16) x [0, 16)`.
fn grid_oracle(pos: Vec<(f64, f64)>) -> impl Fn(usize, &Vec<Quadrant>) -> Quadrant {
    move |n: usize, path: &Vec<Quadrant>| {
        let (x, y) = pos[n / PPN];
        let (mut cx, mut cy, mut size) = (8.0f64, 8.0f64, 16.0f64);
        for q in path {
            let w = size / 2.0;
            let h = w / 2.0;
            match q {
                Quadrant::TopLeft => { cx -= h; cy -= h; }
                Quadrant::BottomLeft => { cx -= h; cy += h; }
                Quadrant::TopRight => { cx += h; cy -= h; }
                Quadrant::BottomRight => { cx += h; cy += h; }
            }
            size = w;
        }
        if x < cx {
            if y < cy { Quadrant::TopLeft } else { Quadrant::BottomLeft }
        } else if y < cy {
            Quadrant::TopRight
        } else {
            Quadrant::BottomRight
        }
    }
}

/// Quadrant oracle whose root square is the squarified bounding box of
/// `pos`, as the Barnes-Hut build lays it out.
fn bounds_oracle(pos: Vec<(f64, f64)>) -> impl Fn(usize, &Vec<Quadrant>) -> Quadrant {
    let (mut min_x, mut max_x) = (f64::INFINITY, f64::NEG_INFINITY);
    let (mut min_y, mut max_y) = (f64::INFINITY, f64::NEG_INFINITY);
    for &(x, y) in &pos {
        min_x = min_x.min(x);
        max_x = max_x.max(x);
        min_y = min_y.min(y);
        max_y = max_y.max(y);
    }
    let (dx, dy) = (max_x - min_x, max_y - min_y);
    if dx > dy {
        min_y -= (dx - dy) / 2.0;
        max_y = min_y + dx;
    } else {
        min_x -= (dy - dx) / 2.0;
        max_x = min_x + dy;
    }
    let root = ((min_x + max_x) / 2.0, (min_y + max_y) / 2.0, f64::max(max_x - min_x, max_y - min_y));
    move |n: usize, path: &Vec<Quadrant>| {
        let (x, y) = pos[n / PPN];
        let (mut cx, mut cy, mut size) = root;
        for q in path {
            let w = size / 2.0;
            match q {
                Quadrant::TopLeft => { cx -= w; cy -= w; }
                Quadrant::BottomLeft => { cx -= w; cy += w; }
                Quadrant::TopRight => { cx += w; cy -= w; }
                Quadrant::BottomRight => { cx += w; cy += w; }
            }
            size = w;
        }
        if x < cx {
            if y < cy { Quadrant::TopLeft } else { Quadrant::BottomLeft }
        } else if y < cy {
            Quadrant::TopRight
        } else {
            Quadrant::BottomRight
        }
    }
}

fn held_nodes(tree: &RegionTree) -> Vec<usize> {
    let mut held: Vec<usize> = (0..tree.len()).filter_map(|r| tree.region(r).node).collect();
    held.sort();
    held
}

#[test]
fn coincident_nodes_trigger_subdivision_fallback_without_hanging() {
    // 4 nodes at the identical coordinate: subdivision can never separate them.
    let (tree, reports) = RegionTree::from_nodes(4, bounds_oracle(vec![(1.0, 1.0); 4])); // must terminate
    assert!(tree.len() >= 1);
    assert_eq!(reports[0].outcome, InsertOutcome::Placed(0));
    assert!(reports[1..].iter().all(|r| r.outcome == InsertOutcome::Dropped));
    assert_eq!(held_nodes(&tree), vec![0]);
}

#[test]
fn two_node_tree_has_root_and_two_populated_children() {
    let (tree, _) = RegionTree::from_nodes(2, bounds_oracle(vec![(0.0, 0.0), (2.0, 2.0)]));
    assert!(tree.len() > 1); // subdivided beyond the root
    let referenced = held_nodes(&tree);
    assert!(referenced.contains(&0) && referenced.contains(&PPN));
    assert_eq!(tree.region(0).node, None);
    assert_eq!(tree.region(1).node, Some(0));
    assert_eq!(tree.region(4).node, Some(PPN));
}

fn walk_all(tree: &RegionTree) -> Vec<usize> {
    let mut seen = vec![0];
    let mut r = 0;
    while let Some(next) = tree.walk_next(r, true) {
        seen.push(next);
        r = next;
    }
    seen
}

#[test]
fn first_node_goes_into_the_empty_root() {
    let mut tree = RegionTree::new();
    let report = tree.insert(0, grid_oracle(vec![(1.0, 1.0)]));
    assert!(report.events.is_empty());
    assert_eq!(report.outcome, InsertOutcome::Placed(0));
    assert_eq!(tree.len(), 1);
    assert_eq!(tree.region(0).node, Some(0));
}

#[test]
fn split_moves_old_node_and_places_new_one() {
    let oracle = grid_oracle(vec![(0.0, 0.0), (10.0, 10.0)]);
    let mut tree = RegionTree::new();
    assert_eq!(tree.insert(0, &oracle).outcome, InsertOutcome::Placed(0));
    let report = tree.insert(PPN, &oracle);
    assert_eq!(report.outcome, InsertOutcome::Placed(4));
    assert_eq!(report.events.len(), 1);
    match report.events[0] {
        InsertEvent::Split { region, first_child, old_node, old_quadrant, new_quadrant } => {
            assert_eq!((region, first_child, old_node), (0, 1, 0));
            assert_eq!(old_quadrant, Quadrant::TopLeft);
            assert_eq!(new_quadrant, Quadrant::BottomRight);
        }
        _ => panic!("expected a split"),
    }
    assert_eq!(tree.len(), 5);
    assert_eq!(tree.region(0).node, None);
    assert_eq!(tree.region(0).first_child, Some(1));
    assert_eq!(tree.region(1).node, Some(0));
    assert_eq!(tree.region(4).node, Some(PPN));
    assert_eq!(tree.region(1).next_sibling, Some(2));
    assert_eq!(tree.region(4).next_sibling, None);
}

#[test]
fn descent_passes_internal_regions() {
    let oracle = grid_oracle(vec![(1.0, 1.0), (9.0, 9.0), (1.0, 9.0)]);
    let mut tree = RegionTree::new();
    tree.insert(0, &oracle);
    tree.insert(PPN, &oracle);
    let report = tree.insert(2 * PPN, &oracle);
    assert_eq!(report.outcome, InsertOutcome::Placed(2));
    assert_eq!(report.events.len(), 1);
    match report.events[0] {
        InsertEvent::Descended { region, quadrant } => {
            assert_eq!(region, 0);
            assert_eq!(quadrant, Quadrant::BottomLeft);
        }
        _ => panic!("expected a descent"),
    }
}

#[test]
fn coincident_nodes_are_dropped_after_every_retry() {
    let oracle = grid_oracle(vec![(1.0, 1.0); 4]);
    let mut tree = RegionTree::new();
    assert_eq!(tree.insert(0, &oracle).outcome, InsertOutcome::Placed(0));
    let report = tree.insert(PPN, &oracle);
    assert_eq!(report.outcome, InsertOutcome::Dropped);
    // one split, then three retries
    assert_eq!(report.events.len(), 4);
    assert_eq!(tree.len(), 17);
    let held: Vec<usize> = (0..tree.len()).filter_map(|r| tree.region(r).node).collect();
    assert_eq!(held, vec![0]);
    // a third coincident node descends the whole chain, then splits again
    let report = tree.insert(2 * PPN, &oracle);
    assert_eq!(report.outcome, InsertOutcome::Dropped);
    assert_eq!(report.events.len(), 8);
}

#[test]
fn nodes_far_apart_after_near_ones_split_once_per_level() {
    // two nodes in the same top-left quarter but different sixteenths
    let oracle = grid_oracle(vec![(1.0, 1.0), (5.0, 5.0)]);
    let mut tree = RegionTree::new();
    tree.insert(0, &oracle);
    let report = tree.insert(PPN, &oracle);
    assert_eq!(report.events.len(), 2);
    assert_eq!(report.outcome, InsertOutcome::Placed(8));
    assert_eq!(tree.region(5).node, Some(0));
}

#[test]
fn walk_visits_every_region_once_when_always_opening() {
    let oracle = grid_oracle(vec![(1.0, 1.0), (5.0, 5.0), (9.0, 9.0), (13.0, 1.0)]);
    let (tree, reports) = RegionTree::from_nodes(4, &oracle);
    assert_eq!(reports.len(), 4);
    assert!(reports.iter().all(|r| r.outcome != InsertOutcome::Dropped));
    let seen = walk_all(&tree);
    let mut sorted = seen.clone();
    sorted.sort();
    sorted.dedup();
    assert_eq!(sorted.len(), seen.len());
    assert_eq!(seen.len(), tree.len());
}

#[test]
fn walk_skips_a_closed_subtree() {
    let oracle = grid_oracle(vec![(1.0, 1.0), (5.0, 5.0), (9.0, 9.0)]);
    let (tree, _) = RegionTree::from_nodes(3, &oracle);
    // root split into 1..=4, region 1 split into 5..=8
    assert_eq!(tree.region(1).first_child, Some(5));
    assert_eq!(tree.walk_next(1, false), Some(2));
    assert_eq!(tree.walk_next(1, true), Some(5));
    assert_eq!(tree.walk_next(8, true), Some(2));
    assert_eq!(tree.walk_next(4, true), None);
}

#[test]
fn build_holds_every_node_placed() {
    let oracle = grid_oracle(vec![(1.0, 1.0), (1.0, 1.0), (14.0, 3.0)]);
    let (tree, reports) = RegionTree::from_nodes(3, &oracle);
    assert_eq!(reports[1].outcome, InsertOutcome::Dropped);
    let mut held: Vec<usize> = (0..tree.len()).filter_map(|r| tree.region(r).node).collect();
    held.sort();
    assert_eq!(held, vec![0, 2 * PPN]);
}

#[test]
fn held_nodes_sit_where_the_oracle_leads() {
    let pos: Vec<(f64, f64)> = (0..40)
        .map(|i| (((i * 37) % 101) as f64 * 0.7, ((i * 53) % 89) as f64 * 1.3))
        .collect();
    let oracle = bounds_oracle(pos.clone());
    let (tree, reports) = RegionTree::from_nodes(pos.len(), &oracle);
    assert_eq!(reports.len(), pos.len());
    for leaf in 0..tree.len() {
        if let Some(n) = tree.region(leaf).node {
            let mut r = 0;
            let mut path: Vec<Quadrant> = vec![];
            while let Some(c) = tree.region(r).first_child {
                let q = oracle(n, &path);
                r = c + q.offset();
                path.push(q);
            }
            assert_eq!(r, leaf);
        }
    }
    // every node was placed: the positions are distinct
    assert!(reports.iter().all(|r| r.outcome != InsertOutcome::Dropped));
    assert_eq!(held_nodes(&tree), (0..pos.len()).map(|k| k * PPN).collect::<Vec<_>>());
}

#[test]
fn first_node_of_a_build_lands_in_the_root() {
    let oracle = bounds_oracle(vec![(3.0, 4.0), (3.0, 4.0), (9.0, 1.0)]);
    let (tree, reports) = RegionTree::from_nodes(3, &oracle);
    assert_eq!(reports[0].outcome, InsertOutcome::Placed(0));
    assert!(reports[0].events.is_empty());
    assert!(tree.len() <= 1 + 16 * 2);
}

#[test]
fn every_region_but_the_root_has_one_parent() {
    let pos: Vec<(f64, f64)> = (0..25).map(|i| ((i * 7 % 11) as f64, (i * 5 % 13) as f64)).collect();
    let (tree, _) = RegionTree::from_nodes(pos.len(), bounds_oracle(pos));
    let mut parents = vec![0usize; tree.len()];
    let mut internal = 0;
    for r in 0..tree.len() {
        if let Some(c) = tree.region(r).first_child {
            internal += 1;
            for k in 0..4 {
                parents[c + k] += 1;
            }
        }
    }
    assert_eq!(parents[0], 0);
    assert!(parents[1..].iter().all(|&p| p == 1));
    assert_eq!(tree.len(), 1 + 4 * internal);
}

#[test]
fn coincident_nodes_reach_the_region_bound() {
    // every node after the first splits four times and is left out:
    // 1 + 16 * (N - 1) regions, the most a build of N nodes can make
    let (tree, reports) = RegionTree::from_nodes(4, bounds_oracle(vec![(1.0, 1.0); 4]));
    assert_eq!(tree.len(), 1 + 16 * 3);
    assert!(reports[1..].iter().all(|r| r.events.len() >= 4));
    assert_eq!(held_nodes(&tree), vec![0]);
}

#[test]
fn insertion_leaves_regions_it_does_not_reach_alone() {
    let oracle = grid_oracle(vec![(1.0, 1.0), (13.0, 13.0), (1.0, 13.0)]);
    let mut tree = RegionTree::new();
    tree.insert(0, &oracle);
    tree.insert(PPN, &oracle);
    assert_eq!(tree.len(), 5);
    let before: Vec<(Option<usize>, Option<usize>, Option<usize>)> = (0..tree.len())
        .map(|r| {
            let g = tree.region(r);
            (g.node, g.first_child, g.next_sibling)
        })
        .collect();
    let report = tree.insert(2 * PPN, &oracle);
    // one descent through the root into its empty bottom-left sub-region
    assert_eq!(report.outcome, InsertOutcome::Placed(2));
    assert_eq!(report.events.len(), 1);
    assert_eq!(tree.len(), 5);
    for r in [1usize, 3, 4] {
        let g = tree.region(r);
        assert_eq!((g.node, g.first_child, g.next_sibling), before[r]);
    }
    assert_eq!(tree.region(2).node, Some(2 * PPN));
}
