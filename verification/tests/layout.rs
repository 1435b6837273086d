use cfa2_kernel::layout::{repulsion_strategy, uses_thread_pool, LayoutAborted, LayoutRun, RepulsionStrategy};

fn drive(total: u32, abort_at: Option<u32>) -> (Vec<(u32, u32)>, Result<(), LayoutAborted>) {
    let mut seen = vec![];
    let mut run = LayoutRun::new(total);
    while let Some(i) = run.next_iteration() {
        seen.push((i, run.iterations()));
        let r = if Some(i) == abort_at { Err(LayoutAborted) } else { Ok(()) };
        run.record(r);
    }
    (seen, run.outcome())
}

#[test]
fn callback_sees_every_iteration_and_can_abort() {
    let (seen, out) = drive(5, None);
    assert_eq!(seen, vec![(1, 5), (2, 5), (3, 5), (4, 5), (5, 5)]); // 1-based
    assert!(out.is_ok());
    let (_, err) = drive(5, Some(2));
    assert!(err.is_err());
}

#[test]
fn callback_sees_every_iteration_one_based() {
    let (seen, out) = drive(5, None);
    assert_eq!(seen, vec![(1, 5), (2, 5), (3, 5), (4, 5), (5, 5)]);
    assert_eq!(out, Ok(()));
}

#[test]
fn abort_stops_the_run() {
    let (seen, out) = drive(5, Some(2));
    assert_eq!(seen, vec![(1, 5), (2, 5)]);
    assert_eq!(out, Err(LayoutAborted));
}

#[test]
fn zero_iterations_run_nothing() {
    let (seen, out) = drive(0, None);
    assert!(seen.is_empty());
    assert_eq!(out, Ok(()));
}

#[test]
fn only_barnes_hut_goes_parallel() {
    assert_eq!(repulsion_strategy(4, false), RepulsionStrategy::Pairwise);
    assert_eq!(repulsion_strategy(1, false), RepulsionStrategy::Pairwise);
    assert_eq!(repulsion_strategy(0, true), RepulsionStrategy::BarnesHut);
    assert_eq!(repulsion_strategy(1, true), RepulsionStrategy::BarnesHut);
    assert_eq!(repulsion_strategy(4, true), RepulsionStrategy::ParallelBarnesHut);
    assert!(!uses_thread_pool(0));
    assert!(!uses_thread_pool(1));
    assert!(uses_thread_pool(2));
}
