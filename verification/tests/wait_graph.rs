use lockwatch::wait_graph::{RootBlocker, WaitGraph, WaitRow};

fn row(pid: i32, blockers: &[i32]) -> WaitRow {
    WaitRow { pid: Some(pid), blockers: Some(blockers.to_vec()) }
}

fn roots(rows: &[WaitRow]) -> Vec<(i32, u16, u16)> {
    let mut found: Vec<(i32, u16, u16)> = WaitGraph::from_rows(rows)
        .root_blockers()
        .into_iter()
        .map(|r: RootBlocker| (r.pid, r.waiter_count, r.cascade_depth))
        .collect();
    found.sort();
    found
}

#[test]
fn nobody_waits_and_nobody_blocks() {
    assert_eq!(roots(&[]), vec![]);
    assert_eq!(roots(&[row(2, &[])]), vec![]);
}

#[test]
fn direct_waiters_have_depth_zero() {
    assert_eq!(roots(&[row(2, &[1])]), vec![(1, 1, 0)]);
    assert_eq!(roots(&[row(2, &[1]), row(3, &[1]), row(4, &[1])]), vec![(1, 3, 0)]);
}

#[test]
fn a_chain_is_credited_to_its_root() {
    let rows = [row(2, &[1]), row(3, &[2]), row(4, &[3])];
    assert_eq!(roots(&rows), vec![(1, 3, 2)]);
}

#[test]
fn the_longest_way_counts_though_there_is_a_shorter_one() {
    assert_eq!(roots(&[row(2, &[1]), row(3, &[1, 2])]), vec![(1, 2, 1)]);
    assert_eq!(roots(&[row(2, &[1]), row(3, &[2, 1])]), vec![(1, 2, 1)]);
    let rows = [row(2, &[1]), row(3, &[1, 2]), row(4, &[1, 2, 3]), row(5, &[4, 1])];
    assert_eq!(roots(&rows), vec![(1, 4, 3)]);
}

#[test]
fn a_diamond_counts_each_waiter_once() {
    let rows = [row(2, &[1]), row(3, &[1]), row(4, &[2, 3])];
    assert_eq!(roots(&rows), vec![(1, 3, 1)]);
}

#[test]
fn a_waiter_behind_two_roots_counts_for_both() {
    let rows = [row(3, &[1, 2]), row(4, &[3])];
    assert_eq!(roots(&rows), vec![(1, 2, 1), (2, 2, 1)]);
}

#[test]
fn a_deadlock_has_no_root() {
    assert_eq!(roots(&[row(1, &[2]), row(2, &[1])]), vec![]);
    assert_eq!(roots(&[row(1, &[1])]), vec![]);
}

#[test]
fn a_deadlock_behind_a_root_is_walked_once() {
    let rows = [row(2, &[3, 1]), row(3, &[2])];
    assert_eq!(roots(&rows), vec![(1, 2, 1)]);
    let both = [row(2, &[3, 1]), row(3, &[2, 1]), row(4, &[2])];
    assert_eq!(roots(&both), vec![(1, 3, 2)]);
}

#[test]
fn rows_without_a_waiter_count_for_nothing() {
    let rows = [
        WaitRow { pid: None, blockers: Some(vec![1]) },
        row(0, &[1]),
        WaitRow { pid: Some(5), blockers: None },
    ];
    assert_eq!(roots(&rows), vec![]);
}

#[test]
fn the_later_row_of_a_waiter_counts() {
    assert_eq!(roots(&[row(2, &[1]), row(2, &[3])]), vec![(3, 1, 0)]);
}

#[test]
fn a_waiter_without_blockers_is_no_root() {
    assert_eq!(roots(&[row(3, &[2]), row(2, &[])]), vec![]);
}

#[test]
fn a_prepared_transaction_blocks_as_pid_zero() {
    assert_eq!(roots(&[row(2, &[0]), row(3, &[0])]), vec![(0, 2, 0)]);
}

#[test]
fn repeated_blockers_change_nothing() {
    assert_eq!(roots(&[row(2, &[1, 1, 1]), row(3, &[2, 2])]), vec![(1, 2, 1)]);
}

#[test]
fn a_long_queue_in_which_everybody_waits_on_all_before() {
    let n: i32 = 150;
    let rows: Vec<WaitRow> = (2..=n)
        .map(|pid| {
            let ahead: Vec<i32> = (1..pid).collect();
            row(pid, &ahead)
        })
        .collect();
    assert_eq!(roots(&rows), vec![(1, (n - 1) as u16, (n - 2) as u16)]);
}
