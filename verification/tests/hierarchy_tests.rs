use kanban::hierarchy::{build_hierarchy_set, grouped_by_column, map_task_db_to_linked};
use kanban::task::Task;

fn mk_task(id: u128, column_id: Option<u128>, above_task_id: Option<u128>) -> Task {
    Task {
        id,
        title: format!("task-{}", id),
        description: None,
        column_id,
        above_task_id,
        board_id: 900,
        created_at: 0,
        updated_at: None,
    }
}

fn ids(tasks: &[Task]) -> Vec<u128> {
    tasks.iter().map(|t| t.id).collect()
}

#[test]
fn single_chain_is_emitted_in_chain_order() {
    // C.above = B, B.above = A, A.above = None; input order is scrambled.
    let a = mk_task(1, Some(10), None);
    let b = mk_task(2, Some(10), Some(1));
    let c = mk_task(3, Some(10), Some(2));
    let out = build_hierarchy_set(vec![c.clone(), b.clone(), a.clone()]);
    assert_eq!(ids(&out), vec![1, 2, 3]);
}

#[test]
fn two_disjoint_chains_are_contiguous_in_root_order() {
    // A -> B and X -> Y; A's root is seen before X's in the input.
    let a = mk_task(1, Some(10), None);
    let b = mk_task(2, Some(10), Some(1));
    let x = mk_task(7, Some(10), None);
    let y = mk_task(8, Some(10), Some(7));
    let out = build_hierarchy_set(vec![b.clone(), a.clone(), y.clone(), x.clone()]);
    assert_eq!(ids(&out), vec![1, 2, 7, 8]);
}

#[test]
fn two_cycle_terminates_and_keeps_both_tasks_once() {
    // A.above = B and B.above = A: no roots at all.
    let a = mk_task(1, Some(10), Some(2));
    let b = mk_task(2, Some(10), Some(1));
    let out = build_hierarchy_set(vec![a.clone(), b.clone()]);
    // both appear exactly once, appended as orphans in input order
    assert_eq!(ids(&out), vec![1, 2]);
}

#[test]
fn dangling_reference_is_treated_as_root() {
    // B points at an id that is not in the bucket.
    let b = mk_task(2, Some(10), Some(999));
    let c = mk_task(3, Some(10), Some(2));
    let out = build_hierarchy_set(vec![c.clone(), b.clone()]);
    assert_eq!(ids(&out), vec![2, 3]);
}

#[test]
fn self_reference_does_not_loop() {
    let a = mk_task(1, Some(10), Some(1));
    let b = mk_task(2, Some(10), None);
    let out = build_hierarchy_set(vec![a.clone(), b.clone()]);
    assert_eq!(out.len(), 2);
    let mut seen = ids(&out);
    seen.sort();
    assert_eq!(seen, vec![1, 2]);
}

#[test]
fn every_task_appears_exactly_once_under_multiple_claimants() {
    // B and C both claim A; the earlier claimant wins the walk slot.
    let a = mk_task(1, Some(10), None);
    let b = mk_task(2, Some(10), Some(1));
    let c = mk_task(3, Some(10), Some(1));
    let out = build_hierarchy_set(vec![a.clone(), b.clone(), c.clone()]);
    assert_eq!(ids(&out), vec![1, 2, 3]);
}

#[test]
fn grouping_preserves_order_within_buckets() {
    let t1 = mk_task(1, Some(10), None);
    let t2 = mk_task(2, None, None);
    let t3 = mk_task(3, Some(10), None);
    let t4 = mk_task(4, Some(20), None);
    let groups = grouped_by_column(&vec![t1.clone(), t2.clone(), t3.clone(), t4.clone()]);
    assert_eq!(groups.len(), 3);
    // keys in first-appearance order
    assert_eq!(groups[0].0, Some(10));
    assert_eq!(groups[1].0, None);
    assert_eq!(groups[2].0, Some(20));
    assert_eq!(ids(&groups[0].1), vec![1, 3]);
    assert_eq!(ids(&groups[1].1), vec![2]);
    assert_eq!(ids(&groups[2].1), vec![4]);
}

#[test]
fn grouping_of_its_own_flattened_buckets_reproduces_the_buckets() {
    let tasks = vec![
        mk_task(1, Some(10), None),
        mk_task(2, None, None),
        mk_task(3, Some(10), None),
        mk_task(4, Some(20), None),
        mk_task(5, None, None),
    ];
    let groups = grouped_by_column(&tasks);
    let mut flat: Vec<Task> = Vec::new();
    for (_, bucket) in &groups {
        for t in bucket {
            flat.push(t.clone());
        }
    }
    let regrouped = grouped_by_column(&flat);
    assert_eq!(groups, regrouped);
}

#[test]
fn positions_are_dense_per_column() {
    // two columns, one chain each, plus an unassigned task
    let a = mk_task(1, Some(10), None);
    let b = mk_task(2, Some(10), Some(1));
    let x = mk_task(7, Some(20), None);
    let y = mk_task(8, Some(20), Some(7));
    let u = mk_task(9, None, None);
    let out = map_task_db_to_linked(vec![b.clone(), a.clone(), y.clone(), x.clone(), u.clone()]);
    assert_eq!(out.len(), 5);
    let col10: Vec<_> = out.iter().filter(|st| st.column_id == Some(10)).collect();
    assert_eq!(col10.iter().map(|st| st.id).collect::<Vec<_>>(), vec![1, 2]);
    assert_eq!(col10.iter().map(|st| st.position).collect::<Vec<_>>(), vec![0, 1]);
    let col20: Vec<_> = out.iter().filter(|st| st.column_id == Some(20)).collect();
    assert_eq!(col20.iter().map(|st| st.id).collect::<Vec<_>>(), vec![7, 8]);
    assert_eq!(col20.iter().map(|st| st.position).collect::<Vec<_>>(), vec![0, 1]);
    let unassigned: Vec<_> = out.iter().filter(|st| st.column_id.is_none()).collect();
    assert_eq!(unassigned.iter().map(|st| st.position).collect::<Vec<_>>(), vec![0]);
}

#[test]
fn resolver_output_is_complete_on_arbitrary_link_shapes() {
    // None, self-reference, foreign id, and a two-cycle together
    let tasks = vec![
        mk_task(1, Some(10), None),
        mk_task(2, Some(10), Some(2)),
        mk_task(3, Some(10), Some(555)),
        mk_task(4, Some(10), Some(5)),
        mk_task(5, Some(10), Some(4)),
    ];
    let out = build_hierarchy_set(tasks.clone());
    assert_eq!(out.len(), tasks.len());
    let mut seen = ids(&out);
    seen.sort();
    assert_eq!(seen, vec![1, 2, 3, 4, 5]);
}

#[test]
fn positions_cover_zero_to_n_minus_one_once_each() {
    let tasks = vec![
        mk_task(1, Some(10), None),
        mk_task(2, Some(10), Some(1)),
        mk_task(3, Some(10), Some(999)),
        mk_task(4, Some(10), Some(4)),
    ];
    let out = map_task_db_to_linked(tasks);
    let mut positions: Vec<usize> = out.iter().map(|st| st.position).collect();
    positions.sort();
    assert_eq!(positions, vec![0, 1, 2, 3]);
}
