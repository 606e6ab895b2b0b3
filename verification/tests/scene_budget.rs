use qem_simplifier::scene::{
    attempt_target, compute_statistics_counts, count_mesh_instances, index_decisions_by_mesh, mesh_output_triangles,
    mesh_target_bounds, node_processing_order, simplify_succeeded, solve_integer_targets, sum_u32_values,
    summarize_mesh_results, BindingError, DecisionCounts, MeshBinding, MeshRunOutcome,
};
use qem_simplifier::{output_buffer_status, QEM_STATUS_INVALID_ARGUMENT, QEM_STATUS_PANIC, QEM_STATUS_SUCCESS};

#[test]
fn compute_decisions_respects_global_budget_after_integer_rounding() {
    // Two meshes of one triangle each, target ratio 0.5, mesh ratios in [0, 1]:
    // each may keep 0 or 1 triangle and the fractional budgets are equal.
    let (min0, max0) = mesh_target_bounds(1, 0, 1, 0);
    let (min1, max1) = mesh_target_bounds(1, 0, 1, 0);
    assert_eq!((min0, max0), (0, 1));
    assert_eq!((min1, max1), (0, 1));
    let targets = solve_integer_targets(&[0, 0], &[500, 500], &[min0, min1], &[max0, max1], 1);
    let total: u64 = targets.iter().map(|&t| t as u64).sum();
    assert_eq!(total, 1);
    assert_eq!(sum_u32_values(&targets), 1);
    assert!(targets.iter().all(|&t| t <= 1));
    assert_eq!(targets, vec![1, 0]);
}

#[test]
fn integer_targets_raise_by_largest_fraction_first() {
    let t = solve_integer_targets(&[2, 3, 1], &[100, 900, 500], &[0, 0, 0], &[5, 5, 5], 10);
    assert_eq!(t, vec![3, 5, 2]);
}

#[test]
fn integer_targets_lower_by_smallest_fraction_first() {
    let t = solve_integer_targets(&[4, 4], &[100, 900], &[1, 1], &[10, 10], 3);
    assert_eq!(t, vec![1, 2]);
}

#[test]
fn integer_targets_clamp_the_budget_to_the_bounds() {
    let t = solve_integer_targets(&[1, 1], &[0, 0], &[0, 2], &[4, 6], 100);
    assert_eq!(t, vec![4, 6]);
    let t = solve_integer_targets(&[9, 9], &[0, 0], &[1, 2], &[4, 6], 0);
    assert_eq!(t, vec![1, 2]);
    let t = solve_integer_targets(&[2, 3], &[7, 1], &[0, 0], &[9, 9], 5);
    assert_eq!(t, vec![2, 3]);
}

#[test]
fn mesh_bounds_follow_floor_and_ratios() {
    assert_eq!(mesh_target_bounds(10, 3, 8, 5), (5, 8));
    assert_eq!(mesh_target_bounds(4, 2, 1, 9), (4, 4));
    assert_eq!(mesh_target_bounds(10, 12, 20, 0), (10, 10));
    assert_eq!(mesh_target_bounds(0, 3, 3, 3), (0, 0));
}

#[test]
fn run_outcomes_are_summed() {
    let results = [
        MeshRunOutcome { mesh_index: 0, status: QEM_STATUS_SUCCESS, source_triangles: 10, requested_triangles: 5, output_triangles: 5 },
        MeshRunOutcome { mesh_index: 1, status: QEM_STATUS_INVALID_ARGUMENT, source_triangles: 8, requested_triangles: 4, output_triangles: 8 },
        MeshRunOutcome { mesh_index: 2, status: QEM_STATUS_PANIC, source_triangles: 6, requested_triangles: 3, output_triangles: 6 },
        MeshRunOutcome { mesh_index: 3, status: QEM_STATUS_SUCCESS, source_triangles: 4, requested_triangles: 4, output_triangles: 4 },
    ];
    let t = summarize_mesh_results(&results);
    assert_eq!(t.status, QEM_STATUS_INVALID_ARGUMENT);
    assert_eq!(t.num_simplified_meshes, 1);
    assert_eq!(t.source_triangles, 28);
    assert_eq!(t.target_triangles, 16);
    assert_eq!(t.output_triangles, 23);
    let empty = summarize_mesh_results(&[]);
    assert_eq!(empty.status, QEM_STATUS_SUCCESS);
    assert_eq!(empty.output_triangles, 0);
}

#[test]
fn statistics_are_listed_by_mesh_index() {
    let decisions = [
        DecisionCounts { mesh_index: 1, mesh_id: 11, source_triangles: 0 },
        DecisionCounts { mesh_index: 0, mesh_id: 10, source_triangles: 5 },
    ];
    let results = [
        MeshRunOutcome { mesh_index: 0, status: QEM_STATUS_SUCCESS, source_triangles: 5, requested_triangles: 2, output_triangles: 2 },
        MeshRunOutcome { mesh_index: 1, status: QEM_STATUS_INVALID_ARGUMENT, source_triangles: 0, requested_triangles: 0, output_triangles: 0 },
    ];
    let (entries, totals) = compute_statistics_counts(&decisions, &results).expect("valid statistics input");
    assert_eq!(entries.len(), 2);
    let e0 = entries[0];
    assert_eq!((e0.decision_position, e0.result_position, e0.mesh_index, e0.mesh_id), (1, 0, 0, 10));
    assert_eq!((e0.status, e0.source_triangles, e0.target_triangles, e0.output_triangles), (QEM_STATUS_SUCCESS, 5, 2, 2));
    let e1 = entries[1];
    assert_eq!((e1.decision_position, e1.result_position, e1.mesh_index, e1.mesh_id), (0, 1, 1, 11));
    assert_eq!((e1.status, e1.source_triangles, e1.target_triangles, e1.output_triangles), (QEM_STATUS_INVALID_ARGUMENT, 1, 1, 0));
    assert_eq!(totals.status, QEM_STATUS_INVALID_ARGUMENT);
    assert_eq!(totals.num_meshes, 2);
    assert_eq!(totals.num_failed_meshes, 1);
    assert_eq!(totals.num_simplified_meshes, 1);
    assert_eq!(totals.source_triangles, 6);
    assert_eq!(totals.target_triangles, 3);
    assert_eq!(totals.output_triangles, 2);
}

#[test]
fn statistics_reject_inconsistent_input() {
    let d = [DecisionCounts { mesh_index: 0, mesh_id: 1, source_triangles: 3 }];
    let r = [MeshRunOutcome { mesh_index: 0, status: QEM_STATUS_SUCCESS, source_triangles: 3, requested_triangles: 1, output_triangles: 1 }];
    assert!(compute_statistics_counts(&d, &r).is_ok());
    assert_eq!(compute_statistics_counts(&[], &r).err(), Some(QEM_STATUS_INVALID_ARGUMENT));
    assert_eq!(compute_statistics_counts(&d, &[]).err(), Some(QEM_STATUS_INVALID_ARGUMENT));
    let other = [MeshRunOutcome { mesh_index: 4, ..r[0] }];
    assert_eq!(compute_statistics_counts(&d, &other).err(), Some(QEM_STATUS_INVALID_ARGUMENT));
    let twice = [d[0], d[0]];
    let two = [r[0], MeshRunOutcome { mesh_index: 1, ..r[0] }];
    assert_eq!(compute_statistics_counts(&twice, &two).err(), Some(QEM_STATUS_INVALID_ARGUMENT));
}

#[test]
fn decisions_are_indexed_by_mesh() {
    assert_eq!(index_decisions_by_mesh(&[2, 0, 1], 3), Some(vec![1, 2, 0]));
    assert_eq!(index_decisions_by_mesh(&[0, 0], 2), None);
    assert_eq!(index_decisions_by_mesh(&[0, 5], 2), None);
    assert_eq!(index_decisions_by_mesh(&[0], 2), None);
    assert_eq!(index_decisions_by_mesh(&[], 0), Some(vec![]));
}

#[test]
fn instances_count_bindings_per_mesh() {
    let b = [
        MeshBinding { node_index: 0, mesh_index: 1 },
        MeshBinding { node_index: 1, mesh_index: 1 },
        MeshBinding { node_index: 2, mesh_index: 0 },
    ];
    assert_eq!(count_mesh_instances(&b, 3, 3), Ok(vec![1, 2, 1]));
    let bad_mesh = [MeshBinding { node_index: 0, mesh_index: 5 }];
    assert_eq!(count_mesh_instances(&bad_mesh, 3, 3), Err(BindingError::MeshIndexOutOfRange { mesh_index: 5 }));
    let bad_node = [b[0], MeshBinding { node_index: 7, mesh_index: 0 }];
    assert_eq!(count_mesh_instances(&bad_node, 3, 3), Err(BindingError::NodeIndexOutOfRange { node_index: 7 }));
}

#[test]
fn nodes_are_ordered_parents_first() {
    assert_eq!(node_processing_order(&[-1, 0, 0, 1]), Some(vec![0, 1, 2, 3]));
    assert_eq!(node_processing_order(&[2, -1, 1]), Some(vec![1, 2, 0]));
    assert_eq!(node_processing_order(&[1, 0]), None);
    assert_eq!(node_processing_order(&[5]), None);
    assert_eq!(node_processing_order(&[]), Some(vec![]));
}

#[test]
fn retry_helpers() {
    assert_eq!(attempt_target(0, 10), 1);
    assert_eq!(attempt_target(5, 10), 5);
    assert_eq!(attempt_target(20, 10), 10);
    assert_eq!(attempt_target(3, 0), 1);
    assert!(simplify_succeeded(QEM_STATUS_SUCCESS, QEM_STATUS_SUCCESS, 4, 12));
    assert!(!simplify_succeeded(QEM_STATUS_SUCCESS, QEM_STATUS_SUCCESS, 4, 11));
    assert!(!simplify_succeeded(QEM_STATUS_SUCCESS, QEM_STATUS_INVALID_ARGUMENT, 4, 12));
    assert!(!simplify_succeeded(QEM_STATUS_SUCCESS, QEM_STATUS_SUCCESS, 0, 0));
    assert!(simplify_succeeded(QEM_STATUS_SUCCESS, QEM_STATUS_SUCCESS, 0x6000_0000, u32::MAX));
    assert_eq!(mesh_output_triangles(QEM_STATUS_SUCCESS, QEM_STATUS_SUCCESS, 7, 10), 7);
    assert_eq!(mesh_output_triangles(QEM_STATUS_INVALID_ARGUMENT, QEM_STATUS_SUCCESS, 7, 10), 10);
}

#[test]
fn statistics_probe_and_fill_agree() {
    let decisions = [
        DecisionCounts { mesh_index: 2, mesh_id: 7, source_triangles: 9 },
        DecisionCounts { mesh_index: 0, mesh_id: 5, source_triangles: 3 },
    ];
    let results = [
        MeshRunOutcome { mesh_index: 0, status: QEM_STATUS_SUCCESS, source_triangles: 3, requested_triangles: 2, output_triangles: 2 },
        MeshRunOutcome { mesh_index: 2, status: QEM_STATUS_SUCCESS, source_triangles: 9, requested_triangles: 4, output_triangles: 5 },
    ];
    let (probe, probe_totals) = compute_statistics_counts(&decisions, &results).expect("valid statistics input");
    assert_eq!(output_buffer_status(probe.len() as u32, false, 0), QEM_STATUS_SUCCESS);
    let (fill, fill_totals) = compute_statistics_counts(&decisions, &results).expect("valid statistics input");
    assert_eq!(output_buffer_status(fill.len() as u32, true, probe.len() as u32), QEM_STATUS_SUCCESS);
    assert_eq!(probe.len(), fill.len());
    for (a, b) in probe.iter().zip(fill.iter()) {
        assert_eq!((a.decision_position, a.result_position, a.mesh_index), (b.decision_position, b.result_position, b.mesh_index));
        assert_eq!((a.target_triangles, a.output_triangles), (b.target_triangles, b.output_triangles));
    }
    assert_eq!(probe_totals.num_meshes, fill_totals.num_meshes);
    assert_eq!(probe_totals.output_triangles, fill_totals.output_triangles);
    assert_eq!(fill_totals.output_triangles, 7);
    assert_eq!(fill_totals.target_triangles, 6);
}
