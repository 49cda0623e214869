use brush_render::budget::allocate_voxel_budget;
use brush_render::order::sort_indices;
use brush_render::sampling::select_density_aware;
use brush_render::voxel::{group_by_cell, order_by_size};

#[test]
fn allocation_shares_fairly_from_smallest() {
    assert_eq!(allocate_voxel_budget(&vec![1, 2, 10], 6), vec![1, 2, 3]);
    assert_eq!(allocate_voxel_budget(&vec![5, 5], 7), vec![3, 4]);
    assert_eq!(allocate_voxel_budget(&vec![2, 3], 100), vec![2, 3]);
    assert_eq!(allocate_voxel_budget(&vec![4, 4, 4], 0), vec![0, 0, 0]);
    assert_eq!(allocate_voxel_budget(&vec![], 5), Vec::<usize>::new());
}

#[test]
fn allocation_spends_whole_budget_on_ascending_sizes() {
    let sizes = vec![1, 1, 3, 7, 7, 20];
    for budget in 0..=39 {
        let shares = allocate_voxel_budget(&sizes, budget);
        assert_eq!(shares.iter().sum::<usize>(), budget.min(39));
        assert!(shares.iter().zip(&sizes).all(|(a, s)| a <= s));
    }
}

#[test]
fn grouping_follows_first_occurrence() {
    let cells = vec![(0, 0, 0), (1, 0, 0), (0, 0, 0), (2, 2, -2), (1, 0, 0)];
    assert_eq!(group_by_cell(&cells), vec![vec![0, 2], vec![1, 4], vec![3]]);
    assert_eq!(group_by_cell(&vec![]), Vec::<Vec<usize>>::new());
}

#[test]
fn groups_ordered_by_size_then_position() {
    let groups = vec![vec![0, 2], vec![1, 4], vec![3]];
    assert_eq!(order_by_size(&groups), vec![2, 0, 1]);
    let groups = vec![vec![0, 1, 2], vec![3], vec![4, 5], vec![6]];
    assert_eq!(order_by_size(&groups), vec![1, 3, 2, 0]);
}

#[test]
fn sorting_indices_keeps_repeats() {
    assert_eq!(sort_indices(&vec![5, 1, 9, 1, 0]), vec![0, 1, 1, 5, 9]);
    assert_eq!(sort_indices(&vec![usize::MAX, 3]), vec![3, usize::MAX]);
}

#[test]
fn selection_takes_all_points_within_budget() {
    let cells = vec![(0, 0, 0), (1, 1, 1), (0, 0, 0)];
    let mut rng = rand::rng();
    let mut sel = select_density_aware(&cells, 10, &mut rng);
    // The lone point comes first, then the other voxel in ascending order.
    assert_eq!(sel, vec![1, 0, 2]);
    sel.sort();
    assert_eq!(sel, vec![0, 1, 2]);
}

#[test]
fn selection_within_a_crowded_voxel_is_random() {
    let cells = vec![(3, 3, 3); 20];
    let mut rng = rand::rng();
    let mut seen_other = false;
    for _ in 0..20 {
        let sel = select_density_aware(&cells, 10, &mut rng);
        assert_eq!(sel.len(), 10);
        let mut sorted = sel.clone();
        sorted.sort();
        sorted.dedup();
        assert_eq!(sorted.len(), 10);
        assert!(sorted.iter().all(|&i| i < 20));
        if sel != (0..10).collect::<Vec<usize>>() {
            seen_other = true;
        }
    }
    assert!(seen_other);
}

#[test]
fn allocation_is_fair_to_voxels_left_short() {
    let sizes = vec![3, 5, 5, 8];
    let shares = allocate_voxel_budget(&sizes, 13);
    assert_eq!(shares, vec![3, 3, 3, 4]);
    for u in 0..sizes.len() {
        if shares[u] < sizes[u] {
            assert!(shares.iter().all(|&w| w <= shares[u] + 1));
        }
    }
}
