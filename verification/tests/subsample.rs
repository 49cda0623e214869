use brush_render::subsample::{extract_subsampled_data, subsample_points_density_aware};

/// The voxel of a 32^3 grid over the bounding box in which each point lies.
fn grid_cells(positions: &[f32]) -> Vec<(i32, i32, i32)> {
    let points: Vec<[f32; 3]> = positions.chunks_exact(3).map(|c| [c[0], c[1], c[2]]).collect();
    let mut min = [f32::MAX; 3];
    let mut max = [f32::MIN; 3];
    for p in &points {
        for a in 0..3 {
            min[a] = min[a].min(p[a]);
            max[a] = max[a].max(p[a]);
        }
    }
    let extent: Vec<f32> = (0..3).map(|a| max[a] - min[a]).collect();
    let length = extent.iter().map(|e| e * e).sum::<f32>().sqrt();
    if length < f32::EPSILON {
        // All points coincide: they form one voxel.
        return vec![(0, 0, 0); points.len()];
    }
    let size: Vec<f32> = extent.iter().map(|e| e / 32.0).collect();
    points
        .iter()
        .map(|p| {
            (
                ((p[0] - min[0]) / size[0]).floor() as i32,
                ((p[1] - min[1]) / size[1]).floor() as i32,
                ((p[2] - min[2]) / size[2]).floor() as i32,
            )
        })
        .collect()
}

#[test]
fn test_subsample_density_aware_basic() {
    // Create 100 points
    let mut positions = Vec::new();
    for i in 0..100 {
        let x = (i % 10) as f32;
        let y = (i / 10) as f32;
        let z = 0.0;
        positions.extend([x, y, z]);
    }

    let max_count = 50;
    let mut rng = rand::rng();
    let cells = grid_cells(&positions);
    let subsampled = subsample_points_density_aware(
        positions, None, None, None, None, max_count, &cells, &mut rng,
    );

    assert_eq!(subsampled.positions.len() / 3, max_count as usize);
}

#[test]
fn test_subsample_density_aware_already_small() {
    let positions = vec![1.0f32, 2.0, 3.0, 4.0, 5.0, 6.0]; // 2 points
    let colors = Some(vec![1.0f32, 0.0, 0.0, 0.0, 1.0, 0.0]); // 2 colors

    let max_count = 10;
    let mut rng = rand::rng();
    let cells = grid_cells(&positions);
    let subsampled = subsample_points_density_aware(
        positions.clone(), colors.clone(), None, None, None, max_count, &cells, &mut rng,
    );

    // Should return the input unchanged since it is already smaller than max_count
    assert_eq!(subsampled.positions, positions);
    assert_eq!(subsampled.colors, colors);
}

#[test]
fn subsample_to_zero_points_empties_every_attribute() {
    let positions: Vec<u32> = (0..12).collect();
    let colors = Some((100..112).collect::<Vec<u32>>());
    let cells = vec![(0, 0, 0); 4];
    let mut rng = rand::rng();
    let out = subsample_points_density_aware(positions, colors, None, None, None, 0, &cells, &mut rng);
    assert!(out.positions.is_empty());
    assert_eq!(out.colors, Some(vec![]));
    assert_eq!(out.scales, None);
    assert_eq!(out.rotations, None);
    assert_eq!(out.opacities, None);
}

#[test]
fn subsample_keeps_sparse_voxels_whole() {
    // Points 0..6 share one voxel; points 6 and 7 each have a voxel of their own.
    let positions: Vec<u32> = (0..24).collect();
    let opacities = Some((0..8).map(|i| 1000 + i).collect::<Vec<u32>>());
    let mut cells = vec![(0, 0, 0); 6];
    cells.push((5, 5, 5));
    cells.push((9, 9, 9));
    let mut rng = rand::rng();
    let out = subsample_points_density_aware(positions, None, None, None, opacities, 4, &cells, &mut rng);
    assert_eq!(out.positions.len(), 12);
    let kept: Vec<u32> = out.positions.chunks(3).map(|c| c[0] / 3).collect();
    // Ascending, with both lone points kept and two points of the crowded voxel.
    assert!(kept.windows(2).all(|w| w[0] < w[1]));
    assert!(kept.contains(&6) && kept.contains(&7));
    assert_eq!(kept.iter().filter(|&&k| k < 6).count(), 2);
    let ops = out.opacities.unwrap();
    assert_eq!(ops, kept.iter().map(|k| 1000 + k).collect::<Vec<u32>>());
}

#[test]
fn extract_sorts_indices_and_skips_incomplete_rows() {
    let positions: Vec<i32> = (0..9).collect(); // 3 points
    let colors = Some((10..22).collect::<Vec<i32>>()); // 4 colours
    let rotations = Some((0..8).collect::<Vec<i32>>()); // 2 rotations
    let opacities = Some(vec![7, 8, 9]);
    let indices = vec![3, 1, 0, 1];
    let out = extract_subsampled_data(&positions, &indices, colors, None, rotations, opacities);
    assert_eq!(out.positions, vec![0, 1, 2, 3, 4, 5, 3, 4, 5]);
    assert_eq!(out.colors, Some(vec![10, 11, 12, 13, 14, 15, 13, 14, 15, 19, 20, 21]));
    assert_eq!(out.scales, None);
    assert_eq!(out.rotations, Some(vec![0, 1, 2, 3, 4, 5, 6, 7, 4, 5, 6, 7]));
    assert_eq!(out.opacities, Some(vec![7, 8, 8]));
}

#[test]
fn subsample_of_coinciding_points_keeps_max_count() {
    let positions: Vec<f32> = [1.5f32, -2.0, 3.0].repeat(20);
    let cells = grid_cells(&positions);
    assert!(cells.iter().all(|c| *c == (0, 0, 0)));
    let mut rng = rand::rng();
    let out = subsample_points_density_aware(positions, None, None, None, None, 7, &cells, &mut rng);
    assert_eq!(out.positions.len(), 21);
}
