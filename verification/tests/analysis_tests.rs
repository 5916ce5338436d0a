use gradwork_ca::{CACell, CAContext};
use gradwork_ca::{components, distance_stats, largest_component, percolation, roughness_stats, tunnel_distances};

fn alive(g: &mut CAContext, x: usize, y: usize, z: usize) {
    g.set(x, y, z, CACell::new(1));
}

// Sum property: the component sizes add up to the number of alive cells.
#[test]
fn component_sizes_sum_to_alive_count() {
    let half = 1u64 << 63;
    let g = CAContext::random(6, 6, 6, 5, half);
    let comps = components(&g);
    let total: usize = comps.iter().map(|c| c.len()).sum();
    assert_eq!(total, g.total_air_cells());
}

// Idempotence of labeling: a second run over the same grid produces the
// same components.
#[test]
fn labeling_twice_is_identical() {
    let half = 1u64 << 63;
    let g = CAContext::random(5, 5, 5, 21, half);
    let a = components(&g);
    let b = components(&g);
    assert_eq!(a, b);
    let sizes_a: Vec<usize> = a.iter().map(|c| c.len()).collect();
    let sizes_b: Vec<usize> = b.iter().map(|c| c.len()).collect();
    assert_eq!(sizes_a, sizes_b);
}

#[test]
fn two_separate_blobs_are_two_components() {
    let mut g = CAContext::new(5, 1, 1);
    alive(&mut g, 0, 0, 0);
    alive(&mut g, 1, 0, 0);
    alive(&mut g, 3, 0, 0);
    let comps = components(&g);
    assert_eq!(comps.len(), 2);
    let mut sizes: Vec<usize> = comps.iter().map(|c| c.len()).collect();
    sizes.sort();
    assert_eq!(sizes, vec![1, 2]);
}

#[test]
fn empty_grid_has_no_components() {
    let g = CAContext::new(3, 3, 3);
    assert_eq!(components(&g).len(), 0);
    assert_eq!(largest_component(&components(&g)), None);
}

// Percolation: a straight alive line spanning X percolates along X only,
// as long as it does not touch the Y or Z boundaries.
#[test]
fn straight_line_percolates_along_x_only() {
    let mut g = CAContext::new(4, 3, 3);
    for x in 0..4 {
        alive(&mut g, x, 1, 1);
    }
    let comps = components(&g);
    assert_eq!(comps.len(), 1);
    let (px, py, pz) = percolation(&g, &comps);
    assert!(px);
    assert!(!py);
    assert!(!pz);
}

#[test]
fn full_grid_percolates_every_axis() {
    let mut g = CAContext::new(3, 3, 3);
    for i in 0..27 {
        let (x, y, z) = g.pos(i);
        alive(&mut g, x, y, z);
    }
    let comps = components(&g);
    let (px, py, pz) = percolation(&g, &comps);
    assert!(px && py && pz);
}

#[test]
fn largest_component_prefers_first_of_equal_sizes() {
    let mut g = CAContext::new(7, 1, 1);
    alive(&mut g, 0, 0, 0);
    alive(&mut g, 2, 0, 0);
    alive(&mut g, 4, 0, 0);
    alive(&mut g, 5, 0, 0);
    let comps = components(&g);
    assert_eq!(comps.len(), 3);
    // sizes 1, 1, 2: the third is strictly largest
    assert_eq!(largest_component(&comps), Some(2));
    let mut g2 = CAContext::new(5, 1, 1);
    alive(&mut g2, 0, 0, 0);
    alive(&mut g2, 2, 0, 0);
    // tie between two single cells: the first one wins
    assert_eq!(largest_component(&components(&g2)), Some(0));
}

#[test]
fn roughness_of_single_solid_cell() {
    let g = CAContext::new(1, 1, 1);
    let r = roughness_stats(&g);
    assert_eq!(r.surface_count, 1);
    assert_eq!(r.alive_sum, 0);
    assert_eq!(r.alive_sq_sum, 0);
}

#[test]
fn roughness_counts_alive_moore_neighbors() {
    let mut g = CAContext::new(1, 1, 2);
    alive(&mut g, 0, 0, 1);
    let r = roughness_stats(&g);
    // one solid cell, one alive Moore neighbor
    assert_eq!(r.surface_count, 1);
    assert_eq!(r.alive_sum, 1);
    assert_eq!(r.alive_sq_sum, 1);
}

#[test]
fn roughness_skips_interior_only_when_no_alive_neighbor() {
    // 3x3x3 all solid: every cell but the center is on the boundary; the
    // center has no alive neighbor and is not a surface voxel
    let g = CAContext::new(3, 3, 3);
    let r = roughness_stats(&g);
    assert_eq!(r.surface_count, 26);
    assert_eq!(r.alive_sum, 0);
    // making the center alive turns all 26 others into surface voxels with
    // one alive neighbor each
    let mut g2 = CAContext::new(3, 3, 3);
    alive(&mut g2, 1, 1, 1);
    let r2 = roughness_stats(&g2);
    assert_eq!(r2.surface_count, 26);
    assert_eq!(r2.alive_sum, 26);
    assert_eq!(r2.alive_sq_sum, 26);
}

// Distance transform: in a fully alive 5x5x5 cube the outer shell is the
// surface at distance 1 and the center reaches the maximum distance 3.
#[test]
fn tunnel_distances_of_full_cube() {
    let mut g = CAContext::new(5, 5, 5);
    for i in 0..125 {
        let (x, y, z) = g.pos(i);
        alive(&mut g, x, y, z);
    }
    let comps = components(&g);
    assert_eq!(comps.len(), 1);
    let k = largest_component(&comps).unwrap();
    let dist = tunnel_distances(&g, &comps[k]);
    assert_eq!(dist.len(), 125);
    let mut max_d: usize = 0;
    for i in 0..125 {
        let (x, y, z) = g.pos(i);
        let d = dist[i];
        assert!(d != usize::MAX);
        // expected distance: 1 on the shell, growing inward by layers
        let cheb = [x, 4 - x, y, 4 - y, z, 4 - z].into_iter().min().unwrap();
        assert_eq!(d, cheb + 1);
        if d > max_d {
            max_d = d;
        }
    }
    assert_eq!(max_d, 3);
    assert_eq!(dist[g.idx(2, 2, 2)], 3);
}

#[test]
fn tunnel_distances_leave_other_cells_unreached() {
    let mut g = CAContext::new(4, 1, 1);
    alive(&mut g, 0, 0, 0);
    alive(&mut g, 1, 0, 0);
    alive(&mut g, 3, 0, 0);
    let comps = components(&g);
    let k = largest_component(&comps).unwrap();
    let dist = tunnel_distances(&g, &comps[k]);
    // the two-cell component is reached, the rest is not
    assert_eq!(dist[0], 1);
    assert_eq!(dist[1], 1);
    assert_eq!(dist[2], usize::MAX);
    assert_eq!(dist[3], usize::MAX);
}

#[test]
fn distance_stats_aggregates() {
    let dist = vec![usize::MAX, 1, 2, 3, usize::MAX];
    let (count, sum, sqsum) = distance_stats(&dist);
    assert_eq!(count, 3);
    assert_eq!(sum, 6);
    assert_eq!(sqsum, 14);
    let empty: Vec<usize> = vec![usize::MAX];
    assert_eq!(distance_stats(&empty), (0, 0, 0));
}
