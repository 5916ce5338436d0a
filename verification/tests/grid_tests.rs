use gradwork_ca::{CACell, CAContext, CANeighborhood, CARule, generate_seeds};

#[test]
fn cell_state_roundtrip() {
    let mut c = CACell::new(0);
    assert!(!c.is_alive());
    c.set_state(7);
    assert!(c.is_alive());
    assert_eq!(c.0, 7);
    c.set_state(0);
    assert!(!c.is_alive());
}

#[test]
fn new_grid_is_all_solid() {
    let g = CAContext::new(4, 3, 2);
    assert_eq!(g.width(), 4);
    assert_eq!(g.height(), 3);
    assert_eq!(g.depth(), 2);
    assert_eq!(g.cell_count(), 24);
    assert_eq!(g.total_air_cells(), 0);
    for i in 0..24 {
        assert!(!g.cell_at(i).is_alive());
    }
}

#[test]
fn idx_pos_roundtrip() {
    let g = CAContext::new(5, 7, 3);
    for z in 0..3 {
        for y in 0..7 {
            for x in 0..5 {
                let i = g.idx(x, y, z);
                assert_eq!(i, x + 5 * (y + 7 * z));
                assert_eq!(g.pos(i), (x, y, z));
            }
        }
    }
}

#[test]
fn set_then_get() {
    let mut g = CAContext::new(3, 3, 3);
    g.set(1, 2, 0, CACell::new(9));
    assert_eq!(g.get(1, 2, 0).0, 9);
    assert!(g.get(1, 2, 0).is_alive());
    assert_eq!(g.total_air_cells(), 1);
    g.set(1, 2, 0, CACell::new(0));
    assert_eq!(g.total_air_cells(), 0);
}

#[test]
fn grid_clone_matches() {
    let mut g = CAContext::new(2, 2, 2);
    g.set(0, 1, 1, CACell::new(3));
    let c = g.clone();
    assert_eq!(c.width(), 2);
    for i in 0..8 {
        assert_eq!(c.cell_at(i).0, g.cell_at(i).0);
    }
}

// Neighbor counting sums in-bounds cell values and ignores everything that
// falls outside the grid.
#[test]
fn count_neighbors_matches_manual_filter() {
    let mut g = CAContext::new(3, 3, 3);
    // values > 1 pin down that the byte value is summed, not a 0/1 flag
    g.set(2, 1, 1, CACell::new(2));
    g.set(0, 1, 1, CACell::new(1));
    g.set(1, 0, 1, CACell::new(5));
    let nb = CANeighborhood::von_neumann();
    // center: all six offsets in bounds
    assert_eq!(g.count_air_neighbors(1, 1, 1, &nb), 2 + 1 + 5);
    // corner: three offsets fall outside and contribute nothing
    assert_eq!(g.count_air_neighbors(0, 0, 0, &nb), 0);
    g.set(1, 0, 0, CACell::new(4));
    assert_eq!(g.count_air_neighbors(0, 0, 0, &nb), 4);
}

#[test]
fn count_neighbors_exhaustive_reference() {
    let mut g = CAContext::new(4, 4, 4);
    for i in 0..64 {
        if i % 3 == 0 {
            let (x, y, z) = g.pos(i);
            g.set(x, y, z, CACell::new((i % 7) as u8));
        }
    }
    let nb = CANeighborhood::moore();
    for i in 0..64 {
        let (x, y, z) = g.pos(i);
        let mut expected: usize = 0;
        for dx in -1i64..=1 {
            for dy in -1i64..=1 {
                for dz in -1i64..=1 {
                    if dx == 0 && dy == 0 && dz == 0 {
                        continue;
                    }
                    let nx = x as i64 + dx;
                    let ny = y as i64 + dy;
                    let nz = z as i64 + dz;
                    if nx < 0 || ny < 0 || nz < 0 || nx >= 4 || ny >= 4 || nz >= 4 {
                        continue;
                    }
                    expected += g.get(nx as usize, ny as usize, nz as usize).0 as usize;
                }
            }
        }
        assert_eq!(g.count_air_neighbors(x, y, z, &nb), expected);
    }
}

#[test]
fn von_neumann_has_six_unit_offsets() {
    let nb = CANeighborhood::von_neumann();
    assert_eq!(nb.offset_count(), 6);
    let mut seen = Vec::new();
    for k in 0..6 {
        let (dx, dy, dz) = nb.offset_at(k);
        assert_eq!(dx.abs() + dy.abs() + dz.abs(), 1);
        assert!(!seen.contains(&(dx, dy, dz)));
        seen.push((dx, dy, dz));
    }
}

#[test]
fn moore_has_26_offsets() {
    let nb = CANeighborhood::moore();
    assert_eq!(nb.offset_count(), 26);
    let mut seen = Vec::new();
    for k in 0..26 {
        let o = nb.offset_at(k);
        assert!(o.0.abs() <= 1 && o.1.abs() <= 1 && o.2.abs() <= 1);
        assert_ne!(o, (0, 0, 0));
        assert!(!seen.contains(&o));
        seen.push(o);
    }
}

#[test]
fn extended_moore_radius_two() {
    let nb = CANeighborhood::extended_moore(2);
    assert_eq!(nb.offset_count(), 5 * 5 * 5 - 1);
    for k in 0..nb.offset_count() {
        let o = nb.offset_at(k);
        assert!(o.0.abs() <= 2 && o.1.abs() <= 2 && o.2.abs() <= 2);
        assert_ne!(o, (0, 0, 0));
    }
}

#[test]
fn rule_membership() {
    let r = CARule {
        name: "B567_S456".to_string(),
        birth: vec![5, 6, 7],
        survival: vec![4, 5, 6],
    };
    assert!(r.birth_contains(5));
    assert!(r.birth_contains(7));
    assert!(!r.birth_contains(4));
    assert!(r.survival_contains(4));
    assert!(!r.survival_contains(7));
    let rc = r.clone();
    assert_eq!(rc.name, "B567_S456");
    assert_eq!(rc.birth, vec![5, 6, 7]);
}

// Determinism: the same seed and threshold reproduce the same cell buffer;
// different seeds give a different buffer.
#[test]
fn random_grid_is_deterministic() {
    let half = 1u64 << 63;
    let a = CAContext::random(8, 8, 8, 42, half);
    let b = CAContext::random(8, 8, 8, 42, half);
    for i in 0..512 {
        assert_eq!(a.cell_at(i).0, b.cell_at(i).0);
    }
    let c = CAContext::random(8, 8, 8, 43, half);
    let mut differs = false;
    for i in 0..512 {
        if a.cell_at(i).0 != c.cell_at(i).0 {
            differs = true;
        }
    }
    assert!(differs);
    // a threshold of about one half leaves the buffer neither empty nor full
    let alive = a.total_air_cells();
    assert!(alive > 0 && alive < 512);
}

#[test]
fn random_grid_threshold_extremes() {
    let none = CAContext::random(4, 4, 4, 1, 0);
    assert_eq!(none.total_air_cells(), 0);
}

#[test]
fn seeds_are_consecutive() {
    let seeds = generate_seeds(5, 1000);
    assert_eq!(seeds, vec![1000, 1001, 1002, 1003, 1004]);
    assert_eq!(generate_seeds(0, 9).len(), 0);
}
