use gradwork_ca::{CACell, CAConfig, CAContext, CAEngine, CANeighborhood, CARule};
use gradwork_ca::{neighbourhoods, rulesets};

fn standard_rule() -> CARule {
    CARule {
        name: "B567_S456".to_string(),
        birth: vec![5, 6, 7],
        survival: vec![4, 5, 6],
    }
}

// Buffer-swap correctness: after one step the dimensions are unchanged and
// every cell matches a sequential reference computation against the
// pre-step grid.
#[test]
fn one_step_matches_reference() {
    let half = 1u64 << 63;
    let before = CAContext::random(4, 4, 4, 7, half);
    let nb = CANeighborhood::moore();
    let rule = standard_rule();

    let mut expected = Vec::new();
    for i in 0..64 {
        let (x, y, z) = before.pos(i);
        let n = before.count_air_neighbors(x, y, z, &nb);
        let next = if before.cell_at(i).is_alive() {
            rule.survival_contains(n)
        } else {
            rule.birth_contains(n)
        };
        expected.push(next);
    }

    let config = CAConfig { neighborhood: nb, rule };
    let mut engine = CAEngine::new(config, before.clone());
    engine.run(1);
    let after = engine.context_ref();
    assert_eq!(after.width(), 4);
    assert_eq!(after.height(), 4);
    assert_eq!(after.depth(), 4);
    for i in 0..64 {
        assert_eq!(after.cell_at(i).is_alive(), expected[i]);
    }
}

#[test]
fn two_single_steps_equal_one_double_run() {
    let half = 1u64 << 63;
    let start = CAContext::random(5, 5, 5, 11, half);
    let mk = |ctx: CAContext| {
        CAEngine::new(
            CAConfig { neighborhood: CANeighborhood::moore(), rule: standard_rule() },
            ctx,
        )
    };
    let mut e1 = mk(start.clone());
    e1.run(2);
    let mut e2 = mk(start);
    e2.run_iteration();
    e2.run_iteration();
    for i in 0..125 {
        assert_eq!(e1.context_ref().cell_at(i).0, e2.context_ref().cell_at(i).0);
    }
}

// Fixed point: an empty rule turns any grid all-solid after one step and
// keeps it all-solid afterwards.
#[test]
fn empty_rule_collapses_to_all_solid() {
    let half = 1u64 << 63;
    let start = CAContext::random(6, 6, 6, 3, half);
    assert!(start.total_air_cells() > 0);
    let empty = CARule { name: "empty".to_string(), birth: vec![], survival: vec![] };
    let mut engine = CAEngine::new(
        CAConfig { neighborhood: CANeighborhood::von_neumann(), rule: empty },
        start,
    );
    engine.run(1);
    assert_eq!(engine.context_ref().total_air_cells(), 0);
    engine.run(4);
    assert_eq!(engine.context_ref().total_air_cells(), 0);
}

#[test]
fn step_writes_only_zero_or_one() {
    let mut start = CAContext::new(3, 3, 3);
    start.set(1, 1, 1, CACell::new(200));
    let rule = CARule { name: "all".to_string(), birth: (0..27).collect(), survival: (0..27).collect() };
    let mut engine = CAEngine::new(
        CAConfig { neighborhood: CANeighborhood::moore(), rule },
        start,
    );
    engine.run_iteration();
    for i in 0..27 {
        let v = engine.context_ref().cell_at(i).0;
        assert!(v == 0 || v == 1);
    }
}

#[test]
fn preset_collections() {
    let nbs = neighbourhoods();
    assert_eq!(nbs.len(), 3);
    assert_eq!(nbs[0].offset_count(), 6);
    assert_eq!(nbs[1].offset_count(), 26);
    assert_eq!(nbs[2].offset_count(), 124);
    assert_eq!(nbs[0].name, "von_neumann");
    assert_eq!(nbs[1].name, "moore");
    assert_eq!(nbs[2].name, "extended_moore");
    let rules = rulesets();
    assert_eq!(rules.len(), 2);
    assert_eq!(rules[0].name, "B567_S456");
    assert_eq!(rules[0].birth, vec![5, 6, 7]);
    assert_eq!(rules[0].survival, vec![4, 5, 6]);
    assert_eq!(rules[1].name, "B678_S567");
    assert_eq!(rules[1].birth, vec![6, 7, 8]);
    assert_eq!(rules[1].survival, vec![5, 6, 7]);
}
