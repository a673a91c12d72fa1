use pips_solver::grid::{GameGrid, GridEntry, GridFile, RegionState};

fn one_region(rule: &str, coords: Vec<(u32, u32)>, dominoes: Vec<(u8, u8)>) -> GameGrid {
    GameGrid::from_parsed(GridFile {
        grid: vec![GridEntry { rule: rule.to_string(), coords }],
        dominoes,
    })
}

#[test]
fn region_equal_violated() {
    let mut g = one_region("=", vec![(0, 0), (1, 0)], vec![(1, 1)]);
    g.set_cell((0, 0), 1);
    g.set_cell((1, 0), 2);
    assert!(matches!(g.region_state(0), RegionState::Violated));
}

#[test]
fn region_sum_variants() {
    // sum > target
    let mut g = one_region("3", vec![(0, 0), (1, 0)], vec![]);
    g.set_cell((0, 0), 2);
    g.set_cell((1, 0), 2);
    assert!(matches!(g.region_state(0), RegionState::Violated));
    // max_possible < target
    let mut g2 = one_region("8", vec![(0, 0), (1, 0)], vec![]);
    g2.set_cell((0, 0), 1); // one empty cell left => max achievable 7 < 8
    assert!(matches!(g2.region_state(0), RegionState::Violated));
    // satisfied final
    let mut g3 = one_region("5", vec![(0, 0), (1, 0)], vec![]);
    g3.set_cell((0, 0), 2);
    g3.set_cell((1, 0), 3);
    assert!(matches!(g3.region_state(0), RegionState::Satisfied));
}

#[test]
fn region_greater_than_variants() {
    // satisfied
    let mut g = one_region(">3", vec![(0, 0), (1, 0)], vec![]);
    g.set_cell((0, 0), 2);
    g.set_cell((1, 0), 2);
    assert!(matches!(g.region_state(0), RegionState::Satisfied));
    // boundary violated final (sum == k)
    let mut g2 = one_region(">3", vec![(0, 0), (1, 0)], vec![]);
    g2.set_cell((0, 0), 1);
    g2.set_cell((1, 0), 2);
    assert!(matches!(g2.region_state(0), RegionState::Violated));
    // max_possible <= k early violation
    let mut g3 = one_region(">8", vec![(0, 0), (1, 0)], vec![]);
    g3.set_cell((0, 0), 2); // max achievable 8
    assert!(matches!(g3.region_state(0), RegionState::Violated));
}

#[test]
fn region_less_than_variants() {
    // satisfied final (sum < k)
    let mut g = one_region("<5", vec![(0, 0), (1, 0)], vec![]);
    g.set_cell((0, 0), 2);
    g.set_cell((1, 0), 2);
    assert!(matches!(g.region_state(0), RegionState::Satisfied));
    // violated sum >= k
    let mut g2 = one_region("<4", vec![(0, 0), (1, 0)], vec![]);
    g2.set_cell((0, 0), 2);
    g2.set_cell((1, 0), 2);
    assert!(matches!(g2.region_state(0), RegionState::Violated));
}

#[test]
fn region_unconstrained_never_violated() {
    let mut g = one_region("x", vec![(0, 0), (1, 0)], vec![]);
    assert!(matches!(g.region_state(0), RegionState::Incomplete));
    g.set_cell((0, 0), 6);
    assert!(matches!(g.region_state(0), RegionState::Incomplete));
    g.set_cell((1, 0), 0);
    assert!(matches!(g.region_state(0), RegionState::Satisfied));
}

#[test]
fn region_unknown_rule_acts_unconstrained() {
    let mut g = one_region("?!", vec![(0, 0)], vec![]);
    assert!(matches!(g.region_state(0), RegionState::Incomplete));
    g.set_cell((0, 0), 3);
    assert!(matches!(g.region_state(0), RegionState::Satisfied));
}

#[test]
fn region_equal_incomplete_with_single_value() {
    // A single assigned value gives no basis to violate equality.
    let mut g = one_region("=", vec![(0, 0), (1, 0), (2, 0)], vec![]);
    g.set_cell((1, 0), 4);
    assert!(matches!(g.region_state(0), RegionState::Incomplete));
    g.set_cell((0, 0), 4);
    assert!(matches!(g.region_state(0), RegionState::Incomplete));
    g.set_cell((2, 0), 4);
    assert!(matches!(g.region_state(0), RegionState::Satisfied));
}

#[test]
fn region_sum_exact_boundary() {
    // max achievable exactly reaches the target: still incomplete, not violated.
    let mut g = one_region("7", vec![(0, 0), (1, 0)], vec![]);
    g.set_cell((0, 0), 1); // 1 + 6 == 7
    assert!(matches!(g.region_state(0), RegionState::Incomplete));
}
