use pips_solver::grid::{GameGrid, GridEntry, GridFile};

fn grid(entries: Vec<(&str, Vec<(u32, u32)>)>, dominoes: Vec<(u8, u8)>) -> GameGrid {
    GameGrid::from_parsed(GridFile {
        grid: entries
            .into_iter()
            .map(|(rule, coords)| GridEntry { rule: rule.to_string(), coords })
            .collect(),
        dominoes,
    })
}

#[test]
fn solve_trivial_two_cells() {
    // Two adjacent cells with a single domino (2,5) and no constraint
    // other than presence.
    let mut g = grid(vec![("x", vec![(0, 0), (1, 0)])], vec![(2, 5)]);
    let sol = g.solve().expect("should solve");
    assert_eq!(sol.len(), 2);
    let vals: Vec<u8> = sol.iter().map(|p| p.1).collect();
    assert!(vals.contains(&2) && vals.contains(&5));
    // Color flag off should yield no ANSI escapes.
    let plain = g.ascii_board(false);
    assert!(!plain.contains("\x1b["));
}

#[test]
fn ascii_color_flag_changes_output() {
    let mut g = grid(vec![("x", vec![(0, 0), (1, 0)])], vec![(1, 1)]);
    g.solve().unwrap();
    let colored = g.ascii_board(true);
    let plain = g.ascii_board(false);
    assert!(colored.contains("\x1b["));
    assert!(!plain.contains("\x1b["));
}

#[test]
fn ascii_empty_grid() {
    let g = grid(vec![], vec![]);
    assert_eq!(g.ascii_board(false), "");
    assert_eq!(g.ascii_board(true), "");
}

#[test]
fn unsolvable_two_cells_equal_rule() {
    // Rule requires equality but only domino (1,2) is available.
    let mut g = grid(vec![("=", vec![(0, 0), (1, 0)])], vec![(1, 2)]);
    assert!(g.solve().is_none());
}

#[test]
fn solve_empty_puzzle_trivially() {
    // No regions, no dominoes: every region is vacuously satisfied and the
    // assignment comes back empty.
    let mut g = grid(vec![], vec![]);
    let sol = g.solve().expect("empty puzzle solves trivially");
    assert_eq!(sol.len(), 0);
}

#[test]
fn solve_is_deterministic() {
    // The same input solved twice gives the same first-found solution,
    // even when several solutions exist.
    let entries = vec![
        ("x", vec![(0, 0), (1, 0)]),
        ("x", vec![(0, 1), (1, 1)]),
    ];
    let mut a = grid(entries.clone(), vec![(1, 2), (3, 4)]);
    let mut b = grid(entries, vec![(1, 2), (3, 4)]);
    let sa = a.solve().expect("solvable");
    let sb = b.solve().expect("solvable");
    assert_eq!(sa, sb);
}

#[test]
fn solve_respects_equal_rule_with_double() {
    // The equal rule is solvable with a double domino.
    let mut g = grid(vec![("=", vec![(0, 0), (1, 0)])], vec![(1, 2), (3, 3)]);
    let sol = g.solve().expect("double satisfies equality");
    let vals: Vec<u8> = sol.iter().map(|p| p.1).collect();
    assert_eq!(vals, vec![3, 3]);
}

#[test]
fn solve_sum_region_picks_matching_orientation() {
    // Two regions of one cell each: left must be 5, right must be 2, so
    // only one orientation of the (2,5) domino fits.
    let mut g = grid(
        vec![("5", vec![(0, 0)]), ("2", vec![(1, 0)])],
        vec![(2, 5)],
    );
    let sol = g.solve().expect("orientation exists");
    let at = |c: (u32, u32)| sol.iter().find(|p| p.0 == c).unwrap().1;
    assert_eq!(at((0, 0)), 5);
    assert_eq!(at((1, 0)), 2);
}

#[test]
fn isolated_cell_is_unsolvable() {
    // The middle position is missing, so the left cell has no open
    // neighbour and no domino can ever cover it.
    let mut g = grid(vec![("x", vec![(0, 0), (2, 0), (3, 0)])], vec![(1, 1), (2, 2)]);
    assert!(g.solve().is_none());
}

#[test]
fn solve_restores_state_after_failure() {
    // An exhausted search leaves the inventory and board untouched: the
    // same grid can render an all-empty board afterwards.
    let mut g = grid(vec![("=", vec![(0, 0), (1, 0)])], vec![(1, 2)]);
    assert!(g.solve().is_none());
    assert_eq!(g.ascii_board(false), ". . \n");
}

#[test]
fn ascii_exact_layout_bottom_origin() {
    // A solved vertical domino renders with the origin at the bottom left:
    // the cell at y=1 appears on the first line.
    let mut g = grid(vec![("x", vec![(0, 0), (0, 1)])], vec![(2, 5)]);
    g.solve().expect("should solve");
    let plain = g.ascii_board(false);
    let lines: Vec<&str> = plain.lines().collect();
    assert_eq!(lines.len(), 2);
    // Anchor (0,0) is filled first with the first orientation's first pip.
    assert_eq!(plain, "5 \n2 \n");
}

#[test]
fn ascii_gap_cells_are_blank() {
    // A position inside the bounding box that belongs to no region prints
    // as blanks, an unfilled cell as a dot.
    let g = grid(vec![("x", vec![(0, 0), (2, 0)])], vec![]);
    assert_eq!(g.ascii_board(false), ".   . \n");
}

#[test]
fn color_and_plain_layout_match() {
    // Stripping the color escapes from the colored board gives exactly the
    // plain board.
    let mut g = grid(
        vec![("x", vec![(0, 0), (1, 0)]), ("x", vec![(0, 1), (1, 1)])],
        vec![(1, 2), (3, 4)],
    );
    g.solve().expect("should solve");
    let plain = g.ascii_board(false);
    let colored = g.ascii_board(true);
    let mut stripped = String::new();
    let mut in_escape = false;
    for c in colored.chars() {
        if in_escape {
            if c == 'm' {
                in_escape = false;
            }
        } else if c == '\x1b' {
            in_escape = true;
        } else {
            stripped.push(c);
        }
    }
    assert_eq!(stripped, plain);
}

#[test]
fn colored_halves_share_color() {
    // Both halves of one domino carry the same color prefix.
    let mut g = grid(vec![("x", vec![(0, 0), (1, 0)])], vec![(2, 5)]);
    g.solve().expect("should solve");
    let colored = g.ascii_board(true);
    let occurrences = colored.matches("\x1b[1;38;5;196m").count();
    assert_eq!(occurrences, 2);
}
