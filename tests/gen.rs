use flow_solver::gen::{random_fill, GenFlow};
use flow_solver::{solve_board, SolverConfig};

#[test]
fn two_rows_become_two_colors() {
    let mut g = GenFlow::new(2, 2, false);
    assert_eq!(g.len(), 4);
    assert!(!g.solved());
    assert!(g.extend(true, false, true));
    assert!(g.extend(true, false, false));
    assert!(g.extend(true, false, true));
    assert_eq!(g.depth(), 3);
    assert!(g.extend(true, false, false));
    assert!(g.solved());
    assert_eq!(g.get_board(), vec![vec![1, 1], vec![2, 2]]);
}

#[test]
fn generator_refuses_bad_degrees_and_cycles() {
    let mut g = GenFlow::new(2, 2, true);
    // a non-head cell needs two edges
    assert!(!g.extend(false, false, true));
    assert!(!g.extend(true, true, true));
    // an edge leaving the grid
    assert!(g.extend(false, true, true));
    assert!(!g.extend(true, true, false));
    assert!(g.extend(false, true, false));
    // closing the square would be a cycle
    assert!(!g.extend(false, false, true));
    assert_eq!(g.depth(), 2);
    g.undo();
    assert_eq!(g.depth(), 1);
    assert!(g.extend(false, true, false));
    // cell 2 already has its upward edge: alone it would have one incidence
    assert!(!g.extend(false, false, false));
    assert!(g.extend(true, false, false));
    assert!(g.extend(true, false, false));
    assert!(g.solved());
    // the path 2-0-1-3 is one component: both of its heads get color 1
    assert_eq!(g.get_board(), vec![vec![0, 0], vec![1, 1]]);
}

#[test]
fn undo_clears_a_head() {
    let mut g = GenFlow::new(1, 2, false);
    assert!(g.extend(true, false, true));
    assert!(g.extend(true, false, false));
    assert_eq!(g.get_board(), vec![vec![1, 1]]);
    g.undo();
    g.undo();
    assert_eq!(g.depth(), 0);
    assert_eq!(g.get_board(), vec![vec![0, 0]]);
}

#[test]
fn generated_board_is_solvable() {
    let mut g = GenFlow::new(3, 3, true);
    let mut attempts = 0;
    while !random_fill(&mut g) {
        attempts += 1;
        assert!(attempts < 100_000);
    }
    assert!(g.solved());
    let board = g.get_board();
    let labels: Vec<usize> = board.iter().flatten().copied().filter(|&x| x != 0).collect();
    let top = *labels.iter().max().unwrap();
    for color in 1..=top {
        assert_eq!(labels.iter().filter(|&&x| x == color).count(), 2);
    }
    let mut cfg = SolverConfig::default();
    cfg.log_period = None;
    cfg.allow_zigzag = true;
    let res = solve_board(board, &cfg).unwrap();
    assert!(res.solved);
}
