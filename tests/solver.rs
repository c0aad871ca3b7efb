use flow_solver::search::SearchConfig;
use flow_solver::search::SearchFlow;
use flow_solver::{ccw, solve_board, BoardError, SolverConfig};

fn quiet() -> SolverConfig {
    let mut cfg = SolverConfig::default();
    cfg.log_period = None;
    cfg
}

fn cfg_all() -> SearchConfig {
    SearchConfig { allow_zigzag: false, use_vcut: false, use_diagonals: true }
}

#[test]
fn diagonal_pair_on_two_by_two_has_no_cover() {
    // Every empty cell needs both its edges, which gives each head two: no solution.
    let res = solve_board(vec![vec![1, 0], vec![0, 1]], &quiet()).unwrap();
    assert!(!res.solved);
    assert!(res.edges.is_none());
    assert!(res.colors.is_none());
}

#[test]
fn crossing_colors_have_no_solution() {
    let res = solve_board(vec![vec![1, 2], vec![2, 1]], &quiet()).unwrap();
    assert!(!res.solved);
    assert!(res.edges.is_none());
    assert!(res.colors.is_none());
    assert!(res.nodes >= 1);
}

#[test]
fn single_row_solves_straight() {
    for n in 2..8usize {
        let mut row = vec![0usize; n];
        row[0] = 1;
        row[n - 1] = 1;
        let res = solve_board(vec![row], &quiet()).unwrap();
        assert!(res.solved);
        let e = res.edges.unwrap();
        assert_eq!((e.h, e.w), (1, n));
        for u in 0..n {
            assert!(!e.down[u]);
            assert_eq!(e.right[u], u + 1 < n);
        }
        assert_eq!(res.colors.unwrap(), vec![1usize; n]);
        // one visit per depth, no backtracking
        assert_eq!(res.nodes, n + 1);
    }
}

#[test]
fn table_option_never_changes_the_answer() {
    let boards = vec![
        vec![vec![1, 1], vec![2, 2]],
        vec![vec![1, 2, 2], vec![1, 3, 3]],
        vec![vec![1, 2], vec![1, 2]],
    ];
    for b in boards {
        let mut with_table = quiet();
        with_table.use_table = true;
        let a = solve_board(b.clone(), &quiet()).unwrap();
        let t = solve_board(b, &with_table).unwrap();
        assert!(a.solved);
        assert_eq!(a.solved, t.solved);
        assert_eq!(a.nodes, t.nodes);
        let (ea, et) = (a.edges.unwrap(), t.edges.unwrap());
        assert_eq!(ea.down, et.down);
        assert_eq!(ea.right, et.right);
        assert_eq!(a.colors, t.colors);
    }
}

#[test]
fn four_turns_give_back_the_board() {
    let b = vec![vec![1, 0, 2], vec![0, 3, 0]];
    let r1 = ccw(&b);
    assert_eq!(r1, vec![vec![2, 0], vec![0, 3], vec![1, 0]]);
    let r4 = ccw(&ccw(&ccw(&r1)));
    assert_eq!(r4, b);
}

#[test]
fn rotation_turns_the_board_before_solving() {
    let mut cfg = quiet();
    cfg.rotation = 1;
    let res = solve_board(vec![vec![1, 0, 1]], &cfg).unwrap();
    assert!(res.solved);
    let e = res.edges.unwrap();
    assert_eq!((e.h, e.w), (3, 1));
    assert_eq!(e.down, vec![true, true, false]);
    assert_eq!(e.right, vec![false, false, false]);
}

#[test]
fn malformed_boards_are_rejected() {
    assert_eq!(solve_board(vec![], &quiet()).unwrap_err(), BoardError::Empty);
    assert_eq!(solve_board(vec![vec![]], &quiet()).unwrap_err(), BoardError::Empty);
    assert_eq!(solve_board(vec![vec![1, 0], vec![1]], &quiet()).unwrap_err(), BoardError::Ragged);
    assert_eq!(
        SearchFlow::from_with_config(&vec![vec![1], vec![1, 0]], cfg_all()).err(),
        Some(BoardError::Ragged)
    );
}

#[test]
fn larger_board_solves_with_consistent_degrees() {
    let board = vec![
        vec![1, 0, 0, 2],
        vec![0, 0, 0, 0],
        vec![0, 0, 0, 0],
        vec![1, 0, 0, 2],
    ];
    let mut cfg = quiet();
    cfg.allow_zigzag = true;
    let res = solve_board(board.clone(), &cfg).unwrap();
    assert!(res.solved);
    let e = res.edges.unwrap();
    let (h, w) = (e.h, e.w);
    for u in 0..h * w {
        let up = u >= w && e.down[u - w];
        let left = u % w > 0 && e.right[u - 1];
        let deg = up as usize + left as usize + e.down[u] as usize + e.right[u] as usize;
        let head = board[u / w][u % w] != 0;
        assert_eq!(deg, if head { 1 } else { 2 });
    }
    let colors = res.colors.unwrap();
    for u in 0..h * w {
        assert!(colors[u] == 1 || colors[u] == 2);
    }
}

#[test]
fn extend_then_undo_restores_the_engine() {
    let board = vec![vec![1, 0, 0], vec![0, 0, 1]];
    let mut s = SearchFlow::from_with_config(&board, cfg_all()).unwrap();
    assert_eq!(s.len(), 6);
    assert_eq!(s.depth(), 0);
    let state0 = s.get_state();
    let edges0 = s.edges();
    let colors0 = s.colors();
    // the head at 0 needs exactly one edge
    assert!(!s.extend(false, false));
    assert!(!s.extend(true, true));
    assert_eq!(s.depth(), 0);
    assert!(s.extend(false, true));
    assert_eq!(s.depth(), 1);
    let e1 = s.edges();
    assert!(e1.3[0]);
    assert_eq!(s.get_state()[1], 1);
    s.undo();
    assert_eq!(s.depth(), 0);
    assert_eq!(s.get_state(), state0);
    assert_eq!(s.edges(), edges0);
    assert_eq!(s.colors(), colors0);
}

#[test]
fn state_codes_mark_open_ends() {
    let board = vec![vec![0, 0, 1], vec![0, 0, 1]];
    let s = SearchFlow::from_with_config(&board, cfg_all()).unwrap();
    // lone cells point at themselves, heads carry their color
    assert_eq!(s.get_state(), vec![6, 7, 1, 9, 10, 1]);
    assert_eq!(s.colors(), vec![0, 0, 1, 0, 0, 1]);
    assert!(!s.solved());
}

#[test]
fn feasibility_check_accepts_every_state() {
    let board = vec![vec![1, 1]];
    let mut s = SearchFlow::from_with_config(
        &board,
        SearchConfig { allow_zigzag: false, use_vcut: true, use_diagonals: true },
    )
    .unwrap();
    assert!(s.feasible());
    assert!(s.extend(false, true));
    assert!(s.extend(false, false));
    assert!(s.solved());
    assert!(s.feasible());
    assert_eq!(s.colors(), vec![1, 1]);
}

#[test]
fn default_config_values() {
    let c = SolverConfig::default();
    assert_eq!(c.log_period, Some(1_000_000));
    assert_eq!(c.rotation, 0);
    assert!(!c.allow_zigzag);
    assert!(!c.use_table);
    assert!(!c.use_vcut);
    assert!(c.use_diagonals);
}

#[test]
fn solved_heads_keep_their_colors() {
    let board = vec![vec![1, 2, 0], vec![0, 0, 0], vec![1, 0, 2]];
    let mut cfg = quiet();
    cfg.allow_zigzag = true;
    let res = solve_board(board.clone(), &cfg).unwrap();
    assert!(res.solved);
    let colors = res.colors.unwrap();
    for r in 0..3 {
        for c in 0..3 {
            if board[r][c] != 0 {
                assert_eq!(colors[r * 3 + c], board[r][c]);
            }
            assert!(colors[r * 3 + c] != 0);
        }
    }
    for color in 1..3usize {
        let heads = (0..9).filter(|&u| board[u / 3][u % 3] == color).count();
        assert_eq!(heads, 2);
    }
}

#[test]
fn node_count_is_the_states_visited() {
    // start, the refused bare head is not a state, then one state per committed cell
    let res = solve_board(vec![vec![1, 1]], &quiet()).unwrap();
    assert!(res.solved);
    assert_eq!(res.nodes, 3);
    // no solution: the start state and the states behind accepted choices
    let res = solve_board(vec![vec![1, 2]], &quiet()).unwrap();
    assert!(!res.solved);
    assert_eq!(res.nodes, 1);
}

#[test]
fn uncolored_ends_name_each_other() {
    let board = vec![vec![0, 0], vec![0, 0]];
    let cfg = SearchConfig { allow_zigzag: false, use_vcut: false, use_diagonals: false };
    let mut s = SearchFlow::from_with_config(&board, cfg).unwrap();
    assert!(s.extend(true, true));
    // cell 0 is inside the fragment 1-0-2; its ends 1 and 2 point at each other
    let st = s.get_state();
    assert_eq!(st, vec![0, 4 + 2, 4 + 1, 4 + 3]);
    for u in 0..4 {
        if st[u] >= 4 {
            assert_eq!(st[st[u] - 4], 4 + u);
        }
    }
}
