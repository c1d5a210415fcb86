use connect_four::board::Board;
use connect_four::search::{RolloutStep, SelectStep, Solver, Stats};

fn empty() -> Board {
    Board::from_cells(&vec![0u8; 42])
}

/// Only column `free` has room; the other columns are full of a line-free pattern.
fn one_free_column(free: usize) -> Board {
    let rows = ["1122112", "2211221", "1122112", "2211221", "1122112", "2211221"];
    let mut cells: Vec<u8> = rows.iter().flat_map(|r| r.bytes().map(|c| c - b'0')).collect();
    cells[free] = 0;
    Board::from_cells(&cells)
}

#[test]
fn stats_default_is_zero() {
    let s = Stats::default();
    assert_eq!(s, Stats { wins_half: 0, count: 0 });
}

#[test]
fn reset_registers_root_only() {
    let mut solver = Solver::default();
    let root = empty();
    assert_eq!(solver.get(&root), None);
    solver.reset(root);
    assert_eq!(solver.get(&root), Some(Stats { wins_half: 0, count: 0 }));
    assert_eq!(solver.find(&root), Some(0));
    assert_eq!(solver.get(&root.into_move(0).unwrap()), None);
}

#[test]
fn expand_adds_once() {
    let mut solver = Solver::default();
    let root = empty();
    solver.reset(root);
    let child = root.into_move(2).unwrap();
    solver.expand(child);
    assert_eq!(solver.find(&child), Some(1));
    solver.backpropagate(2, &vec![root, child]);
    solver.expand(child);
    assert_eq!(solver.find(&child), Some(1));
    assert_eq!(solver.get(&child), Some(Stats { wins_half: 2, count: 1 }));
}

#[test]
fn backpropagate_counts_each_board_on_path() {
    let mut solver = Solver::default();
    let root = empty();
    solver.reset(root);
    let child = root.into_move(4).unwrap();
    let stranger = root.into_move(5).unwrap();
    solver.expand(child);
    solver.backpropagate(1, &vec![root, child, stranger]);
    solver.backpropagate(2, &vec![root, child]);
    solver.backpropagate(0, &vec![root]);
    assert_eq!(solver.get(&root), Some(Stats { wins_half: 3, count: 3 }));
    assert_eq!(solver.get(&child), Some(Stats { wins_half: 3, count: 2 }));
    assert_eq!(solver.get(&stranger), None);
}

#[test]
fn rollout_of_full_board_is_draw() {
    let rows = ["1122112", "2211221", "1122112", "2211221", "1122112", "2211221"];
    let cells: Vec<u8> = rows.iter().flat_map(|r| r.bytes().map(|c| c - b'0')).collect();
    let b = Board::from_cells(&cells);
    assert_eq!(Solver::rollout(b), 1);
}

#[test]
fn rollout_result_in_range() {
    for _ in 0..50 {
        let r = Solver::rollout(empty());
        assert!(r <= 2);
    }
}

#[test]
fn rollout_forced_win() {
    // column 6 is the only free column; the side to move completes a vertical line there
    let mut cells = vec![0u8; 42];
    let rows = ["1122110", "2211220", "1122110", "2211221", "1122111", "2211221"];
    for (i, r) in rows.iter().enumerate() {
        for (j, c) in r.bytes().enumerate() {
            cells[i * 7 + j] = c - b'0';
        }
    }
    let b = Board::from_cells(&cells);
    assert_eq!(b.get_legal_moves(), vec![6]);
    assert!(!b.is_game_over());
    let after = b.into_move(6).unwrap();
    assert!(Board::are_four_connected(after.get_opponent_position()));
    let expected = if after.moves_count % 2 == 1 { 2 } else { 0 };
    assert_eq!(Solver::rollout(b), expected);
}

#[test]
fn select_step_stops_on_full_board() {
    let rows = ["1122112", "2211221", "1122112", "2211221", "1122112", "2211221"];
    let cells: Vec<u8> = rows.iter().flat_map(|r| r.bytes().map(|c| c - b'0')).collect();
    let b = Board::from_cells(&cells);
    let mut solver = Solver::default();
    solver.reset(b);
    assert!(matches!(solver.select_step(b), SelectStep::Stop));
}

#[test]
fn select_step_finds_unvisited_child() {
    let root = empty();
    let mut solver = Solver::default();
    solver.reset(root);
    for _ in 0..20 {
        match solver.select_step(root) {
            SelectStep::Frontier(child) => {
                assert_ne!(child, root);
                assert_eq!(child.moves_count, 1);
                assert!((0..7u8).any(|mv| root.into_move(mv).unwrap() == child));
                assert_eq!(solver.get(&child), None);
            }
            _ => panic!("expected a frontier child"),
        }
    }
}

#[test]
fn select_step_descends_when_all_children_held() {
    let root = empty();
    let mut solver = Solver::default();
    solver.reset(root);
    for mv in 0..7u8 {
        let child = root.into_move(mv).unwrap();
        solver.expand(child);
        solver.backpropagate(mv as u64 % 3, &vec![root, child]);
    }
    match solver.select_step(root) {
        SelectStep::Descend(children, total) => {
            assert_eq!(total, 7);
            assert_eq!(children.len(), 7);
            for (k, (mv, s)) in children.iter().enumerate() {
                assert_eq!(*mv as usize, k);
                assert_eq!(*s, Stats { wins_half: k as u64 % 3, count: 1 });
            }
        }
        _ => panic!("expected a descent"),
    }
}

#[test]
fn simulate_counts_one_visit() {
    let root = empty();
    let mut solver = Solver::default();
    solver.reset(root);
    let child = root.into_move(3).unwrap();
    solver.simulate(&vec![root, child]);
    let rs = solver.get(&root).unwrap();
    let cs = solver.get(&child).unwrap();
    assert_eq!(rs.count, 1);
    assert_eq!(cs.count, 1);
    assert!(rs.wins_half <= 2);
    assert_eq!(rs.wins_half, cs.wins_half);
}

#[test]
fn best_move_picks_highest_average() {
    let root = empty();
    let mut solver = Solver::default();
    solver.reset(root);
    let results = [(1u8, 1u64, 2u64), (2, 3, 2), (4, 5, 3), (5, 2, 1)];
    for &(mv, wins, visits) in results.iter() {
        let child = root.into_move(mv).unwrap();
        solver.expand(child);
        for v in 0..visits {
            solver.backpropagate(if v < wins / visits { 2 } else { wins % 2 }, &vec![child]);
        }
    }
    // averages in half points: move 1 -> 1/2, move 2 -> 3/2, move 4 -> 5/3, move 5 -> 2/1
    assert_eq!(solver.get(&root.into_move(5).unwrap()), Some(Stats { wins_half: 2, count: 1 }));
    assert_eq!(solver.best_move(root), 5);
}

#[test]
fn best_move_ties_keep_first() {
    let root = empty();
    let mut solver = Solver::default();
    solver.reset(root);
    for mv in [2u8, 4] {
        let child = root.into_move(mv).unwrap();
        solver.expand(child);
        solver.backpropagate(1, &vec![child]);
    }
    assert_eq!(solver.best_move(root), 2);
}

#[test]
fn best_move_defaults_to_zero() {
    let root = empty();
    let mut solver = Solver::default();
    solver.reset(root);
    let child = root.into_move(6).unwrap();
    solver.expand(child);
    solver.backpropagate(0, &vec![child]);
    assert_eq!(solver.best_move(root), 0);
}

#[test]
fn single_legal_move_is_chosen() {
    let root = one_free_column(3);
    assert_eq!(root.get_legal_moves(), vec![3]);
    let mut solver = Solver::default();
    solver.reset(root);
    let child = root.into_move(3).unwrap();
    solver.expand(child);
    solver.backpropagate(1, &vec![root, child]);
    assert_eq!(solver.best_move(root), 3);
}

#[test]
fn single_legal_move_zero_is_chosen_without_statistics() {
    let root = one_free_column(0);
    assert_eq!(root.get_legal_moves(), vec![0]);
    let mut solver = Solver::default();
    solver.reset(root);
    assert_eq!(solver.best_move(root), 0);
}

#[test]
fn rollout_step_continues_without_line() {
    let b = empty();
    let step = Solver::rollout_step(b, 2);
    assert_eq!(step, RolloutStep::Continue(b.into_move(2).unwrap()));
}

#[test]
fn rollout_step_scores_a_line_by_parity() {
    // seven moves: the first player's fourth stone in column 0, stone count odd
    let mut b = empty();
    for &mv in [0u8, 1, 0, 1, 0, 1].iter() {
        b = b.into_move(mv).unwrap();
    }
    assert_eq!(Solver::rollout_step(b, 0), RolloutStep::Finished(2));
    // eight moves: the second player's fourth stone in column 1, stone count even
    let mut c = empty();
    for &mv in [6u8, 1, 0, 1, 0, 1, 0].iter() {
        c = c.into_move(mv).unwrap();
    }
    assert_eq!(Solver::rollout_step(c, 1), RolloutStep::Finished(0));
}

#[test]
fn keep_searching_checks_clock_every_250_rounds() {
    assert!(Solver::keep_searching(1, false));
    assert!(Solver::keep_searching(249, true));
    assert!(Solver::keep_searching(250, false));
    assert!(!Solver::keep_searching(250, true));
    assert!(!Solver::keep_searching(500, true));
    assert!(Solver::keep_searching(501, true));
}

#[test]
fn chosen_move_single_free_column_without_statistics() {
    // full except the top cell of column 6, no four in a line
    let root = Board { position: 54532233173420, mask: 138521149956031, moves_count: 41 };
    assert_eq!(root.get_legal_moves(), vec![6]);
    assert!(!root.is_game_over());
    let mut solver = Solver::default();
    solver.reset(root);
    assert_eq!(solver.best_move(root), 0);
    assert_eq!(solver.chosen_move(root), 6);
    let child = root.into_move(6).unwrap();
    solver.simulate(&vec![root, child]);
    assert_eq!(solver.chosen_move(root), 6);
}

#[test]
fn chosen_move_replaces_full_default_column() {
    let mut b = empty();
    for _ in 0..6 {
        b = b.into_move(0).unwrap();
    }
    assert!(!b.is_move_legal(0));
    let mut solver = Solver::default();
    solver.reset(b);
    assert_eq!(solver.best_move(b), 0);
    assert_eq!(solver.chosen_move(b), 1);
}

#[test]
fn chosen_move_follows_best_average() {
    let root = empty();
    let mut solver = Solver::default();
    solver.reset(root);
    let child = root.into_move(4).unwrap();
    solver.expand(child);
    solver.backpropagate(2, &vec![root, child]);
    assert_eq!(solver.chosen_move(root), 4);
}

#[test]
fn rollout_of_last_free_cell_is_draw() {
    let root = Board { position: 54532233173420, mask: 138521149956031, moves_count: 41 };
    let after = root.into_move(6).unwrap();
    if !Board::are_four_connected(after.get_opponent_position()) {
        assert_eq!(Solver::rollout(root), 1);
    } else {
        assert_eq!(Solver::rollout(root), if after.moves_count % 2 == 1 { 2 } else { 0 });
    }
}
