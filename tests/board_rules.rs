use connect_four::board::{Board, MoveError, FULL_MASK};

fn empty() -> Board {
    Board::from_cells(&vec![0u8; 42])
}

fn play_all(moves: &[u8]) -> Board {
    let mut b = empty();
    for &mv in moves {
        b = b.into_move(mv).unwrap();
    }
    b
}

#[test]
fn full_mask_covers_playable_cells() {
    let mut expected: u64 = 0;
    for j in 0..7 {
        expected |= 0b11_1111u64 << (7 * j);
    }
    assert_eq!(FULL_MASK, expected);
    assert_eq!(FULL_MASK, 279258638311359);
}

#[test]
fn empty_board_from_layout() {
    let b = empty();
    assert_eq!(b, Board { position: 0, mask: 0, moves_count: 0 });
    assert_eq!(b.get_legal_moves(), vec![0, 1, 2, 3, 4, 5, 6]);
    assert!(!b.is_draw());
    assert!(!b.is_game_over());
}

#[test]
fn opponent_position_is_xor_and_disjoint() {
    let b = play_all(&[3, 3, 2, 4, 3]);
    let opp = b.get_opponent_position();
    assert_eq!(opp, b.position ^ b.mask);
    assert_eq!(opp & b.position, 0);
    assert_eq!(opp | b.position, b.mask);
}

#[test]
fn first_move_sets_bottom_cell() {
    let b = empty().into_move(3).unwrap();
    assert_eq!(b.mask, 1u64 << 21);
    assert_eq!(b.position, 0);
    assert_eq!(b.moves_count, 1);
    assert_eq!(b.get_opponent_position(), 1u64 << 21);
    let c = b.into_move(3).unwrap();
    assert_eq!(c.mask, (1u64 << 21) | (1u64 << 22));
    assert_eq!(c.position, 1u64 << 21);
}

#[test]
fn stone_count_matches_mask() {
    let moves = [0u8, 6, 3, 3, 2, 5, 5, 1, 4, 4, 4, 0];
    let mut b = empty();
    for &mv in moves.iter() {
        b = b.into_move(mv).unwrap();
        assert_eq!(b.mask.count_ones(), b.moves_count as u32);
    }
    assert_eq!(b.moves_count, 12);
}

#[test]
fn mask_grows_along_legal_moves() {
    let mut b = empty();
    let mut count = 0;
    'outer: loop {
        for mv in 0..7u8 {
            if b.is_move_legal(mv) {
                let n = b.into_move(mv).unwrap();
                assert!(n.mask > b.mask);
                assert_eq!(n.mask & b.mask, b.mask);
                assert!(n.mask <= FULL_MASK);
                b = n;
                count += 1;
                continue 'outer;
            }
        }
        break;
    }
    assert_eq!(count, 42);
    assert_eq!(b.mask, FULL_MASK);
    assert!(b.is_draw());
}

#[test]
fn move_errors() {
    let b = empty();
    assert_eq!(b.into_move(7), Err(MoveError::OutOfRange));
    assert_eq!(b.into_move(200), Err(MoveError::OutOfRange));
    let full_column = play_all(&[2, 2, 2, 2, 2, 2]);
    assert!(!full_column.is_move_legal(2));
    assert_eq!(full_column.into_move(2), Err(MoveError::ColumnFull));
    assert_eq!(full_column.get_legal_moves(), vec![0, 1, 3, 4, 5, 6]);
    assert!(!b.is_move_legal(7));
}

#[test]
fn four_connected_each_direction() {
    // vertical: column 0, rows 0..3
    assert!(Board::are_four_connected(0b1111));
    // horizontal: row 0, columns 0..3
    assert!(Board::are_four_connected(1 | 1 << 7 | 1 << 14 | 1 << 21));
    // diagonal rising to the right: (0,0) (1,1) (2,2) (3,3)
    assert!(Board::are_four_connected(1 | 1 << 8 | 1 << 16 | 1 << 24));
    // diagonal falling to the right: (0,3) (1,2) (2,1) (3,0)
    assert!(Board::are_four_connected(1 << 3 | 1 << 9 | 1 << 15 | 1 << 21));
}

#[test]
fn three_connected_is_not_four() {
    assert!(!Board::are_four_connected(0));
    assert!(!Board::are_four_connected(0b111));
    assert!(!Board::are_four_connected(1 | 1 << 7 | 1 << 14));
    assert!(!Board::are_four_connected(1 | 1 << 8 | 1 << 16));
    assert!(!Board::are_four_connected(1 << 3 | 1 << 9 | 1 << 15));
    // rows 3..5 of column 0 and row 0 of column 1 are not a line: the sentinel separates them
    assert!(!Board::are_four_connected(1 << 3 | 1 << 4 | 1 << 5 | 1 << 7));
    // two broken lines
    assert!(!Board::are_four_connected(0b1101 | 1 << 7 | 1 << 14 | 1 << 28));
}

#[test]
fn draw_exactly_when_full() {
    let mut b = empty();
    assert!(!b.is_draw());
    b.mask = FULL_MASK & !1;
    assert!(!b.is_draw());
    b.mask = FULL_MASK;
    assert!(b.is_draw());
}

#[test]
fn layout_round_trip() {
    let mut cells = vec![0u8; 42];
    cells[35] = 1;
    cells[36] = 2;
    cells[28] = 1;
    cells[41] = 2;
    cells[34] = 2;
    let b = Board::from_cells(&cells);
    assert_eq!(b.to_cells(), cells);
    assert_eq!(b.moves_count, 5);
    assert_eq!(b.mask, 1 | 1 << 1 | 1 << 7 | 1 << 42 | 1 << 43);
    assert_eq!(b.position, 1 | 1 << 1);
}

#[test]
fn layout_of_played_game() {
    let b = play_all(&[3, 3, 4]);
    let cells = b.to_cells();
    let mut expected = vec![0u8; 42];
    // side to move is the second player: its stone at (row 0, col 3) reads 1
    expected[35 + 3] = 2;
    expected[28 + 3] = 1;
    expected[35 + 4] = 2;
    assert_eq!(cells, expected);
    assert_eq!(Board::from_cells(&cells), b);
}

#[test]
fn vertical_win_in_column_three() {
    let mut b = empty();
    let moves = [3u8, 0, 3, 0, 3, 0];
    for &mv in moves.iter() {
        b = b.into_move(mv).unwrap();
        assert!(!b.is_game_over());
    }
    b = b.into_move(3).unwrap();
    assert!(b.is_game_over());
    assert!(Board::are_four_connected(b.get_opponent_position()));
    assert!(b.is_player_win());
}

#[test]
fn alternating_columns_zero_and_one() {
    let moves = [0u8, 1, 0, 1, 0, 1, 0];
    let mut b = empty();
    for (k, &mv) in moves.iter().enumerate() {
        b = b.into_move(mv).unwrap();
        assert_eq!(b.is_game_over(), k == 6);
    }
    assert!(b.is_player_win());
    assert!(!Board::are_four_connected(b.position));
}

#[test]
fn diagonal_win() {
    let moves = [0u8, 1, 1, 2, 2, 3, 2, 3, 3, 6];
    let mut b = empty();
    for &mv in moves.iter() {
        b = b.into_move(mv).unwrap();
        assert!(!b.is_game_over());
    }
    b = b.into_move(3).unwrap();
    assert!(b.is_game_over());
    assert!(b.is_player_win());
    assert_eq!(b.moves_count, 11);
}

#[test]
fn even_count_win_is_not_player_win() {
    let moves = [6u8, 0, 1, 0, 1, 0, 1, 0];
    let mut b = empty();
    for &mv in moves.iter() {
        b = b.into_move(mv).unwrap();
    }
    assert!(b.is_game_over());
    assert!(!b.is_player_win());
}

#[test]
fn full_board_without_line_is_draw() {
    let rows = ["1122112", "2211221", "1122112", "2211221", "1122112", "2211221"];
    let cells: Vec<u8> = rows.iter().flat_map(|r| r.bytes().map(|c| c - b'0')).collect();
    let b = Board::from_cells(&cells);
    assert_eq!(b.moves_count, 42);
    assert!(b.is_draw());
    assert!(!b.is_game_over());
    assert!(b.get_legal_moves().is_empty());
}

#[test]
fn stray_high_bit_is_not_draw() {
    let b = Board { position: 0, mask: 1u64 << 63, moves_count: 1 };
    assert!(!b.is_draw());
    let c = Board { position: 0, mask: FULL_MASK | 1u64 << 63, moves_count: 43 };
    assert!(!c.is_draw());
}

#[test]
fn stone_count_of_layout() {
    let rows = ["0000000", "0000000", "0000000", "0002000", "0012100", "2211221"];
    let cells: Vec<u8> = rows.iter().flat_map(|r| r.bytes().map(|c| c - b'0')).collect();
    let b = Board::from_cells(&cells);
    assert_eq!(b.moves_count, 11);
    assert_eq!(b.mask.count_ones(), 11);
    assert_eq!(b.to_cells(), cells);
}
