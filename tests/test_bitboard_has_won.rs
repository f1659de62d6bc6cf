use mcc4::{BitState, ConnectFour, InvalidMove, Player};

/// No prefix of this sequence completes a line, though its stones sit where a wrong shift in
/// the win test would see one.
#[test]
fn test_bitboard_has_won_with_moves_332145223344455() {
    let mut game = ConnectFour::new(7, 6).unwrap();
    let moves = [3, 3, 2, 1, 4, 5, 2, 2, 3, 3, 4, 4, 4, 5, 5];
    for move_ in &moves {
        let winner = game.play(*move_).unwrap();
        assert!(winner.is_none());
    }
}

#[test]
fn the_true_winning_move_after_the_regression_sequence_wins() {
    let mut game = ConnectFour::new(7, 6).unwrap();
    let moves = [3, 3, 2, 1, 4, 5, 2, 2, 3, 3, 4, 4, 4, 5, 5];
    for move_ in &moves {
        assert!(game.play(*move_).unwrap().is_none());
    }
    // Player 2 to move: a stone in column 6 completes a falling diagonal.
    assert_eq!(game.current_player(), Player(2));
    assert_eq!(game.play(6).unwrap(), Some(Player(2)));
    assert_eq!(game.winner(), Some(Player(2)));
    assert!(game.has_ended());
}

#[test]
fn new_rejects_boards_that_do_not_fit_the_masks() {
    assert!(ConnectFour::new(7, 6).is_ok());
    assert!(ConnectFour::new(8, 7).is_ok());
    assert!(ConnectFour::new(8, 8).is_err());
    assert!(ConnectFour::new(13, 1).is_err());
    assert!(ConnectFour::new(12, 4).is_ok());
    assert!(ConnectFour::new(12, 5).is_err());
    assert!(ConnectFour::new(1, 63).is_ok());
    assert!(ConnectFour::new(1, 64).is_err());
    assert_eq!(ConnectFour::new(7, 6).unwrap().size(), (7, 6));
}

#[test]
fn play_reports_invalid_column_and_full_column() {
    let mut game = ConnectFour::new(4, 2).unwrap();
    assert_eq!(game.play(4), Err(InvalidMove::InvalidColumn(4)));
    assert_eq!(game.play(1).unwrap(), None);
    assert_eq!(game.play(1).unwrap(), None);
    assert_eq!(game.play(1), Err(InvalidMove::ColumnFull(1)));
    // A refused move changes nothing: player 1 is still to move.
    assert_eq!(game.current_player(), Player(1));
    assert_eq!(game.valid_moves(), vec![0, 2, 3]);
}

#[test]
fn a_column_leaves_the_valid_moves_after_rows_plays() {
    let mut state = BitState::new(7, 6).unwrap();
    for i in 0..6 {
        assert!(state.valid_moves().contains(&2));
        let player = Player(1 + (i % 2) as u8);
        state.play(2, player).unwrap();
    }
    assert_eq!(state.valid_moves(), vec![0, 1, 3, 4, 5, 6]);
    assert_eq!(state.play(2, Player(1)), Err(InvalidMove::ColumnFull(2)));
    let mut buffer = vec![9, 9, 9];
    state.valid_moves_fast(&mut buffer);
    assert_eq!(buffer, vec![0, 1, 3, 4, 5, 6]);
}

#[test]
fn play_then_get_returns_the_player_on_the_landing_row() {
    let mut state = BitState::new(7, 6).unwrap();
    state.play(3, Player(1)).unwrap();
    assert_eq!(state.get(3, 5), Player(1));
    state.play(3, Player(2)).unwrap();
    assert_eq!(state.get(3, 4), Player(2));
    assert_eq!(state.get(3, 5), Player(1));
    for column in 0..7 {
        for row in 0..6 {
            if !(column == 3 && row >= 4) {
                assert_eq!(state.get(column, row), Player(0));
            }
        }
    }
    assert_eq!(
        state.row(5).unwrap(),
        vec![Player(0), Player(0), Player(0), Player(1), Player(0), Player(0), Player(0)]
    );
    assert!(state.row(6).is_none());
}

fn drop_all(state: &mut BitState, moves: &[(usize, u8)]) {
    for &(column, player) in moves {
        state.play(column, Player(player)).unwrap();
    }
}

#[test]
fn four_in_a_column_wins_and_three_do_not() {
    let mut state = BitState::new(7, 6).unwrap();
    drop_all(&mut state, &[(0, 1), (0, 1), (0, 1)]);
    assert!(!state.has_just_won());
    drop_all(&mut state, &[(0, 1)]);
    assert!(state.has_just_won());
}

#[test]
fn four_in_a_row_wins_and_three_do_not() {
    for start in 0..4 {
        let mut state = BitState::new(7, 6).unwrap();
        for k in 0..3 {
            state.play(start + k, Player(2)).unwrap();
            assert!(!state.has_just_won());
        }
        state.play(start + 3, Player(2)).unwrap();
        assert!(state.has_just_won());
    }
}

#[test]
fn four_on_a_rising_diagonal_wins_and_three_do_not() {
    let mut state = BitState::new(7, 6).unwrap();
    drop_all(&mut state, &[(1, 2), (2, 2), (2, 2), (3, 2), (3, 2), (3, 2)]);
    drop_all(&mut state, &[(0, 1), (1, 1), (2, 1)]);
    assert!(!state.has_just_won());
    drop_all(&mut state, &[(3, 1)]);
    assert!(state.has_just_won());
}

#[test]
fn four_on_a_falling_diagonal_wins_and_three_do_not() {
    let mut state = BitState::new(7, 6).unwrap();
    drop_all(&mut state, &[(5, 2), (4, 2), (4, 2), (3, 2), (3, 2), (3, 2)]);
    drop_all(&mut state, &[(6, 1), (5, 1), (4, 1)]);
    assert!(!state.has_just_won());
    drop_all(&mut state, &[(3, 1)]);
    assert!(state.has_just_won());
}

#[test]
fn no_line_wraps_across_columns() {
    // The bottom two cells of column 0 and the top two of column 1 are neighbouring bits
    // but for the sentinel between them: no line.
    let mut state = BitState::new(7, 6).unwrap();
    drop_all(&mut state, &[(0, 2), (0, 2), (0, 1), (0, 1), (0, 1), (0, 1)]);
    assert!(state.has_just_won());
    let mut state = BitState::new(7, 6).unwrap();
    drop_all(&mut state, &[(0, 1), (0, 1), (1, 2), (1, 2), (1, 2), (1, 2), (1, 1), (1, 1)]);
    assert!(!state.has_just_won());
}

#[test]
fn a_full_board_without_a_line_is_a_draw() {
    let moves = [
        5, 3, 2, 3, 1, 5, 3, 1, 0, 1, 4, 1, 2, 5, 0, 5, 6, 6, 2, 0, 6, 0, 4, 2, 3, 0, 3, 4, 2, 3, 2,
        6, 0, 4, 1, 1, 5, 4, 4, 5, 6, 6,
    ];
    let mut game = ConnectFour::new(7, 6).unwrap();
    for (i, move_) in moves.iter().enumerate() {
        assert!(!game.has_ended());
        assert_eq!(game.play(*move_).unwrap(), None, "move {}", i);
    }
    assert!(game.valid_moves().is_empty());
    assert_eq!(game.winner(), None);
    assert!(game.has_ended());
}

#[test]
fn players_alternate_starting_with_player_one() {
    let mut game = ConnectFour::new(7, 6).unwrap();
    assert_eq!(game.current_player(), Player(1));
    assert_eq!(game.other_player(), Player(2));
    game.play(0).unwrap();
    assert_eq!(game.current_player(), Player(2));
    assert_eq!(game.other_player(), Player(1));
    assert_eq!(game.state().get(0, 5), Player(1));
}

#[test]
fn a_column_fills_up_among_plays_into_other_columns() {
    let mut game = ConnectFour::new(5, 3).unwrap();
    for move_ in [1, 0, 1, 4, 3, 1] {
        assert!(game.valid_moves().contains(&1));
        game.play(move_).unwrap();
    }
    assert!(!game.valid_moves().contains(&1));
    assert_eq!(game.valid_moves(), vec![0, 2, 3, 4]);
    assert_eq!(game.play(1), Err(InvalidMove::ColumnFull(1)));
}
